//! A segment: a bounded, contiguous offset range of one partition's log, with
//! an in-memory message cache and three on-disk artifacts (log, index, time
//! index) whose formats are defined in [`crate::codec`]. The artifact paths are
//! derived deterministically from the partition path and the 20-digit
//! zero-padded start offset.

use vstd::prelude::*;
use vstd::string::StringExecFns;
use std::sync::Arc;
use crate::cache::{cache_capacity, cache_contents, cache_new, cache_push, cache_to_vec, msg_views};
use crate::config::{config_wf, is_pow2, SegmentConfig};
use crate::codec::{
    decode_messages, decode_time_indexes, encode_message, encode_time_index, owned_views,
    spec_decode_messages, spec_decode_time_indexes, spec_encode_messages,
    spec_encode_time_indexes, lemma_encode_messages_push, lemma_encode_time_indexes_push,
    lemma_decode_messages_count,
};
use crate::disk::Disk;
use crate::error::Error;
use crate::message::{all_sized, lemma_total_size_nonneg, lemma_total_size_push, lemma_total_size_split, message_size, message_sized, total_size, Message, MessageView, TimeIndex};

verus! {

/// The character of one decimal digit.
pub open spec fn dec_char(d: nat) -> char {
    if d == 0 {
        '0'
    } else if d == 1 {
        '1'
    } else if d == 2 {
        '2'
    } else if d == 3 {
        '3'
    } else if d == 4 {
        '4'
    } else if d == 5 {
        '5'
    } else if d == 6 {
        '6'
    } else if d == 7 {
        '7'
    } else if d == 8 {
        '8'
    } else {
        '9'
    }
}

/// Decimal digit characters of `n`, most significant first.
pub open spec fn dec_digits(n: nat) -> Seq<char>
    decreases n,
{
    if n < 10 {
        seq![dec_char(n)]
    } else {
        dec_digits(n / 10).push(dec_char(n % 10))
    }
}

pub open spec fn pow10(k: nat) -> nat
    decreases k,
{
    if k == 0 {
        1nat
    } else {
        10 * pow10((k - 1) as nat)
    }
}

proof fn lemma_dec_digits_len(n: nat, k: nat)
    requires
        n < pow10(k),
        k >= 1,
    ensures
        1 <= dec_digits(n).len() <= k,
    decreases k,
{
    if n < 10 {
    } else {
        assert(pow10(0) == 1);
        assert(pow10(1) == 10);
        if k == 1 {
            assert(false);
        }
        assert(n / 10 < pow10((k - 1) as nat)) by (nonlinear_arith)
            requires
                n < 10 * pow10((k - 1) as nat),
        ;
        lemma_dec_digits_len(n / 10, (k - 1) as nat);
    }
}

/// The 20-digit zero-padded decimal form of an offset.
pub open spec fn padded_offset(n: nat) -> Seq<char> {
    Seq::new((20 - dec_digits(n).len()) as nat, |i: int| '0') + dec_digits(n)
}

pub proof fn lemma_padded_offset_len(n: nat)
    requires
        n <= u64::MAX,
    ensures
        1 <= dec_digits(n).len() <= 20,
        padded_offset(n).len() == 20,
{
    assert(pow10(20) == 100000000000000000000) by {
        reveal_with_fuel(pow10, 21);
    }
    lemma_dec_digits_len(n, 20);
}

/// The path of one on-disk artifact of a segment: the partition directory, a
/// slash, the zero-padded start offset, a dot, and the artifact's extension.
pub open spec fn spec_segment_path(dir: Seq<char>, start: u64, ext: Seq<char>) -> Seq<char> {
    dir + seq!['/'] + padded_offset(start as nat) + seq!['.'] + ext
}

/// The character of one decimal digit.
fn digit_str(d: u64) -> (s: &'static str)
    requires
        d < 10,
    ensures
        s@ == seq![dec_char(d as nat)],
{
    proof {
        reveal_strlit("0");
        reveal_strlit("1");
        reveal_strlit("2");
        reveal_strlit("3");
        reveal_strlit("4");
        reveal_strlit("5");
        reveal_strlit("6");
        reveal_strlit("7");
        reveal_strlit("8");
        reveal_strlit("9");
        assert("0"@ =~= seq!['0']);
        assert("1"@ =~= seq!['1']);
        assert("2"@ =~= seq!['2']);
        assert("3"@ =~= seq!['3']);
        assert("4"@ =~= seq!['4']);
        assert("5"@ =~= seq!['5']);
        assert("6"@ =~= seq!['6']);
        assert("7"@ =~= seq!['7']);
        assert("8"@ =~= seq!['8']);
        assert("9"@ =~= seq!['9']);
    }
    match d {
        0 => "0",
        1 => "1",
        2 => "2",
        3 => "3",
        4 => "4",
        5 => "5",
        6 => "6",
        7 => "7",
        8 => "8",
        _ => "9",
    }
}

/// The digit characters of a least-significant-first digit list, reversed into
/// the usual most-significant-first order.
spec fn rev_chars(d: Seq<u64>) -> Seq<char> {
    Seq::new(d.len(), |i: int| dec_char(d[d.len() - 1 - i] as nat))
}

/// The 20-digit zero-padded decimal form of an offset.
fn padded_offset_string(n: u64) -> (s: String)
    ensures
        s@ == padded_offset(n as nat),
{
    proof {
        lemma_padded_offset_len(n as nat);
    }
    let mut d: Vec<u64> = Vec::new();
    if n == 0 {
        d.push(0);
        proof {
            assert(dec_digits(n as nat) =~= rev_chars(d@));
        }
    } else {
        let mut m = n;
        proof {
            assert(dec_digits(n as nat) =~= dec_digits(m as nat) + rev_chars(d@));
        }
        while m > 0
            invariant
                m > 0 ==> dec_digits(n as nat) == dec_digits(m as nat) + rev_chars(d@),
                m == 0 ==> dec_digits(n as nat) == rev_chars(d@),
                forall|j: int| 0 <= j < d@.len() ==> d@[j] < 10,
            decreases m,
        {
            let ghost d0 = d@;
            let ghost m0 = m as nat;
            let dig = m % 10;
            d.push(dig);
            m = m / 10;
            proof {
                assert(rev_chars(d@) =~= seq![dec_char((m0 % 10) as nat)] + rev_chars(d0));
                if m0 < 10 {
                    assert(dec_digits(m0) == seq![dec_char(m0)]);
                    assert(m0 % 10 == m0);
                    assert(dec_digits(n as nat) =~= rev_chars(d@));
                } else {
                    assert(dec_digits(m0) == dec_digits(m0 / 10).push(dec_char(m0 % 10)));
                    assert(dec_digits(m0) =~= dec_digits(m0 / 10) + seq![dec_char(m0 % 10)]);
                    assert(dec_digits(n as nat) =~= dec_digits(m as nat) + rev_chars(d@));
                }
            }
        }
    }
    proof {
        assert(dec_digits(n as nat) == rev_chars(d@));
        assert(d@.len() == dec_digits(n as nat).len());
    }
    let dlen = d.len();
    let mut s = String::new();
    let mut z: usize = 20 - dlen;
    proof {
        assert(s@ =~= Seq::new(((20 - dlen) - z) as nat, |i: int| '0'));
    }
    while z > 0
        invariant
            z <= 20 - dlen <= 20,
            dlen == d@.len(),
            s@ == Seq::new(((20 - dlen) - z) as nat, |i: int| '0'),
        decreases z,
    {
        let ghost s0 = s@;
        s.append("0");
        z = z - 1;
        proof {
            reveal_strlit("0");
            assert("0"@ =~= seq!['0']);
            assert(s@ =~= Seq::new(((20 - dlen) - z) as nat, |i: int| '0'));
        }
    }
    let mut j = dlen;
    proof {
        assert(rev_chars(d@).take((dlen - j) as int) =~= Seq::<char>::empty());
        assert(s@ =~= Seq::new((20 - dlen) as nat, |i: int| '0') + rev_chars(d@).take(
            (dlen - j) as int,
        ));
    }
    while j > 0
        invariant
            j <= dlen,
            dlen == d@.len(),
            forall|t: int| 0 <= t < d@.len() ==> d@[t] < 10,
            s@ == Seq::new((20 - dlen) as nat, |i: int| '0') + rev_chars(d@).take(
                (dlen - j) as int,
            ),
        decreases j,
    {
        j = j - 1;
        let ds = digit_str(d[j]);
        s.append(ds);
        proof {
            assert(rev_chars(d@)[(dlen - 1 - j) as int] == dec_char(d@[j as int] as nat));
            assert(rev_chars(d@).take((dlen - j) as int) =~= rev_chars(d@).take(
                (dlen - 1 - j) as int,
            ).push(dec_char(d@[j as int] as nat)));
            assert(s@ =~= Seq::new((20 - dlen) as nat, |i: int| '0') + rev_chars(d@).take(
                (dlen - j) as int,
            ));
        }
    }
    proof {
        assert(rev_chars(d@).take(dlen as int) =~= rev_chars(d@));
        assert(s@ =~= padded_offset(n as nat));
    }
    s
}

/// Builds the path of one on-disk artifact.
fn build_path(dir: &str, start: u64, ext: &str) -> (s: String)
    ensures
        s@ == spec_segment_path(dir@, start, ext@),
{
    let mut s = String::from_str(dir);
    s.append("/");
    let pad = padded_offset_string(start);
    s.append(pad.as_str());
    s.append(".");
    s.append(ext);
    proof {
        reveal_strlit("/");
        reveal_strlit(".");
        assert("/"@ =~= seq!['/']);
        assert("."@ =~= seq!['.']);
        assert(s@ =~= spec_segment_path(dir@, start, ext@));
    }
    s
}

/// A bounded, ordered run of messages for one partition.
pub struct Segment {
    pub partition_id: u32,
    pub start_offset: u64,
    pub current_offset: u64,
    pub end_offset: u64,
    pub partition_path: String,
    pub index_path: String,
    pub log_path: String,
    pub time_index_path: String,
    pub messages: ringbuffer::AllocRingBuffer<Arc<Message>>,
    pub unsaved_messages_count: u32,
    pub next_saved_message_index: u32,
    pub current_size_bytes: u32,
    pub saved_bytes: u32,
    pub should_increment_offset: bool,
    pub config: SegmentConfig,
    pub time_indexes: Vec<TimeIndex>,
}

impl Segment {
    /// The messages the in-memory cache holds, oldest first.
    pub open spec fn cached(self) -> Seq<MessageView> {
        cache_contents(self.messages)
    }

    /// Well-formed segment state: the cache was created with the configured
    /// capacity and holds a contiguous ascending run of offsets that ends at
    /// `current_offset` and never reaches below `start_offset`; a segment that
    /// has not yet assigned any offset still sits at its start offset with an
    /// empty cache; the three artifact paths are pairwise distinct.
    pub open spec fn wf(self) -> bool {
        &&& is_pow2(self.config.messages_buffer as nat)
        &&& cache_capacity(self.messages) == self.config.messages_buffer as nat
        &&& self.cached().len() <= cache_capacity(self.messages)
        &&& self.start_offset <= self.current_offset
        &&& (forall|i: int|
            0 <= i < self.cached().len() ==> (#[trigger] self.cached()[i]).offset
                == self.current_offset - (self.cached().len() - 1 - i))
        &&& (self.cached().len() > 0 ==> self.cached()[0].offset >= self.start_offset)
        &&& (!self.should_increment_offset ==> self.current_offset == self.start_offset
            && self.cached().len() == 0 && self.current_size_bytes == 0)
        &&& self.unsaved_messages_count <= self.cached().len()
        &&& self.log_path@ != self.index_path@
        &&& self.log_path@ != self.time_index_path@
        &&& self.index_path@ != self.time_index_path@
    }

    /// A segment is full once its byte size has reached the configured
    /// maximum; the owning partition must then roll over into a new segment.
    pub open spec fn spec_is_full(self) -> bool {
        self.current_size_bytes >= self.config.size_bytes
    }

    pub fn is_full(&self) -> (r: bool)
        ensures
            r == self.spec_is_full(),
    {
        self.current_size_bytes >= self.config.size_bytes
    }

    /// Creates a segment covering offsets from `start_offset` on: derives the
    /// three artifact paths from the partition path and the zero-padded start
    /// offset, initializes every counter, and allocates the empty bounded
    /// message cache. No file is touched here; `persist` must run before the
    /// segment accepts appends.
    pub fn create(
        partition_id: u32,
        start_offset: u64,
        partition_path: &str,
        config: SegmentConfig,
    ) -> (s: Segment)
        requires
            is_pow2(config.messages_buffer as nat),
        ensures
            s.wf(),
            s.partition_id == partition_id,
            s.start_offset == start_offset,
            s.current_offset == start_offset,
            s.end_offset == 0,
            s.partition_path@ == partition_path@,
            s.log_path@ == spec_segment_path(partition_path@, start_offset, "log"@),
            s.index_path@ == spec_segment_path(partition_path@, start_offset, "index"@),
            s.time_index_path@ == spec_segment_path(partition_path@, start_offset, "timeindex"@),
            s.cached() == Seq::<MessageView>::empty(),
            s.unsaved_messages_count == 0,
            s.next_saved_message_index == 0,
            s.current_size_bytes == 0,
            s.saved_bytes == 0,
            !s.should_increment_offset,
            s.config == config,
            s.time_indexes@ == Seq::<TimeIndex>::empty(),
    {
        let index_path = build_path(partition_path, start_offset, "index");
        let time_index_path = build_path(partition_path, start_offset, "timeindex");
        let log_path = build_path(partition_path, start_offset, "log");
        proof {
            reveal_strlit("log");
            reveal_strlit("index");
            reveal_strlit("timeindex");
            lemma_padded_offset_len(start_offset as nat);
            assert(log_path@.len() == partition_path@.len() + 25);
            assert(index_path@.len() == partition_path@.len() + 27);
            assert(time_index_path@.len() == partition_path@.len() + 31);
        }
        Segment {
            partition_id,
            start_offset,
            current_offset: start_offset,
            end_offset: 0,
            partition_path: String::from_str(partition_path),
            index_path,
            time_index_path,
            log_path,
            messages: cache_new(config.messages_buffer as usize),
            unsaved_messages_count: 0,
            next_saved_message_index: 0,
            current_size_bytes: 0,
            saved_bytes: 0,
            should_increment_offset: false,
            config,
            time_indexes: Vec::new(),
        }
    }
}

/// The run of messages an append call actually stores: offsets are assigned
/// consecutively from `base`; timestamps and payloads are kept as given.
pub open spec fn assigned_run(base: int, msgs: Seq<MessageView>) -> Seq<MessageView> {
    Seq::new(
        msgs.len(),
        |i: int|
            (MessageView { offset: (base + i) as u64, timestamp: msgs[i].timestamp, payload: msgs[i].payload }),
    )
}

/// What a bounded cache of capacity `cap` retains of a run: its last `cap`
/// elements, the older ones having been evicted.
pub open spec fn bounded(cap: nat, s: Seq<MessageView>) -> Seq<MessageView> {
    if s.len() <= cap {
        s
    } else {
        s.skip(s.len() - cap)
    }
}

/// Pushing onto a bounded run drops the oldest element exactly when the run
/// already sits at capacity.
proof fn lemma_bounded_push(cap: nat, s: Seq<MessageView>, m: MessageView)
    requires
        cap > 0,
    ensures
        bounded(cap, s.push(m)) == (if bounded(cap, s).len() == cap {
            bounded(cap, s).drop_first().push(m)
        } else {
            bounded(cap, s).push(m)
        }),
{
    if s.len() < cap {
        assert(bounded(cap, s.push(m)) =~= bounded(cap, s).push(m));
    } else {
        assert(bounded(cap, s).len() == cap);
        assert(bounded(cap, s.push(m)) =~= bounded(cap, s).drop_first().push(m));
    }
}

/// The messages of a run whose offsets lie in `[lo, hi]`, in order.
pub open spec fn msgs_in_range(s: Seq<MessageView>, lo: u64, hi: u64) -> Seq<MessageView> {
    s.filter(|m: MessageView| lo <= m.offset && m.offset <= hi)
}

/// A run whose offsets all lie in `[lo, hi]` filters to itself.
pub proof fn lemma_filter_all(s: Seq<MessageView>, lo: u64, hi: u64)
    requires
        forall|i: int| 0 <= i < s.len() ==> lo <= (#[trigger] s[i]).offset <= hi,
    ensures
        msgs_in_range(s, lo, hi) == s,
    decreases s.len(),
{
    reveal(Seq::filter);
    if s.len() == 0 {
        assert(msgs_in_range(s, lo, hi) =~= s);
    } else {
        assert(forall|i: int| 0 <= i < s.drop_last().len() ==> s.drop_last()[i] == s[i]);
        lemma_filter_all(s.drop_last(), lo, hi);
        assert(lo <= s.last().offset <= hi);
        assert(msgs_in_range(s, lo, hi) =~= s);
    }
}

/// A run whose offsets all fail `[lo, hi]` filters to nothing.
pub proof fn lemma_filter_none(s: Seq<MessageView>, lo: u64, hi: u64)
    requires
        forall|i: int| 0 <= i < s.len() ==> !(lo <= (#[trigger] s[i]).offset <= hi),
    ensures
        msgs_in_range(s, lo, hi) == Seq::<MessageView>::empty(),
    decreases s.len(),
{
    reveal(Seq::filter);
    if s.len() == 0 {
        assert(msgs_in_range(s, lo, hi) =~= Seq::<MessageView>::empty());
    } else {
        assert(forall|i: int| 0 <= i < s.drop_last().len() ==> s.drop_last()[i] == s[i]);
        lemma_filter_none(s.drop_last(), lo, hi);
        assert(!(lo <= s.last().offset <= hi));
    }
}

impl Segment {
    /// The offset the next appended message will get.
    pub open spec fn next_base(self) -> int {
        if self.should_increment_offset {
            self.current_offset + 1
        } else {
            self.current_offset as int
        }
    }

    /// The machine limits an append must respect: assigned offsets stay within
    /// u64 and the byte and message counters stay within u32.
    pub open spec fn can_append(self, msgs: Seq<MessageView>) -> bool {
        &&& all_sized(msgs)
        &&& self.next_base() + msgs.len() <= u64::MAX + 1
        &&& self.current_size_bytes + total_size(msgs) <= u32::MAX
        &&& self.unsaved_messages_count + msgs.len() <= self.config.messages_buffer
    }

    /// Appends the messages, in order, into the in-memory cache, assigning them
    /// the next consecutive offsets and advancing the offset, size and unsaved
    /// counters; one sparse time-index entry is recorded per call. Disk
    /// flushing is deferred to `flush`.
    pub fn append_messages(&mut self, messages: Vec<Message>) -> (r: Result<(), Error>)
        requires
            old(self).wf(),
            old(self).can_append(crate::codec::owned_views(messages@)),
        ensures
            r is Ok,
            final (self).wf(),
            ({
                let views = crate::codec::owned_views(messages@);
                let base = old(self).next_base();
                let k = views.len() as int;
                &&& final (self).cached() == bounded(
                    cache_capacity(old(self).messages),
                    old(self).cached() + assigned_run(base, views),
                )
                &&& final (self).current_offset == (if k == 0 {
                    old(self).current_offset as int
                } else {
                    base + k - 1
                })
                &&& final (self).end_offset == final (self).current_offset
                &&& final (self).should_increment_offset == (old(self).should_increment_offset || k
                    > 0)
                &&& final (self).current_size_bytes == old(self).current_size_bytes + total_size(
                    views,
                )
                &&& final (self).unsaved_messages_count == old(self).unsaved_messages_count + k
                &&& final (self).time_indexes@ == (if k == 0 {
                    old(self).time_indexes@
                } else {
                    old(self).time_indexes@.push(
                        (TimeIndex {
                            timestamp: views[k - 1].timestamp,
                            offset: (base + k - 1) as u64,
                        }),
                    )
                })
                &&& final (self).start_offset == old(self).start_offset
                &&& final (self).partition_id == old(self).partition_id
                &&& final (self).log_path == old(self).log_path
                &&& final (self).index_path == old(self).index_path
                &&& final (self).time_index_path == old(self).time_index_path
                &&& final (self).partition_path == old(self).partition_path
                &&& final (self).config == old(self).config
                &&& final (self).next_saved_message_index == old(self).next_saved_message_index
                &&& final (self).saved_bytes == old(self).saved_bytes
                &&& cache_capacity(final (self).messages) == cache_capacity(old(self).messages)
            }),
            forall|d: Disk| old(self).stored_wf(d) ==> final (self).stored_wf(d),
    {
        let ghost views = crate::codec::owned_views(messages@);
        let ghost base = old(self).next_base();
        let ghost cap = cache_capacity(old(self).messages);
        let n = messages.len();
        let mut i: usize = 0;
        proof {
            assert(views.take(0) =~= Seq::<MessageView>::empty());
            assert(assigned_run(base, views.take(0)) =~= Seq::<MessageView>::empty());
            assert(old(self).cached() + assigned_run(base, views.take(0)) =~= old(self).cached());
            assert(total_size(views.take(0)) == 0);
        }
        while i < n
            invariant
                i <= n,
                n == messages@.len(),
                views == crate::codec::owned_views(messages@),
                base == old(self).next_base(),
                cap == cache_capacity(old(self).messages),
                old(self).wf(),
                old(self).can_append(views),
                cache_capacity(self.messages) == cap,
                self.cached() == bounded(
                    cap,
                    old(self).cached() + assigned_run(base, views.take(i as int)),
                ),
                self.current_offset == (if i == 0 {
                    old(self).current_offset as int
                } else {
                    base + i - 1
                }),
                self.should_increment_offset == (old(self).should_increment_offset || i > 0),
                self.current_size_bytes == old(self).current_size_bytes + total_size(
                    views.take(i as int),
                ),
                self.unsaved_messages_count == old(self).unsaved_messages_count + i,
                self.start_offset == old(self).start_offset,
                self.end_offset == old(self).end_offset,
                self.partition_id == old(self).partition_id,
                self.log_path == old(self).log_path,
                self.index_path == old(self).index_path,
                self.time_index_path == old(self).time_index_path,
                self.partition_path == old(self).partition_path,
                self.config == old(self).config,
                self.next_saved_message_index == old(self).next_saved_message_index,
                self.saved_bytes == old(self).saved_bytes,
                self.time_indexes == old(self).time_indexes,
            decreases n - i,
        {
            proof {
                assert(message_sized(views[i as int]));
                lemma_total_size_split(views, i as int);
                lemma_total_size_split(views, i as int + 1);
                assert(views.take(i as int + 1) =~= views.take(i as int).push(views[i as int]));
                lemma_total_size_push(views.take(i as int), views[i as int]);
                lemma_total_size_nonneg(views.skip(i as int + 1));
            }
            if self.should_increment_offset {
                self.current_offset = self.current_offset + 1;
            } else {
                self.should_increment_offset = true;
            }
            proof {
                assert(self.current_offset == base + i);
            }
            let timestamp = messages[i].timestamp;
            let payload = vstd::slice::slice_to_vec(messages[i].payload.as_slice());
            let sz: u32 = 20 + payload.len() as u32;
            let msg = Message { offset: self.current_offset, timestamp, payload };
            proof {
                assert(msg@ == assigned_run(base, views)[i as int]);
                assert(message_size(msg@) == sz);
            }
            let ghost pre_all = old(self).cached() + assigned_run(base, views.take(i as int));
            cache_push(&mut self.messages, Arc::new(msg));
            proof {
                assert(is_pow2(cap));
                assert(cap > 0);
                lemma_bounded_push(cap, pre_all, msg@);
                assert(pre_all.push(msg@) =~= old(self).cached() + assigned_run(
                    base,
                    views.take(i as int + 1),
                ));
            }
            self.current_size_bytes = self.current_size_bytes + sz;
            self.unsaved_messages_count = self.unsaved_messages_count + 1;
            i = i + 1;
        }
        proof {
            assert(views.take(n as int) =~= views);
        }
        self.end_offset = self.current_offset;
        if n > 0 {
            let last_ts = messages[n - 1].timestamp;
            self.time_indexes.push(TimeIndex { timestamp: last_ts, offset: self.current_offset });
            proof {
                assert(views[n - 1].timestamp == last_ts);
            }
        }
        proof {
            let all = old(self).cached() + assigned_run(base, views);
            let fin_cur = if views.len() == 0 {
                old(self).current_offset as int
            } else {
                base + views.len() - 1
            };
            assert(self.current_offset == fin_cur);
            if old(self).cached().len() > 0 {
                assert(old(self).should_increment_offset);
            }
            assert forall|t: int| 0 <= t < all.len() implies (#[trigger] all[t]).offset == fin_cur
                - (all.len() - 1 - t) by {
                if t < old(self).cached().len() {
                    assert(all[t] == old(self).cached()[t]);
                } else {
                    assert(all[t] == assigned_run(base, views)[t - old(self).cached().len()]);
                }
            }
            assert(forall|t: int|
                0 <= t < all.len() ==> (#[trigger] all[t]).offset >= old(self).start_offset);
            let kept = bounded(cap, all);
            assert(self.cached() == kept);
            let shift = all.len() - kept.len();
            assert(forall|t: int| 0 <= t < kept.len() ==> kept[t] == all[t + shift]);
            assert(forall|t: int|
                0 <= t < kept.len() ==> (#[trigger] kept[t]).offset == fin_cur - (kept.len() - 1
                    - t));
            assert(self.wf());
            assert forall|d: Disk| old(self).stored_wf(d) implies self.stored_wf(d) by {
                let saved = spec_decode_messages(d.file_data(self.log_path@))->Some_0;
                assert(self.stored_count() == old(self).stored_count() + views.len());
                assert(saved.len() + self.unsaved_messages_count == self.stored_count());
                let old_stored = old(self).stored(d);
                let new_stored = self.stored(d);
                assert(self.unsaved() == kept.skip(kept.len() - self.unsaved_messages_count));
                assert(new_stored.len() == saved.len() + self.unsaved_messages_count);
                assert(self.cached().len() <= self.stored_count());
                let delta = new_stored.len() - self.cached().len();
                assert(delta <= saved.len());
                assert forall|t: int| 0 <= t < self.cached().len() implies new_stored[delta + t]
                    == self.cached()[t] by {
                    if delta + t < saved.len() {
                        // a saved message: the cache copy came from the old
                        // cache, which agreed with the old stored run
                        assert(new_stored[delta + t] == saved[delta + t]);
                        assert(kept[t] == all[t + shift]);
                        assert(t + shift < old(self).cached().len());
                        assert(all[t + shift] == old(self).cached()[t + shift]);
                        let old_delta = old_stored.len() - old(self).cached().len();
                        assert(old(self).cached()[t + shift] == old_stored[old_delta + t + shift]);
                        assert(old_delta + t + shift < saved.len());
                        assert(old_stored[old_delta + t + shift] == saved[old_delta + t + shift]);
                        assert(old_delta + t + shift == delta + t);
                    } else {
                        // an unsaved message: the unsaved tail is the cache's
                        // own suffix
                        assert(new_stored[delta + t] == self.unsaved()[delta + t - saved.len()]);
                        assert(self.unsaved()[delta + t - saved.len()] == kept[kept.len()
                            - self.unsaved_messages_count + (delta + t - saved.len())]);
                        assert(kept.len() - self.unsaved_messages_count + (delta + t - saved.len())
                            == t);
                    }
                }
                assert(self.cached() =~= new_stored.skip(delta));
            }
        }
        Ok(())
    }

    /// The elements of `all` whose offsets lie in `[offset, end]`, in order.
    fn filter_range(all: Vec<Arc<Message>>, offset: u64, end: u64) -> (r: Vec<Arc<Message>>)
        ensures
            msg_views(r@) == msgs_in_range(msg_views(all@), offset, end),
    {
        let mut all = all;
        let ghost contents = msg_views(all@);
        let mut out: Vec<Arc<Message>> = Vec::new();
        let ghost mut k: int = 0;
        proof {
            reveal(Seq::filter);
            assert(contents.take(0) =~= Seq::<MessageView>::empty());
            assert(msgs_in_range(contents.take(0), offset, end) =~= Seq::<MessageView>::empty());
            assert(msg_views(out@) =~= Seq::<MessageView>::empty());
            assert(msg_views(all@) =~= contents.skip(0));
        }
        while all.len() > 0
            invariant
                0 <= k <= contents.len(),
                msg_views(all@) == contents.skip(k),
                msg_views(out@) == msgs_in_range(contents.take(k), offset, end),
            decreases all@.len(),
        {
            let ghost all_pre = all@;
            proof {
                assert(all_pre.len() > 0);
                assert(contents.skip(k).len() > 0);
                assert(k < contents.len());
            }
            let a = all.remove(0);
            proof {
                assert(a == all_pre[0]);
                assert(msg_views(all_pre)[0] == all_pre[0]@);
                assert(contents.skip(k)[0] == contents[k]);
                assert(a@ == contents[k]);
                assert(all@ == all_pre.remove(0));
                assert forall|t: int| 0 <= t < all@.len() implies msg_views(all@)[t]
                    == contents.skip(k + 1)[t] by {
                    assert(all@[t] == all_pre[t + 1]);
                    assert(msg_views(all_pre)[t + 1] == all_pre[t + 1]@);
                    assert(msg_views(all@)[t] == all@[t]@);
                }
                assert(msg_views(all@).len() == contents.skip(k + 1).len());
                assert(msg_views(all@) =~= contents.skip(k + 1));
            }
            let keep = offset <= a.offset && a.offset <= end;
            let ghost out_pre = out@;
            if keep {
                out.push(a);
            }
            proof {
                reveal(Seq::filter);
                let taken = contents.take(k + 1);
                assert(taken.drop_last() =~= contents.take(k));
                assert(taken.last() == contents[k]);
                assert(keep == (offset <= contents[k].offset && contents[k].offset <= end));
                if keep {
                    assert(msg_views(out@) =~= msg_views(out_pre).push(a@));
                    assert(msgs_in_range(taken, offset, end) == msgs_in_range(
                        contents.take(k),
                        offset,
                        end,
                    ).push(contents[k]));
                } else {
                    assert(msgs_in_range(taken, offset, end) == msgs_in_range(
                        contents.take(k),
                        offset,
                        end,
                    ));
                }
                k = k + 1;
            }
        }
        proof {
            assert(contents.skip(k).len() == 0);
            assert(k == contents.len());
            assert(contents.take(k) =~= contents);
        }
        out
    }

    /// How many messages this segment holds in all, on disk and in memory.
    pub open spec fn stored_count(self) -> int {
        if self.should_increment_offset {
            self.current_offset - self.start_offset + 1
        } else {
            0
        }
    }

    /// Every message this segment holds: the saved run of its log file
    /// followed by the unsaved tail of its cache. The cache is a read
    /// acceleration buffer, not the durable store.
    pub open spec fn stored(self, disk: Disk) -> Seq<MessageView> {
        spec_decode_messages(disk.file_data(self.log_path@))->Some_0 + self.unsaved()
    }

    /// The segment's memory agrees with its log file: the file decodes to the
    /// saved run of messages starting at the segment's start offset, the
    /// counters line up, and the cache holds a suffix of what is stored.
    pub open spec fn stored_wf(self, disk: Disk) -> bool {
        &&& self.wf()
        &&& disk.wf()
        &&& disk.has(self.log_path@)
        &&& spec_decode_messages(disk.file_data(self.log_path@)) is Some
        &&& ({
            let saved = spec_decode_messages(disk.file_data(self.log_path@))->Some_0;
            &&& saved.len() + self.unsaved_messages_count == self.stored_count()
            &&& (forall|i: int|
                0 <= i < saved.len() ==> (#[trigger] saved[i]).offset == self.start_offset + i)
            &&& self.cached().len() <= self.stored_count()
            &&& self.cached() == self.stored(disk).skip(
                self.stored(disk).len() - self.cached().len(),
            )
        })
    }

    /// What a segment stores is exactly the contiguous ascending run from its
    /// start offset through its last written offset.
    pub proof fn lemma_stored_run(self, disk: Disk)
        requires
            self.stored_wf(disk),
        ensures
            self.stored(disk).len() == self.stored_count(),
            forall|t: int|
                0 <= t < self.stored(disk).len() ==> (#[trigger] self.stored(disk)[t]).offset
                    == self.start_offset + t,
    {
        let saved = spec_decode_messages(disk.file_data(self.log_path@))->Some_0;
        let tail = self.unsaved();
        assert(tail.len() == self.unsaved_messages_count);
        assert(self.stored(disk).len() == self.stored_count());
        assert forall|t: int| 0 <= t < self.stored(disk).len() implies (#[trigger] self.stored(
            disk,
        )[t]).offset == self.start_offset + t by {
            if t < saved.len() {
                assert(self.stored(disk)[t] == saved[t]);
            } else {
                let j = self.cached().len() - self.unsaved_messages_count + (t - saved.len());
                assert(self.stored(disk)[t] == tail[t - saved.len()]);
                assert(tail[t - saved.len()] == self.cached()[j]);
                assert(self.cached()[j].offset == self.current_offset - (self.cached().len() - 1
                    - j));
                assert(self.should_increment_offset);
            }
        }
    }

    /// The messages of this segment whose offsets lie in the requested range
    /// `[offset, offset + count - 1]`. A range the live in-memory cache still
    /// covers is served from it — the fast path; offsets older than the cache
    /// retains are resolved from the log file and joined with the cache's
    /// unsaved tail, so every stored message in range is returned.
    pub fn get_messages(&self, disk: &Disk, offset: u64, count: u32) -> (r: Result<
        Vec<Arc<Message>>,
        Error,
    >)
        requires
            self.stored_wf(*disk),
            count >= 1,
            offset + count - 1 <= u64::MAX,
        ensures
            r matches Ok(v) && msg_views(v@) == msgs_in_range(
                self.stored(*disk),
                offset,
                (offset + count - 1) as u64,
            ),
    {
        broadcast use Seq::filter_distributes_over_add;
        broadcast use Seq::add_empty_left;

        let end = offset + ((count - 1) as u64);
        let ghost stored = self.stored(*disk);
        proof {
            self.lemma_stored_run(*disk);
        }
        let all = cache_to_vec(&self.messages);
        let clen = all.len();
        let mut from_cache = false;
        if clen > 0 {
            proof {
                assert(self.cached()[0].offset == self.current_offset - (clen - 1));
                assert(self.cached()[0].offset >= self.start_offset);
            }
            let first = self.current_offset - ((clen - 1) as u64);
            if offset >= first {
                from_cache = true;
            }
        }
        if from_cache {
            let ghost prefix = stored.take(stored.len() - clen);
            proof {
                assert(stored =~= prefix + self.cached());
                assert(self.cached()[0] == stored[stored.len() - clen]);
                assert forall|t: int| 0 <= t < prefix.len() implies !(offset <= (
                #[trigger] prefix[t]).offset <= end) by {
                    assert(prefix[t] == stored[t]);
                    assert(stored[t].offset == self.start_offset + t);
                    assert(stored[t].offset < self.cached()[0].offset);
                }
                lemma_filter_none(prefix, offset, end);
                assert(msgs_in_range(stored, offset, end) == msgs_in_range(prefix, offset, end)
                    + msgs_in_range(self.cached(), offset, end));
                assert(Seq::<MessageView>::empty() + msgs_in_range(self.cached(), offset, end)
                    =~= msgs_in_range(self.cached(), offset, end));
            }
            let out = Self::filter_range(all, offset, end);
            return Ok(out);
        }
        let log = match disk.read(&self.log_path) {
            Some(v) => v,
            None => {
                proof {
                    assert(false);
                }
                return Err(Error::CannotReadMessage);
            },
        };
        let mut saved = match decode_messages(log.as_slice()) {
            Ok(ms) => ms,
            Err(e) => {
                proof {
                    assert(false);
                }
                return Err(e);
            },
        };
        let ghost saved_views = owned_views(saved@);
        let mut combined: Vec<Arc<Message>> = Vec::new();
        let ghost mut k: int = 0;
        proof {
            assert(msg_views(combined@) =~= saved_views.take(0));
            assert(owned_views(saved@) =~= saved_views.skip(0));
        }
        while saved.len() > 0
            invariant
                0 <= k <= saved_views.len(),
                owned_views(saved@) == saved_views.skip(k),
                msg_views(combined@) == saved_views.take(k),
            decreases saved@.len(),
        {
            let ghost saved_pre = saved@;
            proof {
                assert(saved_pre.len() > 0);
                assert(saved_views.skip(k).len() > 0);
                assert(k < saved_views.len());
            }
            let m = saved.remove(0);
            let ghost comb_pre = combined@;
            combined.push(std::sync::Arc::new(m));
            proof {
                assert(m == saved_pre[0]);
                assert(owned_views(saved_pre)[0] == saved_pre[0]@);
                assert(saved_views.skip(k)[0] == saved_views[k]);
                assert(m@ == saved_views[k]);
                assert forall|t: int| 0 <= t < saved@.len() implies owned_views(saved@)[t]
                    == saved_views.skip(k + 1)[t] by {
                    assert(saved@[t] == saved_pre[t + 1]);
                    assert(owned_views(saved_pre)[t + 1] == saved_pre[t + 1]@);
                    assert(owned_views(saved@)[t] == saved@[t]@);
                }
                assert(owned_views(saved@) =~= saved_views.skip(k + 1));
                assert(msg_views(combined@) =~= msg_views(comb_pre).push(m@));
                assert(saved_views.take(k + 1) =~= saved_views.take(k).push(saved_views[k]));
                k = k + 1;
            }
        }
        proof {
            assert(saved_views.skip(k).len() == 0);
            assert(k == saved_views.len());
            assert(saved_views.take(k) =~= saved_views);
        }
        let mut rest = all;
        let skip_n = clen - (self.unsaved_messages_count as usize);
        let mut dropped: usize = 0;
        proof {
            assert(msg_views(rest@) == self.cached().skip(0));
        }
        while dropped < skip_n
            invariant
                dropped <= skip_n,
                skip_n <= self.cached().len(),
                msg_views(rest@) == self.cached().skip(dropped as int),
            decreases skip_n - dropped,
        {
            let ghost rest_pre = rest@;
            proof {
                assert(self.cached().skip(dropped as int).len() > 0);
            }
            let _dropped_head = rest.remove(0);
            dropped = dropped + 1;
            proof {
                assert(rest@ == rest_pre.remove(0));
                assert forall|t: int| 0 <= t < rest@.len() implies msg_views(rest@)[t]
                    == self.cached().skip(dropped as int)[t] by {
                    assert(rest@[t] == rest_pre[t + 1]);
                    assert(msg_views(rest_pre)[t + 1] == rest_pre[t + 1]@);
                    assert(msg_views(rest@)[t] == rest@[t]@);
                }
                assert(msg_views(rest@) =~= self.cached().skip(dropped as int));
            }
        }
        let ghost tail = self.unsaved();
        let ghost mut j: int = 0;
        proof {
            assert(msg_views(rest@) =~= tail.skip(0));
            assert(msg_views(combined@) =~= saved_views + tail.take(0));
        }
        while rest.len() > 0
            invariant
                0 <= j <= tail.len(),
                msg_views(rest@) == tail.skip(j),
                msg_views(combined@) == saved_views + tail.take(j),
            decreases rest@.len(),
        {
            let ghost rest_pre = rest@;
            proof {
                assert(rest_pre.len() > 0);
                assert(tail.skip(j).len() > 0);
                assert(j < tail.len());
            }
            let a = rest.remove(0);
            let ghost comb_pre = combined@;
            combined.push(a);
            proof {
                assert(a == rest_pre[0]);
                assert(msg_views(rest_pre)[0] == rest_pre[0]@);
                assert(tail.skip(j)[0] == tail[j]);
                assert(a@ == tail[j]);
                assert forall|t: int| 0 <= t < rest@.len() implies msg_views(rest@)[t]
                    == tail.skip(j + 1)[t] by {
                    assert(rest@[t] == rest_pre[t + 1]);
                    assert(msg_views(rest_pre)[t + 1] == rest_pre[t + 1]@);
                    assert(msg_views(rest@)[t] == rest@[t]@);
                }
                assert(msg_views(rest@) =~= tail.skip(j + 1));
                assert(msg_views(combined@) =~= msg_views(comb_pre).push(a@));
                assert(tail.take(j + 1) =~= tail.take(j).push(tail[j]));
                assert(msg_views(combined@) =~= saved_views + tail.take(j + 1));
                j = j + 1;
            }
        }
        proof {
            assert(tail.skip(j).len() == 0);
            assert(j == tail.len());
            assert(tail.take(j) =~= tail);
            assert(msg_views(combined@) == saved_views + tail);
            assert(msg_views(combined@) == stored);
        }
        let out = Self::filter_range(combined, offset, end);
        Ok(out)
    }

    /// Establishes the segment's three on-disk artifacts: the log and
    /// time-index files empty, the index file holding the initial 8-byte
    /// little-endian zero sentinel. This must run before a newly created
    /// segment accepts appends. Creation cannot fail on the in-memory disk
    /// model; `persist_result` maps the outcome of mirroring these steps onto
    /// a real file system, where each can fail.
    pub fn persist(&self, disk: &mut Disk) -> (r: Result<(), Error>)
        requires
            self.wf(),
            old(disk).wf(),
        ensures
            r is Ok,
            final (disk).wf(),
            final (disk).has(self.log_path@),
            final (disk).file_data(self.log_path@) == Seq::<u8>::empty(),
            final (disk).has(self.time_index_path@),
            final (disk).file_data(self.time_index_path@) == Seq::<u8>::empty(),
            final (disk).has(self.index_path@),
            final (disk).file_data(self.index_path@) == index_sentinel(),
            forall|q: Seq<char>|
                q != self.log_path@ && q != self.time_index_path@ && q != self.index_path@
                    ==> #[trigger] final (disk).has(q) == old(disk).has(q) && (old(disk).has(q)
                    ==> final (disk).file_data(q) == old(disk).file_data(q)),
            (self.cached().len() == 0 && self.unsaved_messages_count == 0
                && !self.should_increment_offset) ==> self.stored_wf(*final (disk)),
    {
        disk.create(&self.log_path);
        disk.create(&self.time_index_path);
        disk.create(&self.index_path);
        let sentinel = vstd::bytes::u64_to_le_bytes(0);
        disk.append(&self.index_path, sentinel.as_slice());
        proof {
            assert(Seq::<u8>::empty() + sentinel@ =~= index_sentinel());
            if self.cached().len() == 0 && self.unsaved_messages_count == 0
                && !self.should_increment_offset {
                assert(disk.has(self.log_path@));
                assert(disk.file_data(self.log_path@) == Seq::<u8>::empty());
                assert(spec_decode_messages(disk.file_data(self.log_path@)) == Some(
                    Seq::<MessageView>::empty(),
                ));
                assert(self.unsaved() =~= Seq::<MessageView>::empty());
                assert(self.stored(*disk) =~= Seq::<MessageView>::empty());
                assert(self.cached() =~= self.stored(*disk).skip(0));
                assert(self.stored_wf(*disk));
            }
        }
        Ok(())
    }

    /// Maps the outcome of mirroring `persist` onto a real file system to the
    /// result of the operation: the first step that failed names its artifact.
    /// Every variant carries the log path, which identifies the segment.
    pub fn persist_result(
        &self,
        log_created: bool,
        time_index_created: bool,
        index_created: bool,
        sentinel_written: bool,
    ) -> (r: Result<(), Error>)
        ensures
            !log_created ==> r == Err::<(), Error>(
                Error::CannotCreatePartitionSegmentLogFile(self.log_path),
            ),
            log_created && !time_index_created ==> r == Err::<(), Error>(
                Error::CannotCreatePartitionSegmentTimeIndexFile(self.log_path),
            ),
            log_created && time_index_created && !index_created ==> r == Err::<(), Error>(
                Error::CannotCreatePartitionSegmentIndexFile(self.log_path),
            ),
            log_created && time_index_created && index_created && !sentinel_written ==> r
                == Err::<(), Error>(Error::CannotSaveIndexToSegment),
            r is Ok <==> (log_created && time_index_created && index_created && sentinel_written),
    {
        if !log_created {
            return Err(Error::CannotCreatePartitionSegmentLogFile(self.log_path.clone()));
        }
        if !time_index_created {
            return Err(Error::CannotCreatePartitionSegmentTimeIndexFile(self.log_path.clone()));
        }
        if !index_created {
            return Err(Error::CannotCreatePartitionSegmentIndexFile(self.log_path.clone()));
        }
        if !sentinel_written {
            return Err(Error::CannotSaveIndexToSegment);
        }
        Ok(())
    }

    /// The messages of the cache that have not been flushed yet: its last
    /// `unsaved_messages_count` elements.
    pub open spec fn unsaved(self) -> Seq<MessageView> {
        self.cached().skip(self.cached().len() - self.unsaved_messages_count)
    }

    /// Flushes the unsaved tail of the cache into the log file, rewrites the
    /// time-index file, and marks everything held as saved. No message is
    /// durable, and none may be acknowledged, before this ran.
    pub fn flush(&mut self, disk: &mut Disk) -> (r: Result<(), Error>)
        requires
            old(self).wf(),
            old(disk).wf(),
            old(disk).has(old(self).log_path@),
            old(disk).has(old(self).time_index_path@),
            all_sized(old(self).cached()),
            old(self).next_saved_message_index + old(self).unsaved_messages_count <= u32::MAX,
        ensures
            r is Ok,
            final (self).wf(),
            final (disk).wf(),
            final (disk).has(old(self).log_path@),
            final (disk).file_data(old(self).log_path@) == old(disk).file_data(
                old(self).log_path@,
            ) + spec_encode_messages(old(self).unsaved()),
            final (disk).has(old(self).time_index_path@),
            final (disk).file_data(old(self).time_index_path@) == spec_encode_time_indexes(
                old(self).time_indexes@,
            ),
            forall|q: Seq<char>|
                q != old(self).log_path@ && q != old(self).time_index_path@ ==> #[trigger] final (
                disk).has(q) == old(disk).has(q) && (old(disk).has(q) ==> final (disk).file_data(q)
                    == old(disk).file_data(q)),
            final (self).unsaved_messages_count == 0,
            final (self).next_saved_message_index == old(self).next_saved_message_index + old(
                self,
            ).unsaved_messages_count,
            final (self).saved_bytes == final (self).current_size_bytes,
            final (self).cached() == old(self).cached(),
            final (self).current_offset == old(self).current_offset,
            final (self).start_offset == old(self).start_offset,
            final (self).end_offset == old(self).end_offset,
            final (self).current_size_bytes == old(self).current_size_bytes,
            final (self).should_increment_offset == old(self).should_increment_offset,
            final (self).time_indexes == old(self).time_indexes,
            final (self).log_path == old(self).log_path,
            final (self).index_path == old(self).index_path,
            final (self).time_index_path == old(self).time_index_path,
            final (self).partition_path == old(self).partition_path,
            final (self).partition_id == old(self).partition_id,
            final (self).config == old(self).config,
            cache_capacity(final (self).messages) == cache_capacity(old(self).messages),
            old(self).stored_wf(*old(disk)) ==> final (self).stored_wf(*final (disk)),
    {
        let ghost contents = self.cached();
        let mut all = cache_to_vec(&self.messages);
        let unsaved_count = self.unsaved_messages_count as usize;
        let start = all.len() - unsaved_count;
        let ghost tail = old(self).unsaved();
        let mut buf: Vec<u8> = Vec::new();
        let mut i = start;
        proof {
            assert(tail =~= contents.skip(start as int));
            assert(tail.take(0) =~= Seq::<MessageView>::empty());
            assert(buf@ =~= spec_encode_messages(tail.take(0)));
        }
        while i < all.len()
            invariant
                start <= i <= all@.len(),
                start == all@.len() - unsaved_count,
                msg_views(all@) == contents,
                all_sized(contents),
                tail == contents.skip(start as int),
                buf@ == spec_encode_messages(tail.take(i - start)),
            decreases all@.len() - i,
        {
            proof {
                assert(message_sized(contents[i as int]));
            }
            let mut rec = encode_message(&*all[i]);
            let ghost buf_pre = buf@;
            buf.append(&mut rec);
            i = i + 1;
            proof {
                assert(tail[i - start - 1] == contents[i as int - 1]);
                assert(tail.take(i - start) =~= tail.take(i - start - 1).push(
                    tail[i - start - 1],
                ));
                lemma_encode_messages_push(tail.take(i - start - 1), tail[i - start - 1]);
                assert(buf@ =~= spec_encode_messages(tail.take(i - start)));
            }
        }
        proof {
            assert(tail.take(all@.len() - start) =~= tail);
        }
        disk.append(&self.log_path, buf.as_slice());
        let mut tbuf: Vec<u8> = Vec::new();
        let mut j: usize = 0;
        proof {
            assert(self.time_indexes@.take(0) =~= Seq::<TimeIndex>::empty());
            assert(tbuf@ =~= spec_encode_time_indexes(self.time_indexes@.take(0)));
        }
        while j < self.time_indexes.len()
            invariant
                j <= self.time_indexes@.len(),
                tbuf@ == spec_encode_time_indexes(self.time_indexes@.take(j as int)),
            decreases self.time_indexes@.len() - j,
        {
            let mut rec = encode_time_index(&self.time_indexes[j]);
            tbuf.append(&mut rec);
            j = j + 1;
            proof {
                assert(self.time_indexes@.take(j as int) =~= self.time_indexes@.take(
                    j as int - 1,
                ).push(self.time_indexes@[j as int - 1]));
                lemma_encode_time_indexes_push(
                    self.time_indexes@.take(j as int - 1),
                    self.time_indexes@[j as int - 1],
                );
                assert(tbuf@ =~= spec_encode_time_indexes(self.time_indexes@.take(j as int)));
            }
        }
        proof {
            assert(self.time_indexes@.take(self.time_indexes@.len() as int)
                =~= self.time_indexes@);
        }
        disk.create(&self.time_index_path);
        disk.append(&self.time_index_path, tbuf.as_slice());
        proof {
            assert(Seq::<u8>::empty() + tbuf@ =~= tbuf@);
            assert(disk.has(old(self).log_path@));
            assert(disk.file_data(old(self).log_path@) == old(disk).file_data(
                old(self).log_path@,
            ) + spec_encode_messages(old(self).unsaved()));
        }
        self.next_saved_message_index = self.next_saved_message_index
            + self.unsaved_messages_count;
        self.unsaved_messages_count = 0;
        self.saved_bytes = self.current_size_bytes;
        proof {
            if old(self).stored_wf(*old(disk)) {
                old(self).lemma_stored_run(*old(disk));
                let saved = spec_decode_messages(
                    old(disk).file_data(old(self).log_path@),
                )->Some_0;
                assert(all_sized(tail)) by {
                    assert(forall|i: int|
                        0 <= i < tail.len() ==> tail[i] == old(self).cached()[old(
                            self,
                        ).cached().len() - old(self).unsaved_messages_count + i]);
                }
                crate::codec::lemma_messages_round_trip(tail);
                crate::codec::lemma_decode_append(
                    old(disk).file_data(old(self).log_path@),
                    spec_encode_messages(tail),
                );
                assert(spec_decode_messages(disk.file_data(self.log_path@)) == Some(saved + tail));
                let new_saved = saved + tail;
                assert(new_saved.len() + self.unsaved_messages_count == self.stored_count());
                let old_stored = old(self).stored(*old(disk));
                assert(old_stored == saved + tail);
                assert forall|i: int| 0 <= i < new_saved.len() implies (#[trigger] new_saved[i]).offset
                    == self.start_offset + i by {
                    assert(new_saved[i] == old_stored[i]);
                }
                let new_stored = self.stored(*disk);
                assert(self.unsaved() =~= Seq::<MessageView>::empty());
                assert(new_stored =~= old_stored);
                assert(self.cached() == old(self).cached());
                assert(self.cached() =~= new_stored.skip(new_stored.len() - self.cached().len()));
                assert(self.stored_wf(*disk));
            }
        }
        Ok(())
    }

    /// Recovers the segment's in-memory state from its on-disk artifacts: the
    /// time-index file is read in full, the log file is decoded and the window
    /// of offsets from `start_offset` through `end_offset` replayed into the
    /// cache (oldest evicted first when it exceeds the cache capacity). An
    /// empty window leaves the segment empty, which a freshly created,
    /// never-written segment shows. This is the sole recovery path after a
    /// restart.
    #[verifier::rlimit(60)]
    pub fn load(&mut self, disk: &Disk) -> (r: Result<(), Error>)
        requires
            old(self).wf(),
            disk.wf(),
            disk.has(old(self).log_path@),
            disk.has(old(self).time_index_path@),
            old(self).end_offset >= old(self).start_offset,
            disk.file_data(old(self).log_path@).len() <= u32::MAX,
            old(self).next_saved_message_index + disk.file_data(old(self).log_path@).len() / 20
                <= u32::MAX,
        ensures
            final (self).start_offset == old(self).start_offset,
            final (self).end_offset == old(self).end_offset,
            final (self).log_path == old(self).log_path,
            final (self).index_path == old(self).index_path,
            final (self).time_index_path == old(self).time_index_path,
            final (self).partition_path == old(self).partition_path,
            final (self).partition_id == old(self).partition_id,
            final (self).config == old(self).config,
            final (self).unsaved_messages_count == old(self).unsaved_messages_count,
            ({
                let decoded = spec_decode_messages(disk.file_data(old(self).log_path@))->Some_0;
                (r is Ok && old(self).unsaved_messages_count == 0 && decoded.len() > 0
                    && decoded.len() == old(self).end_offset - old(self).start_offset + 1 && (
                forall|i: int|
                    0 <= i < decoded.len() ==> (#[trigger] decoded[i]).offset == old(
                        self,
                    ).start_offset + i) && decoded.last().offset > 0) ==> final (self).stored_wf(
                    *disk,
                )
            }),
            match r {
                Ok(()) => {
                    let ti = spec_decode_time_indexes(
                        disk.file_data(old(self).time_index_path@),
                    );
                    let decoded = spec_decode_messages(disk.file_data(old(self).log_path@));
                    let kept = msgs_in_range(
                        decoded->Some_0,
                        old(self).start_offset,
                        old(self).end_offset,
                    );
                    &&& ti is Some
                    &&& final (self).time_indexes@ == ti->Some_0
                    &&& decoded is Some
                    &&& (if kept.len() == 0 {
                        &&& final (self).current_offset == old(self).current_offset
                        &&& final (self).cached() == old(self).cached()
                        &&& final (self).should_increment_offset == old(
                            self,
                        ).should_increment_offset
                        &&& final (self).current_size_bytes == old(self).current_size_bytes
                        &&& final (self).saved_bytes == old(self).saved_bytes
                        &&& final (self).next_saved_message_index == old(
                            self,
                        ).next_saved_message_index
                    } else {
                        &&& final (self).current_offset == kept.last().offset
                        &&& final (self).cached() == bounded(
                            old(self).config.messages_buffer as nat,
                            kept,
                        )
                        &&& final (self).should_increment_offset == (kept.last().offset > 0)
                        &&& final (self).current_size_bytes == disk.file_data(
                            old(self).log_path@,
                        ).len()
                        &&& final (self).saved_bytes == disk.file_data(old(self).log_path@).len()
                        &&& final (self).next_saved_message_index == old(
                            self,
                        ).next_saved_message_index + kept.len()
                    })
                },
                Err(e) => {
                    &&& (e == Error::CannotReadTimeIndex || e == Error::CannotReadMessage)
                    &&& (e == Error::CannotReadTimeIndex ==> spec_decode_time_indexes(
                        disk.file_data(old(self).time_index_path@),
                    ) is None && *final (self) == *old(self))
                    &&& (e == Error::CannotReadMessage ==> spec_decode_messages(
                        disk.file_data(old(self).log_path@),
                    ) is None && final (self).time_indexes@ == spec_decode_time_indexes(
                        disk.file_data(old(self).time_index_path@),
                    )->Some_0 && final (self).cached() == old(self).cached() && final (
                    self).current_offset == old(self).current_offset)
                },
            },
    {
        let ti_bytes = match disk.read(&self.time_index_path) {
            Some(v) => v,
            None => {
                proof {
                    assert(false);
                }
                return Err(Error::CannotReadTimeIndex);
            },
        };
        let tis = match decode_time_indexes(ti_bytes.as_slice()) {
            Ok(tis) => tis,
            Err(_) => {
                return Err(Error::CannotReadTimeIndex);
            },
        };
        self.time_indexes = tis;
        let log_bytes = match disk.read(&self.log_path) {
            Some(v) => v,
            None => {
                proof {
                    assert(false);
                }
                return Err(Error::CannotReadMessage);
            },
        };
        let mut msgs = match decode_messages(log_bytes.as_slice()) {
            Ok(ms) => ms,
            Err(_) => {
                return Err(Error::CannotReadMessage);
            },
        };
        let ghost decoded = owned_views(msgs@);
        proof {
            lemma_decode_messages_count(log_bytes@, decoded);
            broadcast use vstd::seq_lib::group_filter_ensures;

        }
        let mut kept: Vec<Message> = Vec::new();
        let ghost mut k: int = 0;
        proof {
            reveal(Seq::filter);
            assert(decoded.take(0) =~= Seq::<MessageView>::empty());
            assert(owned_views(kept@) =~= Seq::<MessageView>::empty());
            assert(owned_views(msgs@) =~= decoded.skip(0));
        }
        while msgs.len() > 0
            invariant
                0 <= k <= decoded.len(),
                owned_views(msgs@) == decoded.skip(k),
                owned_views(kept@) == msgs_in_range(
                    decoded.take(k),
                    old(self).start_offset,
                    old(self).end_offset,
                ),
                self.start_offset == old(self).start_offset,
                self.end_offset == old(self).end_offset,
            decreases msgs@.len(),
        {
            let ghost msgs_pre = msgs@;
            proof {
                assert(msgs_pre.len() > 0);
                assert(decoded.skip(k).len() > 0);
                assert(k < decoded.len());
            }
            let m = msgs.remove(0);
            proof {
                assert(m == msgs_pre[0]);
                assert(owned_views(msgs_pre)[0] == msgs_pre[0]@);
                assert(decoded.skip(k)[0] == decoded[k]);
                assert(m@ == decoded[k]);
                assert(msgs@ == msgs_pre.remove(0));
                assert forall|t: int| 0 <= t < msgs@.len() implies owned_views(msgs@)[t]
                    == decoded.skip(k + 1)[t] by {
                    assert(msgs@[t] == msgs_pre[t + 1]);
                    assert(owned_views(msgs_pre)[t + 1] == msgs_pre[t + 1]@);
                    assert(owned_views(msgs@)[t] == msgs@[t]@);
                }
                assert(owned_views(msgs@) =~= decoded.skip(k + 1));
            }
            let keep = self.start_offset <= m.offset && m.offset <= self.end_offset;
            let ghost kept_pre = kept@;
            if keep {
                kept.push(m);
            }
            proof {
                reveal(Seq::filter);
                let taken = decoded.take(k + 1);
                assert(taken.drop_last() =~= decoded.take(k));
                assert(taken.last() == decoded[k]);
                if keep {
                    crate::codec::lemma_owned_views_push(kept_pre, m);
                }
                k = k + 1;
            }
        }
        proof {
            assert(decoded.skip(k).len() == 0);
            assert(k == decoded.len());
            assert(decoded.take(k) =~= decoded);
        }
        let ghost kept_views = msgs_in_range(decoded, old(self).start_offset, old(self).end_offset);
        if kept.is_empty() {
            return Ok(());
        }
        let file_size = log_bytes.len() as u32;
        self.current_offset = kept[kept.len() - 1].offset;
        proof {
            assert(kept_views.last() == owned_views(kept@)[kept@.len() - 1]);
            assert(kept@.len() <= decoded.len());
            assert(20 * decoded.len() <= log_bytes@.len());
        }
        self.next_saved_message_index = self.next_saved_message_index + kept.len() as u32;
        self.messages = cache_new(self.config.messages_buffer as usize);
        let ghost cap = self.config.messages_buffer as nat;
        let ghost mut t: int = 0;
        proof {
            assert(kept_views.take(0) =~= Seq::<MessageView>::empty());
            assert(bounded(cap, kept_views.take(0)) =~= Seq::<MessageView>::empty());
        }
        let ghost mid = *self;
        while kept.len() > 0
            invariant
                0 <= t <= kept_views.len(),
                owned_views(kept@) == kept_views.skip(t),
                self.cached() == bounded(cap, kept_views.take(t)),
                cache_capacity(self.messages) == cap,
                cap > 0,
                self.current_offset == mid.current_offset,
                self.start_offset == mid.start_offset,
                self.end_offset == mid.end_offset,
                self.log_path == mid.log_path,
                self.index_path == mid.index_path,
                self.time_index_path == mid.time_index_path,
                self.partition_path == mid.partition_path,
                self.partition_id == mid.partition_id,
                self.config == mid.config,
                self.unsaved_messages_count == mid.unsaved_messages_count,
                self.next_saved_message_index == mid.next_saved_message_index,
                self.saved_bytes == mid.saved_bytes,
                self.current_size_bytes == mid.current_size_bytes,
                self.should_increment_offset == mid.should_increment_offset,
                self.time_indexes == mid.time_indexes,
            decreases kept@.len(),
        {
            let ghost kept_pre = kept@;
            proof {
                assert(kept_pre.len() > 0);
                assert(kept_views.skip(t).len() > 0);
                assert(t < kept_views.len());
            }
            let m = kept.remove(0);
            proof {
                assert(m == kept_pre[0]);
                assert(owned_views(kept_pre)[0] == kept_pre[0]@);
                assert(m@ == kept_views[t]);
                assert forall|s: int| 0 <= s < kept@.len() implies owned_views(kept@)[s]
                    == kept_views.skip(t + 1)[s] by {
                    assert(kept@[s] == kept_pre[s + 1]);
                    assert(owned_views(kept_pre)[s + 1] == kept_pre[s + 1]@);
                    assert(owned_views(kept@)[s] == kept@[s]@);
                }
                assert(owned_views(kept@) =~= kept_views.skip(t + 1));
            }
            let ghost cache_pre = self.cached();
            cache_push(&mut self.messages, std::sync::Arc::new(m));
            proof {
                lemma_bounded_push(cap, kept_views.take(t), m@);
                assert(kept_views.take(t + 1) =~= kept_views.take(t).push(kept_views[t]));
                t = t + 1;
                assert(self.cached() == bounded(cap, kept_views.take(t)));
            }
        }
        proof {
            assert(kept_views.skip(t).len() == 0);
            assert(t == kept_views.len());
            assert(kept_views.take(t) =~= kept_views);
        }
        self.should_increment_offset = self.current_offset > 0;
        self.current_size_bytes = file_size;
        self.saved_bytes = file_size;
        proof {
            if old(self).unsaved_messages_count == 0 && decoded.len() > 0 && decoded.len() == old(
                self,
            ).end_offset - old(self).start_offset + 1 && (forall|i: int|
                0 <= i < decoded.len() ==> (#[trigger] decoded[i]).offset == old(
                    self,
                ).start_offset + i) && decoded.last().offset > 0 {
                assert(forall|i: int|
                    0 <= i < decoded.len() ==> old(self).start_offset <= (
                    #[trigger] decoded[i]).offset <= old(self).end_offset);
                lemma_filter_all(decoded, old(self).start_offset, old(self).end_offset);
                assert(kept_views == decoded);
                assert(self.current_offset == decoded.last().offset);
                assert(self.current_offset == self.start_offset + decoded.len() - 1);
                assert(self.should_increment_offset);
                assert(self.stored_count() == decoded.len());
                assert(self.unsaved_messages_count == 0);
                assert(self.unsaved() =~= Seq::<MessageView>::empty());
                let new_stored = self.stored(*disk);
                assert(new_stored =~= decoded);
                assert(self.cached() == bounded(cap, decoded));
                let clen = self.cached().len();
                assert(self.cached() =~= new_stored.skip(new_stored.len() - clen));
                assert(forall|i: int|
                    0 <= i < clen ==> (#[trigger] self.cached()[i]).offset == self.current_offset
                        - (clen - 1 - i));
                assert(clen > 0 ==> self.cached()[0].offset >= self.start_offset);
                assert(self.wf());
                assert(self.stored_wf(*disk));
            }
        }
        Ok(())
    }
}

/// The initial content of a segment's index file: a single 8-byte
/// little-endian zero, the base offset marker.
pub open spec fn index_sentinel() -> Seq<u8> {
    vstd::bytes::spec_u64_to_le_bytes(0)
}

} // verus!
