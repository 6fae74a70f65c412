//! A partition: an ordered, append-only sequence of segments. Appends go to
//! the active (last) segment, rolling over into a freshly persisted segment
//! when it is full; reads resolve an offset range across every segment it
//! straddles and merge the results in offset order.

use vstd::prelude::*;
use std::sync::Arc;
use crate::cache::{cache_capacity, msg_views};
use crate::codec::owned_views;
use crate::config::{config_wf, SegmentConfig};
use crate::disk::Disk;
use crate::error::Error;
use crate::message::{all_sized, total_size, Message, MessageView, TimeIndex};
use crate::segment::{assigned_run, bounded, lemma_filter_none, msgs_in_range, Segment};


verus! {

/// An ordered collection of segments for one logical partition.
pub struct Partition {
    pub id: u32,
    pub path: String,
    pub segments: Vec<Segment>,
    pub config: SegmentConfig,
}

/// What each of a run of segments stores, in order.
pub open spec fn stored_of(segs: Seq<Segment>, d: Disk) -> Seq<Seq<MessageView>> {
    segs.map(|i: int, s: Segment| s.stored(d))
}

/// The three-way overlap test of the read path: a segment is consulted when it
/// lies fully inside the requested range, covers its lower end, or covers its
/// upper end.
pub open spec fn overlaps(s: Segment, offset: u64, end: u64) -> bool {
    (s.start_offset >= offset && s.current_offset <= end) || (s.start_offset <= offset
        && s.current_offset >= offset) || (s.start_offset <= end && s.current_offset >= end)
}

/// Raising the upper bound beyond every offset a run holds does not change
/// what the range filter keeps.
proof fn lemma_filter_clamp(s: Seq<MessageView>, lo: u64, hi1: u64, hi2: u64)
    requires
        hi1 <= hi2,
        forall|i: int| 0 <= i < s.len() ==> (#[trigger] s[i]).offset <= hi1,
    ensures
        msgs_in_range(s, lo, hi2) == msgs_in_range(s, lo, hi1),
    decreases s.len(),
{
    reveal(Seq::filter);
    if s.len() == 0 {
        assert(msgs_in_range(s, lo, hi2) =~= msgs_in_range(s, lo, hi1));
    } else {
        assert(forall|i: int| 0 <= i < s.drop_last().len() ==> s.drop_last()[i] == s[i]);
        lemma_filter_clamp(s.drop_last(), lo, hi1, hi2);
        assert(s.last() == s[s.len() - 1]);
        assert(s.last().offset <= hi1);
        assert((lo <= s.last().offset <= hi2) == (lo <= s.last().offset <= hi1));
    }
}

impl Partition {
    /// Well-formed partition state: every segment is well formed and shares
    /// this partition's configuration; sealed segments have their end marker
    /// synced to their last offset; consecutive segments cover adjacent,
    /// non-overlapping offset ranges; the active (last) segment is either
    /// synced too or still fresh and empty.
    pub open spec fn wf(self) -> bool {
        &&& config_wf(self.config)
        &&& (forall|i: int| 0 <= i < self.segments@.len() ==> (#[trigger] self.segments@[i]).wf())
        &&& (forall|i: int|
            0 <= i < self.segments@.len() ==> (#[trigger] self.segments@[i]).config == self.config)
        &&& (forall|i: int|
            0 <= i < self.segments@.len() - 1 ==> (#[trigger] self.segments@[i]).end_offset
                == self.segments@[i].current_offset)
        &&& (forall|i: int|
            0 <= i < self.segments@.len() - 1 ==> (#[trigger] self.segments@[i]).should_increment_offset)
        &&& (forall|i: int|
            0 <= i && i + 1 < self.segments@.len() ==> (#[trigger] self.segments@[i
                + 1]).start_offset == self.segments@[i].current_offset + 1)
        &&& (self.segments@.len() > 0 ==> {
            let active = self.segments@.last();
            ||| active.end_offset == active.current_offset
            ||| (active.end_offset == 0 && active.current_offset == active.start_offset
                && active.current_size_bytes == 0 && !active.should_increment_offset)
        })
    }

    /// Every message any segment stores, in segment order: the saved runs on
    /// the log files joined with the unsaved cache tails.
    pub open spec fn all_stored(self, d: Disk) -> Seq<MessageView> {
        stored_of(self.segments@, d).flatten()
    }

    /// Every segment's memory agrees with its log file on this disk.
    pub open spec fn stored_wf(self, d: Disk) -> bool {
        forall|i: int| 0 <= i < self.segments@.len() ==> (#[trigger] self.segments@[i]).stored_wf(d)
    }

    /// The requested upper bound, clamped to the last written offset: a read
    /// never reaches past what has been written.
    pub open spec fn clamped_end(self, offset: u64, count: u32) -> u64
        recommends
            self.segments@.len() > 0,
            offset + count - 1 <= u64::MAX,
    {
        if offset + count - 1 > self.segments@.last().current_offset {
            self.segments@.last().current_offset
        } else {
            (offset + count - 1) as u64
        }
    }

    /// What a read returns: of everything stored, the messages whose offsets
    /// lie between the requested offset and the clamped upper bound, in order.
    pub open spec fn spec_read(self, d: Disk, offset: u64, count: u32) -> Seq<MessageView> {
        if self.segments@.len() == 0 {
            Seq::<MessageView>::empty()
        } else {
            msgs_in_range(self.all_stored(d), offset, self.clamped_end(offset, count))
        }
    }

    /// Every segment's last offset is bounded by the active segment's.
    proof fn lemma_current_le_last(self, i: int)
        requires
            self.wf(),
            0 <= i < self.segments@.len(),
        ensures
            self.segments@[i].current_offset <= self.segments@.last().current_offset,
        decreases self.segments@.len() - i,
    {
        if i == self.segments@.len() - 1 {
        } else {
            assert(self.segments@[i + 1].start_offset == self.segments@[i].current_offset + 1);
            assert(self.segments@[i + 1].wf());
            self.lemma_current_le_last(i + 1);
        }
    }

    /// A segment that fails the overlap test for `[offset, end]` stores no
    /// message in that range.
    proof fn lemma_no_overlap_empty(s: Segment, d: Disk, offset: u64, end: u64)
        requires
            s.stored_wf(d),
            !overlaps(s, offset, end),
        ensures
            msgs_in_range(s.stored(d), offset, end) == Seq::<MessageView>::empty(),
    {
        s.lemma_stored_run(d);
        assert forall|i: int| 0 <= i < s.stored(d).len() implies !(offset <= (#[trigger] s.stored(d)[i]).offset
            <= end) by {
            let m = s.stored(d)[i];
            if offset <= m.offset <= end {
                assert(m.offset == s.start_offset + i);
                assert(s.stored(d).len() == s.stored_count());
                assert(s.start_offset <= m.offset <= s.current_offset);
                if s.start_offset >= offset {
                    if s.current_offset <= end {
                        assert(overlaps(s, offset, end));
                    } else {
                        assert(s.start_offset <= end && s.current_offset >= end);
                        assert(overlaps(s, offset, end));
                    }
                } else {
                    assert(s.start_offset <= offset && s.current_offset >= offset);
                    assert(overlaps(s, offset, end));
                }
            }
        }
        lemma_filter_none(s.stored(d), offset, end);
    }

    /// Reads the messages of the range `[offset, offset + count - 1]`, clamped
    /// to the last written offset. An empty partition, and a range no segment
    /// overlaps, give an empty result, never an error; a single overlapping
    /// segment is delegated to directly; otherwise every overlapping segment
    /// is queried in ascending start-offset order and the results are
    /// concatenated, which keeps the whole sequence offset-ordered since
    /// segments never overlap.
    pub fn get_messages(&self, disk: &Disk, offset: u64, count: u32) -> (r: Result<
        Vec<Arc<Message>>,
        Error,
    >)
        requires
            self.wf(),
            self.stored_wf(*disk),
            self.segments@.len() > 0 ==> count >= 1 && offset + count - 1 <= u64::MAX,
        ensures
            r matches Ok(v) && msg_views(v@) == self.spec_read(*disk, offset, count),
            self.segments@.len() == 0 ==> (r matches Ok(v) && v@.len() == 0),
            r matches Ok(v) ==> (forall|j: int|
                0 <= j < v@.len() && self.segments@.len() > 0 ==> (#[trigger] msg_views(
                    v@,
                )[j]).offset <= self.segments@.last().current_offset),
    {
        broadcast use vstd::seq_lib::group_filter_ensures;
        broadcast use Seq::filter_distributes_over_add;
        broadcast use Seq::lemma_flatten_push;
        broadcast use Seq::add_empty_left;
        broadcast use Seq::add_empty_right;

        if self.segments.is_empty() {
            let out: Vec<Arc<Message>> = Vec::new();
            proof {
                assert(msg_views(out@) =~= Seq::<MessageView>::empty());
            }
            return Ok(out);
        }
        let n = self.segments.len();
        let mut end_offset = offset + ((count - 1) as u64);
        let max_offset = self.segments[n - 1].current_offset;
        if end_offset > max_offset {
            end_offset = max_offset;
        }
        proof {
            assert(end_offset == self.clamped_end(offset, count));
        }
        let mut selected: Vec<usize> = Vec::new();
        let mut i: usize = 0;
        while i < n
            invariant
                i <= n,
                n == self.segments@.len(),
                forall|t: int|
                    0 <= t < i ==> (overlaps(#[trigger] self.segments@[t], offset, end_offset)
                        <==> selected@.contains(t as usize)),
                forall|j: int|
                    0 <= j < selected@.len() ==> (#[trigger] selected@[j]) < i && overlaps(
                        self.segments@[selected@[j] as int],
                        offset,
                        end_offset,
                    ),
            decreases n - i,
        {
            let s = &self.segments[i];
            let ghost sel_pre = selected@;
            if (s.start_offset >= offset && s.current_offset <= end_offset) || (s.start_offset
                <= offset && s.current_offset >= offset) || (s.start_offset <= end_offset
                && s.current_offset >= end_offset) {
                selected.push(i);
                proof {
                    assert(selected@ == sel_pre.push(i as usize));
                    assert(selected@[selected@.len() - 1] == i as usize);
                    assert(selected@.contains(i as usize));
                    assert forall|t: usize| sel_pre.contains(t) implies selected@.contains(t) by {
                        let j = choose|j: int| 0 <= j < sel_pre.len() && sel_pre[j] == t;
                        assert(selected@[j] == t);
                    }
                    assert forall|t: int|
                        0 <= t < i + 1 && selected@.contains(#[trigger] (t as usize)) && t != i
                            implies sel_pre.contains(t as usize) by {
                        let j = choose|j: int|
                            0 <= j < selected@.len() && selected@[j] == t as usize;
                        assert(j < sel_pre.len());
                        assert(sel_pre[j] == t as usize);
                    }
                }
            } else {
                proof {
                    assert(!overlaps(self.segments@[i as int], offset, end_offset));
                }
            }
            i = i + 1;
        }
        if selected.is_empty() {
            let out: Vec<Arc<Message>> = Vec::new();
            proof {
                assert(forall|t: int|
                    0 <= t < n ==> !overlaps(#[trigger] self.segments@[t], offset, end_offset));
                self.lemma_read_prefix(*disk, offset, end_offset, n as int);
                assert(self.segments@.take(n as int) =~= self.segments@);
                assert(msg_views(out@) =~= Seq::<MessageView>::empty());
                assert(self.spec_read(*disk, offset, count) =~= Seq::<MessageView>::empty());
            }
            return Ok(out);
        }
        if selected.len() == 1 {
            let only = selected[0];
            let messages = match self.segments[only].get_messages(disk, offset, count) {
                Ok(v) => v,
                Err(e) => {
                    proof {
                        assert(false);
                    }
                    return Err(e);
                },
            };
            proof {
                let s = self.segments@[only as int];
                s.lemma_stored_run(*disk);
                if end_offset < (offset + count - 1) as u64 {
                    assert(end_offset == max_offset);
                    assert forall|t: int| 0 <= t < s.stored(*disk).len() implies (#[trigger] s.stored(*disk)[t]).offset
                        <= end_offset by {
                        assert(s.stored(*disk)[t].offset == s.start_offset + t);
                        assert(s.stored(*disk)[t].offset <= s.current_offset);
                        self.lemma_current_le_last(only as int);
                    }
                    lemma_filter_clamp(s.stored(*disk), offset, end_offset, (offset + count - 1) as u64);
                } else {
                    assert(end_offset == (offset + count - 1) as u64);
                }
                assert forall|t: int| 0 <= t < n && t != only implies !overlaps(
                    #[trigger] self.segments@[t],
                    offset,
                    end_offset,
                ) by {
                    if overlaps(self.segments@[t], offset, end_offset) {
                        assert(selected@.contains(t as usize));
                        let j = choose|j: int|
                            0 <= j < selected@.len() && selected@[j] == t as usize;
                        assert(j == 0);
                        assert(selected@.contains(only));
                        let j2 = choose|j2: int|
                            0 <= j2 < selected@.len() && selected@[j2] == only;
                        assert(j2 == 0);
                        assert(false);
                    }
                }
                self.lemma_read_prefix(*disk, offset, end_offset, n as int);
                assert(self.segments@.take(n as int) =~= self.segments@);
            }
            return Ok(messages);
        }
        let mut messages: Vec<Arc<Message>> = Vec::new();
        let mut k: usize = 0;
        proof {
            assert(stored_of(self.segments@.take(0), *disk) =~= Seq::<Seq<MessageView>>::empty());
            assert(Seq::<Seq<MessageView>>::empty().flatten()
                =~= Seq::<MessageView>::empty());
            lemma_filter_none(Seq::<MessageView>::empty(), offset, end_offset);
            assert(msg_views(messages@) =~= Seq::<MessageView>::empty());
        }
        while k < n
            invariant
                k <= n,
                n == self.segments@.len(),
                self.wf(),
                count >= 1,
                offset + count - 1 <= u64::MAX,
                end_offset == self.clamped_end(offset, count),
                self.stored_wf(*disk),
                msg_views(messages@) == msgs_in_range(
                    stored_of(self.segments@.take(k as int), *disk).flatten(),
                    offset,
                    end_offset,
                ),
            decreases n - k,
        {
            broadcast use vstd::seq_lib::group_filter_ensures;
            broadcast use Seq::filter_distributes_over_add;
            broadcast use Seq::lemma_flatten_push;
            broadcast use Seq::add_empty_right;

            let ghost prefix = stored_of(self.segments@.take(k as int), *disk).flatten();
            let s = &self.segments[k];
            let overlapping = (s.start_offset >= offset && s.current_offset <= end_offset) || (
            s.start_offset <= offset && s.current_offset >= offset) || (s.start_offset
                <= end_offset && s.current_offset >= end_offset);
            proof {
                assert(stored_of(self.segments@.take(k as int + 1), *disk) =~= stored_of(
                    self.segments@.take(k as int),
                    *disk,
                ).push(self.segments@[k as int].stored(*disk)));
                assert(stored_of(self.segments@.take(k as int + 1), *disk).flatten() == prefix
                    + self.segments@[k as int].stored(*disk));
            }
            if overlapping {
                let mut part = match self.segments[k].get_messages(disk, offset, count) {
                    Ok(v) => v,
                    Err(e) => {
                        proof {
                            assert(false);
                        }
                        return Err(e);
                    },
                };
                let ghost part_views = msg_views(part@);
                let ghost part_pre = part@;
                let ghost msgs_pre = messages@;
                messages.append(&mut part);
                proof {
                    let sv = self.segments@[k as int];
                    sv.lemma_stored_run(*disk);
                    if end_offset < (offset + count - 1) as u64 {
                        assert(end_offset == self.segments@.last().current_offset);
                        assert forall|t: int| 0 <= t < sv.stored(*disk).len() implies (#[trigger] sv.stored(*disk)[t]).offset
                            <= end_offset by {
                            assert(sv.stored(*disk)[t].offset == sv.start_offset + t);
                            assert(sv.stored(*disk)[t].offset <= sv.current_offset);
                            self.lemma_current_le_last(k as int);
                        }
                        lemma_filter_clamp(
                            sv.stored(*disk),
                            offset,
                            end_offset,
                            (offset + count - 1) as u64,
                        );
                    } else {
                        assert(end_offset == (offset + count - 1) as u64);
                    }
                    assert(messages@ == msgs_pre + part_pre);
                    assert forall|t: int| 0 <= t < messages@.len() implies msg_views(messages@)[t]
                        == (msg_views(msgs_pre) + part_views)[t] by {
                        if t < msgs_pre.len() {
                            assert(messages@[t] == msgs_pre[t]);
                            assert(msg_views(msgs_pre)[t] == msgs_pre[t]@);
                        } else {
                            assert(messages@[t] == part_pre[t - msgs_pre.len()]);
                            assert(part_views[t - msgs_pre.len()] == part_pre[t - msgs_pre.len()]@);
                        }
                        assert(msg_views(messages@)[t] == messages@[t]@);
                    }
                    assert(msg_views(messages@) =~= msg_views(msgs_pre) + part_views);
                }
            } else {
                proof {
                    Self::lemma_no_overlap_empty(self.segments@[k as int], *disk, offset, end_offset);
                    assert(msg_views(messages@) + Seq::<MessageView>::empty() =~= msg_views(
                        messages@,
                    ));
                }
            }
            k = k + 1;
        }
        proof {
            assert(self.segments@.take(n as int) =~= self.segments@);
        }
        Ok(messages)
    }

    /// The machine limits an append must respect, on whichever segment will
    /// take the messages: the active one, or the fresh segment a full active
    /// segment rolls over into.
    pub open spec fn can_append(self, msgs: Seq<MessageView>) -> bool {
        self.segments@.len() > 0 ==> {
            let active = self.segments@.last();
            if active.spec_is_full() {
                &&& all_sized(msgs)
                &&& active.end_offset + 1 <= u64::MAX
                &&& active.end_offset + 1 + msgs.len() <= u64::MAX + 1
                &&& total_size(msgs) <= u32::MAX
                &&& msgs.len() <= self.config.messages_buffer
            } else {
                active.can_append(msgs)
            }
        }
    }

    /// Appends the messages to the active segment, in order, as a contiguous
    /// strictly increasing offset run continuing from the previous offsets.
    /// A partition with no segments at all fails with `SegmentNotFound` and
    /// touches nothing. A full active segment first rolls over: exactly one
    /// new segment is created, starting at the old segment's end offset plus
    /// one, and persisted — its three files exist on disk — before any
    /// message is written into it.
    pub fn append_messages(&mut self, disk: &mut Disk, messages: Vec<Message>) -> (r: Result<
        (),
        Error,
    >)
        requires
            old(self).wf(),
            old(disk).wf(),
            old(self).can_append(owned_views(messages@)),
        ensures
            final (self).wf(),
            final (disk).wf(),
            final (self).id == old(self).id,
            final (self).path == old(self).path,
            final (self).config == old(self).config,
            old(self).segments@.len() == 0 ==> r == Err::<(), Error>(Error::SegmentNotFound)
                && *final (self) == *old(self) && *final (disk) == *old(disk),
            old(self).segments@.len() > 0 ==> r is Ok,
            ({
                let views = owned_views(messages@);
                let pre = old(self).segments@;
                pre.len() > 0 && !pre.last().spec_is_full() ==> {
                    let active = pre.last();
                    let base = active.next_base();
                    &&& *final (disk) == *old(disk)
                    &&& final (self).segments@.len() == pre.len()
                    &&& final (self).segments@.last().cached() == bounded(
                        cache_capacity(active.messages),
                        active.cached() + assigned_run(base, views),
                    )
                    &&& final (self).segments@.last().current_offset == (if views.len() == 0 {
                        active.current_offset as int
                    } else {
                        base + views.len() - 1
                    })
                    &&& final (self).segments@.last().start_offset == active.start_offset
                    &&& final (self).segments@.last().end_offset == final (
                    self).segments@.last().current_offset
                    &&& final (self).segments@.last().current_size_bytes
                        == active.current_size_bytes + total_size(views)
                    &&& final (self).segments@.last().unsaved_messages_count
                        == active.unsaved_messages_count + views.len()
                    &&& final (self).segments@.last().should_increment_offset == (
                    active.should_increment_offset || views.len() > 0)
                    &&& final (self).segments@.last().time_indexes@ == (if views.len() == 0 {
                        active.time_indexes@
                    } else {
                        active.time_indexes@.push(
                            (TimeIndex {
                                timestamp: views[views.len() - 1].timestamp,
                                offset: (base + views.len() - 1) as u64,
                            }),
                        )
                    })
                    &&& final (self).segments@.last().log_path == active.log_path
                    &&& (old(self).stored_wf(*old(disk)) ==> final (self).stored_wf(
                        *final (disk),
                    ))
                }
            }),
            ({
                let pre = old(self).segments@;
                pre.len() > 0 && !pre.last().spec_is_full() ==> (forall|i: int|
                    0 <= i < pre.len() - 1 ==> final (self).segments@[i] == pre[i])
            }),
            ({
                let views = owned_views(messages@);
                let pre = old(self).segments@;
                pre.len() > 0 && pre.last().spec_is_full() ==> {
                    let active = pre.last();
                    let start = (active.end_offset + 1) as u64;
                    let fresh = final (self).segments@.last();
                    &&& final (self).segments@.len() == pre.len() + 1
                    &&& fresh.start_offset == start
                    &&& fresh.cached() == bounded(
                        old(self).config.messages_buffer as nat,
                        assigned_run(start as int, views),
                    )
                    &&& fresh.current_offset == (if views.len() == 0 {
                        start as int
                    } else {
                        start + views.len() - 1
                    })
                    &&& fresh.end_offset == fresh.current_offset
                    &&& fresh.current_size_bytes == total_size(views)
                    &&& fresh.unsaved_messages_count == views.len()
                    &&& final (disk).has(fresh.log_path@)
                    &&& final (disk).file_data(fresh.log_path@) == Seq::<u8>::empty()
                    &&& final (disk).has(fresh.time_index_path@)
                    &&& final (disk).file_data(fresh.time_index_path@) == Seq::<u8>::empty()
                    &&& final (disk).has(fresh.index_path@)
                    &&& final (disk).file_data(fresh.index_path@)
                        == crate::segment::index_sentinel()
                }
            }),
            ({
                let pre = old(self).segments@;
                pre.len() > 0 && pre.last().spec_is_full() ==> (forall|i: int|
                    0 <= i < pre.len() ==> final (self).segments@[i] == pre[i])
            }),
            ({
                let pre = old(self).segments@;
                pre.len() > 0 && pre.last().spec_is_full() ==> {
                    let start = (pre.last().end_offset + 1) as u64;
                    let dir = old(self).path@;
                    forall|q: Seq<char>|
                        q != crate::segment::spec_segment_path(dir, start, "log"@) && q
                            != crate::segment::spec_segment_path(dir, start, "timeindex"@) && q
                            != crate::segment::spec_segment_path(dir, start, "index"@)
                            ==> #[trigger] final (disk).has(q) == old(disk).has(q) && (old(
                            disk,
                        ).has(q) ==> final (disk).file_data(q) == old(disk).file_data(q))
                }
            }),
            ({
                let pre = old(self).segments@;
                pre.len() > 0 && pre.last().spec_is_full() ==> {
                    let start = (pre.last().end_offset + 1) as u64;
                    let dir = old(self).path@;
                    let fresh = final (self).segments@.last();
                    &&& fresh.log_path@ == crate::segment::spec_segment_path(dir, start, "log"@)
                    &&& fresh.time_index_path@ == crate::segment::spec_segment_path(
                        dir,
                        start,
                        "timeindex"@,
                    )
                    &&& fresh.index_path@ == crate::segment::spec_segment_path(dir, start, "index"@)
                }
            }),
    {
        if self.segments.is_empty() {
            return Err(Error::SegmentNotFound);
        }
        let ghost pre = self.segments@;
        let mut last_idx = self.segments.len() - 1;
        if self.segments[last_idx].is_full() {
            let start_offset = self.segments[last_idx].end_offset + 1;
            proof {
                let active = pre.last();
                assert(active.current_size_bytes >= self.config.size_bytes >= 1);
                assert(active.end_offset == active.current_offset);
            }
            let new_segment = Segment::create(
                self.id,
                start_offset,
                self.path.as_str(),
                self.config,
            );
            match new_segment.persist(disk) {
                Ok(()) => {},
                Err(e) => {
                    proof {
                        assert(false);
                    }
                    return Err(e);
                },
            }
            self.segments.push(new_segment);
            // no re-sort is needed: segments are only ever appended at the
            // tail, so the sequence stays ordered by start offset
            last_idx = last_idx + 1;
            proof {
                assert(self.segments@.last() == new_segment);
                assert(forall|i: int| 0 <= i < pre.len() ==> self.segments@[i] == pre[i]);
                assert(pre.last().should_increment_offset);
                assert(self.wf());
            }
        }
        let ghost mid = *self;
        let r = self.segments[last_idx].append_messages(messages);
        proof {
            let views = owned_views(messages@);
            assert(forall|i: int|
                0 <= i < mid.segments@.len() - 1 ==> self.segments@[i] == #[trigger] mid.segments@[i]);
            assert(self.segments@.len() == mid.segments@.len());
            assert(self.segments@.last() == self.segments@[last_idx as int]);
            assert(self.wf());
            if pre.last().spec_is_full() {
                let fresh = self.segments@.last();
                let mid_last = mid.segments@.last();
                let start = (pre.last().end_offset + 1) as u64;
                let dir = old(self).path@;
                assert(fresh.log_path == mid_last.log_path);
                assert(fresh.time_index_path == mid_last.time_index_path);
                assert(fresh.index_path == mid_last.index_path);
                assert(mid_last.log_path@ == crate::segment::spec_segment_path(dir, start, "log"@));
                assert(forall|i: int| 0 <= i < pre.len() ==> self.segments@[i] == pre[i]);
                assert forall|q: Seq<char>|
                    q != crate::segment::spec_segment_path(dir, start, "log"@) && q
                        != crate::segment::spec_segment_path(dir, start, "timeindex"@) && q
                        != crate::segment::spec_segment_path(dir, start, "index"@)
                        implies #[trigger] disk.has(q) == old(disk).has(q) && (old(disk).has(q)
                        ==> disk.file_data(q) == old(disk).file_data(q)) by {
                    assert(q != mid_last.log_path@ && q != mid_last.time_index_path@ && q
                        != mid_last.index_path@);
                    assert(disk.has(q) == old(disk).has(q));
                }
            }
        }
        r
    }

    /// Initializes a partition with its first segment, starting at offset
    /// zero and persisted on disk; a partition must always hold at least one
    /// segment before it is used.
    pub fn create(id: u32, path: String, config: SegmentConfig, disk: &mut Disk) -> (p: Partition)
        requires
            config_wf(config),
            old(disk).wf(),
        ensures
            p.wf(),
            final (disk).wf(),
            p.id == id,
            p.path == path,
            p.config == config,
            p.segments@.len() == 1,
            p.segments@[0].start_offset == 0,
            p.segments@[0].current_offset == 0,
            p.segments@[0].cached() == Seq::<MessageView>::empty(),
            !p.segments@[0].spec_is_full(),
            final (disk).has(p.segments@[0].log_path@),
            final (disk).file_data(p.segments@[0].log_path@) == Seq::<u8>::empty(),
            final (disk).has(p.segments@[0].time_index_path@),
            final (disk).has(p.segments@[0].index_path@),
            p.stored_wf(*final (disk)),
    {
        let segment = Segment::create(id, 0, path.as_str(), config);
        match segment.persist(disk) {
            Ok(()) => {},
            Err(_) => {},
        }
        let mut segments: Vec<Segment> = Vec::new();
        segments.push(segment);
        let p = Partition { id, path, segments, config };
        proof {
            assert(p.segments@.last() == p.segments@[0]);
            assert(p.wf());
        }
        p
    }

    /// Of the first `k` segments, only those passing the overlap test
    /// contribute to the range filter; in particular a prefix with no
    /// overlapping segment, or exactly one, reduces accordingly.
    proof fn lemma_read_prefix(self, d: Disk, offset: u64, end: u64, k: int)
        requires
            self.wf(),
            self.stored_wf(d),
            0 <= k <= self.segments@.len(),
        ensures
            (forall|t: int| 0 <= t < k ==> !overlaps(#[trigger] self.segments@[t], offset, end))
                ==> msgs_in_range(
                stored_of(self.segments@.take(k), d).flatten(),
                offset,
                end,
            ) == Seq::<MessageView>::empty(),
            forall|j: int|
                0 <= j < k && (forall|t: int|
                    0 <= t < k && t != j ==> !overlaps(#[trigger] self.segments@[t], offset, end))
                    ==> msgs_in_range(
                    stored_of(self.segments@.take(k), d).flatten(),
                    offset,
                    end,
                ) == msgs_in_range((#[trigger] self.segments@[j]).stored(d), offset, end),
        decreases k,
    {
        broadcast use vstd::seq_lib::group_filter_ensures;
        broadcast use Seq::filter_distributes_over_add;
        broadcast use Seq::lemma_flatten_push;
        broadcast use Seq::add_empty_left;
        broadcast use Seq::add_empty_right;

        if k == 0 {
            assert(stored_of(self.segments@.take(0), d) =~= Seq::<Seq<MessageView>>::empty());
            assert(Seq::<Seq<MessageView>>::empty().flatten() =~= Seq::<MessageView>::empty());
            lemma_filter_none(Seq::<MessageView>::empty(), offset, end);
        } else {
            self.lemma_read_prefix(d, offset, end, k - 1);
            let s = self.segments@[k - 1];
            assert(stored_of(self.segments@.take(k), d) =~= stored_of(
                self.segments@.take(k - 1),
                d,
            ).push(s.stored(d)));
            stored_of(self.segments@.take(k - 1), d).lemma_flatten_push(s.stored(d));
            if !overlaps(s, offset, end) {
                Self::lemma_no_overlap_empty(s, d, offset, end);
            }
            assert forall|j: int|
                0 <= j < k && (forall|t: int|
                    0 <= t < k && t != j ==> !overlaps(#[trigger] self.segments@[t], offset, end))
                    implies msgs_in_range(
                    stored_of(self.segments@.take(k), d).flatten(),
                    offset,
                    end,
                ) == msgs_in_range((#[trigger] self.segments@[j]).stored(d), offset, end) by {
                if j == k - 1 {
                } else {
                    Self::lemma_no_overlap_empty(s, d, offset, end);
                }
            }
        }
    }
}

/// Whether a run holds a message with offset `o`.
pub open spec fn holds_offset(r: Seq<MessageView>, o: int) -> bool {
    exists|t: int| 0 <= t < r.len() && (#[trigger] r[t]).offset == o
}

/// The range filter of a contiguous ascending run is the run's subrange that
/// lies inside the range.
proof fn lemma_run_filter(s: Seq<MessageView>, base: int, lo: u64, hi: u64)
    requires
        forall|t: int| 0 <= t < s.len() ==> (#[trigger] s[t]).offset == base + t,
    ensures
        ({
            let a = if lo <= base {
                0int
            } else {
                lo - base
            };
            let b = if hi >= base + s.len() - 1 {
                s.len() as int
            } else {
                hi - base + 1
            };
            msgs_in_range(s, lo, hi) == (if 0 <= a && a < b && b <= s.len() {
                s.subrange(a, b)
            } else {
                Seq::<MessageView>::empty()
            })
        }),
    decreases s.len(),
{
    reveal(Seq::filter);
    let a = if lo <= base {
        0int
    } else {
        lo - base
    };
    let b = if hi >= base + s.len() - 1 {
        s.len() as int
    } else {
        hi - base + 1
    };
    if s.len() == 0 {
        assert(msgs_in_range(s, lo, hi) =~= Seq::<MessageView>::empty());
    } else {
        let df = s.drop_last();
        assert(forall|t: int| 0 <= t < df.len() ==> df[t] == s[t]);
        lemma_run_filter(df, base, lo, hi);
        let b2 = if hi >= base + df.len() - 1 {
            df.len() as int
        } else {
            hi - base + 1
        };
        let last = s.last();
        assert(last.offset == base + s.len() - 1);
        let keep = lo <= last.offset && last.offset <= hi;
        if keep {
            assert(msgs_in_range(s, lo, hi) == msgs_in_range(df, lo, hi).push(last));
        } else {
            assert(msgs_in_range(s, lo, hi) == msgs_in_range(df, lo, hi));
        }
        if 0 <= a && a < b && b <= s.len() {
            if keep && b == s.len() {
                if a < b2 {
                    assert(msgs_in_range(s, lo, hi) =~= s.subrange(a, b));
                } else {
                    assert(msgs_in_range(df, lo, hi) =~= Seq::<MessageView>::empty());
                    assert(msgs_in_range(s, lo, hi) =~= s.subrange(a, b));
                }
            } else {
                assert(!keep ==> b <= df.len());
                assert(msgs_in_range(s, lo, hi) =~= s.subrange(a, b));
            }
        } else {
            assert(msgs_in_range(s, lo, hi) =~= Seq::<MessageView>::empty());
        }
    }
}

impl Partition {
    /// On a well-formed partition whose memory agrees with the disk, the
    /// first `k` segments together store exactly the contiguous ascending run
    /// from the first segment's start offset through segment `k - 1`'s last
    /// offset, provided segment `k - 1` has written something (every sealed
    /// segment has).
    proof fn lemma_all_stored_run(self, d: Disk, k: int)
        requires
            self.wf(),
            self.stored_wf(d),
            0 < k <= self.segments@.len(),
            self.segments@[k - 1].should_increment_offset,
        ensures
            stored_of(self.segments@.take(k), d).flatten().len() == self.segments@[k
                - 1].current_offset - self.segments@[0].start_offset + 1,
            forall|t: int|
                0 <= t < stored_of(self.segments@.take(k), d).flatten().len() ==> (
                #[trigger] stored_of(self.segments@.take(k), d).flatten()[t]).offset
                    == self.segments@[0].start_offset + t,
        decreases k,
    {
        broadcast use Seq::lemma_flatten_push;
        broadcast use Seq::add_empty_left;

        let s0 = self.segments@[0];
        let sk = self.segments@[k - 1];
        assert(sk.stored_wf(d));
        sk.lemma_stored_run(d);
        if k == 1 {
            assert(stored_of(self.segments@.take(1), d) =~= Seq::<Seq<MessageView>>::empty().push(
                s0.stored(d),
            ));
            Seq::<Seq<MessageView>>::empty().lemma_flatten_push(s0.stored(d));
            assert(Seq::<Seq<MessageView>>::empty().flatten() =~= Seq::<MessageView>::empty());
            let whole = stored_of(self.segments@.take(1), d).flatten();
            assert(whole =~= s0.stored(d));
            assert(whole.len() == s0.stored_count());
        } else {
            let i0 = k - 2;
            assert(self.segments@[i0].should_increment_offset);
            self.lemma_all_stored_run(d, k - 1);
            let prev = stored_of(self.segments@.take(k - 1), d).flatten();
            assert(stored_of(self.segments@.take(k), d) =~= stored_of(
                self.segments@.take(k - 1),
                d,
            ).push(sk.stored(d)));
            stored_of(self.segments@.take(k - 1), d).lemma_flatten_push(sk.stored(d));
            let whole = stored_of(self.segments@.take(k), d).flatten();
            assert(whole =~= prev + sk.stored(d));
            assert(whole.len() == prev.len() + sk.stored(d).len());
            assert(self.segments@[i0 + 1].start_offset == self.segments@[i0].current_offset + 1);
            assert(sk.start_offset == self.segments@[k - 2].current_offset + 1);
            assert(sk.stored(d).len() == sk.stored_count());
            assert forall|t: int| 0 <= t < whole.len() implies (#[trigger] whole[t]).offset
                == self.segments@[0].start_offset + t by {
                if t < prev.len() {
                    assert(whole[t] == prev[t]);
                } else {
                    assert(whole[t] == sk.stored(d)[t - prev.len()]);
                }
            }
        }
    }

    /// For every non-overlapping, start-offset-ordered segment set and every
    /// requested range, a read returns messages in strictly ascending offset
    /// order — no duplicates — and with no gap inside the clamped range: of
    /// everything stored, nothing in range is missing.
    pub proof fn lemma_read_sorted_gapless(self, d: Disk, offset: u64, count: u32)
        requires
            self.wf(),
            self.stored_wf(d),
            self.segments@.len() > 0,
            self.segments@.last().should_increment_offset,
            count >= 1,
            offset + count - 1 <= u64::MAX,
        ensures
            ({
                let r = self.spec_read(d, offset, count);
                forall|x: int, y: int| 0 <= x < y < r.len() ==> r[x].offset < r[y].offset
            }),
            ({
                let r = self.spec_read(d, offset, count);
                let hi = self.clamped_end(offset, count);
                forall|o: int|
                    offset <= o <= hi && self.segments@[0].start_offset <= o ==> #[trigger] holds_offset(
                        r,
                        o,
                    )
            }),
    {
        let n = self.segments@.len() as int;
        self.lemma_all_stored_run(d, n);
        assert(self.segments@.take(n) =~= self.segments@);
        let run = self.all_stored(d);
        let base = self.segments@[0].start_offset as int;
        let hi = self.clamped_end(offset, count);
        lemma_run_filter(run, base, offset, hi);
        let r = self.spec_read(d, offset, count);
        let a = if offset <= base {
            0int
        } else {
            offset - base
        };
        let b = if hi >= base + run.len() - 1 {
            run.len() as int
        } else {
            hi - base + 1
        };
        assert(run.len() == self.segments@.last().current_offset - base + 1);
        assert forall|o: int|
            offset <= o <= hi && self.segments@[0].start_offset <= o implies #[trigger] holds_offset(
                r,
                o,
            ) by {
            assert(hi <= self.segments@.last().current_offset);
            assert(0 <= a && a < b && b <= run.len());
            assert(r == run.subrange(a, b));
            let t = o - base - a;
            assert(0 <= t < r.len());
            assert(r[t] == run[a + t]);
            assert(r[t].offset == base + a + t == o);
        }
    }
}

/// Splitting the same stored data across segments differently cannot change
/// what a read returns: two well-formed partitions that store the same
/// messages and have written up to the same last offset read identically for
/// every range — the single-segment fast path and the multi-segment merge
/// path therefore produce identical results for equivalent data.
pub proof fn lemma_split_read_equivalence(
    p1: Partition,
    d1: Disk,
    p2: Partition,
    d2: Disk,
    offset: u64,
    count: u32,
)
    requires
        p1.wf(),
        p2.wf(),
        p1.segments@.len() > 0,
        p2.segments@.len() > 0,
        p1.all_stored(d1) == p2.all_stored(d2),
        p1.segments@.last().current_offset == p2.segments@.last().current_offset,
        count >= 1,
        offset + count - 1 <= u64::MAX,
    ensures
        p1.spec_read(d1, offset, count) == p2.spec_read(d2, offset, count),
{
    assert(p1.clamped_end(offset, count) == p2.clamped_end(offset, count));
}

} // verus!
