//! On-disk formats of the two per-segment artifacts this engine reads and
//! writes in full: the log file, a run of message records, and the time-index
//! file, a run of fixed-width (timestamp, offset) entries. All integers are
//! little-endian. A message record is an 8-byte offset, an 8-byte timestamp, a
//! 4-byte payload length, and the payload bytes.

use vstd::prelude::*;
use vstd::bytes::{
    spec_u32_from_le_bytes, spec_u32_to_le_bytes, spec_u64_from_le_bytes, spec_u64_to_le_bytes,
    u32_from_le_bytes, u32_to_le_bytes, u64_from_le_bytes, u64_to_le_bytes,
    lemma_auto_spec_u32_to_from_le_bytes, lemma_auto_spec_u64_to_from_le_bytes,
};
use vstd::slice::{slice_subrange, slice_to_vec};
use crate::error::Error;
use crate::message::{all_sized, message_size, message_sized, Message, MessageView, TimeIndex};

verus! {

/// The log-file record of one message.
pub open spec fn spec_encode_message(m: MessageView) -> Seq<u8> {
    spec_u64_to_le_bytes(m.offset) + spec_u64_to_le_bytes(m.timestamp) + spec_u32_to_le_bytes(
        m.payload.len() as u32,
    ) + m.payload
}

/// The log-file image of a run of messages, in order.
pub open spec fn spec_encode_messages(ms: Seq<MessageView>) -> Seq<u8>
    decreases ms.len(),
{
    if ms.len() == 0 {
        Seq::empty()
    } else {
        spec_encode_message(ms[0]) + spec_encode_messages(ms.drop_first())
    }
}

/// The run of messages a log-file image holds, or `None` when the bytes are
/// not a whole run of well-formed records.
pub open spec fn spec_decode_messages(data: Seq<u8>) -> Option<Seq<MessageView>>
    decreases data.len(),
{
    if data.len() == 0 {
        Some(Seq::empty())
    } else if data.len() < 20 {
        None
    } else {
        let plen = spec_u32_from_le_bytes(data.subrange(16, 20)) as int;
        if data.len() < 20 + plen {
            None
        } else {
            let m = MessageView {
                offset: spec_u64_from_le_bytes(data.subrange(0, 8)),
                timestamp: spec_u64_from_le_bytes(data.subrange(8, 16)),
                payload: data.subrange(20, 20 + plen),
            };
            match spec_decode_messages(data.subrange(20 + plen, data.len() as int)) {
                Option::None => None,
                Option::Some(rest) => Some(seq![m] + rest),
            }
        }
    }
}

/// The time-index-file record of one entry.
pub open spec fn spec_encode_time_index(t: TimeIndex) -> Seq<u8> {
    spec_u64_to_le_bytes(t.timestamp) + spec_u64_to_le_bytes(t.offset)
}

/// The time-index-file image of a run of entries, in order.
pub open spec fn spec_encode_time_indexes(ts: Seq<TimeIndex>) -> Seq<u8>
    decreases ts.len(),
{
    if ts.len() == 0 {
        Seq::empty()
    } else {
        spec_encode_time_index(ts[0]) + spec_encode_time_indexes(ts.drop_first())
    }
}

/// The entries a time-index-file image holds, or `None` when the bytes are not
/// a whole number of 16-byte entries.
pub open spec fn spec_decode_time_indexes(data: Seq<u8>) -> Option<Seq<TimeIndex>>
    decreases data.len(),
{
    if data.len() == 0 {
        Some(Seq::empty())
    } else if data.len() < 16 {
        None
    } else {
        let t = TimeIndex {
            timestamp: spec_u64_from_le_bytes(data.subrange(0, 8)),
            offset: spec_u64_from_le_bytes(data.subrange(8, 16)),
        };
        match spec_decode_time_indexes(data.subrange(16, data.len() as int)) {
            Option::None => None,
            Option::Some(rest) => Some(seq![t] + rest),
        }
    }
}

/// The values of a run of owned messages.
pub open spec fn owned_views(s: Seq<Message>) -> Seq<MessageView> {
    s.map(|i: int, m: Message| m@)
}

/// Taking values commutes with appending one message.
pub proof fn lemma_owned_views_push(s: Seq<Message>, m: Message)
    ensures
        owned_views(s.push(m)) == owned_views(s).push(m@),
{
    assert forall|i: int| 0 <= i < s.len() + 1 implies owned_views(s.push(m))[i] == owned_views(
        s,
    ).push(m@)[i] by {
        if i < s.len() {
            assert(s.push(m)[i] == s[i]);
        } else {
            assert(s.push(m)[i] == m);
        }
    }
    assert(owned_views(s.push(m)) =~= owned_views(s).push(m@));
}

/// Encoding a run one message at a time appends that message's record.
pub proof fn lemma_encode_messages_push(ms: Seq<MessageView>, m: MessageView)
    ensures
        spec_encode_messages(ms.push(m)) == spec_encode_messages(ms) + spec_encode_message(m),
    decreases ms.len(),
{
    if ms.len() == 0 {
        assert(ms.push(m)[0] == m);
        assert(ms.push(m).drop_first() =~= Seq::<MessageView>::empty());
        assert(spec_encode_messages(ms.push(m).drop_first()) == Seq::<u8>::empty());
        assert(spec_encode_messages(ms) == Seq::<u8>::empty());
        assert(spec_encode_messages(ms.push(m)) =~= spec_encode_messages(ms)
            + spec_encode_message(m));
    } else {
        assert(ms.push(m).drop_first() =~= ms.drop_first().push(m));
        lemma_encode_messages_push(ms.drop_first(), m);
        assert(ms.push(m)[0] == ms[0]);
        assert(spec_encode_messages(ms.push(m)) == spec_encode_message(ms[0])
            + spec_encode_messages(ms.drop_first().push(m)));
        assert(spec_encode_messages(ms) == spec_encode_message(ms[0]) + spec_encode_messages(
            ms.drop_first(),
        ));
        assert(spec_encode_messages(ms.push(m)) =~= spec_encode_messages(ms)
            + spec_encode_message(m));
    }
}

/// Encoding a run one entry at a time appends that entry's record.
pub proof fn lemma_encode_time_indexes_push(ts: Seq<TimeIndex>, t: TimeIndex)
    ensures
        spec_encode_time_indexes(ts.push(t)) == spec_encode_time_indexes(ts)
            + spec_encode_time_index(t),
    decreases ts.len(),
{
    if ts.len() == 0 {
        assert(ts.push(t)[0] == t);
        assert(ts.push(t).drop_first() =~= Seq::<TimeIndex>::empty());
        assert(spec_encode_time_indexes(ts.push(t).drop_first()) == Seq::<u8>::empty());
        assert(spec_encode_time_indexes(ts) == Seq::<u8>::empty());
        assert(spec_encode_time_indexes(ts.push(t)) =~= spec_encode_time_indexes(ts)
            + spec_encode_time_index(t));
    } else {
        assert(ts.push(t).drop_first() =~= ts.drop_first().push(t));
        lemma_encode_time_indexes_push(ts.drop_first(), t);
        assert(ts.push(t)[0] == ts[0]);
        assert(spec_encode_time_indexes(ts.push(t)) == spec_encode_time_index(ts[0])
            + spec_encode_time_indexes(ts.drop_first().push(t)));
        assert(spec_encode_time_indexes(ts) == spec_encode_time_index(ts[0])
            + spec_encode_time_indexes(ts.drop_first()));
        assert(spec_encode_time_indexes(ts.push(t)) =~= spec_encode_time_indexes(ts)
            + spec_encode_time_index(t));
    }
}

/// Round trip of the log format: decoding an encoded run of well-sized
/// messages gives back exactly that run.
pub proof fn lemma_messages_round_trip(ms: Seq<MessageView>)
    requires
        all_sized(ms),
    ensures
        spec_decode_messages(spec_encode_messages(ms)) == Some(ms),
    decreases ms.len(),
{
    lemma_auto_spec_u64_to_from_le_bytes();
    lemma_auto_spec_u32_to_from_le_bytes();
    if ms.len() == 0 {
        assert(spec_encode_messages(ms).len() == 0);
        assert(spec_decode_messages(spec_encode_messages(ms)) == Some(Seq::<MessageView>::empty()));
        assert(ms =~= Seq::<MessageView>::empty());
    } else {
        let m = ms[0];
        let rest = ms.drop_first();
        assert(message_sized(m));
        let head = spec_encode_message(m);
        let tail = spec_encode_messages(rest);
        let data = spec_encode_messages(ms);
        assert(data == head + tail);
        let plen = m.payload.len() as int;
        assert(head.len() == 20 + plen);
        assert(data.subrange(0, 8) =~= spec_u64_to_le_bytes(m.offset));
        assert(data.subrange(8, 16) =~= spec_u64_to_le_bytes(m.timestamp));
        assert(data.subrange(16, 20) =~= spec_u32_to_le_bytes(m.payload.len() as u32));
        assert(spec_u32_from_le_bytes(data.subrange(16, 20)) == plen);
        assert(data.subrange(20, 20 + plen) =~= m.payload);
        assert(data.subrange(20 + plen, data.len() as int) =~= tail);
        assert(all_sized(rest)) by {
            assert(forall|i: int|
                0 <= i < rest.len() ==> rest[i] == ms[i + 1] && message_sized(#[trigger] rest[i]));
        }
        lemma_messages_round_trip(rest);
        assert(spec_decode_messages(data) == Some(seq![m] + rest));
        assert(seq![m] + rest =~= ms);
    }
}

/// Decoding distributes over the concatenation of two decodable images, as a
/// flush produces when it appends whole records at a record boundary.
pub proof fn lemma_decode_append(a: Seq<u8>, b: Seq<u8>)
    requires
        spec_decode_messages(a) is Some,
        spec_decode_messages(b) is Some,
    ensures
        spec_decode_messages(a + b) == Some(
            spec_decode_messages(a)->Some_0 + spec_decode_messages(b)->Some_0,
        ),
    decreases a.len(),
{
    if a.len() == 0 {
        assert(a + b =~= b);
        assert(spec_decode_messages(a)->Some_0 =~= Seq::<MessageView>::empty());
        assert(spec_decode_messages(a)->Some_0 + spec_decode_messages(b)->Some_0
            =~= spec_decode_messages(b)->Some_0);
    } else {
        assert(a.len() >= 20);
        let plen = spec_u32_from_le_bytes(a.subrange(16, 20)) as int;
        assert(a.len() >= 20 + plen);
        let ra = a.subrange(20 + plen, a.len() as int);
        assert(spec_decode_messages(ra) is Some);
        let ab = a + b;
        assert(ab.subrange(0, 8) =~= a.subrange(0, 8));
        assert(ab.subrange(8, 16) =~= a.subrange(8, 16));
        assert(ab.subrange(16, 20) =~= a.subrange(16, 20));
        assert(ab.subrange(20, 20 + plen) =~= a.subrange(20, 20 + plen));
        assert(ab.subrange(20 + plen, ab.len() as int) =~= ra + b);
        lemma_decode_append(ra, b);
        let m = MessageView {
            offset: spec_u64_from_le_bytes(a.subrange(0, 8)),
            timestamp: spec_u64_from_le_bytes(a.subrange(8, 16)),
            payload: a.subrange(20, 20 + plen),
        };
        let ra_dec = spec_decode_messages(ra)->Some_0;
        let b_dec = spec_decode_messages(b)->Some_0;
        assert(spec_decode_messages(a) == Some(seq![m] + ra_dec));
        assert(spec_decode_messages(ab) == Some(seq![m] + (ra_dec + b_dec)));
        assert(seq![m] + (ra_dec + b_dec) =~= (seq![m] + ra_dec) + b_dec);
    }
}

/// Round trip of the time-index format.
pub proof fn lemma_time_indexes_round_trip(ts: Seq<TimeIndex>)
    ensures
        spec_decode_time_indexes(spec_encode_time_indexes(ts)) == Some(ts),
    decreases ts.len(),
{
    lemma_auto_spec_u64_to_from_le_bytes();
    if ts.len() == 0 {
        assert(spec_encode_time_indexes(ts).len() == 0);
        assert(ts =~= Seq::<TimeIndex>::empty());
    } else {
        let t = ts[0];
        let rest = ts.drop_first();
        let data = spec_encode_time_indexes(ts);
        assert(data == spec_encode_time_index(t) + spec_encode_time_indexes(rest));
        assert(data.subrange(0, 8) =~= spec_u64_to_le_bytes(t.timestamp));
        assert(data.subrange(8, 16) =~= spec_u64_to_le_bytes(t.offset));
        assert(data.subrange(16, data.len() as int) =~= spec_encode_time_indexes(rest));
        lemma_time_indexes_round_trip(rest);
        assert(spec_decode_time_indexes(data) == Some(seq![t] + rest));
        assert(seq![t] + rest =~= ts);
    }
}

/// Each record takes at least 20 bytes, so a decoded run is at most a
/// twentieth as long as its image.
pub proof fn lemma_decode_messages_count(data: Seq<u8>, ms: Seq<MessageView>)
    requires
        spec_decode_messages(data) == Some(ms),
    ensures
        20 * ms.len() <= data.len(),
    decreases data.len(),
{
    if data.len() == 0 {
        assert(ms =~= Seq::<MessageView>::empty());
    } else {
        assert(data.len() >= 20);
        let plen = spec_u32_from_le_bytes(data.subrange(16, 20)) as int;
        assert(data.len() >= 20 + plen);
        let m = MessageView {
            offset: spec_u64_from_le_bytes(data.subrange(0, 8)),
            timestamp: spec_u64_from_le_bytes(data.subrange(8, 16)),
            payload: data.subrange(20, 20 + plen),
        };
        let rest_data = data.subrange(20 + plen, data.len() as int);
        assert(spec_decode_messages(rest_data) is Some);
        let rest = spec_decode_messages(rest_data)->Some_0;
        assert(ms == seq![m] + rest);
        lemma_decode_messages_count(rest_data, rest);
        assert(ms.len() == 1 + rest.len());
        assert(ms[0] == m);
        assert(m.payload.len() == plen);
        assert(plen <= u32::MAX);
        assert(rest_data.len() == data.len() - 20 - plen);
    }
}

/// The log-file record of one message.
pub fn encode_message(m: &Message) -> (v: Vec<u8>)
    requires
        message_sized(m@),
    ensures
        v@ == spec_encode_message(m@),
{
    let mut v = u64_to_le_bytes(m.offset);
    let mut ts = u64_to_le_bytes(m.timestamp);
    v.append(&mut ts);
    let mut ln = u32_to_le_bytes(m.payload.len() as u32);
    v.append(&mut ln);
    let mut p = slice_to_vec(m.payload.as_slice());
    v.append(&mut p);
    assert(v@ =~= spec_encode_message(m@));
    v
}

/// The time-index-file record of one entry.
pub fn encode_time_index(t: &TimeIndex) -> (v: Vec<u8>)
    ensures
        v@ == spec_encode_time_index(*t),
{
    let mut v = u64_to_le_bytes(t.timestamp);
    let mut of = u64_to_le_bytes(t.offset);
    v.append(&mut of);
    assert(v@ =~= spec_encode_time_index(*t));
    v
}

/// Decodes a whole log-file image into its run of messages; fails exactly when
/// the bytes are not a whole run of well-formed records.
pub fn decode_messages(data: &[u8]) -> (r: Result<Vec<Message>, Error>)
    ensures
        match r {
            Ok(ms) => spec_decode_messages(data@) == Some(owned_views(ms@)) && 20 * ms@.len()
                <= data@.len(),
            Err(e) => spec_decode_messages(data@) is None && e == Error::CannotReadMessage,
        },
{
    let ghost whole = data@;
    let mut pos: usize = 0;
    let mut out: Vec<Message> = Vec::new();
    proof {
        assert(whole.subrange(0, whole.len() as int) =~= whole);
        assert(owned_views(out@) =~= Seq::<MessageView>::empty());
        if spec_decode_messages(whole) is Some {
            let r = spec_decode_messages(whole)->Some_0;
            assert(owned_views(out@) + r =~= r);
        }
    }
    while pos < data.len()
        invariant
            pos <= data@.len(),
            20 * out@.len() <= pos,
            spec_decode_messages(whole) == (match spec_decode_messages(
                whole.subrange(pos as int, whole.len() as int),
            ) {
                Option::None => Option::<Seq<MessageView>>::None,
                Option::Some(rest) => Option::Some(owned_views(out@) + rest),
            }),
            whole == data@,
        decreases data@.len() - pos,
    {
        let ghost tail = whole.subrange(pos as int, whole.len() as int);
        let rem = data.len() - pos;
        if rem < 20 {
            assert(spec_decode_messages(tail) is None);
            return Err(Error::CannotReadMessage);
        }
        let offset = u64_from_le_bytes(slice_subrange(data, pos, pos + 8));
        let timestamp = u64_from_le_bytes(slice_subrange(data, pos + 8, pos + 16));
        let plen32 = u32_from_le_bytes(slice_subrange(data, pos + 16, pos + 20));
        assert(data@.subrange(pos as int, pos + 8) =~= tail.subrange(0, 8));
        assert(data@.subrange(pos + 8, pos + 16) =~= tail.subrange(8, 16));
        assert(data@.subrange(pos + 16, pos + 20) =~= tail.subrange(16, 20));
        if (plen32 as usize) > rem - 20 {
            assert(tail.len() < 20 + plen32);
            assert(spec_decode_messages(tail) is None);
            return Err(Error::CannotReadMessage);
        }
        let plen = plen32 as usize;
        let payload = slice_to_vec(slice_subrange(data, pos + 20, pos + 20 + plen));
        let m = Message { offset, timestamp, payload };
        assert(data@.subrange(pos + 20, pos + 20 + plen) =~= tail.subrange(20, 20 + plen));
        let ghost new_tail = whole.subrange(pos + 20 + plen, whole.len() as int);
        assert(tail.subrange(20 + plen, tail.len() as int) =~= new_tail);
        assert(spec_decode_messages(tail) == (match spec_decode_messages(new_tail) {
            Option::None => Option::<Seq<MessageView>>::None,
            Option::Some(rest) => Option::Some(seq![m@] + rest),
        }));
        let ghost old_out = out@;
        out.push(m);
        pos = pos + 20 + plen;
        assert(owned_views(out@) =~= owned_views(old_out).push(m@));
        assert(forall|rest: Seq<MessageView>|
            owned_views(old_out) + (#[trigger] (seq![m@] + rest)) =~= owned_views(out@) + rest);
    }
    assert(whole.subrange(pos as int, whole.len() as int) =~= Seq::<u8>::empty());
    assert(spec_decode_messages(whole) == Some(owned_views(out@) + Seq::<MessageView>::empty()));
    assert(owned_views(out@) + Seq::<MessageView>::empty() =~= owned_views(out@));
    Ok(out)
}

/// Decodes a whole time-index-file image into its run of entries; fails
/// exactly when the bytes are not a whole number of 16-byte entries.
pub fn decode_time_indexes(data: &[u8]) -> (r: Result<Vec<TimeIndex>, Error>)
    ensures
        match r {
            Ok(ts) => spec_decode_time_indexes(data@) == Some(ts@),
            Err(e) => spec_decode_time_indexes(data@) is None && e == Error::CannotReadTimeIndex,
        },
{
    let ghost whole = data@;
    let mut pos: usize = 0;
    let mut out: Vec<TimeIndex> = Vec::new();
    proof {
        assert(whole.subrange(0, whole.len() as int) =~= whole);
        if spec_decode_time_indexes(whole) is Some {
            let r = spec_decode_time_indexes(whole)->Some_0;
            assert(out@ + r =~= r);
        }
    }
    while pos < data.len()
        invariant
            pos <= data@.len(),
            spec_decode_time_indexes(whole) == (match spec_decode_time_indexes(
                whole.subrange(pos as int, whole.len() as int),
            ) {
                Option::None => Option::<Seq<TimeIndex>>::None,
                Option::Some(rest) => Option::Some(out@ + rest),
            }),
            whole == data@,
        decreases data@.len() - pos,
    {
        let ghost tail = whole.subrange(pos as int, whole.len() as int);
        let rem = data.len() - pos;
        if rem < 16 {
            assert(spec_decode_time_indexes(tail) is None);
            return Err(Error::CannotReadTimeIndex);
        }
        let timestamp = u64_from_le_bytes(slice_subrange(data, pos, pos + 8));
        let offset = u64_from_le_bytes(slice_subrange(data, pos + 8, pos + 16));
        assert(data@.subrange(pos as int, pos + 8) =~= tail.subrange(0, 8));
        assert(data@.subrange(pos + 8, pos + 16) =~= tail.subrange(8, 16));
        let t = TimeIndex { timestamp, offset };
        let ghost new_tail = whole.subrange(pos + 16, whole.len() as int);
        assert(tail.subrange(16, tail.len() as int) =~= new_tail);
        assert(spec_decode_time_indexes(tail) == (match spec_decode_time_indexes(new_tail) {
            Option::None => Option::<Seq<TimeIndex>>::None,
            Option::Some(rest) => Option::Some(seq![t] + rest),
        }));
        let ghost old_out = out@;
        out.push(t);
        pos = pos + 16;
        assert(forall|rest: Seq<TimeIndex>|
            old_out + (#[trigger] (seq![t] + rest)) =~= out@ + rest);
    }
    assert(whole.subrange(pos as int, whole.len() as int) =~= Seq::<u8>::empty());
    assert(spec_decode_time_indexes(whole) == Some(out@ + Seq::<TimeIndex>::empty()));
    assert(out@ + Seq::<TimeIndex>::empty() =~= out@);
    Ok(out)
}

} // verus!
