use vstd::prelude::*;

verus! {

/// Mathematical value of a message: its offset, timestamp and payload bytes.
pub ghost struct MessageView {
    pub offset: u64,
    pub timestamp: u64,
    pub payload: Seq<u8>,
}

/// An immutable record, the atomic unit of storage. The offset is assigned by
/// the append path and is unique and monotonically increasing within a
/// partition; the timestamp and payload are supplied by the producer.
pub struct Message {
    pub offset: u64,
    pub timestamp: u64,
    pub payload: Vec<u8>,
}

impl View for Message {
    type V = MessageView;

    open spec fn view(&self) -> MessageView {
        MessageView { offset: self.offset, timestamp: self.timestamp, payload: self.payload@ }
    }
}

/// Number of bytes a message occupies in a segment log file: an 8-byte offset,
/// an 8-byte timestamp, a 4-byte payload length, and the payload itself.
pub open spec fn message_size(m: MessageView) -> int {
    20 + m.payload.len() as int
}

/// A message whose payload length field fits in the 4-byte slot of the log
/// format and whose record size fits in the byte counters.
pub open spec fn message_sized(m: MessageView) -> bool {
    message_size(m) <= u32::MAX
}

/// Total log-file size of a run of messages.
pub open spec fn total_size(ms: Seq<MessageView>) -> int
    decreases ms.len(),
{
    if ms.len() == 0 {
        0
    } else {
        message_size(ms[0]) + total_size(ms.drop_first())
    }
}

pub open spec fn all_sized(ms: Seq<MessageView>) -> bool {
    forall|i: int| 0 <= i < ms.len() ==> message_sized(#[trigger] ms[i])
}

/// A run's total size grows by one record per message appended.
pub proof fn lemma_total_size_push(ms: Seq<MessageView>, m: MessageView)
    ensures
        total_size(ms.push(m)) == total_size(ms) + message_size(m),
    decreases ms.len(),
{
    if ms.len() == 0 {
        assert(ms.push(m)[0] == m);
        assert(ms.push(m).drop_first() =~= Seq::<MessageView>::empty());
        assert(total_size(ms.push(m).drop_first()) == 0);
    } else {
        assert(ms.push(m)[0] == ms[0]);
        assert(ms.push(m).drop_first() =~= ms.drop_first().push(m));
        lemma_total_size_push(ms.drop_first(), m);
    }
}

/// A run's total size splits at any point.
pub proof fn lemma_total_size_split(ms: Seq<MessageView>, i: int)
    requires
        0 <= i <= ms.len(),
    ensures
        total_size(ms) == total_size(ms.take(i)) + total_size(ms.skip(i)),
    decreases i,
{
    if i == 0 {
        assert(ms.take(0) =~= Seq::<MessageView>::empty());
        assert(ms.skip(0) =~= ms);
        assert(total_size(ms.take(0)) == 0);
    } else {
        let df = ms.drop_first();
        lemma_total_size_split(df, i - 1);
        assert(ms.take(i)[0] == ms[0]);
        assert(ms.take(i).drop_first() =~= df.take(i - 1));
        assert(total_size(ms.take(i)) == message_size(ms[0]) + total_size(df.take(i - 1)));
        assert(ms.skip(i) =~= df.skip(i - 1));
        assert(total_size(ms) == message_size(ms[0]) + total_size(df));
    }
}

/// Every record takes at least its 20-byte header.
pub proof fn lemma_total_size_nonneg(ms: Seq<MessageView>)
    ensures
        total_size(ms) >= 20 * ms.len(),
    decreases ms.len(),
{
    if ms.len() == 0 {
    } else {
        lemma_total_size_nonneg(ms.drop_first());
    }
}

impl Message {
    /// A message as handed in by a producer; the real offset is assigned when
    /// the message is appended to a segment.
    pub fn new(timestamp: u64, payload: Vec<u8>) -> (m: Message)
        ensures
            m@ == (MessageView { offset: 0, timestamp, payload: payload@ }),
    {
        Message { offset: 0, timestamp, payload }
    }

    /// On-disk size of this message in a segment log file.
    pub fn size_bytes(&self) -> (n: u32)
        requires
            message_sized(self@),
        ensures
            n == message_size(self@),
    {
        20 + self.payload.len() as u32
    }
}

/// A sparse timestamp-to-offset marker, recorded periodically alongside
/// messages to bound the cost of time-based seeks.
#[derive(Clone, Copy, PartialEq, Eq, Structural, Debug)]
pub struct TimeIndex {
    pub timestamp: u64,
    pub offset: u64,
}

} // verus!
