use vstd::prelude::*;
use crate::message::{Message, MessageView};
use std::sync::Arc;

verus! {

#[verifier::external_type_specification]
#[verifier::external_body]
#[verifier::reject_recursive_types(T)]
pub struct ExAllocRingBuffer<T>(ringbuffer::AllocRingBuffer<T>);

/// The messages a segment cache holds, oldest first.
pub uninterp spec fn cache_contents(rb: ringbuffer::AllocRingBuffer<Arc<Message>>) -> Seq<MessageView>;

/// The fixed capacity the cache was created with.
pub uninterp spec fn cache_capacity(rb: ringbuffer::AllocRingBuffer<Arc<Message>>) -> nat;

/// The values of a run of shared messages.
pub open spec fn msg_views(s: Seq<Arc<Message>>) -> Seq<MessageView> {
    s.map(|i: int, a: Arc<Message>| a@)
}

/// Relies on AllocRingBuffer::with_capacity: a new, empty ring buffer with the
/// given fixed capacity. It panics when the capacity is zero or not a power of
/// two, which the precondition rules out.
#[verifier::external_body]
pub(crate) fn cache_new(capacity: usize) -> (rb: ringbuffer::AllocRingBuffer<Arc<Message>>)
    requires
        crate::config::is_pow2(capacity as nat),
    ensures
        cache_contents(rb) == Seq::<MessageView>::empty(),
        cache_capacity(rb) == capacity as nat,
{
    ringbuffer::AllocRingBuffer::with_capacity(capacity)
}

/// Relies on RingBufferWrite::push for AllocRingBuffer: appends at the back
/// and, when the buffer is full, drops the oldest element first.
#[verifier::external_body]
pub(crate) fn cache_push(rb: &mut ringbuffer::AllocRingBuffer<Arc<Message>>, m: Arc<Message>)
    ensures
        cache_capacity(*final(rb)) == cache_capacity(*old(rb)),
        cache_contents(*final(rb)) == (if cache_contents(*old(rb)).len()
            == cache_capacity(*old(rb)) {
            cache_contents(*old(rb)).drop_first().push(m@)
        } else {
            cache_contents(*old(rb)).push(m@)
        }),
{
    ringbuffer::RingBufferWrite::push(rb, m);
}

/// Relies on RingBufferExt::to_vec for AllocRingBuffer: hands the elements out,
/// oldest first. Cloning an Arc clones the handle, never the message.
#[verifier::external_body]
pub(crate) fn cache_to_vec(rb: &ringbuffer::AllocRingBuffer<Arc<Message>>) -> (v: Vec<Arc<Message>>)
    ensures
        msg_views(v@) == cache_contents(*rb),
{
    ringbuffer::RingBufferExt::to_vec(rb)
}

} // verus!
