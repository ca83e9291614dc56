//! Buffer from which the fast path hands out responses.

use crate::outside::{
    buffer_capacity, buffer_slice, extend_buffer, freeze_buffer, held_bytes, new_buffer,
    shared_bytes, split_buffer,
};
use bytes::{Bytes, BytesMut};
use vstd::prelude::*;

verus! {

/// The buffer is renewed when less than this is left of it.
pub const MIN_REMAINING: usize = 2048;

/// A buffer that responses are written into and handed out of without a copy. What is handed out
/// stays valid however long it is held.
pub struct ResponseArena {
    buf: BytesMut,
    chunk: usize,
}

impl View for ResponseArena {
    type V = Seq<u8>;

    /// The response written so far.
    closed spec fn view(&self) -> Seq<u8> {
        held_bytes(self.buf)
    }
}

impl ResponseArena {
    /// The size of a fresh buffer is one that an allocation can have.
    pub closed spec fn wf(self) -> bool {
        self.chunk <= isize::MAX
    }

    pub fn new(chunk: usize) -> (r: Self)
        requires
            chunk <= isize::MAX,
        ensures
            r.wf(),
            r@ == Seq::<u8>::empty(),
    {
        ResponseArena { buf: new_buffer(chunk), chunk }
    }

    /// Appends to the response.
    pub fn write(&mut self, part: &[u8])
        requires
            old(self).wf(),
            old(self)@.len() + part@.len() <= isize::MAX,
        ensures
            final(self).wf(),
            final(self)@ == old(self)@ + part@,
    {
        extend_buffer(&mut self.buf, part);
    }

    /// The response written so far.
    pub fn buf(&self) -> (r: &[u8])
        ensures
            r@ == self@,
    {
        buffer_slice(&self.buf)
    }

    /// Hands out the response and is ready for the next one.
    pub fn take(&mut self) -> (r: Bytes)
        requires
            old(self).wf(),
        ensures
            final(self).wf(),
            shared_bytes(r) == old(self)@,
            final(self)@ == Seq::<u8>::empty(),
    {
        let resp = freeze_buffer(split_buffer(&mut self.buf));
        if buffer_capacity(&self.buf) < MIN_REMAINING {
            self.buf = new_buffer(self.chunk);
        }
        resp
    }
}

} // verus!
