//! A connection adapter for a protocol library whose write contract is
//! synchronous and infallible: every written byte goes to an in-memory
//! buffer at once, a flush only marks the buffer pending, and the session
//! driver later takes the pending buffer and writes it to the socket in one
//! piece. No protocol packet is ever partially observable on the wire.

use vstd::prelude::*;

verus! {

pub struct BufferedConnection {
    buffer: Vec<u8>,
    flush_pending: bool,
}

/// The model of the adapter: the buffered bytes and the pending flag.
pub ghost struct BufferedConnectionV {
    pub buffer: Seq<u8>,
    pub flush_pending: bool,
}

impl View for BufferedConnection {
    type V = BufferedConnectionV;

    closed spec fn view(&self) -> BufferedConnectionV {
        BufferedConnectionV { buffer: self.buffer@, flush_pending: self.flush_pending }
    }
}

impl BufferedConnection {
    pub fn new() -> (r: Self)
        ensures
            r@.buffer == Seq::<u8>::empty(),
            !r@.flush_pending,
    {
        let r = BufferedConnection { buffer: Vec::new(), flush_pending: false };
        proof {
            assert(r@.buffer =~= Seq::<u8>::empty());
        }
        r
    }

    /// Accept one byte synchronously.
    pub fn write(&mut self, byte: u8)
        ensures
            final(self)@.buffer == old(self)@.buffer.push(byte),
            final(self)@.flush_pending == old(self)@.flush_pending,
    {
        self.buffer.push(byte);
    }

    /// Mark the buffered bytes as ready to send.
    pub fn flush(&mut self)
        ensures
            final(self)@.buffer == old(self)@.buffer,
            final(self)@.flush_pending,
    {
        self.flush_pending = true;
    }

    /// Take the buffer for sending, if a flush is pending: afterwards the
    /// buffer is empty and nothing is pending. The session driver calls
    /// this at protocol state boundaries and writes what it gets to the
    /// socket whole.
    pub fn take_pending(&mut self) -> (r: Option<Vec<u8>>)
        ensures
            old(self)@.flush_pending ==> (r matches Some(v) && v@ == old(self)@.buffer
                && final(self)@.buffer == Seq::<u8>::empty() && !final(self)@.flush_pending),
            !old(self)@.flush_pending ==> r is None && *final(self) == *old(self),
    {
        if self.flush_pending {
            let mut taken: Vec<u8> = Vec::new();
            core::mem::swap(&mut taken, &mut self.buffer);
            self.flush_pending = false;
            proof {
                assert(self@.buffer =~= Seq::<u8>::empty());
            }
            Some(taken)
        } else {
            None
        }
    }
}

} // verus!
