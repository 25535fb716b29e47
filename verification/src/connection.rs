//! The connection-side framing logic: an accumulating receive buffer,
//! and the decision of reading one complete frame at a time out of it.
//! The socket itself stays outside; it hands raw chunks in and takes
//! frames out.

use crate::resp::{frame_view, RESPParser, RESPType};
use crate::wire::{lemma_parse_consumed, spec_parse, ProtocolError, SpecParse};
use vstd::prelude::*;

verus! {

/// The receive buffer of one connection. Bytes arrive in arbitrary
/// fragments; a frame leaves the buffer only once it is complete, and
/// the unconsumed remainder stays for the next attempt.
pub struct RecvBuffer {
    data: Vec<u8>,
}

impl View for RecvBuffer {
    type V = Seq<u8>;

    closed spec fn view(&self) -> Seq<u8> {
        self.data@
    }
}

impl RecvBuffer {
    /// An empty buffer.
    pub fn new() -> (r: RecvBuffer)
        ensures
            r@ == Seq::<u8>::empty(),
    {
        RecvBuffer { data: Vec::new() }
    }

    /// Append newly received bytes.
    #[verifier::loop_isolation(false)]
    pub fn push_chunk(&mut self, chunk: &Vec<u8>)
        ensures
            final(self)@ == old(self)@ + chunk@,
    {
        let mut i: usize = 0;
        while i < chunk.len()
            invariant
                i <= chunk@.len(),
                self.data@ == old(self).data@ + chunk@.take(i as int),
            decreases chunk@.len() - i,
        {
            self.data.push(chunk[i]);
            proof {
                assert(old(self).data@ + chunk@.take(i as int + 1) =~= (old(self).data@
                    + chunk@.take(i as int)).push(chunk@[i as int]));
            }
            i = i + 1;
        }
        proof {
            assert(chunk@.take(chunk@.len() as int) =~= chunk@);
        }
    }

    /// Whether nothing is buffered. On a peer close, an empty buffer is
    /// a graceful shutdown; a non-empty one is a connection cut in the
    /// middle of a frame.
    pub fn is_empty(&self) -> (r: bool)
        ensures
            r == (self@.len() == 0),
    {
        self.data.len() == 0
    }

    /// Attempt to decode one frame from the front of the buffer. A
    /// complete frame is removed from the buffer and returned; on
    /// "incomplete" the buffer is untouched and the caller reads more
    /// bytes; a protocol error leaves the buffer untouched too, but its
    /// framing can no longer be trusted and the connection is torn
    /// down.
    #[verifier::loop_isolation(false)]
    pub fn try_next_frame(&mut self) -> (r: Result<Option<RESPType>, ProtocolError>)
        ensures
            match spec_parse(old(self)@) {
                SpecParse::Complete(f, c) => match r {
                    Ok(Some(fr)) => frame_view(fr) == f && final(self)@ == old(self)@.skip(
                        c as int,
                    ),
                    _ => false,
                },
                SpecParse::Incomplete => r == Ok::<Option<RESPType>, ProtocolError>(None)
                    && final(self)@ == old(self)@,
                SpecParse::Fail(e) => r == Err::<Option<RESPType>, ProtocolError>(e)
                    && final(self)@ == old(self)@,
            },
    {
        let ghost d0 = self.data@;
        proof {
            assert(d0.skip(0) =~= d0);
            lemma_parse_consumed(d0);
        }
        let mut pos: usize = 0;
        match RESPParser::parse(&self.data, &mut pos) {
            Ok(Some(f)) => {
                let mut rest: Vec<u8> = Vec::new();
                let mut i = pos;
                while i < self.data.len()
                    invariant
                        pos <= i <= d0.len(),
                        self.data@ == d0,
                        rest@ == d0.subrange(pos as int, i as int),
                    decreases d0.len() - i,
                {
                    rest.push(self.data[i]);
                    proof {
                        assert(rest@ =~= d0.subrange(pos as int, i as int + 1));
                    }
                    i = i + 1;
                }
                proof {
                    assert(d0.subrange(pos as int, d0.len() as int) =~= d0.skip(pos as int));
                }
                self.data = rest;
                Ok(Some(f))
            },
            Ok(None) => Ok(None),
            Err(e) => Err(e),
        }
    }
}

} // verus!
