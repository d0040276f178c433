//! Taking the payload out of the framed bytes as they come in, block by block:
//! first the length, then as many bytes as the length says, and nothing of the
//! padding behind them.
use crate::chunk::{from_big_endian, read_big_endian};
use crate::codec::{is_whole, unframed, LENGTH_PREFIX_SIZE};
use vstd::prelude::*;

verus! {

/// What of a framed payload has come in so far.
pub struct Unframer {
    /// The bytes of the length prefix that have come in.
    prefix: Vec<u8>,
    /// The length of the payload; zero until the prefix is complete.
    length: u64,
    /// The number of bytes of the payload that have been handed out.
    emitted: u64,
    /// Every framed byte that has come in.
    received: Ghost<Seq<u8>>,
}

impl Unframer {
    /// Every framed byte that has come in, in order.
    pub closed spec fn received(&self) -> Seq<u8> {
        self.received@
    }

    /// The prefix, the length and the count agree with what has come in.
    pub closed spec fn wf(&self) -> bool {
        let received = self.received@;
        &&& self.prefix@ == received.take(
            if received.len() < LENGTH_PREFIX_SIZE {
                received.len() as int
            } else {
                LENGTH_PREFIX_SIZE as int
            },
        )
        &&& received.len() >= LENGTH_PREFIX_SIZE ==> self.length == from_big_endian(
            received.take(LENGTH_PREFIX_SIZE as int),
        )
        &&& self.emitted == unframed(received).len()
    }

    /// An unframer that nothing has come in to.
    pub fn new() -> (unframer: Unframer)
        ensures
            unframer.wf(),
            unframer.received() == Seq::<u8>::empty(),
    {
        let unframer = Unframer {
            prefix: Vec::with_capacity(LENGTH_PREFIX_SIZE),
            length: 0,
            emitted: 0,
            received: Ghost(Seq::empty()),
        };
        proof {
            assert(unframer.prefix@ =~= unframer.received@.take(0));
        }
        unframer
    }

    /// Whether the length and the whole payload have come in.
    pub fn is_complete(&self) -> (complete: bool)
        requires
            self.wf(),
        ensures
            complete == is_whole(self.received()),
    {
        self.prefix.len() == LENGTH_PREFIX_SIZE && self.emitted == self.length
    }

    /// Takes in the next framed bytes, and gives the bytes of the payload that they
    /// add to what was handed out before.
    pub fn accept(&mut self, block: &[u8]) -> (payload: Vec<u8>)
        requires
            old(self).wf(),
        ensures
            final(self).wf(),
            final(self).received() == old(self).received() + block@,
            unframed(old(self).received()).len() <= unframed(final(self).received()).len(),
            payload@ == unframed(final(self).received()).skip(
                unframed(old(self).received()).len() as int,
            ),
    {
        let ghost before = self.received@;
        let ghost handed = unframed(before).len() as int;
        let mut payload: Vec<u8> = Vec::new();
        let mut j: usize = 0;
        proof {
            assert(before + block@.take(0) =~= before);
            assert(unframed(before).skip(handed) =~= Seq::<u8>::empty());
        }
        while j < block.len()
            invariant
                j <= block@.len(),
                self.wf(),
                before == old(self).received@,
                handed == unframed(before).len(),
                self.received@ == before + block@.take(j as int),
                handed <= unframed(self.received@).len(),
                payload@ == unframed(self.received@).skip(handed),
            decreases block@.len() - j,
        {
            let byte = block[j];
            let ghost held = self.received@;
            let ghost next = held.push(byte);
            proof {
                assert(before + block@.take(j + 1) =~= next);
                if held.len() >= LENGTH_PREFIX_SIZE {
                    assert(next.take(LENGTH_PREFIX_SIZE as int) =~= held.take(
                        LENGTH_PREFIX_SIZE as int,
                    ));
                }
            }
            if self.prefix.len() < LENGTH_PREFIX_SIZE {
                self.prefix.push(byte);
                if self.prefix.len() == LENGTH_PREFIX_SIZE {
                    self.length = read_big_endian(self.prefix.as_slice());
                }
                proof {
                    assert(self.prefix@ =~= next.take(self.prefix@.len() as int));
                    assert(unframed(next) =~= Seq::<u8>::empty());
                    assert(unframed(held) =~= Seq::<u8>::empty());
                }
            } else if self.emitted < self.length {
                payload.push(byte);
                self.emitted += 1;
                proof {
                    assert(unframed(held) =~= held.skip(LENGTH_PREFIX_SIZE as int));
                    assert(unframed(next) =~= unframed(held).push(byte));
                    assert(unframed(next).skip(handed) =~= unframed(held).skip(handed).push(byte));
                }
            } else {
                proof {
                    assert(unframed(next) =~= unframed(held));
                }
            }
            self.received = Ghost(next);
            j += 1;
        }
        proof {
            assert(block@.take(block@.len() as int) =~= block@);
        }
        payload
    }
}

} // verus!
