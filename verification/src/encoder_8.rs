//! The PPMd8 (PPMdI) encoder: bytes in, compressed bytes out into a buffer.

use vstd::prelude::*;
use crate::error::{Error, RestoreMethod};
use crate::ppmd8::{Ppmd8, PPMD8_MAX_ORDER, PPMD8_MIN_ORDER};
use crate::range_coding::{RangeEncoder, normalized, shifted_out, NORMALIZE_STEPS};
use crate::ppmd8_coding::lemma_fresh_encode_step;

verus! {

/// An encoder of PPMd8 (PPMdI) compressed data; what it produces collects in an
/// output buffer.
pub struct Ppmd8Encoder {
    ppmd: Ppmd8,
    rc: RangeEncoder,
}

impl Ppmd8Encoder {
    /// The compressed bytes produced so far and not yet taken.
    pub closed spec fn output(&self) -> Seq<u8> {
        self.rc.output@
    }

    /// The coder's `low` register, which `flush` writes out.
    pub closed spec fn pending_low(&self) -> u32 {
        self.rc.low
    }

    /// The coder's `range` register.
    pub closed spec fn pending_range(&self) -> u32 {
        self.rc.range
    }

    /// The context model that decides each symbol's interval.
    pub closed spec fn model(&self) -> Ppmd8 {
        self.ppmd
    }

    /// The range encoder: its registers and the bytes it produced.
    pub closed spec fn coder(&self) -> RangeEncoder {
        self.rc
    }

    /// Whether encoding the byte `x` may lead from `self` to `after`: an encoding
    /// step of the model with the coder (`Ppmd8::encode_step`).
    pub closed spec fn step(self, x: u8, after: Self) -> bool {
        self.ppmd.encode_step(self.rc, after.ppmd, after.rc, x as i32)
    }

    /// Whether encoding the bytes `xs` in turn passes through `states`: from `self` as
    /// the first, each byte leading to the next.
    pub closed spec fn encodes_through(self, xs: Seq<u8>, states: Seq<Self>) -> bool {
        &&& states.len() == xs.len() + 1
        &&& states[0] == self
        &&& forall|i: int| #![trigger xs[i]] 0 <= i < xs.len() ==> states[i].step(xs[i], states[i + 1])
    }

    /// Whether encoding the bytes `xs` in turn may lead from `self` to `after`.
    pub closed spec fn encodes(self, xs: Seq<u8>, after: Self) -> bool {
        exists|states: Seq<Self>| #[trigger] self.encodes_through(xs, states) && states.last() == after
    }

    /// One more byte extends a run.
    proof fn lemma_through_push(self, xs: Seq<u8>, states: Seq<Self>, x: u8, after: Self)
        requires
            self.encodes_through(xs, states),
            states.last().step(x, after),
        ensures
            self.encodes_through(xs.push(x), states.push(after)),
    {
        let s2 = xs.push(x);
        let t2 = states.push(after);
        assert forall|i: int| 0 <= i < s2.len() implies #[trigger] t2[i].step(s2[i], t2[i + 1]) by {
            if i < xs.len() {
                assert(s2[i] == xs[i]);
                assert(t2[i] == states[i] && t2[i + 1] == states[i + 1]);
            } else {
                assert(t2[i] == states.last());
            }
        }
    }

    /// Whether nothing has been encoded yet: the model is fresh (`Ppmd8::is_fresh`)
    /// and the coder holds the full interval from 0.
    pub closed spec fn is_fresh(&self) -> bool {
        &&& self.ppmd.is_fresh()
        &&& self.rc.low == 0
        &&& self.rc.range == 0xFFFF_FFFF
    }

    /// Creates a new encoder of model order `order` with a model of `mem_size` bytes.
    /// An order outside `PPMD8_MIN_ORDER..=PPMD8_MAX_ORDER` gives `InvalidParameter`;
    /// a failed allocation gives `InternalError`.
    pub fn new(order: u32, mem_size: u32, restore_method: RestoreMethod) -> (r: Result<Self, Error>)
        ensures
            !(PPMD8_MIN_ORDER <= order <= PPMD8_MAX_ORDER) ==> (r matches Err(
                Error::InvalidParameter,
            )),
            PPMD8_MIN_ORDER <= order <= PPMD8_MAX_ORDER ==> (r is Ok || r matches Err(
                Error::InternalError(_),
            )),
            r matches Ok(e) ==> e.output() == Seq::<u8>::empty() && e.pending_low() == 0,
            r matches Ok(e) ==> (2048 <= mem_size <= u32::MAX - 3 ==> e.is_fresh()),
            r matches Err(Error::InternalError(m)) ==> m@ == "Failed to allocate memory"@,
    {
        if !(PPMD8_MIN_ORDER <= order && order <= PPMD8_MAX_ORDER) {
            return Err(Error::InvalidParameter);
        }
        let ppmd: Ppmd8 = match Ppmd8::construct(mem_size, order, restore_method) {
            Ok(p) => p,
            Err(_) => return Err(Error::InternalError("Failed to allocate memory")),
        };
        Ok(Ppmd8Encoder { ppmd, rc: RangeEncoder::new(Vec::new()) })
    }

    /// Encodes every byte of `buf`; gives the number of bytes taken, which is all of
    /// them. The output only grows. From a fresh encoder, the first byte `x` narrows
    /// the coder to `x * 0x00FF_00FF` and a range of 0x00FF_00FF, the share of one of
    /// the root's 257 counts, and the bytes that renormalising shifts out come first.
    pub fn write(&mut self, buf: &[u8]) -> (r: usize)
        ensures
            r == buf@.len(),
            final(self).output().len() >= old(self).output().len(),
            final(self).output().subrange(0, old(self).output().len() as int) == old(
                self,
            ).output(),
            final(self).model().layout_kept(&old(self).model()),
            buf@.len() == 0 ==> *final(self) == *old(self),
            old(self).encodes(buf@, *final(self)),
            old(self).is_fresh() && buf@.len() >= 1 ==> {
                let low1 = ((buf@[0] as int) * 0x00FF_00FF) as u32;
                let first = old(self).output() + shifted_out(low1, 0x00FF_00FF, NORMALIZE_STEPS as nat);
                &&& final(self).output().len() >= first.len()
                &&& final(self).output().subrange(0, first.len() as int) == first
                &&& buf@.len() == 1 ==> final(self).pending_low() == normalized(
                    low1,
                    0x00FF_00FF,
                    NORMALIZE_STEPS as nat,
                ).0
            },
    {
        let ghost mut states: Seq<Ppmd8Encoder> = seq![*old(self)];
        proof {
            assert(old(self).encodes_through(buf@.subrange(0, 0), states));
        }
        if buf.len() == 0 {
            proof {
                self.ppmd.lemma_layout_kept(&self.ppmd);
                assert(buf@.subrange(0, 0) =~= buf@);
            }
            return 0;
        }
        let ghost fresh: bool = self.is_fresh();
        let ghost low1: u32 = ((buf@[0] as int) * 0x00FF_00FF) as u32;
        let ghost first: Seq<u8> = old(self).rc.output@ + shifted_out(
            low1,
            0x00FF_00FF,
            NORMALIZE_STEPS as nat,
        );
        let mut i: usize = 0;
        while i < buf.len()
            invariant
                i <= buf@.len(),
                self.rc.output@.len() >= old(self).rc.output@.len(),
                self.rc.output@.subrange(0, old(self).rc.output@.len() as int) == old(
                    self,
                ).rc.output@,
                i == 0 ==> *self == *old(self),
                fresh == old(self).is_fresh(),
                low1 == ((buf@[0] as int) * 0x00FF_00FF) as u32,
                first == old(self).rc.output@ + shifted_out(low1, 0x00FF_00FF, NORMALIZE_STEPS as nat),
                fresh && i >= 1 ==> self.rc.output@.len() >= first.len()
                    && self.rc.output@.subrange(0, first.len() as int) == first,
                fresh && i == 1 ==> self.rc.low == normalized(low1, 0x00FF_00FF, NORMALIZE_STEPS as nat).0,
                self.ppmd.keeps_layout(&old(self).ppmd),
                old(self).encodes_through(buf@.subrange(0, i as int), states),
                states.last() == *self,
            decreases buf@.len() - i,
        {
            let before: Ghost<Seq<u8>> = Ghost(self.rc.output@);
            let ghost prev: Ppmd8Encoder = *self;
            self.ppmd.encode_symbol(&mut self.rc, buf[i] as i32);
            proof {
                if fresh && i == 0 {
                    lemma_fresh_encode_step(&prev.ppmd, prev.rc, self.ppmd, self.rc, buf@[i as int]);
                }
                assert(prev.step(buf@[i as int], *self));
                old(self).lemma_through_push(buf@.subrange(0, i as int), states, buf@[i as int], *self);
                states = states.push(*self);
                assert(buf@.subrange(0, i as int).push(buf@[i as int]) =~= buf@.subrange(0, i + 1));
                assert(self.rc.output@.subrange(0, old(self).rc.output@.len() as int) =~= before@.subrange(
                    0,
                    old(self).rc.output@.len() as int,
                ));
                if fresh && i >= 1 {
                    assert(self.rc.output@.subrange(0, first.len() as int) =~= before@.subrange(
                        0,
                        first.len() as int,
                    ));
                }
                if fresh && i == 0 {
                    assert(self.rc.output@.subrange(0, first.len() as int) =~= first);
                }
            }
            i = i + 1;
        }
        proof {
            self.ppmd.lemma_layout_kept(&old(self).ppmd);
            assert(buf@.subrange(0, buf@.len() as int) =~= buf@);
        }
        buf.len()
    }

    /// Writes the four bytes of the coder's `low` register, most significant first,
    /// which ends the compressed stream.
    pub fn flush(&mut self)
        ensures
            final(self).output() == old(self).output() + seq![
                (old(self).pending_low() >> 24u32) as u8,
                (old(self).pending_low() >> 16u32) as u8,
                (old(self).pending_low() >> 8u32) as u8,
                old(self).pending_low() as u8,
            ],
            final(self).pending_low() == 0,
            final(self).pending_range() == old(self).pending_range(),
            final(self).model() == old(self).model(),
    {
        let _ = self.rc.flush();
    }

    /// Takes the compressed bytes produced so far, leaving the buffer empty.
    pub fn take_output(&mut self) -> (r: Vec<u8>)
        ensures
            r@ == old(self).output(),
            final(self).output() == Seq::<u8>::empty(),
            final(self).pending_low() == old(self).pending_low(),
            final(self).pending_range() == old(self).pending_range(),
            final(self).model() == old(self).model(),
    {
        let mut out: Vec<u8> = Vec::new();
        std::mem::swap(&mut out, &mut self.rc.output);
        out
    }
}

} // verus!
