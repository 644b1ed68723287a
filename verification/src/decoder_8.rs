//! The PPMd8 (PPMdI) decoder over an in-memory compressed input.

use vstd::prelude::*;
use crate::error::{Error, RestoreMethod};
use crate::ppmd8::{Ppmd8, PPMD8_MAX_ORDER, PPMD8_MIN_ORDER};
use crate::range_coding::{RangeDecoder, spec_be_u32, normalized, shifted_out, needs_shift, cut_range, NORMALIZE_STEPS};
use crate::ppmd8_coding::lemma_fresh_decode_step;

verus! {

/// A decoder of PPMd8 (PPMdI) compressed data.
pub struct Ppmd8Decoder {
    ppmd: Ppmd8,
    rc: RangeDecoder,
    finished: bool,
}

impl Ppmd8Decoder {
    /// The compressed input the decoder reads.
    pub closed spec fn input(&self) -> Seq<u8> {
        self.rc.input@
    }

    /// Whether the end mark has been decoded.
    pub closed spec fn is_finished(&self) -> bool {
        self.finished
    }

    /// The context model that decides each symbol's interval.
    pub closed spec fn model(&self) -> Ppmd8 {
        self.ppmd
    }

    /// How many input bytes the coder has read.
    pub closed spec fn position(&self) -> int {
        self.rc.pos as int
    }

    /// The range decoder: its registers, its input and its read position.
    pub closed spec fn coder(&self) -> RangeDecoder {
        self.rc
    }

    /// Whether one call of `decode_symbol` may give `r` and leave `after`: once
    /// finished, -1 and nothing changed; otherwise a decoding step of the model with
    /// the coder (`Ppmd8::decode_step`) over the same input, finishing exactly on -1.
    pub closed spec fn step(&self, r: i32, after: &Self) -> bool {
        if self.finished {
            r == -1 && *after == *self
        } else {
            &&& self.ppmd.decode_step(self.rc, after.ppmd, after.rc, r)
            &&& -2 <= r <= 255
            &&& after.rc.input@ == self.rc.input@
            &&& after.finished == (r == -1)
        }
    }

    /// Whether calls of `decode_symbol` giving `syms` in turn pass through `states`:
    /// from `self` as the first, each call leading to the next.
    pub closed spec fn decodes_through(self, syms: Seq<i32>, states: Seq<Self>) -> bool {
        &&& states.len() == syms.len() + 1
        &&& states[0] == self
        &&& forall|i: int|
            #![trigger syms[i]]
            0 <= i < syms.len() ==> states[i].step(syms[i], &states[i + 1])
    }

    /// Whether calls of `decode_symbol` giving `syms` in turn may lead from `self` to
    /// `after`.
    pub closed spec fn decodes(self, syms: Seq<i32>, after: Self) -> bool {
        exists|states: Seq<Self>| #[trigger] self.decodes_through(syms, states) && states.last() == after
    }

    /// One more call extends a run of calls.
    proof fn lemma_through_push(self, syms: Seq<i32>, states: Seq<Self>, r: i32, after: Self)
        requires
            self.decodes_through(syms, states),
            states.last().step(r, &after),
        ensures
            self.decodes_through(syms.push(r), states.push(after)),
    {
        let s2 = syms.push(r);
        let t2 = states.push(after);
        assert forall|i: int| 0 <= i < s2.len() implies #[trigger] t2[i].step(s2[i], &t2[i + 1]) by {
            if i < syms.len() {
                assert(s2[i] == syms[i]);
                assert(t2[i] == states[i] && t2[i + 1] == states[i + 1]);
            } else {
                assert(t2[i] == states.last());
            }
        }
    }

    /// Whether nothing has been decoded yet: the model is fresh (`Ppmd8::is_fresh`)
    /// and the coder holds the full interval with the first four input bytes, most
    /// significant first, as its code.
    pub closed spec fn is_fresh(&self) -> bool {
        &&& self.ppmd.is_fresh()
        &&& self.rc.low == 0
        &&& self.rc.range == 0xFFFF_FFFF
        &&& self.rc.code == spec_be_u32(self.rc.input@)
        &&& !self.finished
    }

    /// Creates a new decoder of `input` for a model of order `order` and `mem_size`
    /// bytes. An order outside `PPMD8_MIN_ORDER..=PPMD8_MAX_ORDER` gives
    /// `InvalidParameter`; input shorter than four bytes gives `IoError`; four bytes
    /// of `0xFF` at its start give `RangeDecoderInitialization`.
    pub fn new(input: Vec<u8>, order: u32, mem_size: u32, restore_method: RestoreMethod) -> (r: Result<
        Self,
        Error,
    >)
        ensures
            !(PPMD8_MIN_ORDER <= order <= PPMD8_MAX_ORDER) ==> (r matches Err(
                Error::InvalidParameter,
            )),
            PPMD8_MIN_ORDER <= order <= PPMD8_MAX_ORDER && input@.len() < 4 ==> (r matches Err(
                Error::IoError(_),
            ) || r matches Err(Error::InternalError(_))),
            PPMD8_MIN_ORDER <= order <= PPMD8_MAX_ORDER && input@.len() >= 4 && spec_be_u32(input@)
                == 0xFFFF_FFFF ==> (r matches Err(Error::RangeDecoderInitialization) || r matches Err(
                Error::InternalError(_),
            )),
            PPMD8_MIN_ORDER <= order <= PPMD8_MAX_ORDER && input@.len() >= 4 && spec_be_u32(input@)
                != 0xFFFF_FFFF ==> (r is Ok || r matches Err(Error::InternalError(_))),
            r matches Ok(d) ==> d.input() == input@ && !d.is_finished() && d.position() == 4,
            r matches Ok(d) ==> (2048 <= mem_size <= u32::MAX - 3 ==> d.is_fresh()),
            r matches Err(Error::InternalError(m)) ==> m@ == "Failed to allocate memory"@,
    {
        if !(PPMD8_MIN_ORDER <= order && order <= PPMD8_MAX_ORDER) {
            return Err(Error::InvalidParameter);
        }
        let ppmd: Ppmd8 = match Ppmd8::construct(mem_size, order, restore_method) {
            Ok(p) => p,
            Err(_) => return Err(Error::InternalError("Failed to allocate memory")),
        };
        let rc: RangeDecoder = match RangeDecoder::new(input) {
            Ok(rc) => rc,
            Err(e) => return Err(e),
        };
        Ok(Ppmd8Decoder { ppmd, rc, finished: false })
    }

    /// Decodes one symbol: gives it (0..=255), -1 at the end mark, or -2 on data
    /// that no encoder produced. Once the end mark was seen it keeps giving -1. From a
    /// fresh decoder, where the first four input bytes read most significant first,
    /// divided by 0x00FF_00FF (the share of each of the root's 257 counts), give a
    /// value below 256, that value is the symbol; where they give 256, the end mark.
    pub fn decode_symbol(&mut self) -> (r: i32)
        ensures
            -2 <= r <= 255,
            old(self).is_finished() ==> r == -1,
            final(self).is_finished() == (old(self).is_finished() || r == -1),
            final(self).input() == old(self).input(),
            old(self).is_fresh() && spec_be_u32(old(self).input()) / 0x00FF_00FF < 256 ==> r
                == spec_be_u32(old(self).input()) / 0x00FF_00FF,
            old(self).is_fresh() && spec_be_u32(old(self).input()) / 0x00FF_00FF == 256 ==> r == -1,
            final(self).model().layout_kept(&old(self).model()),
            old(self).is_finished() ==> *final(self) == *old(self),
            old(self).step(r, final(self)),
    {
        if self.finished {
            proof {
                self.ppmd.lemma_layout_kept(&self.ppmd);
            }
            return -1;
        }
        let sym: i32 = self.ppmd.decode_symbol(&mut self.rc);
        if sym == -1 {
            self.finished = true;
        }
        proof {
            self.ppmd.lemma_layout_kept(&old(self).ppmd);
            if old(self).is_fresh() {
                lemma_fresh_decode_step(&old(self).ppmd, old(self).rc, self.ppmd, self.rc, sym);
            }
        }
        sym
    }

    /// Decodes up to `max_len` bytes; gives fewer only where the end mark comes
    /// first, and `InternalError` on data that no encoder produced.
    pub fn read(&mut self, max_len: usize) -> (r: Result<Vec<u8>, Error>)
        ensures
            r matches Ok(v) ==> v@.len() <= max_len,
            r matches Ok(v) ==> v@.len() == max_len || final(self).is_finished(),
            r is Err ==> (r matches Err(Error::InternalError(m)) && m@ == "Invalid PPMd8 data"@)
                && !final(self).is_finished(),
            old(self).is_finished() ==> (r matches Ok(v) && v@.len() == 0),
            final(self).input() == old(self).input(),
            old(self).is_fresh() && max_len >= 1 && spec_be_u32(old(self).input()) / 0x00FF_00FF
                < 256 ==> (r matches Ok(v) ==> v@.len() >= 1 && v@[0] == spec_be_u32(
                old(self).input(),
            ) / 0x00FF_00FF),
            r matches Ok(v) ==> (v@.len() == max_len && old(self).decodes(as_symbols(v@), *final(self)))
                || (v@.len() < max_len && old(self).decodes(as_symbols(v@).push(-1i32), *final(self))),
            r is Err ==> exists|w: Seq<u8>|
                #[trigger] old(self).decodes(as_symbols(w).push(-2i32), *final(self)),
    {
        let mut out: Vec<u8> = Vec::new();
        let ghost mut states: Seq<Ppmd8Decoder> = seq![*old(self)];
        proof {
            assert(as_symbols(out@) =~= Seq::<i32>::empty());
            assert(old(self).decodes_through(as_symbols(out@), states));
        }
        while out.len() < max_len
            invariant_except_break
                out@.len() == 0 ==> *self == *old(self),
                old(self).decodes_through(as_symbols(out@), states),
                states.last() == *self,
            invariant
                out@.len() <= max_len,
                self.rc.input@ == old(self).rc.input@,
                old(self).finished ==> self.finished && out@.len() == 0,
                old(self).is_fresh() && spec_be_u32(old(self).input()) / 0x00FF_00FF < 256 && out@.len()
                    >= 1 ==> out@[0] == spec_be_u32(old(self).input()) / 0x00FF_00FF,
            ensures
                out@.len() <= max_len,
                out@.len() == max_len || self.finished,
                self.rc.input@ == old(self).rc.input@,
                old(self).finished ==> out@.len() == 0,
                old(self).is_fresh() && max_len >= 1 && spec_be_u32(old(self).input()) / 0x00FF_00FF
                    < 256 ==> out@.len() >= 1 && out@[0] == spec_be_u32(old(self).input()) / 0x00FF_00FF,
                (out@.len() == max_len && old(self).decodes(as_symbols(out@), *self)) || (out@.len()
                    < max_len && old(self).decodes(as_symbols(out@).push(-1i32), *self)),
            decreases max_len - out@.len(),
        {
            let sym: i32 = self.decode_symbol();
            proof {
                old(self).lemma_through_push(as_symbols(out@), states, sym, *self);
                states = states.push(*self);
                assert(old(self).decodes_through(as_symbols(out@).push(sym), states));
                assert(old(self).decodes(as_symbols(out@).push(sym), *self));
            }
            if sym == -1 {
                break;
            }
            if sym < 0 {
                proof {
                    assert(old(self).decodes(as_symbols(out@).push(-2i32), *self));
                }
                return Err(Error::InternalError("Invalid PPMd8 data"));
            }
            proof {
                assert(as_symbols(out@.push(sym as u8)) =~= as_symbols(out@).push(sym));
            }
            out.push(sym as u8);
        }
        Ok(out)
    }
}

/// The bytes `v` as the symbols that `decode_symbol` gives for them.
pub open spec fn as_symbols(v: Seq<u8>) -> Seq<i32> {
    v.map_values(|b: u8| b as i32)
}

/// The first symbol comes back: a fresh encoder (`Ppmd8Encoder::is_fresh`) that
/// writes the byte `x` has shifted out `shifted_out(low, 0x00FF_00FF, ..)` and holds
/// `normalized(low, 0x00FF_00FF, ..).0` as the `low` that `flush` writes, where `low`
/// is `x * 0x00FF_00FF`; whatever bytes follow those, a fresh decoder
/// (`Ppmd8Decoder::is_fresh`) of them decodes `x` first.
pub proof fn law_first_symbol_roundtrip(x: u8, rest: Seq<u8>)
    ensures
        ({
            let low = ((x as int) * 0x00FF_00FF) as u32;
            let l = normalized(low, 0x00FF_00FF, NORMALIZE_STEPS as nat).0;
            let out = shifted_out(low, 0x00FF_00FF, NORMALIZE_STEPS as nat) + seq![
                (l >> 24u32) as u8,
                (l >> 16u32) as u8,
                (l >> 8u32) as u8,
                l as u8,
            ];
            spec_be_u32(out + rest) / 0x00FF_00FF == x as u32
        }),
{
    reveal_with_fuel(normalized, 2);
    reveal_with_fuel(shifted_out, 2);
    let q: u32 = 0x00FF_00FF;
    let xx: u32 = x as u32;
    let low: u32 = ((x as int) * 0x00FF_00FF) as u32;
    assert(low == xx * q);
    if x == 0 {
        assert(needs_shift(0, 0x00FF_00FFu32)) by (bit_vector);
        assert(cut_range(0, 0x00FF_00FFu32) == 0x00FF_00FFu32) by (bit_vector);
        assert((0x00FF_00FFu32 << 8u32) == 0xFF00_FF00u32) by (bit_vector);
        assert((0u32 << 8u32) == 0u32) by (bit_vector);
        assert(!needs_shift(0, 0xFF00_FF00u32)) by (bit_vector);
        let l = normalized(low, q, NORMALIZE_STEPS as nat).0;
        assert(l == 0);
        let out = shifted_out(low, q, NORMALIZE_STEPS as nat) + seq![
            (l >> 24u32) as u8,
            (l >> 16u32) as u8,
            (l >> 8u32) as u8,
            l as u8,
        ];
        assert((0u32 >> 24u32) as u8 == 0 && (0u32 >> 16u32) as u8 == 0 && (0u32 >> 8u32) as u8 == 0)
            by (bit_vector);
        assert((out + rest)[0] == 0 && (out + rest)[1] == 0 && (out + rest)[2] == 0 && (out + rest)[3] == 0);
        assert(((0u8 as u32) << 24u32) | ((0u8 as u32) << 16u32) | ((0u8 as u32) << 8u32) | (0u8 as u32)
            == 0u32) by (bit_vector);
    } else {
        assert(!needs_shift(low, q)) by (bit_vector)
            requires
                1 <= xx <= 255,
                q == 0x00FF_00FFu32,
                low == xx * q,
        ;
        let l = normalized(low, q, NORMALIZE_STEPS as nat).0;
        assert(l == low);
        let b0 = (l >> 24u32) as u8;
        let b1 = (l >> 16u32) as u8;
        let b2 = (l >> 8u32) as u8;
        let b3 = l as u8;
        let out = shifted_out(low, q, NORMALIZE_STEPS as nat) + seq![b0, b1, b2, b3];
        assert(shifted_out(low, q, NORMALIZE_STEPS as nat) =~= Seq::<u8>::empty());
        assert((out + rest)[0] == b0 && (out + rest)[1] == b1 && (out + rest)[2] == b2 && (out + rest)[3] == b3);
        assert(((b0 as u32) << 24u32) | ((b1 as u32) << 16u32) | ((b2 as u32) << 8u32) | (b3 as u32) == l)
            by (bit_vector)
            requires
                b0 == (l >> 24u32) as u8,
                b1 == (l >> 16u32) as u8,
                b2 == (l >> 8u32) as u8,
                b3 == l as u8,
        ;
        assert(low / q == xx) by (nonlinear_arith)
            requires
                q == 0x00FF_00FFu32,
                low == xx * q,
                xx <= 255,
        ;
    }
}

} // verus!
