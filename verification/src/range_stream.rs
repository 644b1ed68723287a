//! The range coder over whole streams: a run of coding steps on the encoder, the
//! bytes it leaves behind, and what the decoder finds in them.

use vstd::prelude::*;
use crate::range_coding::{
    advance, byte_at, carry_free, cut_range, law_decode_recovers_range, law_narrow_nests,
    law_normalize_settles, needs_shift, normalized, shift_count, shift_in, shift_step,
    shifted_out, spec_be_u32, NORMALIZE_STEPS,
};

verus! {

/// The four bytes that `flush` writes for `low`, most significant first.
pub open spec fn be_bytes(low: u32) -> Seq<u8> {
    seq![(low >> 24u32) as u8, (low >> 16u32) as u8, (low >> 8u32) as u8, low as u8]
}

/// The big-endian value of the four bytes of `s` at `i`.
pub open spec fn window(s: Seq<u8>, i: int) -> u32 {
    spec_be_u32(s.subrange(i, i + 4))
}

proof fn lemma_be_bytes_window(low: u32)
    ensures
        spec_be_u32(be_bytes(low)) == low,
{
    let b = be_bytes(low);
    let (b0, b1, b2, b3) = (b[0], b[1], b[2], b[3]);
    assert(b0 == (low >> 24u32) as u8 && b1 == (low >> 16u32) as u8 && b2 == (low >> 8u32) as u8
        && b3 == low as u8);
    assert((((low >> 24u32) as u8 as u32) << 24u32) | (((low >> 16u32) as u8 as u32) << 16u32) | ((
    (low >> 8u32) as u8 as u32) << 8u32) | (low as u8 as u32) == low) by (bit_vector);
}

/// Moving a window on by one byte shifts the old one left and takes in the next byte.
proof fn lemma_window_next(s: Seq<u8>, i: int)
    requires
        0 <= i,
        i + 5 <= s.len(),
    ensures
        window(s, i + 1) == (window(s, i) << 8u32) | (s[i + 4] as u32),
        window(s, i) == ((s[i] as u32) << 24u32) | (window(s, i + 1) >> 8u32),
{
    let (a, b, c, d, e) = (s[i], s[i + 1], s[i + 2], s[i + 3], s[i + 4]);
    assert(s.subrange(i, i + 4)[0] == a && s.subrange(i, i + 4)[1] == b && s.subrange(i, i + 4)[2]
        == c && s.subrange(i, i + 4)[3] == d);
    assert(s.subrange(i + 1, i + 5)[0] == b && s.subrange(i + 1, i + 5)[1] == c && s.subrange(
        i + 1,
        i + 5,
    )[2] == d && s.subrange(i + 1, i + 5)[3] == e);
    assert((((b as u32) << 24u32) | ((c as u32) << 16u32) | ((d as u32) << 8u32) | (e as u32)) == ((
    ((a as u32) << 24u32) | ((b as u32) << 16u32) | ((c as u32) << 8u32) | (d as u32)) << 8u32) | (
    e as u32)) by (bit_vector);
    assert((((a as u32) << 24u32) | ((b as u32) << 16u32) | ((c as u32) << 8u32) | (d as u32)) == (
    (a as u32) << 24u32) | ((((b as u32) << 24u32) | ((c as u32) << 16u32) | ((d as u32) << 8u32)
        | (e as u32)) >> 8u32)) by (bit_vector);
}

/// A shift step, read backwards: a value whose next bytes lie in the shifted interval,
/// with the top byte of `low` in front, lies in the interval before the shift.
proof fn lemma_shift_back(low: u32, range: u32, w: u32, w2: u32)
    by (bit_vector)
    requires
        carry_free(low, range),
        range > 0,
        needs_shift(low, range),
        (low << 8u32) <= w2,
        w2 < (low << 8u32) + (cut_range(low, range) << 8u32),
        w == ((low >> 24u32) << 24u32) | (w2 >> 8u32),
    ensures
        low <= w,
        w < low + range,
{
}

/// The bytes that normalisation moves out are as many as its steps.
proof fn lemma_shifted_out_len(low: u32, range: u32, fuel: nat)
    ensures
        shifted_out(low, range, fuel).len() == shift_count(low, range, fuel),
    decreases fuel,
{
    if fuel > 0 && needs_shift(low, range) {
        let (l, r) = shift_step(low, range);
        lemma_shifted_out_len(l, r, (fuel - 1) as nat);
    }
}

/// Normalisation, read backwards: if the stream `t` holds the bytes normalisation
/// moves out at `i`, and the window after them lies in the normalised interval, then
/// the window at `i` lies in the interval before normalisation.
proof fn lemma_normalize_back(low: u32, range: u32, fuel: nat, t: Seq<u8>, i: int)
    requires
        carry_free(low, range),
        range > 0,
        0 <= i,
        i + shift_count(low, range, fuel) + 4 <= t.len(),
        t.subrange(i, i + shift_count(low, range, fuel)) == shifted_out(low, range, fuel),
        normalized(low, range, fuel).0 <= window(t, i + shift_count(low, range, fuel)),
        window(t, i + shift_count(low, range, fuel)) < normalized(low, range, fuel).0 + normalized(
            low,
            range,
            fuel,
        ).1,
    ensures
        low <= window(t, i),
        window(t, i) < low + range,
    decreases fuel,
{
    if fuel > 0 && needs_shift(low, range) {
        let (l2, r2) = shift_step(low, range);
        let n: int = shift_count(l2, r2, (fuel - 1) as nat) as int;
        lemma_shifted_out_len(l2, r2, (fuel - 1) as nat);
        lemma_shift_step_facts(low, range);
        assert(shifted_out(low, range, fuel) == seq![(low >> 24u32) as u8] + shifted_out(
            l2,
            r2,
            (fuel - 1) as nat,
        ));
        assert(t[i] == (low >> 24u32) as u8) by {
            assert(t.subrange(i, i + 1 + n)[0] == shifted_out(low, range, fuel)[0]);
        }
        assert(t.subrange(i + 1, i + 1 + n) == shifted_out(l2, r2, (fuel - 1) as nat)) by {
            assert(t.subrange(i + 1, i + 1 + n) =~= t.subrange(i, i + 1 + n).subrange(1, 1 + n));
            assert(shifted_out(low, range, fuel).subrange(1, 1 + n) =~= shifted_out(
                l2,
                r2,
                (fuel - 1) as nat,
            ));
        }
        lemma_normalize_back(l2, r2, (fuel - 1) as nat, t, i + 1);
        lemma_window_next(t, i);
        let b = t[i];
        assert(((b as u32) << 24u32) == ((low >> 24u32) << 24u32)) by (bit_vector)
            requires
                b == (low >> 24u32) as u8,
        ;
        lemma_shift_back(low, range, window(t, i), window(t, i + 1));
    }
}

/// One shift step keeps a carry-free, non-empty interval so.
proof fn lemma_shift_step_facts(low: u32, range: u32)
    requires
        carry_free(low, range),
        range > 0,
        needs_shift(low, range),
    ensures
        carry_free(shift_step(low, range).0, shift_step(low, range).1),
        shift_step(low, range).1 > 0,
{
    law_normalize_settles(low, range);
    assert(carry_free(low << 8u32, cut_range(low, range) << 8u32) && (cut_range(low, range)
        << 8u32) > 0) by (bit_vector)
        requires
            carry_free(low, range),
            range > 0,
            needs_shift(low, range),
    ;
}

/// Shifting `n` bytes into `code` is shifting the first of them in, then the other `n - 1`.
proof fn lemma_shift_in_front(code: u32, input: Seq<u8>, pos: int, n: nat)
    requires
        n >= 1,
    ensures
        shift_in(code, input, pos, n) == shift_in(
            (code << 8u32) | (byte_at(input, pos) as u32),
            input,
            pos + 1,
            (n - 1) as nat,
        ),
    decreases n,
{
    let x: u32 = (code << 8u32) | (byte_at(input, pos) as u32);
    if n == 1 {
        assert(shift_in(code, input, pos, 0) == code);
        assert(shift_in(x, input, pos + 1, 0) == x);
    } else {
        let m = (n - 1) as nat;
        lemma_shift_in_front(code, input, pos, m);
        assert(shift_in(code, input, pos, n) == (shift_in(code, input, pos, m) << 8u32) | (byte_at(
            input,
            pos + n - 1,
        ) as u32));
        assert(shift_in(x, input, pos + 1, m) == (shift_in(x, input, pos + 1, (m - 1) as nat)
            << 8u32) | (byte_at(input, pos + 1 + m - 1) as u32));
        assert(pos + 1 + m - 1 == pos + n - 1);
    }
}

/// The decoder's normalisation, when its `code` is the offset of the window at `i`
/// from `low`, leaves `code` as the offset of the window that many bytes on from the
/// normalised `low`.
proof fn lemma_decoder_normalize(low: u32, range: u32, fuel: nat, code: u32, s: Seq<u8>, i: int)
    requires
        0 <= i,
        i + 4 + shift_count(low, range, fuel) <= s.len(),
        code == window(s, i).wrapping_sub(low),
    ensures
        shift_in(code, s, i + 4, shift_count(low, range, fuel)) == window(
            s,
            i + shift_count(low, range, fuel),
        ).wrapping_sub(normalized(low, range, fuel).0),
    decreases fuel,
{
    if fuel > 0 && needs_shift(low, range) {
        let (l2, r2) = shift_step(low, range);
        let n = shift_count(low, range, fuel);
        lemma_shift_in_front(code, s, i + 4, n);
        lemma_window_next(s, i);
        let w = window(s, i);
        let b = s[i + 4];
        assert(byte_at(s, i + 4) == b);
        let c2: u32 = (code << 8u32) | (b as u32);
        assert(c2 == ((w << 8u32) | (b as u32)).wrapping_sub(low << 8u32)) by (bit_vector)
            requires
                code == w.wrapping_sub(low),
                c2 == (code << 8u32) | (b as u32),
        ;
        lemma_decoder_normalize(l2, r2, (fuel - 1) as nat, c2, s, i + 1);
    }
}

/// A coding step `(start, size, total)`: the sub-range `[start, start + size)` out of
/// `total`. It is valid for an interval of width `range` when it is non-empty, lies
/// inside `total`, and `total` is non-zero and at most `range`.
pub open spec fn step_valid(range: u32, step: (u32, u32, u32)) -> bool {
    &&& 0 < step.2 <= range
    &&& 0 < step.1
    &&& step.0 + step.1 <= step.2
}

/// The interval after narrowing to `step`, in the coder's wrapping arithmetic.
pub open spec fn narrowed(low: u32, range: u32, step: (u32, u32, u32)) -> (u32, u32) {
    (low.wrapping_add(step.0.wrapping_mul(range / step.2)), (range / step.2).wrapping_mul(step.1))
}

/// The encoder `(low, range, output)` after one step: narrowing, then normalisation.
pub open spec fn enc_step(e: (u32, u32, Seq<u8>), step: (u32, u32, u32)) -> (u32, u32, Seq<u8>) {
    let (l, r) = narrowed(e.0, e.1, step);
    (
        normalized(l, r, NORMALIZE_STEPS as nat).0,
        normalized(l, r, NORMALIZE_STEPS as nat).1,
        e.2 + shifted_out(l, r, NORMALIZE_STEPS as nat),
    )
}

/// The encoder after a run of steps.
pub open spec fn enc_run(e: (u32, u32, Seq<u8>), steps: Seq<(u32, u32, u32)>) -> (
    u32,
    u32,
    Seq<u8>,
)
    decreases steps.len(),
{
    if steps.len() == 0 {
        e
    } else {
        enc_run(enc_step(e, steps[0]), steps.drop_first())
    }
}

/// Whether every step of the run is valid for the interval it meets.
pub open spec fn valid_run(low: u32, range: u32, steps: Seq<(u32, u32, u32)>) -> bool
    decreases steps.len(),
{
    steps.len() == 0 || {
        let e1 = enc_step((low, range, Seq::empty()), steps[0]);
        step_valid(range, steps[0]) && valid_run(e1.0, e1.1, steps.drop_first())
    }
}

/// The bytes of a run from the encoder's initial state, ended by `flush`.
pub open spec fn encoded(steps: Seq<(u32, u32, u32)>) -> Seq<u8> {
    let f = enc_run((0u32, 0xFFFF_FFFFu32, Seq::empty()), steps);
    f.2 + be_bytes(f.0)
}

/// The decoder `(low, range, code, pos)` over `input` after one step: `range` divided
/// by `total`, `decode(start, size)`, then normalisation.
pub open spec fn dec_step(d: (u32, u32, u32, int), input: Seq<u8>, step: (u32, u32, u32)) -> (
    u32,
    u32,
    u32,
    int,
) {
    let q = d.1 / step.2;
    let l = d.0.wrapping_add(step.0.wrapping_mul(q));
    let c = d.2.wrapping_sub(step.0.wrapping_mul(q));
    let r = q.wrapping_mul(step.1);
    let n = shift_count(l, r, NORMALIZE_STEPS as nat);
    (
        normalized(l, r, NORMALIZE_STEPS as nat).0,
        normalized(l, r, NORMALIZE_STEPS as nat).1,
        shift_in(c, input, d.3, n),
        advance(d.3, input.len() as int, n),
    )
}

/// Whether the decoder, stepping through `steps` over `input`, meets each step with a
/// threshold `code / (range / total)` inside that step's `[start, start + size)`.
pub open spec fn dec_finds(d: (u32, u32, u32, int), input: Seq<u8>, steps: Seq<(u32, u32, u32)>) -> bool
    decreases steps.len(),
{
    steps.len() == 0 || {
        let q = d.1 / steps[0].2;
        &&& steps[0].0 <= d.2 / q
        &&& d.2 / q < steps[0].0 + steps[0].1
        &&& dec_finds(dec_step(d, input, steps[0]), input, steps.drop_first())
    }
}

proof fn lemma_run(e: (u32, u32, Seq<u8>), steps: Seq<(u32, u32, u32)>, s: Seq<u8>)
    requires
        carry_free(e.0, e.1),
        e.1 > 0,
        valid_run(e.0, e.1, steps),
        s == enc_run(e, steps).2 + be_bytes(enc_run(e, steps).0),
    ensures
        e.2.len() + 4 <= s.len(),
        s.subrange(0, e.2.len() as int) == e.2,
        e.0 <= window(s, e.2.len() as int),
        window(s, e.2.len() as int) < e.0 + e.1,
        dec_finds((e.0, e.1, window(s, e.2.len() as int).wrapping_sub(e.0), e.2.len() + 4int), s, steps),
    decreases steps.len(),
{
    let i = e.2.len() as int;
    if steps.len() == 0 {
        assert(s.subrange(0, i) =~= e.2);
        assert(s.subrange(i, i + 4) =~= be_bytes(e.0));
        lemma_be_bytes_window(e.0);
    } else {
        let step = steps[0];
        let rest = steps.drop_first();
        let (l1, r1) = narrowed(e.0, e.1, step);
        let q = e.1 / step.2;
        law_narrow_nests(e.0, e.1, step.0, step.1, step.2);
        law_normalize_settles(l1, r1);
        let e1 = enc_step(e, step);
        assert(enc_run(e, steps) == enc_run(e1, rest));
        assert(valid_run(e1.0, e1.1, rest)) by {
            assert(enc_step((e.0, e.1, Seq::empty()), step).0 == e1.0);
            assert(enc_step((e.0, e.1, Seq::empty()), step).1 == e1.1);
        }
        lemma_run(e1, rest, s);
        let n = shift_count(l1, r1, NORMALIZE_STEPS as nat);
        lemma_shifted_out_len(l1, r1, NORMALIZE_STEPS as nat);
        assert(e1.2.len() == i + n);
        assert(s.subrange(0, i) =~= e1.2.subrange(0, i)) by {
            assert(s.subrange(0, i) =~= s.subrange(0, i + n).subrange(0, i));
        }
        assert(s.subrange(i, i + n) =~= shifted_out(l1, r1, NORMALIZE_STEPS as nat)) by {
            assert(s.subrange(i, i + n) =~= s.subrange(0, i + n).subrange(i, i + n));
        }
        lemma_normalize_back(l1, r1, NORMALIZE_STEPS as nat, s, i);
        let w = window(s, i);
        // the decoder meets the step with the window's offset
        let c = w.wrapping_sub(e.0);
        assert(c == w - e.0);
        assert(step.0 * q + q * step.1 == (step.0 + step.1) * q) by (nonlinear_arith);
        law_decode_recovers_range(c, e.1, step.0, step.1, step.2);
        let c1 = c.wrapping_sub(step.0.wrapping_mul(q));
        assert(c1 == w.wrapping_sub(l1));
        lemma_decoder_normalize(l1, r1, NORMALIZE_STEPS as nat, c1, s, i);
        let d = (e.0, e.1, c, i + 4);
        let d1 = dec_step(d, s, step);
        assert(d1 == (e1.0, e1.1, window(s, e1.2.len() as int).wrapping_sub(e1.0), e1.2.len() + 4int));
    }
}

/// Decoding inverts encoding: run the encoder from its initial state through coding
/// steps, each valid for the interval it meets, and flush it. The decoder started on
/// those bytes accepts them (they do not begin with four `0xFF`), and at every step its
/// threshold `code / (range / total)` falls inside that step's `[start, start + size)`,
/// so a model that maps thresholds back to sub-ranges recovers every coded symbol.
pub proof fn law_range_coder_roundtrip(steps: Seq<(u32, u32, u32)>)
    requires
        valid_run(0, 0xFFFF_FFFF, steps),
    ensures
        encoded(steps).len() >= 4,
        spec_be_u32(encoded(steps)) != 0xFFFF_FFFF,
        dec_finds((0u32, 0xFFFF_FFFFu32, spec_be_u32(encoded(steps)), 4int), encoded(steps), steps),
{
    let s = encoded(steps);
    let e = (0u32, 0xFFFF_FFFFu32, Seq::<u8>::empty());
    lemma_run(e, steps, s);
    assert(spec_be_u32(s) == window(s, 0)) by {
        assert(s.subrange(0, 4)[0] == s[0] && s.subrange(0, 4)[1] == s[1] && s.subrange(0, 4)[2]
            == s[2] && s.subrange(0, 4)[3] == s[3]);
    }
    assert(window(s, 0).wrapping_sub(0u32) == window(s, 0));
}

} // verus!
