//! The carry-less range coder of PPMd8: an encoder that appends bytes to an
//! output buffer and a decoder that pulls bytes from an input buffer.

use vstd::prelude::*;
use crate::error::{Error, unexpected_eof};

verus! {

/// Renormalisation starts once the top byte of `low` and of `low + range` agree.
pub const K_TOP_VALUE: u32 = 0x0100_0000;

/// Renormalisation is forced while `range` is below this bound.
pub const K_BOT_VALUE: u32 = 0x8000;

/// The four bytes `b[0..4]` read as a big-endian number, the order in which the
/// decoder shifts them into `code`.
pub open spec fn spec_be_u32(b: Seq<u8>) -> u32 {
    ((b[0] as u32) << 24u32) | ((b[1] as u32) << 16u32) | ((b[2] as u32) << 8u32) | (b[3] as u32)
}

/// Whether the coder must shift out another byte: the top bytes of `low` and
/// `low + range` agree, or `range` has fallen below `K_BOT_VALUE`.
pub open spec fn needs_shift(low: u32, range: u32) -> bool {
    (low ^ low.wrapping_add(range)) < K_TOP_VALUE || range < K_BOT_VALUE
}

/// The `range` that a shift step starts from: when the top bytes agree it is kept,
/// otherwise it is cut to end at the next multiple of `K_BOT_VALUE` above `low`.
pub open spec fn cut_range(low: u32, range: u32) -> u32 {
    if (low ^ low.wrapping_add(range)) < K_TOP_VALUE {
        range
    } else {
        (0u32.wrapping_sub(low)) & 0x7FFFu32
    }
}

/// The carry-less condition: the interval `[low, low + range)` never runs past `2^32`,
/// and when it ends exactly there, `low` has a non-zero top byte.
pub open spec fn carry_free(low: u32, range: u32) -> bool {
    &&& low + range <= 0x1_0000_0000
    &&& (low + range == 0x1_0000_0000 ==> low >= K_TOP_VALUE)
}

/// One shift step: `range` is cut as `cut_range` says, then `low` and `range` move
/// left by a byte.
pub open spec fn shift_step(low: u32, range: u32) -> (u32, u32) {
    (low << 8u32, cut_range(low, range) << 8u32)
}

/// `(low, range)` after at most `fuel` shift steps, stopping once no shift is needed.
pub open spec fn normalized(low: u32, range: u32, fuel: nat) -> (u32, u32)
    decreases fuel,
{
    if fuel == 0 || !needs_shift(low, range) {
        (low, range)
    } else {
        let (l, r) = shift_step(low, range);
        normalized(l, r, (fuel - 1) as nat)
    }
}

/// The bytes those shift steps move out of `low`: its top byte, each time.
pub open spec fn shifted_out(low: u32, range: u32, fuel: nat) -> Seq<u8>
    decreases fuel,
{
    if fuel == 0 || !needs_shift(low, range) {
        Seq::empty()
    } else {
        let (l, r) = shift_step(low, range);
        seq![(low >> 24u32) as u8] + shifted_out(l, r, (fuel - 1) as nat)
    }
}

/// The number of shift steps that those are.
pub open spec fn shift_count(low: u32, range: u32, fuel: nat) -> nat
    decreases fuel,
{
    if fuel == 0 || !needs_shift(low, range) {
        0
    } else {
        let (l, r) = shift_step(low, range);
        1 + shift_count(l, r, (fuel - 1) as nat)
    }
}

/// The bound on the shift steps of one normalisation. A carry-free, non-empty
/// interval settles within three (`law_normalize_settles`).
pub const NORMALIZE_STEPS: u32 = 8;

/// The input byte at `i`, or 0 outside the input: past its end the decoder reads zeros.
pub open spec fn byte_at(input: Seq<u8>, i: int) -> u8 {
    if 0 <= i < input.len() {
        input[i]
    } else {
        0
    }
}

/// `code` after `n` bytes, read from `input` at `pos` onwards, have been shifted into it.
pub open spec fn shift_in(code: u32, input: Seq<u8>, pos: int, n: nat) -> u32
    decreases n,
{
    if n == 0 {
        code
    } else {
        (shift_in(code, input, pos, (n - 1) as nat) << 8u32) | (byte_at(input, pos + n - 1) as u32)
    }
}

/// The read position after `n` more bytes were asked for: it stops at the end of the input.
pub open spec fn advance(pos: int, len: int, n: nat) -> int {
    if pos >= len {
        pos
    } else if pos + n >= len {
        len
    } else {
        pos + n
    }
}

/// How many more shift steps a carry-free, non-empty interval can still take. While
/// the top bytes agree, `range` grows by a byte per step; once the interval ends
/// exactly at `2^32`, only cut steps follow, each again growing `range` by a byte.
pub open spec fn steps_left(low: u32, range: u32) -> nat {
    if !needs_shift(low, range) {
        0
    } else if low + range == 0x1_0000_0000 {
        if range < 0x100 {
            2
        } else {
            1
        }
    } else if range < 0x100 {
        3
    } else if range < 0x1_0000 {
        2
    } else {
        1
    }
}

proof fn lemma_shift_step(low: u32, range: u32)
    by (bit_vector)
    requires
        carry_free(low, range),
        range > 0,
        needs_shift(low, range),
    ensures
        carry_free(low << 8u32, cut_range(low, range) << 8u32),
        (cut_range(low, range) << 8u32) > 0,
        steps_left(low << 8u32, cut_range(low, range) << 8u32) < steps_left(low, range),
{
}

proof fn lemma_settle(low: u32, range: u32, fuel: nat)
    requires
        carry_free(low, range),
        range > 0,
        steps_left(low, range) <= fuel,
    ensures
        !needs_shift(normalized(low, range, fuel).0, normalized(low, range, fuel).1),
        carry_free(normalized(low, range, fuel).0, normalized(low, range, fuel).1),
        normalized(low, range, fuel).1 > 0,
        shift_count(low, range, fuel) <= steps_left(low, range),
    decreases fuel,
{
    if fuel > 0 && needs_shift(low, range) {
        lemma_shift_step(low, range);
        lemma_settle(low << 8u32, cut_range(low, range) << 8u32, (fuel - 1) as nat);
    }
}

/// Normalisation of a carry-free, non-empty interval settles within its step bound:
/// it takes at most three shift steps, after which no shift is needed (so `range`
/// is at least `K_BOT_VALUE`), and the interval is still carry-free.
pub proof fn law_normalize_settles(low: u32, range: u32)
    requires
        carry_free(low, range),
        range > 0,
    ensures
        shift_count(low, range, NORMALIZE_STEPS as nat) <= 3,
        !needs_shift(
            normalized(low, range, NORMALIZE_STEPS as nat).0,
            normalized(low, range, NORMALIZE_STEPS as nat).1,
        ),
        normalized(low, range, NORMALIZE_STEPS as nat).1 >= K_BOT_VALUE,
        carry_free(
            normalized(low, range, NORMALIZE_STEPS as nat).0,
            normalized(low, range, NORMALIZE_STEPS as nat).1,
        ),
{
    lemma_settle(low, range, NORMALIZE_STEPS as nat);
}

/// Narrowing a carry-free interval to `[start, start + size)` out of `total`, with the
/// sub-range inside `total`, `size` non-zero and `total` at most `range`, never wraps:
/// the new interval lies inside the old one, is non-empty, and is carry-free.
pub proof fn law_narrow_nests(low: u32, range: u32, start: u32, size: u32, total: u32)
    requires
        carry_free(low, range),
        0 < total <= range,
        0 < size,
        start + size <= total,
    ensures
        ({
            let r = range / total;
            let new_low = low.wrapping_add(start.wrapping_mul(r));
            let new_range = r.wrapping_mul(size);
            &&& new_low == low + start * r
            &&& new_range == r * size
            &&& low <= new_low
            &&& new_low + new_range <= low + range
            &&& new_range > 0
            &&& carry_free(new_low, new_range)
        }),
{
    let r = range / total;
    assert(r >= 1 && r * total <= range) by (nonlinear_arith)
        requires
            0 < total <= range,
            r == range / total,
    ;
    assert(r * start + r * size <= r * total && 0 <= r * start && r * size >= 1) by (nonlinear_arith)
        requires
            start + size <= total,
            r >= 1,
            size >= 1,
    ;
    assert(start * r == r * start && size * r == r * size) by (nonlinear_arith);
    assert(start.wrapping_mul(r) == start * r) by (nonlinear_arith)
        requires
            start * r <= u32::MAX,
    {
        assert((start as nat * r as nat) % 0x1_0000_0000nat == start as nat * r as nat);
    }
    assert(r.wrapping_mul(size) == r * size) by (nonlinear_arith)
        requires
            r * size <= u32::MAX,
    {
        assert((r as nat * size as nat) % 0x1_0000_0000nat == r as nat * size as nat);
    }
}

/// Decoding recovers the encoder's choice: when `code`, the offset of the coded value
/// inside the interval, lies in the part that `[start, start + size)` out of `total`
/// stands for, the decoder's threshold `code / (range / total)` falls in
/// `[start, start + size)`, and after `decode(start, size)` the offset is still inside
/// the narrowed interval.
pub proof fn law_decode_recovers_range(code: u32, range: u32, start: u32, size: u32, total: u32)
    requires
        0 < total <= range,
        0 < size,
        start + size <= total,
        start * (range / total) <= code < (start + size) * (range / total),
    ensures
        ({
            let r = range / total;
            &&& start <= code / r < start + size
            &&& code.wrapping_sub(start.wrapping_mul(r)) == code - start * r
            &&& code.wrapping_sub(start.wrapping_mul(r)) < r.wrapping_mul(size)
            &&& r.wrapping_mul(size) == r * size
        }),
{
    let r = range / total;
    assert(r >= 1 && r * total <= range) by (nonlinear_arith)
        requires
            0 < total <= range,
            r == range / total,
    ;
    assert(r * (start + size) <= r * total) by (nonlinear_arith)
        requires
            start + size <= total,
            r >= 1,
    ;
    assert(start <= code / r < start + size) by (nonlinear_arith)
        requires
            r >= 1,
            start * r <= code < (start + size) * r,
    ;
    assert(start * r + size * r == (start + size) * r && start * r >= 0 && r * size == size * r)
        by (nonlinear_arith);
    assert(start.wrapping_mul(r) == start * r) by (nonlinear_arith)
        requires
            start * r <= u32::MAX,
    {
        assert((start as nat * r as nat) % 0x1_0000_0000nat == start as nat * r as nat);
    }
    assert(r.wrapping_mul(size) == r * size) by (nonlinear_arith)
        requires
            r * size <= u32::MAX,
    {
        assert((r as nat * size as nat) % 0x1_0000_0000nat == r as nat * size as nat);
    }
}

/// Range decoder over an in-memory input.
pub struct RangeDecoder {
    pub range: u32,
    pub code: u32,
    pub low: u32,
    pub input: Vec<u8>,
    pub pos: usize,
}

impl RangeDecoder {
    /// Creates a decoder over `input`: `code` takes the first four bytes, most
    /// significant first. Fails with `IoError` when fewer than four bytes are there,
    /// and with `RangeDecoderInitialization` when they are all `0xFF`.
    pub fn new(input: Vec<u8>) -> (r: Result<Self, Error>)
        ensures
            input@.len() < 4 ==> (r matches Err(Error::IoError(_))),
            input@.len() >= 4 && spec_be_u32(input@) == 0xFFFF_FFFF ==> (r matches Err(
                Error::RangeDecoderInitialization,
            )),
            input@.len() >= 4 && spec_be_u32(input@) != 0xFFFF_FFFF ==> (r matches Ok(d) && d.range
                == 0xFFFF_FFFF && d.low == 0 && d.code == spec_be_u32(input@) && d.input@ == input@
                && d.pos == 4),
    {
        let mut decoder = RangeDecoder { range: 0xFFFF_FFFF, code: 0, low: 0, input, pos: 0 };
        let b0: u32 = match decoder.read_byte() {
            Ok(b) => b,
            Err(e) => return Err(Error::IoError(e)),
        };
        let b1: u32 = match decoder.read_byte() {
            Ok(b) => b,
            Err(e) => return Err(Error::IoError(e)),
        };
        let b2: u32 = match decoder.read_byte() {
            Ok(b) => b,
            Err(e) => return Err(Error::IoError(e)),
        };
        let b3: u32 = match decoder.read_byte() {
            Ok(b) => b,
            Err(e) => return Err(Error::IoError(e)),
        };
        let c0: u32 = decoder.code << 8u32 | b0;
        let c1: u32 = c0 << 8u32 | b1;
        let c2: u32 = c1 << 8u32 | b2;
        let c3: u32 = c2 << 8u32 | b3;
        proof {
            let s = decoder.input@;
            assert(b0 == s[0] as u32 && b1 == s[1] as u32 && b2 == s[2] as u32 && b3 == s[3] as u32);
            let x0 = s[0];
            let x1 = s[1];
            let x2 = s[2];
            let x3 = s[3];
            assert(((((((0u32 << 8u32) | (x0 as u32)) << 8u32) | (x1 as u32)) << 8u32 | (x2 as u32))
                << 8u32 | (x3 as u32)) == ((x0 as u32) << 24u32) | ((x1 as u32) << 16u32) | ((x2
                as u32) << 8u32) | (x3 as u32)) by (bit_vector);
        }
        decoder.code = c3;
        if decoder.code == 0xFFFF_FFFF {
            return Err(Error::RangeDecoderInitialization);
        }
        Ok(decoder)
    }

    /// Reads the next input byte; past the end of the input it fails and reads nothing.
    pub fn read_byte(&mut self) -> (r: Result<u32, std::io::Error>)
        ensures
            final(self).input@ == old(self).input@,
            final(self).range == old(self).range,
            final(self).code == old(self).code,
            final(self).low == old(self).low,
            old(self).pos < old(self).input@.len() ==> (r matches Ok(b) && b == old(self).input@[old(
                self).pos as int] as u32 && final(self).pos == old(self).pos + 1),
            old(self).pos >= old(self).input@.len() ==> (r is Err && final(self).pos == old(
                self).pos),
    {
        if self.pos < self.input.len() {
            let b: u8 = self.input[self.pos];
            self.pos = self.pos + 1;
            Ok(b as u32)
        } else {
            Err(unexpected_eof())
        }
    }

    /// The next input byte, or 0 past the end of the input (the byte source of PPMd8
    /// yields 0 once it has nothing left).
    pub fn next_byte(&mut self) -> (r: u8)
        ensures
            final(self).input@ == old(self).input@,
            final(self).range == old(self).range,
            final(self).code == old(self).code,
            final(self).low == old(self).low,
            old(self).pos < old(self).input@.len() ==> r == old(self).input@[old(self).pos as int]
                && final(self).pos == old(self).pos + 1,
            old(self).pos >= old(self).input@.len() ==> r == 0 && final(self).pos == old(self).pos,
    {
        if self.pos < self.input.len() {
            let b: u8 = self.input[self.pos];
            self.pos = self.pos + 1;
            b
        } else {
            0
        }
    }

    /// Narrows the interval to `[start, start + size)` in units of the current `range`.
    pub fn decode(&mut self, start: u32, size: u32)
        ensures
            final(self).input@ == old(self).input@,
            final(self).pos == old(self).pos,
            final(self).low == old(self).low.wrapping_add(start.wrapping_mul(old(self).range)),
            final(self).code == old(self).code.wrapping_sub(start.wrapping_mul(old(self).range)),
            final(self).range == old(self).range.wrapping_mul(size),
    {
        let st: u32 = start.wrapping_mul(self.range);
        self.low = self.low.wrapping_add(st);
        self.code = self.code.wrapping_sub(st);
        self.range = self.range.wrapping_mul(size);
    }

    /// Shifts input bytes into `code` while `needs_shift` holds, at most
    /// `NORMALIZE_STEPS` times; `low` and `range` take the same steps as the encoder's.
    pub fn normalize(&mut self)
        ensures
            final(self).input@ == old(self).input@,
            (final(self).low, final(self).range) == normalized(
                old(self).low,
                old(self).range,
                NORMALIZE_STEPS as nat,
            ),
            final(self).code == shift_in(
                old(self).code,
                old(self).input@,
                old(self).pos as int,
                shift_count(old(self).low, old(self).range, NORMALIZE_STEPS as nat),
            ),
            final(self).pos == advance(
                old(self).pos as int,
                old(self).input@.len() as int,
                shift_count(old(self).low, old(self).range, NORMALIZE_STEPS as nat),
            ),
    {
        let mut fuel: u32 = NORMALIZE_STEPS;
        loop
            invariant
                fuel <= NORMALIZE_STEPS,
                self.input@ == old(self).input@,
                normalized(self.low, self.range, fuel as nat) == normalized(
                    old(self).low,
                    old(self).range,
                    NORMALIZE_STEPS as nat,
                ),
                shift_count(old(self).low, old(self).range, NORMALIZE_STEPS as nat) == (
                NORMALIZE_STEPS - fuel) + shift_count(self.low, self.range, fuel as nat),
                self.code == shift_in(
                    old(self).code,
                    old(self).input@,
                    old(self).pos as int,
                    (NORMALIZE_STEPS - fuel) as nat,
                ),
                self.pos == advance(
                    old(self).pos as int,
                    old(self).input@.len() as int,
                    (NORMALIZE_STEPS - fuel) as nat,
                ),
            ensures
                self.input@ == old(self).input@,
                (self.low, self.range) == normalized(
                    old(self).low,
                    old(self).range,
                    NORMALIZE_STEPS as nat,
                ),
                self.code == shift_in(
                    old(self).code,
                    old(self).input@,
                    old(self).pos as int,
                    shift_count(old(self).low, old(self).range, NORMALIZE_STEPS as nat),
                ),
                self.pos == advance(
                    old(self).pos as int,
                    old(self).input@.len() as int,
                    shift_count(old(self).low, old(self).range, NORMALIZE_STEPS as nat),
                ),
            decreases fuel,
        {
            if fuel == 0 {
                break;
            }
            if (self.low ^ self.low.wrapping_add(self.range)) >= K_TOP_VALUE {
                if self.range >= K_BOT_VALUE {
                    break;
                }
                self.range = 0u32.wrapping_sub(self.low) & (K_BOT_VALUE - 1);
            }
            let ghost k: nat = (NORMALIZE_STEPS - fuel) as nat;
            let b: u8 = self.next_byte();
            assert(b == byte_at(old(self).input@, old(self).pos + k));
            self.code = (self.code << 8u32) | (b as u32);
            self.range = self.range << 8u32;
            self.low = self.low << 8u32;
            fuel = fuel - 1;
        }
    }
}

/// Range encoder that appends its bytes to an output buffer.
pub struct RangeEncoder {
    pub range: u32,
    pub low: u32,
    pub output: Vec<u8>,
}

impl RangeEncoder {
    /// Creates an encoder with the full interval that appends to `output`.
    pub fn new(output: Vec<u8>) -> (r: Self)
        ensures
            r.range == 0xFFFF_FFFF,
            r.low == 0,
            r.output@ == output@,
    {
        RangeEncoder { range: 0xFFFF_FFFF, low: 0, output }
    }

    /// Narrows the interval to `[start, start + size)` out of `total`.
    pub fn encode(&mut self, start: u32, size: u32, total: u32)
        requires
            total > 0,
            old(self).low + start * (old(self).range / total) <= u32::MAX,
            (old(self).range / total) * size <= u32::MAX,
        ensures
            final(self).range == (old(self).range / total) * size,
            final(self).low == old(self).low + start * (old(self).range / total),
            final(self).output@ == old(self).output@,
    {
        self.range = self.range / total;
        proof {
            assert(0 <= start * self.range) by (nonlinear_arith);
        }
        self.low = self.low + start * self.range;
        self.range = self.range * size;
    }

    /// Narrows the interval to `[start, start + size)` out of `total` in wrapping
    /// 32-bit arithmetic, the form the PPMd8 model codes with; a zero `total` leaves
    /// a zero `range`.
    pub fn narrow(&mut self, start: u32, size: u32, total: u32)
        ensures
            total != 0 ==> final(self).range == (old(self).range / total).wrapping_mul(size),
            total != 0 ==> final(self).low == old(self).low.wrapping_add(
                start.wrapping_mul(old(self).range / total),
            ),
            total == 0 ==> final(self).range == 0 && final(self).low == old(self).low,
            final(self).output@ == old(self).output@,
    {
        let r: u32 = if total == 0 { 0 } else { self.range / total };
        self.range = r;
        if total != 0 {
            self.low = self.low.wrapping_add(start.wrapping_mul(r));
        }
        self.range = self.range.wrapping_mul(size);
    }

    /// Appends the four bytes of `low`, most significant first.
    pub fn flush(&mut self) -> (r: Result<(), std::io::Error>)
        ensures
            r is Ok,
            final(self).output@ == old(self).output@ + seq![
                (old(self).low >> 24u32) as u8,
                (old(self).low >> 16u32) as u8,
                (old(self).low >> 8u32) as u8,
                old(self).low as u8,
            ],
            final(self).low == 0,
            final(self).range == old(self).range,
    {
        let l: u32 = self.low;
        self.output.push((l >> 24u32) as u8);
        self.output.push((l >> 16u32) as u8);
        self.output.push((l >> 8u32) as u8);
        self.output.push(l as u8);
        self.low = 0;
        Ok(())
    }

    /// Appends the top byte of `low` and shifts the interval left by a byte while
    /// `needs_shift` holds, at most `NORMALIZE_STEPS` times.
    pub fn normalize(&mut self)
        ensures
            (final(self).low, final(self).range) == normalized(
                old(self).low,
                old(self).range,
                NORMALIZE_STEPS as nat,
            ),
            final(self).output@ == old(self).output@ + shifted_out(
                old(self).low,
                old(self).range,
                NORMALIZE_STEPS as nat,
            ),
    {
        let mut fuel: u32 = NORMALIZE_STEPS;
        loop
            invariant
                fuel <= NORMALIZE_STEPS,
                normalized(self.low, self.range, fuel as nat) == normalized(
                    old(self).low,
                    old(self).range,
                    NORMALIZE_STEPS as nat,
                ),
                old(self).output@ + shifted_out(old(self).low, old(self).range, NORMALIZE_STEPS as nat)
                    == self.output@ + shifted_out(self.low, self.range, fuel as nat),
            ensures
                (self.low, self.range) == normalized(
                    old(self).low,
                    old(self).range,
                    NORMALIZE_STEPS as nat,
                ),
                self.output@ == old(self).output@ + shifted_out(
                    old(self).low,
                    old(self).range,
                    NORMALIZE_STEPS as nat,
                ),
            decreases fuel,
        {
            if fuel == 0 {
                break;
            }
            if (self.low ^ self.low.wrapping_add(self.range)) >= K_TOP_VALUE {
                if self.range >= K_BOT_VALUE {
                    assert(self.output@ + shifted_out(self.low, self.range, fuel as nat)
                        =~= self.output@);
                    break;
                }
                self.range = 0u32.wrapping_sub(self.low) & (K_BOT_VALUE - 1);
            }
            let ghost before = self.output@;
            let ghost rest = shifted_out(self.low << 8u32, self.range << 8u32, (fuel - 1) as nat);
            self.output.push((self.low >> 24u32) as u8);
            assert(before + (seq![(self.low >> 24u32) as u8] + rest) =~= self.output@ + rest);
            self.range = self.range << 8u32;
            self.low = self.low << 8u32;
            fuel = fuel - 1;
        }
    }
}

} // verus!
