//! Coding one symbol with the PPMd8 model: the decoder picks the symbol whose
//! frequency interval holds the coded value, the encoder emits the interval of
//! the symbol it is given; both then update the model alike.

use vstd::prelude::*;
use crate::ppmd8::{Ppmd8, See, SeeSource, BIN_SCALE, PERIOD_BITS, state_at, spec_shr};
use crate::range_coding::{
    advance, normalized, shift_count, shift_in, shifted_out, RangeDecoder, RangeEncoder,
    NORMALIZE_STEPS,
};
use crate::arena::{byte_at, le32_at, rd16_spec, rd32_spec};

verus! {

/// A 256-entry symbol mask: 0xFF for symbols still possible, 0 for excluded ones.
fn full_mask() -> (m: Vec<u8>)
    ensures
        m@ == Seq::new(256, |i: int| 0xFFu8),
{
    vec![0xFFu8; 256]
}

/// The mask entry of `sym` (0 outside the mask).
fn mask_at(m: &Vec<u8>, sym: u32) -> (r: u32)
    ensures
        r <= 0xFF,
        (sym as int) < m@.len() ==> r == m@[sym as int],
        (sym as int) >= m@.len() ==> r == 0,
{
    if (sym as usize) < m.len() {
        m[sym as usize] as u32
    } else {
        0
    }
}

/// Excludes `sym`.
fn mask_clear(m: &mut Vec<u8>, sym: u32)
    ensures
        (sym as int) < old(m)@.len() ==> final(m)@ == old(m)@.update(sym as int, 0u8),
        (sym as int) >= old(m)@.len() ==> final(m)@ == old(m)@,
{
    if (sym as usize) < m.len() {
        m.set(sym as usize, 0);
    }
}

/// A cell after coding a symbol through it: while its shift is below the period,
/// each use counts down, and at zero its sum doubles and its period lengthens.
pub open spec fn spec_see_after_hit(see: See) -> See {
    if (see.shift as u32) < PERIOD_BITS {
        let count = see.count.wrapping_sub(1);
        if count == 0 {
            See {
                summ: ((see.summ as u32) << 1u32) as u16,
                shift: (see.shift + 1) as u8,
                count: (3u32 << (see.shift as u32)) as u8,
            }
        } else {
            See { count, ..see }
        }
    } else {
        see
    }
}

/// Coding a symbol through a cell whose shift is below 7 counts it down by one; when
/// that uses up its count, its sum doubles (modulo 2^16), its shift grows by one and
/// its count restarts at 3 times 2 to the old shift; a cell at shift 7 or more is
/// left as it is.
pub proof fn law_see_after_hit(see: See)
    ensures
        see.shift < 7 && see.count == 1 ==> spec_see_after_hit(see).summ as int == (see.summ as int * 2)
            % 0x10000 && spec_see_after_hit(see).shift == see.shift + 1 && spec_see_after_hit(see).count
            as u32 == 3u32 << (see.shift as u32),
        see.shift < 7 && see.count != 1 ==> spec_see_after_hit(see).summ == see.summ && spec_see_after_hit(
            see,
        ).shift == see.shift && spec_see_after_hit(see).count as int == (see.count as int + 255) % 256,
        see.shift >= 7 ==> spec_see_after_hit(see) == see,
{
    let sm: u16 = see.summ;
    let sh: u8 = see.shift;
    assert(((sm as u32) << 1u32) as u16 as int == (sm as int * 2) % 0x10000) by (bit_vector);
    assert(sh < 7 ==> ((3u32 << (sh as u32)) as u8) as u32 == 3u32 << (sh as u32)) by (bit_vector);
}

/// The cell after coding a symbol through it (`spec_see_after_hit`).
fn see_after_hit(see: See) -> (r: See)
    ensures
        r == spec_see_after_hit(see),
        see.shift < 7 && see.count == 1 ==> r.summ as int == (see.summ as int * 2) % 0x10000 && r.shift
            == see.shift + 1 && r.count as u32 == 3u32 << (see.shift as u32),
        see.shift < 7 && see.count != 1 ==> r.summ == see.summ && r.shift == see.shift && r.count as int
            == (see.count as int + 255) % 256,
        see.shift >= 7 ==> r == see,
{
    proof {
        law_see_after_hit(see);
    }
    if (see.shift as u32) < PERIOD_BITS {
        let count: u8 = see.count.wrapping_sub(1);
        if count == 0 {
            let shift: u8 = see.shift;
            See {
                summ: ((see.summ as u32) << 1u32) as u16,
                shift: shift + 1,
                count: (3u32 << (shift as u32)) as u8,
            }
        } else {
            See { count, ..see }
        }
    } else {
        see
    }
}

/// The decoder's first pass over the `n` states from `s` on: the first state at which
/// `count`, less the frequencies of the states up to and including it, drops below
/// zero (in 32-bit wrapping arithmetic, the top bit set), with what is left of `count`
/// there; `None` if no state does. For `count` below 2^31 this is the state whose
/// cumulative frequency interval holds `count`.
pub open spec fn first_pass_hit(mem: Seq<u8>, s: u32, count: u32, n: nat) -> Option<(u32, u32)>
    decreases n,
{
    if n == 0 {
        None
    } else {
        let left = count.wrapping_sub(byte_at(mem, s.wrapping_add(1) as int) as u32);
        if left >= 0x8000_0000 {
            Some((s, left))
        } else {
            first_pass_hit(mem, s.wrapping_add(6), left, (n - 1) as nat)
        }
    }
}

/// The encoder's first pass over the `n` states from `s` on: the first state that
/// holds `symbol`, with `sum` plus the frequencies of the states before it (in 32-bit
/// wrapping arithmetic); `None` if no state does.
pub open spec fn first_pass_find(mem: Seq<u8>, s: u32, symbol: i32, sum: u32, n: nat) -> Option<
    (u32, u32),
>
    decreases n,
{
    if n == 0 {
        None
    } else if byte_at(mem, s as int) as i32 == symbol {
        Some((s, sum))
    } else {
        first_pass_find(
            mem,
            s.wrapping_add(6),
            symbol,
            sum.wrapping_add(byte_at(mem, s.wrapping_add(1) as int) as u32),
            (n - 1) as nat,
        )
    }
}

/// `sum` plus the frequencies of the `n` states from `s` on, in 32-bit wrapping
/// arithmetic.
pub open spec fn freq_total(mem: Seq<u8>, s: u32, sum: u32, n: nat) -> u32
    decreases n,
{
    if n == 0 {
        sum
    } else {
        freq_total(
            mem,
            s.wrapping_add(6),
            sum.wrapping_add(byte_at(mem, s.wrapping_add(1) as int) as u32),
            (n - 1) as nat,
        )
    }
}

/// The context `k` suffix links up from `c`.
pub open spec fn suffix_iter(mem: Seq<u8>, c: u32, k: nat) -> u32
    decreases k,
{
    if k == 0 {
        c
    } else {
        rd32_spec(mem, suffix_iter(mem, c, (k - 1) as nat).wrapping_add(8))
    }
}

/// Whether `c` lies on the suffix chain from `from`.
pub open spec fn on_chain(mem: Seq<u8>, from: u32, c: u32) -> bool {
    exists|k: nat| #[trigger] suffix_iter(mem, from, k) == c
}

/// The 256-entry mask that excludes the symbol `x` alone.
pub open spec fn mask_without(x: u8) -> Seq<u8> {
    Seq::new(256, |i: int| if i == x as int { 0u8 } else { 0xFFu8 })
}

/// The 256-entry mask that excludes the symbols of the `n` states from `stats` on.
pub open spec fn mask_of_context(mem: Seq<u8>, stats: u32, n: nat) -> Seq<u8> {
    Seq::new(
        256,
        |c: int|
            if exists|j: int| 0 <= j < n && #[trigger] byte_at(mem, stats + 6 * j) as int == c {
                0u8
            } else {
                0xFFu8
            },
    )
}

/// Whether every entry of the 256-entry mask `m` is 0 (masked) or 0xFF.
pub open spec fn mask_ok(m: Seq<u8>) -> bool {
    &&& m.len() == 256
    &&& forall|c: int| 0 <= c < 256 ==> m[c] == 0 || m[c] == 0xFF
}

/// With no state holding `symbol` among the `n` from `s` on (inside 32 bits), no
/// state's symbol is `symbol`, and the last one starts `6 * (n - 1)` bytes on.
proof fn lemma_find_none_position(mem: Seq<u8>, s: u32, symbol: i32, sum: u32, n: nat)
    requires
        first_pass_find(mem, s, symbol, sum, n) is None,
        s + 6 * (n + 1) <= u32::MAX,
    ensures
        forall|j: int| 0 <= j < n ==> #[trigger] byte_at(mem, s + 6 * j) as i32 != symbol,
    decreases n,
{
    if n > 0 {
        let s1 = s.wrapping_add(6);
        assert(s1 == s + 6);
        lemma_find_none_position(
            mem,
            s1,
            symbol,
            sum.wrapping_add(byte_at(mem, s.wrapping_add(1) as int) as u32),
            (n - 1) as nat,
        );
        assert forall|j: int| 0 <= j < n implies #[trigger] byte_at(mem, s + 6 * j) as i32 != symbol by {
            if j > 0 {
                assert(byte_at(mem, s1 + 6 * (j - 1)) as i32 != symbol);
                assert(s1 + 6 * (j - 1) == s + 6 * j);
            }
        }
    }
}

/// Masking the next two states' symbols extends the mask by two states, whatever
/// symbol `b` was masked besides.
proof fn lemma_mask_step(mem: Seq<u8>, stats: u32, k: nat, b: u8)
    ensures
        mask_of_context(mem, stats, k).update(b as int, 0u8).update(
            byte_at(mem, stats + 6 * k) as int,
            0u8,
        ).update(byte_at(mem, stats + 6 * (k + 1)) as int, 0u8) =~= mask_of_context(mem, stats, k + 2).update(
            b as int,
            0u8,
        ),
{
    let b0 = byte_at(mem, stats + 6 * k);
    let b1 = byte_at(mem, stats + 6 * (k + 1));
    assert forall|c: int| 0 <= c < 256 implies mask_of_context(mem, stats, k).update(b as int, 0u8).update(
        b0 as int,
        0u8,
    ).update(b1 as int, 0u8)[c] == mask_of_context(mem, stats, k + 2).update(b as int, 0u8)[c] by {
        if c != b as int && c != b0 as int && c != b1 as int {
            if exists|j: int| 0 <= j < k + 2 && #[trigger] byte_at(mem, stats + 6 * j) as int == c {
                let j = choose|j: int| 0 <= j < k + 2 && #[trigger] byte_at(mem, stats + 6 * j) as int == c;
                assert(j < k);
            }
        }
        if c == b0 as int && c != b as int {
            assert(byte_at(mem, stats + 6 * (k as int)) as int == c);
        }
        if c == b1 as int && c != b as int {
            assert(byte_at(mem, stats + 6 * ((k + 1) as int)) as int == c);
        }
    }
}

/// Once the pairs cover all but at most the last of `n` states, masking the last
/// state's symbol gives the mask of all `n`.
proof fn lemma_mask_last(mem: Seq<u8>, stats: u32, k: nat, n: nat)
    requires
        n >= 1,
        k == n || k + 1 == n,
    ensures
        mask_of_context(mem, stats, k).update(byte_at(mem, stats + 6 * (n - 1)) as int, 0u8)
            =~= mask_of_context(mem, stats, n),
{
    let bl = byte_at(mem, stats + 6 * (n - 1));
    assert forall|c: int| 0 <= c < 256 implies mask_of_context(mem, stats, k).update(bl as int, 0u8)[c]
        == mask_of_context(mem, stats, n)[c] by {
        if c == bl as int {
            assert(byte_at(mem, stats + 6 * ((n - 1) as int)) as int == c);
        } else {
            if exists|j: int| 0 <= j < n && #[trigger] byte_at(mem, stats + 6 * j) as int == c {
                let j = choose|j: int| 0 <= j < n && #[trigger] byte_at(mem, stats + 6 * j) as int == c;
                assert(j < k);
            }
        }
    }
}

/// The frequency of the state at `s` as a pass under `mask` counts it: 0 where the
/// mask excludes its symbol (entry 0), its frequency otherwise.
pub open spec fn masked_freq(mem: Seq<u8>, s: u32, mask: Seq<u8>) -> u32 {
    if mask[byte_at(mem, s as int) as int] == 0 {
        0
    } else {
        byte_at(mem, s.wrapping_add(1) as int) as u32
    }
}

/// `sum` plus the masked frequencies (`masked_freq`) of the `n` states from `s` on,
/// in 32-bit wrapping arithmetic.
pub open spec fn masked_total(mem: Seq<u8>, s: u32, sum: u32, n: nat, mask: Seq<u8>) -> u32
    decreases n,
{
    if n == 0 {
        sum
    } else {
        masked_total(mem, s.wrapping_add(6), sum.wrapping_add(masked_freq(mem, s, mask)), (n - 1) as nat, mask)
    }
}

/// A masked pass over the `n` states from `s` on: the first state at which `count`,
/// less the masked frequencies up to and including it, drops below zero (in 32-bit
/// wrapping arithmetic, the top bit set); `None` if no state does.
pub open spec fn masked_hit(mem: Seq<u8>, s: u32, count: u32, n: nat, mask: Seq<u8>) -> Option<u32>
    decreases n,
{
    if n == 0 {
        None
    } else {
        let left = count.wrapping_sub(masked_freq(mem, s, mask));
        if left >= 0x8000_0000 {
            Some(s)
        } else {
            masked_hit(mem, s.wrapping_add(6), left, (n - 1) as nat, mask)
        }
    }
}

/// A count below the masked frequencies of the first `m` of `n` states (their sum
/// inside 32 bits) makes the masked pass stop at a state.
pub proof fn lemma_masked_hit_some(mem: Seq<u8>, s: u32, count: u32, sum: u32, m: nat, n: nat, mask: Seq<u8>)
    requires
        m <= n,
        sum + 255 * m <= u32::MAX,
        count + sum < masked_total(mem, s, sum, m, mask),
    ensures
        masked_hit(mem, s, count, n, mask) is Some,
    decreases m,
{
    if m > 0 {
        let f = masked_freq(mem, s, mask);
        assert(f <= 255);
        assert(sum.wrapping_add(f) == sum + f);
        if count >= f {
            let left = count.wrapping_sub(f);
            assert(left == count - f);
            if left < 0x8000_0000 {
                lemma_masked_hit_some(mem, s.wrapping_add(6), left, (sum + f) as u32, (m - 1) as nat, (n - 1) as nat, mask);
            }
        }
    }
}

/// A masked pass of the encoder over the `n` states from `s` on: the first state
/// that holds `symbol`, with `sum` plus the masked frequencies of the states before
/// it (in 32-bit wrapping arithmetic); `None` if no state does.
pub open spec fn masked_find(mem: Seq<u8>, s: u32, symbol: i32, sum: u32, n: nat, mask: Seq<u8>) -> Option<
    (u32, u32),
>
    decreases n,
{
    if n == 0 {
        None
    } else if byte_at(mem, s as int) as i32 == symbol {
        Some((s, sum))
    } else {
        masked_find(mem, s.wrapping_add(6), symbol, sum.wrapping_add(masked_freq(mem, s, mask)), (n - 1) as nat, mask)
    }
}

/// Adding `e` to the running sum first or after a masked total comes to the same.
proof fn lemma_masked_total_shift(mem: Seq<u8>, s: u32, sum: u32, e: u32, n: nat, mask: Seq<u8>)
    ensures
        masked_total(mem, s, sum.wrapping_add(e), n, mask) == masked_total(mem, s, sum, n, mask).wrapping_add(e),
    decreases n,
{
    if n > 0 {
        let f = masked_freq(mem, s, mask);
        assert(sum.wrapping_add(e).wrapping_add(f) == sum.wrapping_add(f).wrapping_add(e));
        lemma_masked_total_shift(mem, s.wrapping_add(6), sum.wrapping_add(f), e, (n - 1) as nat, mask);
    }
}

/// The encoder's masked pass only adds to `sum`: what it gives with a state is at
/// least `sum` and at most `sum` plus 255 per state passed.
proof fn lemma_masked_find_bounds(mem: Seq<u8>, s: u32, symbol: i32, sum: u32, n: nat, mask: Seq<u8>)
    requires
        sum as int + 255 * n <= u32::MAX,
    ensures
        masked_find(mem, s, symbol, sum, n, mask) matches Some((t, st)) ==> sum <= st && st as int <= sum
            + 255 * n,
    decreases n,
{
    if n > 0 && byte_at(mem, s as int) as i32 != symbol {
        let f = masked_freq(mem, s, mask);
        assert(f <= 255);
        assert(sum.wrapping_add(f) == sum + f);
        lemma_masked_find_bounds(mem, s.wrapping_add(6), symbol, sum.wrapping_add(f), (n - 1) as nat, mask);
    }
}

/// Induction for `law_masked_pass_agrees`: the encoder's masked pass from `s` with
/// `sum` already counted, and the decoder's from `s` with `count - sum` left and at
/// least as many states to go.
proof fn lemma_masked_pass_agrees(
    mem: Seq<u8>,
    s: u32,
    symbol: i32,
    mask: Seq<u8>,
    sum: u32,
    count: u32,
    n: nat,
    m: nat,
)
    requires
        sum <= count < 0x8000_0000,
        n <= m,
        n <= 256,
        masked_find(mem, s, symbol, sum, n, mask) matches Some((t, st)) && st <= count < st
            + masked_freq(mem, t, mask),
    ensures
        masked_find(mem, s, symbol, sum, n, mask) matches Some((t, st)) && masked_hit(
            mem,
            s,
            (count - sum) as u32,
            m,
            mask,
        ) == Some(t),
    decreases n,
{
    let f = masked_freq(mem, s, mask);
    assert(f <= 255);
    if byte_at(mem, s as int) as i32 != symbol {
        let sum1: u32 = sum.wrapping_add(f);
        assert(sum1 == sum + f);
        lemma_masked_find_bounds(mem, s.wrapping_add(6), symbol, sum1, (n - 1) as nat, mask);
        let left: u32 = ((count - sum) as u32).wrapping_sub(f);
        assert(left == count - sum1);
        lemma_masked_pass_agrees(mem, s.wrapping_add(6), symbol, mask, sum1, count, (n - 1) as nat, (m - 1) as nat);
    }
}

/// After an escape, the decoder's masked pass finds the state the encoder's masked
/// pass coded: where the encoder finds `symbol` at state `t` of the `n` states from
/// `s` (at most 256), after masked frequencies summing to `start`, and the decoder's
/// count lies in `t`'s interval `[start, start + masked_freq(t))` and below 2^31, the
/// decoder's masked pass from `s` stops at `t`.
pub proof fn law_masked_pass_agrees(mem: Seq<u8>, s: u32, symbol: i32, mask: Seq<u8>, count: u32, n: nat)
    requires
        n <= 256,
        count < 0x8000_0000,
        masked_find(mem, s, symbol, 0, n, mask) matches Some((t, start)) && start <= count < start
            + masked_freq(mem, t, mask),
    ensures
        masked_find(mem, s, symbol, 0, n, mask) matches Some((t, start)) && masked_hit(mem, s, count, 256, mask)
            == Some(t),
{
    lemma_masked_pass_agrees(mem, s, symbol, mask, 0, count, n, 256);
}

/// A byte `f` masked by 0 or 0xFF.
proof fn lemma_mask_byte(f: u32, m: u32)
    requires
        f <= 255,
        m == 0 || m == 0xFF,
    ensures
        m == 0 ==> f & m == 0,
        m == 0xFF ==> f & m == f,
{
    assert(f <= 255 ==> f & 0 == 0 && f & 0xFF == f) by (bit_vector);
}

/// The encoder's first pass only adds to `sum`: what it gives with a state is at
/// least `sum` and at most `sum` plus 255 per state passed.
proof fn lemma_find_start_bounds(mem: Seq<u8>, s: u32, symbol: i32, sum: u32, n: nat)
    requires
        sum as int + 255 * n <= u32::MAX,
    ensures
        first_pass_find(mem, s, symbol, sum, n) matches Some((t, st)) ==> sum <= st && st as int <= sum
            + 255 * n,
    decreases n,
{
    if n > 0 && byte_at(mem, s as int) as i32 != symbol {
        let f = byte_at(mem, s.wrapping_add(1) as int) as u32;
        assert(sum.wrapping_add(f) == sum + f);
        lemma_find_start_bounds(mem, s.wrapping_add(6), symbol, sum.wrapping_add(f), (n - 1) as nat);
    }
}

/// Induction for `law_first_pass_agrees`: the encoder's pass from `s` with `sum`
/// already counted, and the decoder's pass from `s` with `count - sum` left.
proof fn lemma_first_pass_agrees(mem: Seq<u8>, s: u32, symbol: i32, sum: u32, count: u32, n: nat)
    requires
        sum <= count < 0x8000_0000,
        n <= 256,
        first_pass_find(mem, s, symbol, sum, n) matches Some((t, st)) && st <= count < st
            + byte_at(mem, t.wrapping_add(1) as int),
    ensures
        first_pass_find(mem, s, symbol, sum, n) matches Some((t, st)) && first_pass_hit(
            mem,
            s,
            (count - sum) as u32,
            n,
        ) == Some((t, ((count - st) as u32).wrapping_sub(byte_at(mem, t.wrapping_add(1) as int) as u32))),
    decreases n,
{
    let f = byte_at(mem, s.wrapping_add(1) as int) as u32;
    if byte_at(mem, s as int) as i32 != symbol {
        let sum1: u32 = sum.wrapping_add(f);
        assert(sum1 == sum + f);
        lemma_find_start_bounds(mem, s.wrapping_add(6), symbol, sum1, (n - 1) as nat);
        let left: u32 = ((count - sum) as u32).wrapping_sub(f);
        assert(left == count - sum1);
        lemma_first_pass_agrees(mem, s.wrapping_add(6), symbol, sum1, count, (n - 1) as nat);
    }
}

/// The decoder's first pass finds the state the encoder's first pass coded: where
/// the encoder finds `symbol` at state `t` of the `n` states from `s` (at most 256),
/// after frequencies summing to `start`, and the decoder's count lies in `t`'s
/// interval `[start, start + freq(t))` and below 2^31, the decoder's pass over the
/// same states stops at `t` and takes the same interval.
pub proof fn law_first_pass_agrees(mem: Seq<u8>, s: u32, symbol: i32, count: u32, n: nat)
    requires
        n <= 256,
        count < 0x8000_0000,
        first_pass_find(mem, s, symbol, 0, n) matches Some((t, start)) && start <= count < start
            + byte_at(mem, t.wrapping_add(1) as int),
    ensures
        first_pass_find(mem, s, symbol, 0, n) matches Some((t, start)) && first_pass_hit(
            mem,
            s,
            count,
            n,
        ) matches Some((t2, left)) && t2 == t && count.wrapping_sub(left).wrapping_sub(
            byte_at(mem, t.wrapping_add(1) as int) as u32,
        ) == start,
{
    lemma_first_pass_agrees(mem, s, symbol, 0, count, n);
}

/// Over `n` states from `s` on that each have frequency 1, the decoder's first pass
/// stops at the state `count` places on, with nothing left, when `count < n`, and
/// finds nothing otherwise.
proof fn lemma_unit_freq_hit(mem: Seq<u8>, s: u32, count: u32, n: nat)
    requires
        s as int + 6 * n <= u32::MAX,
        forall|k: int| 0 <= k < n ==> #[trigger] byte_at(mem, s + 6 * k + 1) == 1,
        count < 0x8000_0000,
    ensures
        count < n ==> first_pass_hit(mem, s, count, n) == Some(
            ((s + 6 * count) as u32, 0xFFFF_FFFFu32),
        ),
        count >= n ==> first_pass_hit(mem, s, count, n) is None,
    decreases n,
{
    if n > 0 {
        assert(byte_at(mem, s + 6 * 0 + 1) == 1);
        assert(s.wrapping_add(1) == s + 1);
        if count > 0 {
            let s1: u32 = (s + 6) as u32;
            assert(s.wrapping_add(6) == s1);
            assert forall|k: int| 0 <= k < (n - 1) as nat implies #[trigger] byte_at(mem, s1 + 6 * k + 1) == 1 by {
                assert(byte_at(mem, s + 6 * (k + 1) + 1) == 1);
                assert(s1 + 6 * k + 1 == s + 6 * (k + 1) + 1);
            }
            lemma_unit_freq_hit(mem, s1, (count - 1) as u32, (n - 1) as nat);
        }
    }
}

/// Over `n` states from `s` on that each have frequency 1 and hold the symbols
/// `base`, `base + 1`, ... in order, the encoder's first pass finds `symbol` at its
/// place, with the frequencies before it added to `sum`, when it is among them.
proof fn lemma_unit_freq_find(mem: Seq<u8>, s: u32, symbol: i32, sum: u32, base: int, n: nat)
    requires
        s as int + 6 * n <= u32::MAX,
        0 <= base,
        base + n <= 256,
        sum as int + n <= u32::MAX,
        forall|k: int| 0 <= k < n ==> #[trigger] byte_at(mem, s + 6 * k + 1) == 1,
        forall|k: int| 0 <= k < n ==> #[trigger] byte_at(mem, s + 6 * k) == (base + k) as u8,
    ensures
        base <= symbol < base + n ==> first_pass_find(mem, s, symbol, sum, n) == Some(
            ((s + 6 * (symbol - base)) as u32, (sum + (symbol - base)) as u32),
        ),
    decreases n,
{
    if n > 0 {
        assert(byte_at(mem, s + 6 * 0 + 1) == 1);
        assert(byte_at(mem, s + 6 * 0) == (base + 0) as u8);
        assert(s.wrapping_add(1) == s + 1);
        if base < symbol {
            let s1: u32 = (s + 6) as u32;
            assert(s.wrapping_add(6) == s1);
            assert(((base + 0) as u8) as i32 != symbol);
            assert forall|k: int| 0 <= k < (n - 1) as nat implies #[trigger] byte_at(mem, s1 + 6 * k + 1) == 1 by {
                assert(byte_at(mem, s + 6 * (k + 1) + 1) == 1);
                assert(s1 + 6 * k + 1 == s + 6 * (k + 1) + 1);
            }
            assert forall|k: int| 0 <= k < (n - 1) as nat implies #[trigger] byte_at(mem, s1 + 6 * k) == (base + 1 + k) as u8 by {
                assert(byte_at(mem, s + 6 * (k + 1)) == (base + (k + 1)) as u8);
                assert(s1 + 6 * k == s + 6 * (k + 1));
            }
            lemma_unit_freq_find(mem, s1, symbol, sum.wrapping_add(1), base + 1, (n - 1) as nat);
        }
    }
}

/// In a fresh model, coding from the full interval (`range` 0xFFFF_FFFF): the root
/// context has several states and a total of 257, so each symbol gets a share of
/// 0x00FF_00FF; the decoder's first pass with `count` below 256 stops at the state
/// of symbol `count`; the encoder's finds any `symbol` below 256 at its own place,
/// with `symbol` states of frequency 1 before it.
pub(crate) proof fn lemma_fresh_first_pass(model: &Ppmd8, count: u32, symbol: i32)
    requires
        model.is_fresh(),
    ensures
        ({
            let mem = model.memory@;
            let mc = model.min_context;
            let stats = rd32_spec(mem, mc.wrapping_add(4));
            &&& byte_at(mem, mc as int) as nat + 1 == 256
            &&& model.coding_total(0xFFFF_FFFF) == 257
            &&& stats == model.units_start
            &&& stats as int + 1536 <= u32::MAX
            &&& rd32_spec(mem, mc.wrapping_add(8)) == 0
            &&& 256 <= count < 0x8000_0000 ==> first_pass_hit(mem, stats, count, 256) is None
            &&& count < 256 ==> first_pass_hit(mem, stats, count, 256) == Some(
                ((stats + 6 * count) as u32, 0xFFFF_FFFFu32),
            ) && byte_at(mem, stats + 6 * count) == count as u8 && byte_at(
                mem,
                ((stats + 6 * count) as u32).wrapping_add(1) as int,
            ) == 1
            &&& 0 <= symbol < 256 ==> first_pass_find(mem, stats, symbol, 0, 256) == Some(
                ((stats + 6 * symbol) as u32, symbol as u32),
            ) && byte_at(mem, ((stats + 6 * symbol) as u32).wrapping_add(1) as int) == 1
        }),
{
    model.reveal_fresh();
    let mem = model.memory@;
    let mc = model.min_context;
    let stats = model.units_start;
    assert(mc.wrapping_add(4) == mc + 4 && mc.wrapping_add(2) == mc + 2 && mc.wrapping_add(8) == mc + 8);
    assert(rd32_spec(mem, mc.wrapping_add(4)) == le32_at(mem, mc + 4));
    assert(rd32_spec(mem, mc.wrapping_add(8)) == le32_at(mem, mc + 8));
    let b2 = byte_at(mem, mc + 2);
    let b3 = byte_at(mem, mc + 3);
    assert(rd16_spec(mem, mc.wrapping_add(2)) == (b2 as u16) | ((b3 as u16) << 8u16));
    assert((b2 as u16) | ((b3 as u16) << 8u16) == b2 as int + 256 * b3 as int) by (bit_vector);
    assert forall|k: int| 0 <= k < 256 implies #[trigger] byte_at(mem, stats + 6 * k + 1) == 1 && byte_at(mem, stats + 6 * k) == (0 + k) as u8 by {
        assert(state_at(mem, (stats + 6 * k) as u32) == (k as u8, 1u8, 0u32));
    }
    assert forall|k: int| 0 <= k < 256 implies #[trigger] byte_at(mem, stats + 6 * k) == (0 + k) as u8 by {
        assert(state_at(mem, (stats + 6 * k) as u32) == (k as u8, 1u8, 0u32));
    }
    lemma_unit_freq_find(mem, stats, symbol, 0, 0, 256);
    if 256 <= count < 0x8000_0000 {
        lemma_unit_freq_hit(mem, stats, count, 256);
    }
    if count < 256 {
        lemma_unit_freq_hit(mem, stats, count, 256);
        assert(byte_at(mem, stats + 6 * count) == (0 + count) as u8);
        assert(byte_at(mem, stats + 6 * count + 1) == 1);
    }
    if 0 <= symbol < 256 {
        assert(byte_at(mem, stats + 6 * symbol + 1) == 1);
    }
}

/// From a fresh model and the coder's full interval, a decoding step gives
/// `code / 0x00FF_00FF` (the share of one of the root's 257 counts) when that is below
/// 256, and the end mark when it is 256.
pub(crate) proof fn lemma_fresh_decode_step(
    model: &Ppmd8,
    rc: RangeDecoder,
    after: Ppmd8,
    rc_after: RangeDecoder,
    r: i32,
)
    requires
        model.is_fresh(),
        rc.range == 0xFFFF_FFFF,
        model.decode_step(rc, after, rc_after, r),
    ensures
        rc.code / 0x00FF_00FF < 256 ==> r == rc.code / 0x00FF_00FF,
        rc.code / 0x00FF_00FF == 256 ==> r == -1,
{
    assert(0xFFFF_FFFFu32 / 257 == 0x00FF_00FFu32);
    lemma_fresh_first_pass(model, rc.code / 0x00FF_00FF, 0);
    let count: u32 = rc.code / 0x00FF_00FF;
    let stats = model.units_start;
    if count < 256 {
        assert(byte_at(model.memory@, ((stats + 6 * count) as u32) as int) == count as u8);
    }
}

/// From a fresh model and the coder's full interval from 0, encoding the byte `x`
/// narrows to `x * 0x00FF_00FF` and a range of 0x00FF_00FF, then renormalises.
pub(crate) proof fn lemma_fresh_encode_step(
    model: &Ppmd8,
    rc: RangeEncoder,
    after: Ppmd8,
    rc_after: RangeEncoder,
    x: u8,
)
    requires
        model.is_fresh(),
        rc.low == 0,
        rc.range == 0xFFFF_FFFF,
        model.encode_step(rc, after, rc_after, x as i32),
    ensures
        ({
            let low1 = ((x as int) * 0x00FF_00FF) as u32;
            &&& (rc_after.low, rc_after.range) == normalized(low1, 0x00FF_00FF, NORMALIZE_STEPS as nat)
            &&& rc_after.output@ == rc.output@ + shifted_out(low1, 0x00FF_00FF, NORMALIZE_STEPS as nat)
        }),
{
    let low1: u32 = ((x as int) * 0x00FF_00FF) as u32;
    assert(0xFFFF_FFFFu32 / 257 == 0x00FF_00FFu32);
    lemma_fresh_first_pass(model, 0, x as i32);
    assert((x as u32).wrapping_mul(0x00FF_00FFu32) == low1);
    assert(0u32.wrapping_add(low1) == low1);
    assert(0x00FF_00FFu32.wrapping_mul(1) == 0x00FF_00FFu32);
}

impl Ppmd8 {
    /// The index into `bin_summ` of the probability for the binary context
    /// `min_context`: row `ns2index[freq - 1]` of its one state's frequency, column
    /// `prev_success` plus 0x20 while `run_length` is negative plus `ns2bs_index` of
    /// the suffix's state count plus the context's flags; past the table (row 25 or
    /// more, column 64 or more) it is `usize::MAX`.
    pub(crate) open spec fn spec_bin_summ_index(&self) -> usize {
        let mc = self.min_context;
        let freq = byte_at(self.memory@, mc.wrapping_add(2).wrapping_add(1) as int) as u32;
        let row: u32 = if freq >= 1 { self.spec_ns2index_at((freq - 1) as u32) } else { 0xFF };
        let rl: u32 = if self.run_length < 0 { 0x20 } else { 0 };
        let suffix = rd32_spec(self.memory@, mc.wrapping_add(8));
        let col: u32 = self.prev_success.wrapping_add(rl).wrapping_add(
            self.spec_ns2bs_at(byte_at(self.memory@, suffix as int) as u32),
        ).wrapping_add(byte_at(self.memory@, mc.wrapping_add(1) as int) as u32);
        if row < 25 && col < 64 {
            (row * 64 + col) as usize
        } else {
            usize::MAX
        }
    }

    /// The index into `bin_summ` of the probability for the binary context
    /// `min_context` (0 .. 25*64), or an index past the table where the row or column
    /// falls outside it.
    fn bin_summ_index(&self) -> (r: usize)
        ensures
            r == self.spec_bin_summ_index(),
    {
        let mc: u32 = self.min_context;
        let freq: u32 = self.st_freq(Self::one_state(mc));
        let row: u32 = if freq >= 1 { self.ns2index_at(freq - 1) } else { 0xFF };
        let rl: u32 = if self.run_length < 0 { 0x20 } else { 0 };
        let col: u32 = self.prev_success.wrapping_add(rl).wrapping_add(
            self.ns2bs_at(self.ctx_ns(self.ctx_suffix(mc))),
        ).wrapping_add(self.ctx_flags(mc));
        if row < 25 && col < 64 {
            (row as usize) * 64 + (col as usize)
        } else {
            usize::MAX
        }
    }

    /// The state that coding in `min_context` tries first: the first of its statistics,
    /// or, in a context with one state, that state.
    pub(crate) open spec fn first_state(&self) -> u32 {
        let mc = self.min_context;
        if byte_at(self.memory@, mc as int) != 0 {
            rd32_spec(self.memory@, mc.wrapping_add(4))
        } else {
            mc.wrapping_add(2)
        }
    }

    /// The total that coding in a context with several states divides `range` by: the
    /// context's frequency sum, at most `range`.
    pub(crate) open spec fn coding_total(&self, range: u32) -> u32 {
        let summ = rd16_spec(self.memory@, self.min_context.wrapping_add(2)) as u32;
        if summ > range {
            range
        } else {
            summ
        }
    }

    /// The probability, out of `BIN_SCALE`, that a binary context's symbol comes: its
    /// `bin_summ` entry, or 0 past the table.
    pub(crate) open spec fn bin_prob(&self) -> u32 {
        let idx = self.spec_bin_summ_index();
        if (idx as int) < self.bin_summ@.len() {
            self.bin_summ@[idx as int] as u32
        } else {
            0
        }
    }

    /// Whether decoding escapes from a binary `min_context` (the coder's `code` at or
    /// above its symbol's share) into a suffix with several states.
    pub(crate) open spec fn binary_escape_applies(&self, rc: RangeDecoder) -> bool {
        let mem = self.memory@;
        let mc = self.min_context;
        let sc = rd32_spec(mem, mc.wrapping_add(8));
        let size0 = (rc.range >> 14u32).wrapping_mul(self.bin_prob());
        &&& byte_at(mem, mc as int) == 0
        &&& rc.code >= size0
        &&& sc != 0
        &&& byte_at(mem, sc as int) != 0
    }

    /// The coder `(low, range, code, pos)` after the escape from a binary `min_context`
    /// (the interval above its symbol's share, up to the last multiple of
    /// `BIN_SCALE`) and the renormalisation that starts the next context.
    pub(crate) open spec fn binary_escape_coder(&self, rc: RangeDecoder) -> (u32, u32, u32, int) {
        let size0 = (rc.range >> 14u32).wrapping_mul(self.bin_prob());
        let low1 = rc.low.wrapping_add(size0);
        let code1 = rc.code.wrapping_sub(size0);
        let range1 = (rc.range & !((BIN_SCALE - 1) as u32)).wrapping_sub(size0);
        let n = shift_count(low1, range1, NORMALIZE_STEPS as nat);
        (
            normalized(low1, range1, NORMALIZE_STEPS as nat).0,
            normalized(low1, range1, NORMALIZE_STEPS as nat).1,
            shift_in(code1, rc.input@, rc.pos as int, n),
            advance(rc.pos as int, rc.input@.len() as int, n),
        )
    }

    /// The escape frequency that the suffix of `min_context` gives after an escape
    /// from `min_context` with `num_masked` (its state count byte) masked
    /// (`make_esc_freq` in that suffix).
    pub(crate) open spec fn suffix_escape_freq(&self, num_masked: u32) -> u32 {
        let sc = rd32_spec(self.memory@, self.min_context.wrapping_add(8));
        (Ppmd8 { min_context: sc, ..*self }).context_escape_freq(num_masked)
    }

    /// The escape frequency that `min_context` gives with `num_masked` symbols masked
    /// (`make_esc_freq`).
    pub(crate) open spec fn context_escape_freq(&self, num_masked: u32) -> u32 {
        let (use_table, idx) = self.see_slot(num_masked);
        let see = self.spec_see_at(SeeSource::Table(idx));
        let e = spec_shr(see.summ as u32, see.shift as u32);
        if use_table {
            if e == 0 {
                1
            } else {
                e
            }
        } else {
            1
        }
    }

    /// In `min_context`, with the coder at `range` and `code` and the symbols masked
    /// by `mask` (`num_masked` of them): the masked frequency sum `hi` of its states,
    /// the total (`hi` plus the escape estimate, at most `range`) that the range is
    /// divided by, and the count the code gives.
    pub(crate) open spec fn context_counts(&self, range: u32, code: u32, mask: Seq<u8>, num_masked: u32) -> (
        u32,
        u32,
        u32,
    ) {
        let mem = self.memory@;
        let mc = self.min_context;
        let esc = self.context_escape_freq(num_masked);
        let hi = masked_total(mem, rd32_spec(mem, mc.wrapping_add(4)), 0, byte_at(mem, mc as int) as nat + 1, mask);
        let sum = esc.wrapping_add(hi);
        let total: u32 = if sum > range {
            range
        } else {
            sum
        };
        let q: u32 = if total == 0 {
            0
        } else {
            range / total
        };
        let count: u32 = if q == 0 {
            0
        } else {
            code / q
        };
        (hi, total, count)
    }

    /// What decoding in `min_context` after an escape gives (`context_counts`): the
    /// symbol of the state the masked pass stops at, with the count below the masked
    /// sum; -2 with the count at or past the total; -3 (a further escape) between.
    pub(crate) open spec fn context_decides(&self, rc: RangeDecoder, mask: Seq<u8>, num_masked: u32, r: i32) -> bool {
        let mem = self.memory@;
        let (hi, total, count) = self.context_counts(rc.range, rc.code, mask, num_masked);
        &&& count < hi ==> (masked_hit(mem, rd32_spec(mem, self.min_context.wrapping_add(4)), count, 256, mask) matches Some(
            t,
        ) && r == byte_at(mem, t as int) as i32)
        &&& count >= hi && count >= total ==> r == -2
        &&& count >= hi && count < total ==> r == -3
    }

    /// Whether encoding `symbol` escapes from a binary `min_context` (another symbol)
    /// into a suffix with several states.
    pub(crate) open spec fn binary_escape_applies_with(&self, symbol: i32) -> bool {
        let mem = self.memory@;
        let mc = self.min_context;
        let sc = rd32_spec(mem, mc.wrapping_add(8));
        &&& byte_at(mem, mc as int) == 0
        &&& byte_at(mem, mc.wrapping_add(2) as int) as i32 != symbol
        &&& sc != 0
        &&& byte_at(mem, sc as int) != 0
    }

    /// Whether encoding `symbol` escapes from a `min_context` with several states
    /// (none holds `symbol`) into a suffix with several states and another state count,
    /// with the states' offsets inside 32 bits.
    pub(crate) open spec fn multi_escape_applies_with(&self, symbol: i32) -> bool {
        let mem = self.memory@;
        let mc = self.min_context;
        let sc = rd32_spec(mem, mc.wrapping_add(8));
        let stats = rd32_spec(mem, mc.wrapping_add(4));
        let n = byte_at(mem, mc as int) as nat + 1;
        &&& byte_at(mem, mc as int) != 0
        &&& first_pass_find(mem, stats, symbol, 0, n) is None
        &&& sc != 0
        &&& byte_at(mem, sc as int) != 0
        &&& byte_at(mem, sc as int) != byte_at(mem, mc as int)
        &&& stats as int + 6 * (n + 1) <= u32::MAX
    }

    /// The encoder's `(low, range)` after the escape from a binary `min_context` and the
    /// renormalisation that starts the next context.
    pub(crate) open spec fn binary_escape_encoder(&self, low: u32, range: u32) -> (u32, u32) {
        let size0 = (range >> 14u32).wrapping_mul(self.bin_prob());
        let low1 = low.wrapping_add(size0);
        let range1 = (range & !((BIN_SCALE - 1) as u32)).wrapping_sub(size0);
        normalized(low1, range1, NORMALIZE_STEPS as nat)
    }

    /// After the escape from a binary `min_context` into its suffix `sc`, which masks
    /// the binary context's symbol: the masked frequency sum `hi` of `sc`'s states,
    /// the total `total` (`hi` plus the escape estimate of `sc`, at most the coder's
    /// range) that the range is divided by, and the count the coder's code gives.
    pub(crate) open spec fn binary_escape_counts(&self, rc: RangeDecoder) -> (u32, u32, u32) {
        let x = byte_at(self.memory@, self.min_context.wrapping_add(2) as int);
        let (low2, range2, code2, pos2) = self.binary_escape_coder(rc);
        self.suffix_counts(range2, code2, mask_without(x), 0)
    }

    /// In the suffix `sc` of `min_context`, entered with the coder at `range2` and
    /// `code2` after `num_masked` symbols were masked by `mask`: the masked frequency
    /// sum `hi` of `sc`'s states, the total `total` (`hi` plus the escape estimate,
    /// at most `range2`) that the range is divided by, and the count the code gives.
    pub(crate) open spec fn suffix_counts(&self, range2: u32, code2: u32, mask: Seq<u8>, num_masked: u32) -> (
        u32,
        u32,
        u32,
    ) {
        let sc = rd32_spec(self.memory@, self.min_context.wrapping_add(8));
        (Ppmd8 { min_context: sc, ..*self }).context_counts(range2, code2, mask, num_masked)
    }

    /// Whether decoding escapes from a `min_context` with several states (the first
    /// pass finds none and the count is below the total) into a suffix whose state
    /// count differs, with the states' offsets inside 32 bits.
    pub(crate) open spec fn multi_escape_applies(&self, rc: RangeDecoder) -> bool {
        let mem = self.memory@;
        let mc = self.min_context;
        let sc = rd32_spec(mem, mc.wrapping_add(8));
        let stats = rd32_spec(mem, mc.wrapping_add(4));
        let n = byte_at(mem, mc as int) as nat + 1;
        let total = self.coding_total(rc.range);
        let q: u32 = if total == 0 { 0 } else { rc.range / total };
        let count: u32 = if q == 0 { 0 } else { rc.code / q };
        &&& byte_at(mem, mc as int) != 0
        &&& first_pass_hit(mem, stats, count, n) is None
        &&& count < total
        &&& sc != 0
        &&& byte_at(mem, sc as int) != 0
        &&& byte_at(mem, sc as int) != byte_at(mem, mc as int)
        &&& stats as int + 6 * (n + 1) <= u32::MAX
    }

    /// The coder `(low, range, code, pos)` after the escape from a `min_context` with
    /// several states (the part of the total above all their frequencies) and the
    /// renormalisation that starts the next context.
    pub(crate) open spec fn multi_escape_coder(&self, rc: RangeDecoder) -> (u32, u32, u32, int) {
        let mem = self.memory@;
        let mc = self.min_context;
        let total = self.coding_total(rc.range);
        let q: u32 = if total == 0 { 0 } else { rc.range / total };
        let tot = freq_total(mem, rd32_spec(mem, mc.wrapping_add(4)), 0, byte_at(mem, mc as int) as nat + 1);
        let (low1, range1) = self.escape_interval(rc.low, rc.range);
        let code1 = rc.code.wrapping_sub(tot.wrapping_mul(q));
        let n = shift_count(low1, range1, NORMALIZE_STEPS as nat);
        (
            normalized(low1, range1, NORMALIZE_STEPS as nat).0,
            normalized(low1, range1, NORMALIZE_STEPS as nat).1,
            shift_in(code1, rc.input@, rc.pos as int, n),
            advance(rc.pos as int, rc.input@.len() as int, n),
        )
    }

    /// The counts in the suffix after the escape from a `min_context` with several
    /// states, all of whose symbols are masked (`suffix_counts`).
    pub(crate) open spec fn multi_escape_counts(&self, rc: RangeDecoder) -> (u32, u32, u32) {
        let mem = self.memory@;
        let mc = self.min_context;
        let mask = mask_of_context(mem, rd32_spec(mem, mc.wrapping_add(4)), byte_at(mem, mc as int) as nat + 1);
        let (low2, range2, code2, pos2) = self.multi_escape_coder(rc);
        self.suffix_counts(range2, code2, mask, byte_at(mem, mc as int) as u32)
    }

    /// Whether the escape from a `min_context` with several states decides the result
    /// in its suffix: the count falls in the masked states' interval, or is at or past
    /// the total.
    pub(crate) open spec fn multi_escape_decides(&self, rc: RangeDecoder) -> bool {
        let (hi, total, count) = self.multi_escape_counts(rc);
        &&& self.multi_escape_applies(rc)
        &&& (count < hi || count >= total)
    }

    /// Whether the escape from a binary `min_context` into a suffix with several
    /// states decides the result there: the count falls in the masked states'
    /// interval, or is at or past the total.
    pub(crate) open spec fn binary_escape_decides(&self, rc: RangeDecoder) -> bool {
        let (hi, total, count) = self.binary_escape_counts(rc);
        &&& self.binary_escape_applies(rc)
        &&& (count < hi || count >= total)
    }

    /// Whether decoding with the coder at `range` and `code` escapes at once from
    /// `min_context` and finds it to be the root (no suffix): in a context with
    /// several states, the first pass finds no state and the count is below the
    /// total; in a binary context, `code` is at or above the share of its symbol.
    pub(crate) open spec fn escapes_root(&self, range: u32, code: u32) -> bool {
        let mem = self.memory@;
        let mc = self.min_context;
        let total = self.coding_total(range);
        let q: u32 = if total == 0 { 0 } else { range / total };
        let count: u32 = if q == 0 { 0 } else { code / q };
        let size0 = (range >> 14u32).wrapping_mul(self.bin_prob());
        &&& rd32_spec(mem, mc.wrapping_add(8)) == 0
        &&& if byte_at(mem, mc as int) != 0 {
            first_pass_hit(
                mem,
                rd32_spec(mem, mc.wrapping_add(4)),
                count,
                byte_at(mem, mc as int) as nat + 1,
            ) is None && count < total
        } else {
            code >= size0
        }
    }

    /// Whether encoding `symbol` escapes at once from `min_context` and finds it to
    /// be the root (no suffix): the context holds no state with `symbol`.
    pub(crate) open spec fn escapes_root_with(&self, symbol: i32) -> bool {
        let mem = self.memory@;
        let mc = self.min_context;
        &&& rd32_spec(mem, mc.wrapping_add(8)) == 0
        &&& if byte_at(mem, mc as int) != 0 {
            first_pass_find(
                mem,
                rd32_spec(mem, mc.wrapping_add(4)),
                symbol,
                0,
                byte_at(mem, mc as int) as nat + 1,
            ) is None
        } else {
            byte_at(mem, mc.wrapping_add(2) as int) as i32 != symbol
        }
    }

    /// The interval `(low, range)` the encoder narrows to when it escapes from
    /// `min_context`: in a context with several states, the part of the total above
    /// all their frequencies; in a binary context, what lies above its symbol's share,
    /// up to the last multiple of `BIN_SCALE` in `range`.
    pub(crate) open spec fn escape_interval(&self, low: u32, range: u32) -> (u32, u32) {
        let mem = self.memory@;
        let mc = self.min_context;
        if byte_at(mem, mc as int) != 0 {
            let total = self.coding_total(range);
            let q: u32 = if total == 0 { 0 } else { range / total };
            let sum = freq_total(
                mem,
                rd32_spec(mem, mc.wrapping_add(4)),
                0,
                byte_at(mem, mc as int) as nat + 1,
            );
            (low.wrapping_add(sum.wrapping_mul(q)), q.wrapping_mul(total.wrapping_sub(sum)))
        } else {
            let size0 = (range >> 14u32).wrapping_mul(self.bin_prob());
            (low.wrapping_add(size0), (range & !((BIN_SCALE - 1) as u32)).wrapping_sub(size0))
        }
    }

    /// Whether decoding escapes from a `min_context` with several states at once: the
    /// first pass hits no state and the count is below the total.
    pub(crate) open spec fn escapes_first(&self, rc: RangeDecoder) -> bool {
        let mem = self.memory@;
        let mc = self.min_context;
        let total = self.coding_total(rc.range);
        let q: u32 = if total == 0 { 0 } else { rc.range / total };
        let count: u32 = if q == 0 { 0 } else { rc.code / q };
        &&& byte_at(mem, mc as int) != 0
        &&& first_pass_hit(mem, rd32_spec(mem, mc.wrapping_add(4)), count, byte_at(mem, mc as int) as nat + 1) is None
        &&& count < total
    }

    /// The first pass over a `min_context` with several states: the state it hits
    /// fixes the symbol, the coder's step and the update; with no state hit and the
    /// count at or past the total, -2.
    pub(crate) open spec fn first_context_step(&self, rc: RangeDecoder, after: Ppmd8, rc_after: RangeDecoder, r: i32) -> bool {
        {
            let mem = self.memory@;
            let mc = self.min_context;
            let total = self.coding_total(rc.range);
            let q: u32 = if total == 0 { 0 } else { rc.range / total };
            let count: u32 = if q == 0 { 0 } else { rc.code / q };
            byte_at(mem, mc as int) != 0 ==> match first_pass_hit(
                mem,
                rd32_spec(mem, mc.wrapping_add(4)),
                count,
                byte_at(mem, mc as int) as nat + 1,
            ) {
                Some((s, left)) => {
                    let f = byte_at(mem, s.wrapping_add(1) as int) as u32;
                    let start = count.wrapping_sub(left).wrapping_sub(f);
                    let low1 = rc.low.wrapping_add(start.wrapping_mul(q));
                    let r1 = q.wrapping_mul(f);
                    let n = shift_count(low1, r1, NORMALIZE_STEPS as nat);
                    let stats = rd32_spec(mem, mc.wrapping_add(4));
                    let f0 = byte_at(mem, stats.wrapping_add(1) as int) as u32;
                    &&& count.wrapping_sub(f0) >= 0x8000_0000 ==> after.after_update1_0(
                        &Ppmd8 { found_state: s, ..*self },
                    )
                    &&& count.wrapping_sub(f0) < 0x8000_0000 ==> after.after_update1(
                        &Ppmd8 { found_state: s, prev_success: 0, ..*self },
                    )
                    &&& r == byte_at(mem, s as int) as i32
                    &&& (rc_after.low, rc_after.range) == normalized(
                        low1,
                        r1,
                        NORMALIZE_STEPS as nat,
                    )
                    &&& rc_after.code == shift_in(
                        rc.code.wrapping_sub(start.wrapping_mul(q)),
                        rc.input@,
                        rc.pos as int,
                        n,
                    )
                    &&& rc_after.pos == advance(
                        rc.pos as int,
                        rc.input@.len() as int,
                        n,
                    )
                },
                None => count >= total ==> r == -2,
            }
        }
    }

    /// What decoding one symbol in `self` with the coder `rc` gives (`r`) and leaves
    /// (the model `after`, the coder `rc_after`): the first pass over a context with
    /// several states fixes the symbol, the coder's step and the update, or -2 past
    /// the total; a binary context's symbol comes below its share; an escape from a
    /// binary context, or from a context with several states into a suffix with
    /// another state count, decodes in the suffix by the masked pass (`masked_hit`,
    /// with the escaped context's symbols masked), which stops at a state whenever the
    /// count is below the masked sum (and the update restarts the run length), or
    /// gives -2 past the masked total;
    /// an escape out of the
    /// root gives -1, and -1 comes only from a context on the suffix chain that has no
    /// suffix; a symbol leaves one current context.
    pub closed spec fn decode_step(&self, rc: RangeDecoder, after: Ppmd8, rc_after: RangeDecoder, r: i32) -> bool {
        &&& self.escapes_root(rc.range, rc.code) ==> r == -1
        &&& self.binary_escape_applies(rc) ==> {
            let mem = self.memory@;
            let sc = rd32_spec(mem, self.min_context.wrapping_add(8));
            let x = byte_at(mem, self.min_context.wrapping_add(2) as int);
            let (hi, total, count) = self.binary_escape_counts(rc);
            &&& count < hi ==> (masked_hit(mem, rd32_spec(mem, sc.wrapping_add(4)), count, 256, mask_without(x)) matches Some(
                t,
            ) && r == byte_at(mem, t as int) as i32 && after.run_length == after.init_rl)
            &&& count >= hi && count >= total ==> r == -2
        }
        &&& self.multi_escape_applies(rc) ==> {
            let mem = self.memory@;
            let mc = self.min_context;
            let sc = rd32_spec(mem, mc.wrapping_add(8));
            let mask = mask_of_context(mem, rd32_spec(mem, mc.wrapping_add(4)), byte_at(mem, mc as int) as nat + 1);
            let (hi, total, count) = self.multi_escape_counts(rc);
            &&& count < hi ==> (masked_hit(mem, rd32_spec(mem, sc.wrapping_add(4)), count, 256, mask) matches Some(
                t,
            ) && r == byte_at(mem, t as int) as i32 && after.run_length == after.init_rl)
            &&& count >= hi && count >= total ==> r == -2
        }
        &&& r >= 0 ==> after.min_context == after.max_context
        &&& r == -1 ==> exists|k: nat|
            rd32_spec(
                self.memory@,
                #[trigger] suffix_iter(self.memory@, self.min_context, k).wrapping_add(8),
            ) == 0
        &&& self.first_context_step(rc, after, rc_after, r)
        &&& ({
            let mem = self.memory@;
            let one = self.min_context.wrapping_add(2);
            let size0 = (rc.range >> 14u32).wrapping_mul(self.bin_prob());
            let n = shift_count(rc.low, size0, NORMALIZE_STEPS as nat);
            byte_at(mem, self.min_context as int) == 0 && rc.code < size0 ==> {
                &&& r == byte_at(mem, one as int) as i32
                &&& (rc_after.low, rc_after.range) == normalized(
                    rc.low,
                    size0,
                    NORMALIZE_STEPS as nat,
                )
                &&& rc_after.code == shift_in(rc.code, rc.input@, rc.pos as int, n)
                &&& rc_after.pos == advance(rc.pos as int, rc.input@.len() as int, n)
            }
        })
    }

    /// The encoder's first pass over a `min_context` with several states: the state
    /// with `symbol` fixes the coder's step and the update as the decoder takes them.
    pub(crate) open spec fn first_context_encode(&self, rc: RangeEncoder, after: Ppmd8, rc_after: RangeEncoder, symbol: i32) -> bool {
        {
            let mem = self.memory@;
            let mc = self.min_context;
            let total = self.coding_total(rc.range);
            let q: u32 = if total == 0 { 0 } else { rc.range / total };
            byte_at(mem, mc as int) != 0 ==> match first_pass_find(
                mem,
                rd32_spec(mem, mc.wrapping_add(4)),
                symbol,
                0,
                byte_at(mem, mc as int) as nat + 1,
            ) {
                Some((s, start)) => {
                    let f = byte_at(mem, s.wrapping_add(1) as int) as u32;
                    let low1 = rc.low.wrapping_add(start.wrapping_mul(q));
                    let r1 = q.wrapping_mul(f);
                    let stats = rd32_spec(mem, mc.wrapping_add(4));
                    &&& byte_at(mem, stats as int) as i32 == symbol ==> after.after_update1_0(
                        &Ppmd8 { found_state: s, ..*self },
                    )
                    &&& byte_at(mem, stats as int) as i32 != symbol ==> after.after_update1(
                        &Ppmd8 { found_state: s, prev_success: 0, ..*self },
                    )
                    &&& (rc_after.low, rc_after.range) == normalized(
                        low1,
                        r1,
                        NORMALIZE_STEPS as nat,
                    )
                    &&& rc_after.output@ == rc.output@ + shifted_out(
                        low1,
                        r1,
                        NORMALIZE_STEPS as nat,
                    )
                },
                None => true,
            }
        }
    }

    /// What encoding `symbol` in `self` with the coder `rc` leaves (the model `after`,
    /// the coder `rc_after`): the first pass over a context with several states fixes
    /// the coder's step and the update as the decoder takes them; a binary context's
    /// symbol takes its share; an escape from a binary context, or from a context with
    /// several states into a suffix with another state count, codes the symbol's
    /// masked interval in the suffix (`masked_find`); an escape out of the root narrows
    /// to `escape_interval`.
    pub closed spec fn encode_step(&self, rc: RangeEncoder, after: Ppmd8, rc_after: RangeEncoder, symbol: i32) -> bool {
        &&& self.first_context_encode(rc, after, rc_after, symbol)
        &&& ({
            let mem = self.memory@;
            let one = self.min_context.wrapping_add(2);
            let size0 = (rc.range >> 14u32).wrapping_mul(self.bin_prob());
            byte_at(mem, self.min_context as int) == 0 && byte_at(mem, one as int) as i32
                == symbol ==> (rc_after.low, rc_after.range) == normalized(
                rc.low,
                size0,
                NORMALIZE_STEPS as nat,
            ) && rc_after.output@ == rc.output@ + shifted_out(
                rc.low,
                size0,
                NORMALIZE_STEPS as nat,
            )
        })
        &&& self.binary_escape_applies_with(symbol) ==> {
            let mem = self.memory@;
            let sc = rd32_spec(mem, self.min_context.wrapping_add(8));
            let x = byte_at(mem, self.min_context.wrapping_add(2) as int);
            let size0 = (rc.range >> 14u32).wrapping_mul(self.bin_prob());
            let low1 = rc.low.wrapping_add(size0);
            let range1 = (rc.range & !((BIN_SCALE - 1) as u32)).wrapping_sub(size0);
            let (low2, range2) = normalized(low1, range1, NORMALIZE_STEPS as nat);
            let out2 = rc.output@ + shifted_out(low1, range1, NORMALIZE_STEPS as nat);
            let stats = rd32_spec(mem, sc.wrapping_add(4));
            let n = byte_at(mem, sc as int) as nat + 1;
            let sum = self.suffix_escape_freq(0).wrapping_add(masked_total(mem, stats, 0, n, mask_without(x)));
            let total: u32 = if sum > range2 {
                range2
            } else {
                sum
            };
            let q: u32 = if total == 0 {
                0
            } else {
                range2 / total
            };
            masked_find(mem, stats, symbol, 0, n, mask_without(x)) matches Some((t, start)) ==> {
                let f = byte_at(mem, t.wrapping_add(1) as int) as u32;
                let low3 = low2.wrapping_add(start.wrapping_mul(q));
                let r3 = q.wrapping_mul(f);
                &&& (rc_after.low, rc_after.range) == normalized(low3, r3, NORMALIZE_STEPS as nat)
                &&& rc_after.output@ == out2 + shifted_out(low3, r3, NORMALIZE_STEPS as nat)
                &&& after.run_length == after.init_rl
            }
        }
        &&& self.multi_escape_applies_with(symbol) ==> {
            let mem = self.memory@;
            let mc = self.min_context;
            let sc = rd32_spec(mem, mc.wrapping_add(8));
            let mask = mask_of_context(mem, rd32_spec(mem, mc.wrapping_add(4)), byte_at(mem, mc as int) as nat + 1);
            let (low1, range1) = self.escape_interval(rc.low, rc.range);
            let (low2, range2) = normalized(low1, range1, NORMALIZE_STEPS as nat);
            let out2 = rc.output@ + shifted_out(low1, range1, NORMALIZE_STEPS as nat);
            let stats = rd32_spec(mem, sc.wrapping_add(4));
            let n = byte_at(mem, sc as int) as nat + 1;
            let sum = self.suffix_escape_freq(byte_at(mem, mc as int) as u32).wrapping_add(
                masked_total(mem, stats, 0, n, mask),
            );
            let total: u32 = if sum > range2 {
                range2
            } else {
                sum
            };
            let q: u32 = if total == 0 {
                0
            } else {
                range2 / total
            };
            masked_find(mem, stats, symbol, 0, n, mask) matches Some((t, start)) ==> {
                let f = byte_at(mem, t.wrapping_add(1) as int) as u32;
                let low3 = low2.wrapping_add(start.wrapping_mul(q));
                let r3 = q.wrapping_mul(f);
                &&& (rc_after.low, rc_after.range) == normalized(low3, r3, NORMALIZE_STEPS as nat)
                &&& rc_after.output@ == out2 + shifted_out(low3, r3, NORMALIZE_STEPS as nat)
                &&& after.run_length == after.init_rl
            }
        }
        &&& self.escapes_root_with(symbol) ==> {
            let (l1, r1) = self.escape_interval(rc.low, rc.range);
            &&& (rc_after.low, rc_after.range) == normalized(l1, r1, NORMALIZE_STEPS as nat)
            &&& rc_after.output@ == rc.output@ + shifted_out(l1, r1, NORMALIZE_STEPS as nat)
        }
    }

    /// Masks the symbols of the states from `stats` to `last`: the last one, then
    /// the others two at a time.
    fn mask_states(&self, char_mask: &mut Vec<u8>, stats: u32, last: u32)
        requires
            old(char_mask)@.len() == 256,
        ensures
            final(char_mask)@.len() == 256,
            old(char_mask)@ == Seq::new(256, |i: int| 0xFFu8) && stats < last && (last - stats) % 6 == 0
                && last - stats <= 6 * 255 && last + 6 <= u32::MAX ==> final(char_mask)@ == mask_of_context(
                self.memory@,
                stats,
                ((last - stats) / 6 + 1) as nat,
            ),
    {
        let ghost mem0: Seq<u8> = self.memory@;
        let ghost n0: nat = ((last - stats) / 6 + 1) as nat;
        let ghost good: bool = old(char_mask)@ == Seq::new(256, |i: int| 0xFFu8) && stats < last && (last
            - stats) % 6 == 0 && last - stats <= 6 * 255 && last + 6 <= u32::MAX;
        let mut s2: u32 = stats;
        mask_clear(char_mask, self.st_sym(last));
        let ghost mut p: int = 0;
        proof {
            if good {
                assert(last as int == stats + 6 * (n0 - 1));
                assert(mask_of_context(mem0, stats, 0) =~= Seq::new(256, |i: int| 0xFFu8));
            }
        }
        let mut fuel: u32 = 256;
        while fuel > 0
            invariant_except_break
                good ==> s2 as int == stats + 12 * p && 0 <= p && 12 * p < 6 * (n0 - 1) && fuel + p
                    == 256 && char_mask@ == mask_of_context(mem0, stats, (2 * p) as nat).update(
                    byte_at(mem0, last as int) as int,
                    0u8,
                ),
            invariant
                char_mask@.len() == 256,
                self.memory@ == mem0,
                good ==> last as int == stats + 6 * (n0 - 1) && last + 6 <= u32::MAX && n0 <= 256,
            ensures
                char_mask@.len() == 256,
                good ==> char_mask@ == mask_of_context(mem0, stats, n0),
            decreases fuel,
        {
            fuel = fuel - 1;
            let sym0: u32 = self.st_sym(s2);
            let sym1: u32 = self.st_sym(Self::st_next(s2, 1));
            s2 = Self::st_next(s2, 2);
            mask_clear(char_mask, sym0);
            mask_clear(char_mask, sym1);
            proof {
                assert(6u32.wrapping_mul(2) == 12 && 6u32.wrapping_mul(1) == 6);
                if good {
                    assert(sym0 == byte_at(mem0, stats + 6 * (2 * p)));
                    assert(sym1 == byte_at(mem0, stats + 6 * (2 * p + 1)));
                    lemma_mask_step(mem0, stats, (2 * p) as nat, byte_at(mem0, last as int));
                    p = p + 1;
                }
            }
            if !(s2 < last) {
                proof {
                    if good {
                        assert(2 * p == n0 || 2 * p + 1 == n0);
                        lemma_mask_last(mem0, stats, (2 * p) as nat, n0);
                        assert(char_mask@ == mask_of_context(mem0, stats, (2 * p) as nat).update(
                            byte_at(mem0, last as int) as int,
                            0u8,
                        ));
                        assert(last as int == stats + 6 * (n0 - 1));
                    }
                }
                break;
            }
        }
    }

    /// The first pass over a `min_context` with several states: gives the symbol of
    /// the state it hits, -2 with no state hit and the count at or past the total, or
    /// -3 on an escape (`escapes_first`), with the coder narrowed to `escape_interval`
    /// and the context's symbols masked.
    #[verifier::loop_isolation(false)]
    #[verifier::spinoff_prover]
    #[verifier::rlimit(50)]
    fn decode_first(&mut self, rc: &mut RangeDecoder, char_mask: &mut Vec<u8>) -> (r: i32)
        requires
            byte_at(old(self).memory@, old(self).min_context as int) != 0,
            old(char_mask)@ == Seq::new(256, |i: int| 0xFFu8),
        ensures
            final(self).keeps_layout(old(self)),
            final(rc).input@ == old(rc).input@,
            final(char_mask)@.len() == 256,
            -3 <= r <= 255,
            r != -1,
            old(self).first_context_step(*old(rc), *final(self), *final(rc), r),
            r >= 0 ==> final(self).min_context == final(self).max_context,
            (r == -3) == old(self).escapes_first(*old(rc)),
            r == -3 ==> *final(self) == (Ppmd8 { prev_success: 0, ..*old(self) }),
            r == -3 ==> (final(rc).low, final(rc).range) == old(self).escape_interval(old(rc).low, old(rc).range)
                && final(rc).pos == old(rc).pos && final(rc).code == old(rc).code.wrapping_sub(
                freq_total(
                    old(self).memory@,
                    rd32_spec(old(self).memory@, old(self).min_context.wrapping_add(4)),
                    0,
                    byte_at(old(self).memory@, old(self).min_context as int) as nat + 1,
                ).wrapping_mul({
                    let total = old(self).coding_total(old(rc).range);
                    if total == 0 { 0u32 } else { old(rc).range / total }
                }),
            ),
            r == -3 && rd32_spec(old(self).memory@, old(self).min_context.wrapping_add(4)) + 6 * (byte_at(
                old(self).memory@,
                old(self).min_context as int,
            ) + 2) <= u32::MAX ==> final(char_mask)@ == mask_of_context(
                old(self).memory@,
                rd32_spec(old(self).memory@, old(self).min_context.wrapping_add(4)),
                byte_at(old(self).memory@, old(self).min_context as int) as nat + 1,
            ),
    {
        let ghost mem0: Seq<u8> = old(self).memory@;
        let ghost stats0: u32 = rd32_spec(mem0, old(self).min_context.wrapping_add(4));
        let ghost n0: nat = byte_at(mem0, old(self).min_context as int) as nat + 1;
        let ghost mtot: u32 = freq_total(mem0, stats0, 0, n0);
        let ghost fits: bool = stats0 + 6 * (n0 + 1) <= u32::MAX;
        let mc: u32 = self.min_context;
        let mut s: u32 = self.ctx_stats(mc);
        let mut summ_freq: u32 = self.ctx_summ(mc);
        if summ_freq > rc.range {
            summ_freq = rc.range;
        }
        rc.range = crate::ppmd8::udiv(rc.range, summ_freq);
        let mut count: u32 = crate::ppmd8::udiv(rc.code, rc.range);
        let mut hi_cnt: u32 = count;
        count = count.wrapping_sub(self.st_freq(s));
        if count >= 0x8000_0000 {
            let f: u32 = self.st_freq(s);
            rc.decode(0, f);
            rc.normalize();
            self.found_state = s;
            let sym: u32 = self.st_sym(s);
            self.update1_0();
            return sym as i32;
        }
        self.prev_success = 0;
        let mut i: u32 = self.ctx_ns(mc);
        let mut fuel: u32 = 256;
        let ghost self_snap: Ppmd8 = *self;
        let ghost rc_snap: RangeDecoder = *rc;
        proof {
            assert(freq_total(mem0, s, 0, n0) == freq_total(
                mem0,
                s.wrapping_add(6),
                0u32.wrapping_add(byte_at(mem0, s.wrapping_add(1) as int) as u32),
                (n0 - 1) as nat,
            ));
            assert(hi_cnt.wrapping_sub(count) == 0u32.wrapping_add(
                byte_at(mem0, s.wrapping_add(1) as int) as u32,
            ));
        }
        while fuel > 0
            invariant
                self.keeps_layout(old(self)),
                rc.input@ == old(rc).input@,
                char_mask@ == old(char_mask)@,
                *self == self_snap,
                *rc == rc_snap,
                self.memory@ == old(self).memory@,
                1 <= i <= fuel,
                first_pass_hit(
                    old(self).memory@,
                    rd32_spec(old(self).memory@, mc.wrapping_add(4)),
                    hi_cnt,
                    byte_at(old(self).memory@, mc as int) as nat + 1,
                ) == first_pass_hit(old(self).memory@, s.wrapping_add(6), count, i as nat),
                mtot == freq_total(mem0, s.wrapping_add(6), hi_cnt.wrapping_sub(count), i as nat),
                fits ==> s as int == stats0 + 6 * (n0 - 1 - i),
            decreases fuel,
        {
            fuel = fuel - 1;
            let ghost s_old: u32 = s;
            let ghost c_old: u32 = count;
            s = Self::st_next(s, 1);
            count = count.wrapping_sub(self.st_freq(s));
            proof {
                let f = byte_at(mem0, s.wrapping_add(1) as int) as u32;
                assert(s == s_old.wrapping_add(6));
                assert(hi_cnt.wrapping_sub(count) == hi_cnt.wrapping_sub(c_old).wrapping_add(f));
                assert(freq_total(mem0, s_old.wrapping_add(6), hi_cnt.wrapping_sub(c_old), i as nat)
                    == freq_total(mem0, s.wrapping_add(6), hi_cnt.wrapping_sub(count), (i - 1) as nat));
            }
            if count >= 0x8000_0000 {
                let f: u32 = self.st_freq(s);
                rc.decode(hi_cnt.wrapping_sub(count).wrapping_sub(f), f);
                rc.normalize();
                self.found_state = s;
                let sym: u32 = self.st_sym(s);
                self.update1();
                return sym as i32;
            }
            i = i.wrapping_sub(1);
            if i == 0 {
                break;
            }
        }
        if hi_cnt >= summ_freq {
            return -2;
        }
        hi_cnt = hi_cnt.wrapping_sub(count);
        assert(hi_cnt == mtot);
        rc.decode(hi_cnt, summ_freq.wrapping_sub(hi_cnt));
        proof {
            if fits {
                assert(s as int == stats0 + 6 * (n0 - 1));
            }
        }
        self.mask_states(char_mask, self.ctx_stats(mc), s);
        -3
    }

    /// Decoding in `min_context` after an escape, with the symbols already coded
    /// against masked by `char_mask` and `num_masked` of them: the masked pass gives
    /// the symbol, -2 past the total, or -3 on a further escape, with this context's
    /// symbols masked too (`context_decides`).
    #[verifier::loop_isolation(false)]
    #[verifier::spinoff_prover]
    #[verifier::rlimit(50)]
    fn decode_in_context(&mut self, rc: &mut RangeDecoder, char_mask: &mut Vec<u8>, num_masked: u32) -> (r: i32)
        requires
            old(char_mask)@.len() == 256,
        ensures
            final(self).keeps_layout(old(self)),
            final(rc).input@ == old(rc).input@,
            final(char_mask)@.len() == 256,
            -3 <= r <= 255,
            r != -1,
            r >= 0 ==> final(self).min_context == final(self).max_context,
            r >= 0 ==> final(self).run_length == final(self).init_rl,
            r == -3 ==> final(self).memory@ == old(self).memory@ && final(self).min_context == old(
                self,
            ).min_context,
            mask_ok(old(char_mask)@) && byte_at(old(self).memory@, old(self).min_context as int) != 0
                ==> old(self).context_decides(*old(rc), old(char_mask)@, num_masked, r),
    {
        let ghost mem0: Seq<u8> = old(self).memory@;
        let ghost mask0: Seq<u8> = old(char_mask)@;
        let mc: u32 = self.min_context;
        let ghost ok: bool = mask_ok(mask0) && byte_at(mem0, mc as int) != 0;
        let ghost stats0: u32 = rd32_spec(mem0, mc.wrapping_add(4));
        let ghost ns0: nat = byte_at(mem0, mc as int) as nat;
        let mut s: u32 = self.ctx_stats(mc);
        let mut num: u32 = self.ctx_ns(mc) + 1;
        let mut num2: u32 = num / 2;
        num = num % 2;
        let fs: u32 = self.st_freq(s);
        let ms: u32 = mask_at(char_mask, self.st_sym(s));
        let nm: u32 = 0u32.wrapping_sub(num);
        let mut hi_cnt: u32 = fs & ms & nm;
        proof {
            if ok {
                assert(s == stats0);
                lemma_mask_byte(fs, ms);
                assert(fs & ms == masked_freq(mem0, s, mask0));
                let fm = fs & ms;
                assert(num == 0 || num == 1);
                assert(num == 0 ==> nm == 0);
                assert(num == 1 ==> nm == 0xFFFF_FFFF);
                assert(fm & 0 == 0 && fm & 0xFFFF_FFFF == fm) by (bit_vector);
                if num == 1 {
                    assert(0u32.wrapping_add(fm) == fm);
                    assert(6u32.wrapping_mul(1) == 6);
                } else {
                    assert(6u32.wrapping_mul(0) == 0);
                    assert(s.wrapping_add(0) == s);
                }
                assert(masked_total(mem0, stats0, 0, ns0 + 1, mask0) == masked_total(
                    mem0,
                    s.wrapping_add(6u32.wrapping_mul(num)),
                    hi_cnt,
                    (2 * num2) as nat,
                    mask0,
                ));
            }
        }
        s = Self::st_next(s, num);
        let mut fuel3: u32 = 256;
        while fuel3 > 0
            invariant
                self.keeps_layout(old(self)),
                char_mask@.len() == 256,
                ok ==> 1 <= num2 <= fuel3 && masked_total(mem0, stats0, 0, ns0 + 1, mask0)
                    == masked_total(mem0, s, hi_cnt, (2 * num2) as nat, mask0),
            decreases fuel3,
        {
            fuel3 = fuel3 - 1;
            let ghost s_old: u32 = s;
            let ghost h_old: u32 = hi_cnt;
            let sym0: u32 = self.st_sym(s);
            let sym1: u32 = self.st_sym(Self::st_next(s, 1));
            let f0: u32 = self.st_freq(s);
            let f1: u32 = self.st_freq(Self::st_next(s, 1));
            s = Self::st_next(s, 2);
            let m0: u32 = mask_at(char_mask, sym0);
            let m1: u32 = mask_at(char_mask, sym1);
            hi_cnt = hi_cnt.wrapping_add(f0 & m0);
            hi_cnt = hi_cnt.wrapping_add(f1 & m1);
            proof {
                if ok {
                    lemma_mask_byte(f0, m0);
                    lemma_mask_byte(f1, m1);
                    assert(f0 & m0 == masked_freq(mem0, s_old, mask0));
                    assert(f1 & m1 == masked_freq(mem0, s_old.wrapping_add(6), mask0));
                    assert(s_old.wrapping_add(6).wrapping_add(6) == s);
                    assert(masked_total(mem0, s_old, h_old, (2 * num2) as nat, mask0) == masked_total(
                        mem0,
                        s_old.wrapping_add(6),
                        h_old.wrapping_add(masked_freq(mem0, s_old, mask0)),
                        (2 * num2 - 1) as nat,
                        mask0,
                    ));
                    assert(masked_total(
                        mem0,
                        s_old.wrapping_add(6),
                        h_old.wrapping_add(masked_freq(mem0, s_old, mask0)),
                        (2 * num2 - 1) as nat,
                        mask0,
                    ) == masked_total(mem0, s, hi_cnt, (2 * num2 - 2) as nat, mask0));
                }
            }
            num2 = num2.wrapping_sub(1);
            if num2 == 0 {
                break;
            }
        }
        proof {
            if ok {
                assert(hi_cnt == old(self).context_counts(old(rc).range, old(rc).code, mask0, num_masked).0);
            }
        }
        let (see_source, esc): (SeeSource, u32) = self.make_esc_freq(num_masked);
        let freq_sum: u32 = esc.wrapping_add(hi_cnt);
        let mut freq_sum2: u32 = freq_sum;
        if freq_sum2 > rc.range {
            freq_sum2 = rc.range;
        }
        rc.range = crate::ppmd8::udiv(rc.range, freq_sum2);
        let mut count: u32 = crate::ppmd8::udiv(rc.code, rc.range);
        if count < hi_cnt {
            proof {
                if ok {
                    lemma_masked_hit_some(mem0, stats0, count, 0, ns0 + 1, 256, mask0);
                }
            }
            s = self.ctx_stats(mc);
            hi_cnt = count;
            let ghost count0: u32 = count;
            let ghost mut last: u32 = s;
            let mut fuel4: u32 = 256;
            while fuel4 > 0
                invariant
                    self.keeps_layout(old(self)),
                    char_mask@.len() == 256,
                    ok ==> masked_hit(mem0, stats0, count0, 256, mask0) == masked_hit(
                        mem0,
                        s,
                        count,
                        fuel4 as nat,
                        mask0,
                    ),
                decreases fuel4,
            {
                fuel4 = fuel4 - 1;
                let fq: u32 = self.st_freq(s);
                let mq: u32 = mask_at(char_mask, self.st_sym(s));
                proof {
                    last = s;
                    if ok {
                        lemma_mask_byte(fq, mq);
                        assert(fq & mq == masked_freq(mem0, s, mask0));
                    }
                }
                count = count.wrapping_sub(fq & mq);
                s = Self::st_next(s, 1);
                if count >= 0x8000_0000 {
                    proof {
                        if ok {
                            assert(masked_hit(mem0, stats0, count0, 256, mask0) == Some(last));
                        }
                    }
                    break;
                }
            }
            s = Self::st_prev(s);
            let f: u32 = self.st_freq(s);
            rc.decode(hi_cnt.wrapping_sub(count).wrapping_sub(f), f);
            rc.normalize();
            let see: See = self.see_at(see_source);
            self.set_see(see_source, see_after_hit(see));
            self.found_state = s;
            let sym: u32 = self.st_sym(s);
            self.update2();
            return sym as i32;
        }
        if count >= freq_sum2 {
            return -2;
        }
        rc.decode(hi_cnt, freq_sum2.wrapping_sub(hi_cnt));
        let see: See = self.see_at(see_source);
        self.set_see(
            see_source,
            See { summ: (see.summ as u32).wrapping_add(freq_sum) as u16, ..see },
        );
        let mut st: u32 = self.ctx_stats(self.min_context);
        let s2: u32 = Self::st_next(st, self.ctx_ns(self.min_context) + 1);
        let mut fuel5: u32 = 257;
        while fuel5 > 0
            invariant
                self.keeps_layout(old(self)),
                char_mask@.len() == 256,
            decreases fuel5,
        {
            fuel5 = fuel5 - 1;
            mask_clear(char_mask, self.st_sym(st));
            st = Self::st_next(st, 1);
            if st == s2 {
                break;
            }
        }
        -3
    }

    /// Decodes one symbol: gives it (0..=255), -1 at the end mark, or -2 on data that
    /// cannot have been produced by the encoder. In a context with several states, the
    /// first pass (`first_pass_hit`) gives the symbol, the coder's step and the update
    /// (`update1_0` or `update1`), or -2 where nothing is hit and the count is past the
    /// total; a binary context's symbol comes when `code` is below its share; after an
    /// escape from a binary context, or from a context with several states into a
    /// suffix with another state count, the masked pass in the suffix (`masked_hit`)
    /// gives the symbol, or -2 past the masked total; an escape out of
    /// the root gives -1, and -1 comes only from a context on the suffix chain that has
    /// no suffix (`decode_step`).
    #[verifier::loop_isolation(false)]
    #[verifier::spinoff_prover]
    #[verifier::rlimit(100)]
    pub(crate) fn decode_symbol(&mut self, rc: &mut RangeDecoder) -> (r: i32)
        ensures
            final(self).keeps_layout(old(self)),
            -2 <= r <= 255,
            final(rc).input@ == old(rc).input@,
            old(self).decode_step(*old(rc), *final(self), *final(rc), r),
    {
        let ghost cond: bool = old(self).escapes_root(old(rc).range, old(rc).code);
        let ghost applies: bool = old(self).binary_escape_applies(*old(rc));
        let ghost decides: bool = old(self).binary_escape_decides(*old(rc));
        let ghost mem0: Seq<u8> = old(self).memory@;
        let ghost sc: u32 = rd32_spec(mem0, old(self).min_context.wrapping_add(8));
        let ghost x: u8 = byte_at(mem0, old(self).min_context.wrapping_add(2) as int);
        let ghost size0g: u32 = (old(rc).range >> 14u32).wrapping_mul(old(self).bin_prob());
        let ghost mask_x: Seq<u8> = mask_without(x);
        let ghost counts: (u32, u32, u32) = old(self).binary_escape_counts(*old(rc));
        let ghost mapplies: bool = old(self).multi_escape_applies(*old(rc));
        let ghost mdecides: bool = old(self).multi_escape_decides(*old(rc));
        let ghost stats0: u32 = rd32_spec(mem0, old(self).min_context.wrapping_add(4));
        let ghost n0: nat = byte_at(mem0, old(self).min_context as int) as nat + 1;
        let ghost mmask: Seq<u8> = mask_of_context(mem0, stats0, n0);
        let ghost mcounts: (u32, u32, u32) = old(self).multi_escape_counts(*old(rc));
        let ghost mtotal: u32 = old(self).coding_total(old(rc).range);
        let ghost mq: u32 = if mtotal == 0 { 0 } else { old(rc).range / mtotal };
        let ghost mtot: u32 = freq_total(mem0, stats0, 0, n0);
        let ghost mli: (u32, u32) = old(self).escape_interval(old(rc).low, old(rc).range);
        let ghost tmask: Seq<u8> = if applies { mask_x } else { mmask };
        let ghost tcounts: (u32, u32, u32) = if applies { counts } else { mcounts };
        let mut char_mask: Vec<u8> = full_mask();
        let mc: u32 = self.min_context;
        if self.ctx_ns(mc) != 0 {
            let r0: i32 = self.decode_first(rc, &mut char_mask);
            if r0 != -3 {
                return r0;
            }
        } else {
            let one: u32 = Self::one_state(mc);
            let idx: usize = self.bin_summ_index();
            let mut pr: u32 = self.bin_summ_at(idx) as u32;
            let size0: u32 = (rc.range >> 14u32).wrapping_mul(pr);
            pr = pr.wrapping_sub((pr.wrapping_add(32)) >> 7u32);
            if rc.code < size0 {
                self.set_bin_summ(idx, pr.wrapping_add(128) as u16);
                rc.range = size0;
                rc.normalize();
                let freq: u32 = self.st_freq(one);
                let c: u32 = self.st_succ(one);
                let sym: u32 = self.st_sym(one);
                self.found_state = one;
                self.prev_success = 1;
                self.run_length = self.run_length.wrapping_add(1);
                self.set_st_freq(one, freq + (if freq < 196 { 1u32 } else { 0u32 }));
                if self.order_fall == 0 && c >= self.units_start {
                    self.min_context = c;
                    self.max_context = c;
                } else {
                    self.update_model();
                }
                return sym as i32;
            }
            self.set_bin_summ(idx, pr as u16);
            self.init_esc = self.exp_escape_at(pr >> 10u32);
            rc.low = rc.low.wrapping_add(size0);
            rc.code = rc.code.wrapping_sub(size0);
            rc.range = (rc.range & !(BIN_SCALE - 1)).wrapping_sub(size0);
            mask_clear(&mut char_mask, self.st_sym(one));
            self.prev_success = 0;
            proof {
                assert(char_mask@ =~= mask_x);
            }
        }
        let mut fuel: u64 = self.fuel();
        let ghost mut first: bool = true;
        assert(suffix_iter(old(self).memory@, old(self).min_context, 0) == self.min_context);
        assert(decides ==> applies);
        assert(mdecides ==> mapplies);
        while fuel > 0
            invariant
                self.keeps_layout(old(self)),
                rc.input@ == old(rc).input@,
                char_mask@.len() == 256,
                first ==> self.memory@ == old(self).memory@ && self.min_context == old(
                    self,
                ).min_context && fuel > 0,
                cond ==> first,
                self.memory@ == old(self).memory@,
                on_chain(old(self).memory@, old(self).min_context, self.min_context),
                decides ==> first,
                first ==> self.see@ == old(self).see@ && self.dummy_see == old(self).dummy_see,
                first && applies ==> rc.low == old(rc).low.wrapping_add(size0g) && rc.code == old(
                    rc,
                ).code.wrapping_sub(size0g) && rc.range == (old(rc).range & !((BIN_SCALE - 1) as u32)).wrapping_sub(
                    size0g,
                ) && rc.pos == old(rc).pos && char_mask@ == mask_x,
                mdecides ==> first,
                first && mapplies ==> rc.low == mli.0 && rc.range == mli.1 && rc.code == old(
                    rc,
                ).code.wrapping_sub(mtot.wrapping_mul(mq)) && rc.pos == old(rc).pos && char_mask@ == mmask,
            decreases fuel,
        {
            fuel = fuel - 1;
            rc.normalize();
            let mut mc: u32 = self.min_context;
            let num_masked: u32 = self.ctx_ns(mc);
            let mut fuel2: u64 = self.fuel();
            let ghost mut inner_first: bool = true;
            while fuel2 > 0
                invariant
                    self.keeps_layout(old(self)),
                    rc.input@ == old(rc).input@,
                    inner_first ==> fuel2 > 0 && mc == self.min_context,
                    first ==> self.memory@ == old(self).memory@ && self.min_context == old(
                        self,
                    ).min_context,
                    cond ==> first && inner_first,
                    self.memory@ == old(self).memory@,
                    on_chain(old(self).memory@, old(self).min_context, mc),
                    first && (applies || mapplies) ==> inner_first,
                    first ==> self.see@ == old(self).see@ && self.dummy_see == old(self).dummy_see,
                decreases fuel2,
            {
                fuel2 = fuel2 - 1;
                self.order_fall = self.order_fall.wrapping_add(1);
                let ghost k: nat = choose|k: nat| suffix_iter(old(self).memory@, old(self).min_context, k) == mc;
                if self.ctx_suffix(mc) == 0 {
                    assert(rd32_spec(
                        old(self).memory@,
                        suffix_iter(old(self).memory@, old(self).min_context, k).wrapping_add(8),
                    ) == 0);
                    return -1;
                }
                mc = self.ctx_suffix(mc);
                proof {
                    assert(suffix_iter(old(self).memory@, old(self).min_context, k + 1) == mc);
                    inner_first = false;
                }
                if self.ctx_ns(mc) != num_masked {
                    break;
                }
            }
            let ghost track: bool = first && (applies || mapplies);
            proof {
                first = false;
            }
            self.min_context = mc;
            proof {
                if track {
                    assert(mc == sc);
                    assert(char_mask@ == tmask);
                    assert(self.see_slot(num_masked) == (Ppmd8 { min_context: sc, ..*old(self) }).see_slot(
                        num_masked,
                    ));
                    let (ut, ix) = self.see_slot(num_masked);
                    assert(self.spec_see_at(SeeSource::Table(ix)) == (Ppmd8 { min_context: sc, ..*old(self) }).spec_see_at(
                        SeeSource::Table(ix),
                    ));
                    assert(self.context_counts(rc.range, rc.code, char_mask@, num_masked) == tcounts);
                    assert(mask_ok(tmask));
                }
            }
            let r1: i32 = self.decode_in_context(rc, &mut char_mask, num_masked);
            if r1 != -3 {
                return r1;
            }
        }
        -2
    }

    /// The encoder's first pass over a `min_context` with several states: codes
    /// `symbol` with the state that holds it and updates the model, or, with no such
    /// state, narrows the coder to `escape_interval`, masks the context's symbols and
    /// gives `true` (an escape).
    #[verifier::loop_isolation(false)]
    #[verifier::spinoff_prover]
    #[verifier::rlimit(50)]
    fn encode_first(&mut self, rc: &mut RangeEncoder, char_mask: &mut Vec<u8>, symbol: i32) -> (escaped: bool)
        requires
            byte_at(old(self).memory@, old(self).min_context as int) != 0,
            old(char_mask)@ == Seq::new(256, |i: int| 0xFFu8),
        ensures
            final(self).keeps_layout(old(self)),
            final(rc).output@.len() >= old(rc).output@.len(),
            final(rc).output@.subrange(0, old(rc).output@.len() as int) == old(rc).output@,
            final(char_mask)@.len() == 256,
            old(self).first_context_encode(*old(rc), *final(self), *final(rc), symbol),
            escaped == first_pass_find(
                old(self).memory@,
                rd32_spec(old(self).memory@, old(self).min_context.wrapping_add(4)),
                symbol,
                0,
                byte_at(old(self).memory@, old(self).min_context as int) as nat + 1,
            ) is None,
            escaped ==> *final(self) == (Ppmd8 { prev_success: 0, ..*old(self) }),
            escaped ==> (final(rc).low, final(rc).range) == old(self).escape_interval(old(rc).low, old(rc).range)
                && final(rc).output@ == old(rc).output@,
            escaped && rd32_spec(old(self).memory@, old(self).min_context.wrapping_add(4)) + 6 * (byte_at(
                old(self).memory@,
                old(self).min_context as int,
            ) + 2) <= u32::MAX ==> final(char_mask)@ == mask_of_context(
                old(self).memory@,
                rd32_spec(old(self).memory@, old(self).min_context.wrapping_add(4)),
                byte_at(old(self).memory@, old(self).min_context as int) as nat + 1,
            ),
    {
        let ghost mem0: Seq<u8> = old(self).memory@;
        let ghost stats0: u32 = rd32_spec(mem0, old(self).min_context.wrapping_add(4));
        let ghost n0: nat = byte_at(mem0, old(self).min_context as int) as nat + 1;
        let ghost fits: bool = stats0 + 6 * (n0 + 1) <= u32::MAX;
        let mc: u32 = self.min_context;
        let mut s: u32 = self.ctx_stats(mc);
        let mut summ_freq: u32 = self.ctx_summ(mc);
        if summ_freq > rc.range {
            summ_freq = rc.range;
        }
        if self.st_sym(s) as i32 == symbol {
            let f: u32 = self.st_freq(s);
            rc.narrow(0, f, summ_freq);
            rc.normalize();
            self.found_state = s;
            self.update1_0();
            return false;
        }
        self.prev_success = 0;
        let mut sum: u32 = self.st_freq(s);
        let mut i: u32 = self.ctx_ns(mc);
        let mut fuel: u32 = 256;
        let ghost self_snap: Ppmd8 = *self;
        let ghost rc_snap: RangeEncoder = *rc;
        while fuel > 0
            invariant
                self.keeps_layout(old(self)),
                rc.output@.len() >= old(rc).output@.len(),
                rc.output@.subrange(0, old(rc).output@.len() as int) == old(rc).output@,
                char_mask@ == old(char_mask)@,
                *self == self_snap,
                *rc == rc_snap,
                self.memory@ == old(self).memory@,
                1 <= i <= fuel,
                first_pass_find(
                    old(self).memory@,
                    rd32_spec(old(self).memory@, mc.wrapping_add(4)),
                    symbol,
                    0,
                    byte_at(old(self).memory@, mc as int) as nat + 1,
                ) == first_pass_find(old(self).memory@, s.wrapping_add(6), symbol, sum, i as nat),
                freq_total(
                    old(self).memory@,
                    rd32_spec(old(self).memory@, mc.wrapping_add(4)),
                    0,
                    byte_at(old(self).memory@, mc as int) as nat + 1,
                ) == freq_total(old(self).memory@, s.wrapping_add(6), sum, i as nat),
                fits ==> s as int == stats0 + 6 * (n0 - 1 - i),
            decreases fuel,
        {
            fuel = fuel - 1;
            s = Self::st_next(s, 1);
            if self.st_sym(s) as i32 == symbol {
                let f: u32 = self.st_freq(s);
                rc.narrow(sum, f, summ_freq);
                rc.normalize();
                self.found_state = s;
                self.update1();
                return false;
            }
            let ghost before_sum: u32 = sum;
            sum = sum.wrapping_add(self.st_freq(s));
            i = i.wrapping_sub(1);
            proof {
                assert(freq_total(old(self).memory@, s, before_sum, (i + 1) as nat) == freq_total(
                    old(self).memory@,
                    s.wrapping_add(6),
                    sum,
                    i as nat,
                ));
            }
            if i == 0 {
                break;
            }
        }
        rc.narrow(sum, summ_freq.wrapping_sub(sum), summ_freq);
        proof {
            if fits {
                assert(s as int == stats0 + 6 * (n0 - 1));
            }
        }
        self.mask_states(char_mask, self.ctx_stats(mc), s);
        true
    }

    /// Encodes `symbol` (0..=255), or the end mark for any other value, and
    /// updates the model. In a context with several states, the first pass
    /// (`first_pass_find`) gives the coder's step and the update (`update1_0` or
    /// `update1`) as the decoder takes them; a binary context's symbol takes its share;
    /// after an escape from a binary context, or from a context with several states
    /// into a suffix with another state count, the symbol's masked interval in the
    /// suffix is coded (`masked_find`); an escape out of the root narrows to
    /// `escape_interval` (`encode_step`).
    #[verifier::loop_isolation(false)]
    #[verifier::spinoff_prover]
    #[verifier::rlimit(100)]
    pub(crate) fn encode_symbol(&mut self, rc: &mut RangeEncoder, symbol: i32)
        ensures
            final(self).keeps_layout(old(self)),
            old(self).encode_step(*old(rc), *final(self), *final(rc), symbol),
            final(rc).output@.len() >= old(rc).output@.len(),
            final(rc).output@.subrange(0, old(rc).output@.len() as int) == old(rc).output@,
    {
        let ghost cond: bool = old(self).escapes_root_with(symbol);
        let ghost applies: bool = old(self).binary_escape_applies_with(symbol);
        let ghost mem0: Seq<u8> = old(self).memory@;
        let ghost sc: u32 = rd32_spec(mem0, old(self).min_context.wrapping_add(8));
        let ghost x: u8 = byte_at(mem0, old(self).min_context.wrapping_add(2) as int);
        let ghost stats_sc: u32 = rd32_spec(mem0, sc.wrapping_add(4));
        let ghost n_sc: nat = byte_at(mem0, sc as int) as nat + 1;
        let ghost mask_x: Seq<u8> = mask_without(x);
        let ghost size0g: u32 = (old(rc).range >> 14u32).wrapping_mul(old(self).bin_prob());
        let ghost low1: u32 = old(rc).low.wrapping_add(size0g);
        let ghost range1: u32 = (old(rc).range & !((BIN_SCALE - 1) as u32)).wrapping_sub(size0g);
        let ghost esc_g: u32 = old(self).suffix_escape_freq(0);
        let ghost total_all: u32 = masked_total(mem0, stats_sc, 0, n_sc, mask_x);
        let ghost mapplies: bool = old(self).multi_escape_applies_with(symbol);
        let ghost stats0: u32 = rd32_spec(mem0, old(self).min_context.wrapping_add(4));
        let ghost n0: nat = byte_at(mem0, old(self).min_context as int) as nat + 1;
        let ghost mmask: Seq<u8> = mask_of_context(mem0, stats0, n0);
        let ghost tmask: Seq<u8> = if applies { mask_x } else { mmask };
        let ghost tesc: u32 = if applies { esc_g } else { old(self).suffix_escape_freq(
            byte_at(mem0, old(self).min_context as int) as u32,
        ) };
        let ghost ttotal_all: u32 = masked_total(mem0, stats_sc, 0, n_sc, tmask);
        let ghost mli: (u32, u32) = old(self).escape_interval(old(rc).low, old(rc).range);
        let ghost tlow1: u32 = if applies { low1 } else { mli.0 };
        let ghost trange1: u32 = if applies { range1 } else { mli.1 };
        let ghost decides: bool = (applies || mapplies) && masked_find(mem0, stats_sc, symbol, 0, n_sc, tmask) is Some;
        let mut char_mask: Vec<u8> = full_mask();
        let mc: u32 = self.min_context;
        if self.ctx_ns(mc) != 0 {
            let escaped: bool = self.encode_first(rc, &mut char_mask, symbol);
            if !escaped {
                return;
            }
        } else {
            let one: u32 = Self::one_state(mc);
            let idx: usize = self.bin_summ_index();
            let mut pr: u32 = self.bin_summ_at(idx) as u32;
            let bound: u32 = (rc.range >> 14u32).wrapping_mul(pr);
            pr = pr.wrapping_sub((pr.wrapping_add(32)) >> 7u32);
            if self.st_sym(one) as i32 == symbol {
                self.set_bin_summ(idx, pr.wrapping_add(128) as u16);
                rc.range = bound;
                rc.normalize();
                let freq: u32 = self.st_freq(one);
                let c: u32 = self.st_succ(one);
                self.found_state = one;
                self.prev_success = 1;
                self.run_length = self.run_length.wrapping_add(1);
                self.set_st_freq(one, freq + (if freq < 196 { 1u32 } else { 0u32 }));
                if self.order_fall == 0 && c >= self.units_start {
                    self.min_context = c;
                    self.max_context = c;
                } else {
                    self.update_model();
                }
                return;
            }
            self.set_bin_summ(idx, pr as u16);
            self.init_esc = self.exp_escape_at(pr >> 10u32);
            rc.low = rc.low.wrapping_add(bound);
            rc.range = (rc.range & !(BIN_SCALE - 1)).wrapping_sub(bound);
            mask_clear(&mut char_mask, self.st_sym(one));
            self.prev_success = 0;
            proof {
                assert(char_mask@ =~= mask_x);
            }
        }
        let ghost pre: RangeEncoder = *rc;
        assert(applies ==> pre.low == low1 && pre.range == range1 && pre.output@ == old(rc).output@
            && char_mask@ == mask_x);
        assert(mapplies ==> pre.low == mli.0 && pre.range == mli.1 && pre.output@ == old(rc).output@
            && char_mask@ == mmask);
        assert((applies || mapplies) ==> pre.low == tlow1 && pre.range == trange1 && pre.output@ == old(
            rc,
        ).output@ && char_mask@ == tmask);
        assert(cond ==> (pre.low, pre.range) == old(self).escape_interval(old(rc).low, old(rc).range)
            && pre.output@ == old(rc).output@);
        let mut fuel: u64 = self.fuel();
        let ghost mut first: bool = true;
        while fuel > 0
            invariant
                self.keeps_layout(old(self)),
                rc.output@.len() >= old(rc).output@.len(),
                rc.output@.subrange(0, old(rc).output@.len() as int) == old(rc).output@,
                char_mask@.len() == 256,
                first ==> self.memory@ == old(self).memory@ && self.min_context == old(
                    self,
                ).min_context && fuel > 0 && *rc == pre,
                cond ==> first,
                decides ==> first,
                first ==> self.see@ == old(self).see@ && self.dummy_see == old(self).dummy_see,
                first && (applies || mapplies) ==> char_mask@ == tmask,
            decreases fuel,
        {
            fuel = fuel - 1;
            rc.normalize();
            let mut mc: u32 = self.min_context;
            let num_masked: u32 = self.ctx_ns(mc);
            let mut fuel2: u64 = self.fuel();
            let ghost mut inner_first: bool = true;
            while fuel2 > 0
                invariant
                    self.keeps_layout(old(self)),
                    rc.output@.len() >= old(rc).output@.len(),
                    rc.output@.subrange(0, old(rc).output@.len() as int) == old(rc).output@,
                    inner_first ==> fuel2 > 0 && mc == self.min_context,
                    first ==> self.memory@ == old(self).memory@ && self.min_context == old(
                        self,
                    ).min_context && (rc.low, rc.range) == normalized(
                        pre.low,
                        pre.range,
                        NORMALIZE_STEPS as nat,
                    ) && rc.output@ == pre.output@ + shifted_out(
                        pre.low,
                        pre.range,
                        NORMALIZE_STEPS as nat,
                    ),
                    cond ==> first && inner_first,
                    first && (applies || mapplies) ==> inner_first,
                    first ==> self.see@ == old(self).see@ && self.dummy_see == old(self).dummy_see,
                decreases fuel2,
            {
                fuel2 = fuel2 - 1;
                self.order_fall = self.order_fall.wrapping_add(1);
                if self.ctx_suffix(mc) == 0 {
                    return;
                }
                mc = self.ctx_suffix(mc);
                proof {
                    inner_first = false;
                }
                if self.ctx_ns(mc) != num_masked {
                    break;
                }
            }
            let ghost track: bool = first && (applies || mapplies);
            proof {
                first = false;
            }
            self.min_context = mc;
            proof {
                if track {
                    assert(mc == sc);
                    assert(self.see_slot(num_masked) == (Ppmd8 { min_context: sc, ..*old(self) }).see_slot(num_masked));
                    let (ut, ix) = self.see_slot(num_masked);
                    assert(self.spec_see_at(SeeSource::Table(ix)) == (Ppmd8 { min_context: sc, ..*old(self) }).spec_see_at(
                        SeeSource::Table(ix),
                    ));
                }
            }
            let (see_source, esc_freq): (SeeSource, u32) = self.make_esc_freq(num_masked);
            let mut s: u32 = self.ctx_stats(mc);
            let mut sum: u32 = 0;
            let mut i: u32 = self.ctx_ns(mc) + 1;
            let mut fuel3: u32 = 257;
            proof {
                if track {
                    assert(esc_freq == tesc);
                    assert(s == stats_sc && i == n_sc);
                }
            }
            while fuel3 > 0
                invariant
                    self.keeps_layout(old(self)),
                    rc.output@.len() >= old(rc).output@.len(),
                    rc.output@.subrange(0, old(rc).output@.len() as int) == old(rc).output@,
                    char_mask@.len() == 256,
                    fuel3 <= 257,
                    track ==> 1 <= i <= fuel3 && self.memory@ == mem0 && char_mask@ == tmask && esc_freq
                        == tesc && masked_find(mem0, stats_sc, symbol, 0, n_sc, tmask) == masked_find(
                        mem0,
                        s,
                        symbol,
                        sum,
                        i as nat,
                        tmask,
                    ) && ttotal_all == masked_total(mem0, s, sum, i as nat, tmask) && (rc.low, rc.range)
                        == normalized(tlow1, trange1, NORMALIZE_STEPS as nat) && rc.output@ == old(
                        rc,
                    ).output@ + shifted_out(tlow1, trange1, NORMALIZE_STEPS as nat),
                decreases fuel3,
            {
                fuel3 = fuel3 - 1;
                let cur: u32 = self.st_sym(s);
                if cur as i32 == symbol {
                    let low: u32 = sum;
                    let freq: u32 = self.st_freq(s);
                    let ghost target: u32 = ttotal_all.wrapping_add(tesc);
                    proof {
                        if track {
                            assert(masked_find(mem0, stats_sc, symbol, 0, n_sc, tmask) == Some((s, sum)));
                            lemma_masked_total_shift(mem0, s, sum, esc_freq, i as nat, tmask);
                            if applies {
                                assert(byte_at(mem0, s as int) != x);
                            } else {
                                lemma_find_none_position(mem0, stats0, symbol, 0, n0);
                                assert(!(exists|j: int| 0 <= j < n0 && #[trigger] byte_at(mem0, stats0 + 6 * j) as int
                                    == byte_at(mem0, s as int) as int));
                            }
                            assert(masked_freq(mem0, s, tmask) == freq);
                        }
                    }
                    let see: See = self.see_at(see_source);
                    self.set_see(see_source, see_after_hit(see));
                    self.found_state = s;
                    sum = sum.wrapping_add(esc_freq);
                    let mut num2: u32 = i / 2;
                    let ghost i_all: u32 = i;
                    i = i % 2;
                    let nm: u32 = 0u32.wrapping_sub(i);
                    let fm: u32 = freq & nm;
                    proof {
                        if track {
                            assert(freq <= 255);
                            assert(i == 0 || i == 1);
                            assert(i == 0 ==> nm == 0);
                            assert(i == 1 ==> nm == 0xFFFF_FFFF);
                            assert(freq <= 255 ==> freq & 0 == 0 && freq & 0xFFFF_FFFF == freq) by (bit_vector);
                            if i == 1 {
                                assert(6u32.wrapping_mul(1) == 6);
                            } else {
                                assert(6u32.wrapping_mul(0) == 0);
                                assert(s.wrapping_add(0) == s);
                            }
                            assert(masked_total(mem0, s, sum, i_all as nat, tmask) == target);
                            assert(masked_total(mem0, s, sum, i_all as nat, tmask) == masked_total(
                                mem0,
                                s.wrapping_add(6u32.wrapping_mul(i)),
                                sum.wrapping_add(fm),
                                (2 * num2) as nat,
                                tmask,
                            ));
                        }
                    }
                    sum = sum.wrapping_add(fm);
                    if num2 != 0 {
                        s = Self::st_next(s, i);
                        proof {
                            if track {
                                assert(masked_total(mem0, s, sum, (2 * num2) as nat, tmask) == target);
                                assert(1 <= num2);
                                assert(num2 <= 256);
                            }
                        }
                        let mut fuel4: u32 = 256;
                        while fuel4 > 0
                            invariant
                                self.keeps_layout(old(self)),
                                char_mask@.len() == 256,
                                track ==> 1 <= num2 <= fuel4 && masked_total(mem0, s, sum, (2 * num2) as nat, tmask)
                                    == target,
                            decreases fuel4,
                        {
                            fuel4 = fuel4 - 1;
                            let ghost s_old: u32 = s;
                            let ghost h_old: u32 = sum;
                            let sym0: u32 = self.st_sym(s);
                            let sym1: u32 = self.st_sym(Self::st_next(s, 1));
                            let f0: u32 = self.st_freq(s);
                            let f1: u32 = self.st_freq(Self::st_next(s, 1));
                            s = Self::st_next(s, 2);
                            let m0: u32 = mask_at(&char_mask, sym0);
                            let m1: u32 = mask_at(&char_mask, sym1);
                            sum = sum.wrapping_add(f0 & m0);
                            sum = sum.wrapping_add(f1 & m1);
                            proof {
                                if track {
                                    lemma_mask_byte(f0, m0);
                                    lemma_mask_byte(f1, m1);
                                    assert(f0 & m0 == masked_freq(mem0, s_old, tmask));
                                    assert(f1 & m1 == masked_freq(mem0, s_old.wrapping_add(6), tmask));
                                    assert(s_old.wrapping_add(6).wrapping_add(6) == s);
                                    assert(masked_total(mem0, s_old, h_old, (2 * num2) as nat, tmask) == masked_total(
                                        mem0,
                                        s_old.wrapping_add(6),
                                        h_old.wrapping_add(masked_freq(mem0, s_old, tmask)),
                                        (2 * num2 - 1) as nat,
                                        tmask,
                                    ));
                                    assert(masked_total(
                                        mem0,
                                        s_old.wrapping_add(6),
                                        h_old.wrapping_add(masked_freq(mem0, s_old, tmask)),
                                        (2 * num2 - 1) as nat,
                                        tmask,
                                    ) == masked_total(mem0, s, sum, (2 * num2 - 2) as nat, tmask));
                                }
                            }
                            num2 = num2.wrapping_sub(1);
                            if num2 == 0 {
                                break;
                            }
                        }
                    }
                    proof {
                        if track {
                            assert(sum == target);
                        }
                    }
                    if sum > rc.range {
                        sum = rc.range;
                    }
                    rc.narrow(low, freq, sum);
                    rc.normalize();
                    self.update2();
                    return;
                }
                let fq: u32 = self.st_freq(s);
                let mq: u32 = mask_at(&char_mask, cur);
                proof {
                    if track {
                        lemma_mask_byte(fq, mq);
                        assert(fq & mq == masked_freq(mem0, s, tmask));
                    }
                }
                sum = sum.wrapping_add(fq & mq);
                s = Self::st_next(s, 1);
                i = i.wrapping_sub(1);
                if i == 0 {
                    break;
                }
            }
            let mut total: u32 = sum.wrapping_add(esc_freq);
            let see: See = self.see_at(see_source);
            self.set_see(see_source, See { summ: (see.summ as u32).wrapping_add(total) as u16, ..see });
            if total > rc.range {
                total = rc.range;
            }
            rc.narrow(sum, total.wrapping_sub(sum), total);
            let mut s2: u32 = self.ctx_stats(self.min_context);
            s = Self::st_prev(s);
            mask_clear(&mut char_mask, self.st_sym(s));
            let mut fuel5: u32 = 256;
            while fuel5 > 0
                invariant
                    self.keeps_layout(old(self)),
                    char_mask@.len() == 256,
                decreases fuel5,
            {
                fuel5 = fuel5 - 1;
                let sym0: u32 = self.st_sym(s2);
                let sym1: u32 = self.st_sym(Self::st_next(s2, 1));
                s2 = Self::st_next(s2, 2);
                mask_clear(&mut char_mask, sym0);
                mask_clear(&mut char_mask, sym1);
                if !(s2 < s) {
                    break;
                }
            }
        }
    }
}

} // verus!
