//! The PPMd8 (PPMdI rev. 1) context model: its tables, its sub-allocator over a
//! byte arena, and the model updates that the coders share.
//!
//! Contexts, states and free-list nodes live in the arena and are addressed by
//! their `u32` offset from its start; offset 0 stands for "none".
//! Context (12 bytes): `num_stats` @0, `flags` @1, `summ_freq` (u16) @2,
//! `stats` (u32) @4, `suffix` (u32) @8; a context with one state keeps that
//! state at @2. State (6 bytes): `symbol` @0, `freq` @1, `successor` (u32) @2.
//! Free-list node (12 bytes): `stamp` @0, `next` @4, `nu` @8.

use vstd::prelude::*;
use crate::arena::{
    byte_at, wr8_spec, wr16_spec, wr32_spec, rd16_spec, rd32_spec, copy_spec, rd8, wr8, rd16, wr16, rd32, wr32, copy_bytes, fits32, le32_at, put_le32, lemma_le32_put_get, lemma_wr32_fits,
    lemma_le32_put_other,
};
use crate::error::{Error, RestoreMethod};

verus! {

pub const MAX_FREQ: u32 = 124;
pub const UNIT_SIZE: u32 = 12;
pub const EMPTY_NODE: u32 = 0xFFFF_FFFF;
pub const NUM_INDEXES: u32 = 38;
pub const BIN_SCALE: u32 = 0x4000;
pub const PERIOD_BITS: u32 = 7;

/// The smallest model order PPMd8 accepts.
pub const PPMD8_MIN_ORDER: u32 = 2;

/// The largest model order PPMd8 accepts.
pub const PPMD8_MAX_ORDER: u32 = 16;

/// The initial escape estimates of binary contexts.
pub open spec fn spec_init_bin_esc(k: int) -> u16 {
    if k == 0 { 0x3CDD }
    else if k == 1 { 0x1F3F }
    else if k == 2 { 0x59BF }
    else if k == 3 { 0x48F3 }
    else if k == 4 { 0x64A1 }
    else if k == 5 { 0x5ABC }
    else if k == 6 { 0x6632 }
    else { 0x6051 }
}

/// The initial escape estimate `k` of binary contexts (`spec_init_bin_esc`).
fn init_bin_esc(k: usize) -> (r: u16)
    ensures
        r == spec_init_bin_esc(k as int),
{
    if k == 0 { 0x3CDD }
    else if k == 1 { 0x1F3F }
    else if k == 2 { 0x59BF }
    else if k == 3 { 0x48F3 }
    else if k == 4 { 0x64A1 }
    else if k == 5 { 0x5ABC }
    else if k == 6 { 0x6632 }
    else { 0x6051 }
}

/// A secondary escape estimation cell.
#[derive(Copy, Clone)]
pub struct See {
    pub summ: u16,
    pub shift: u8,
    pub count: u8,
}

/// Which estimation cell an escape frequency was taken from.
#[derive(Copy, Clone)]
pub enum SeeSource {
    Dummy,
    Table(usize),
}

/// Where the allocator's list surgery writes the next link.
#[derive(Copy, Clone)]
enum LinkSlot {
    Local,
    FreeList(u32),
    Node(u32),
}

/// Rust's `>>` on a shift below 32; a wider shift gives 0.
pub open spec fn spec_shr(x: u32, n: u32) -> u32 {
    if n < 32 { x >> n } else { 0 }
}

/// `x >> n`, giving 0 for a shift of 32 or more.
pub fn shr(x: u32, n: u32) -> (r: u32)
    ensures
        r == spec_shr(x, n),
{
    if n < 32 {
        x >> n
    } else {
        0
    }
}

/// Unsigned division that treats a zero divisor as giving 0.
pub fn udiv(a: u32, b: u32) -> (r: u32)
    ensures
        b != 0 ==> r == a / b,
        b == 0 ==> r == 0,
{
    if b == 0 {
        0
    } else {
        a / b
    }
}

/// The bit that records whether a symbol is at least 0x40: `((sym + 0xC0) >> shift)`
/// masked to bit 4 when `shift` is 4, and to bit 3 otherwise.
pub fn high_sym_flag(sym: u8, shift: u32) -> (r: u32)
    ensures
        r == spec_shr((sym as u32).wrapping_add(0xC0), shift) & (if shift == 4 {
            0x10u32
        } else {
            0x08u32
        }),
{
    shr((sym as u32).wrapping_add(0xC0), shift) & (if shift == 4 { 0x10u32 } else { 0x08u32 })
}

/// Whether free list `index` exists and the 12-byte node at `node` lies in the arena.
pub open spec fn free_list_slot_ok(free_list: Seq<u32>, stamps: Seq<u32>, mem: Seq<u8>, node: u32, index: u32) -> bool {
    &&& (index as int) < free_list.len()
    &&& (index as int) < stamps.len()
    &&& node as int + 12 <= mem.len()
    &&& node <= 0xFFFF_FFF0u32
}

/// The free lists, their stamps and the arena once `node`, a block of `nu` units, is
/// put at the head of list `index`: the node is marked free (`EMPTY_NODE`), links to
/// the old head and records `nu`, and the list's stamp counts one more.
pub open spec fn spec_insert_node(
    free_list: Seq<u32>,
    stamps: Seq<u32>,
    mem: Seq<u8>,
    node: u32,
    index: int,
    nu: u32,
) -> (Seq<u32>, Seq<u32>, Seq<u8>) {
    let m1 = put_le32(mem, node as int, EMPTY_NODE);
    let m2 = put_le32(m1, node + 4, free_list[index]);
    let m3 = put_le32(m2, node + 8, nu);
    (free_list.update(index, node), stamps.update(index, stamps[index].wrapping_add(1)), m3)
}

/// The block taken off the head of free list `index`, and the free lists and stamps
/// after: the head becomes the node's link, and the stamp counts one less.
pub open spec fn spec_remove_node(free_list: Seq<u32>, stamps: Seq<u32>, mem: Seq<u8>, index: int) -> (
    u32,
    Seq<u32>,
    Seq<u32>,
) {
    let node = free_list[index];
    (
        node,
        free_list.update(index, le32_at(mem, node + 4)),
        stamps.update(index, stamps[index].wrapping_sub(1)),
    )
}

/// Freeing a block into a list and then allocating from that list undoes the freeing:
/// the same block comes back, and the list heads and stamps are as they were.
pub proof fn law_remove_undoes_insert(
    free_list: Seq<u32>,
    stamps: Seq<u32>,
    mem: Seq<u8>,
    node: u32,
    index: u32,
    nu: u32,
)
    requires
        free_list_slot_ok(free_list, stamps, mem, node, index),
    ensures
        ({
            let (f1, s1, m1) = spec_insert_node(free_list, stamps, mem, node, index as int, nu);
            spec_remove_node(f1, s1, m1, index as int) == (node, free_list, stamps)
        }),
{
    let i = index as int;
    let m1 = put_le32(mem, node as int, EMPTY_NODE);
    let m2 = put_le32(m1, node + 4, free_list[i]);
    let m3 = put_le32(m2, node + 8, nu);
    lemma_le32_put_get(mem, node as int, EMPTY_NODE);
    lemma_le32_put_get(m1, node + 4, free_list[i]);
    lemma_le32_put_get(m2, node + 8, nu);
    lemma_le32_put_other(m2, node + 8, nu, node + 4);
    let (f1, s1, _) = spec_insert_node(free_list, stamps, mem, node, i, nu);
    assert(f1[i] == node);
    assert(f1.update(i, free_list[i]) =~= free_list);
    assert(s1.update(i, s1[i].wrapping_sub(1)) =~= stamps);
}

/// The growth of the block sizes from free list `i` to the next: 1 unit for the
/// first four lists, then 2, 3 for four lists each, and 4 from list 12 on.
pub open spec fn unit_step(i: int) -> int {
    if i >= 12 {
        4
    } else {
        i / 4 + 1
    }
}

/// The size in units of the blocks on free list `i` (1, 2, 3, 4, 6, 8, ..., 128), and 0
/// before list 0.
pub open spec fn list_units(i: int) -> int
    decreases i + 1,
{
    if i < 0 {
        0
    } else {
        list_units(i - 1) + unit_step(i)
    }
}

proof fn lemma_list_units_closed(i: int)
    requires
        0 <= i,
    ensures
        list_units(i) == (if i < 4 {
            i + 1
        } else if i < 8 {
            2 * i - 2
        } else if i < 12 {
            3 * i - 9
        } else {
            4 * i - 20
        }),
    decreases i,
{
    if i > 0 {
        lemma_list_units_closed(i - 1);
        assert(list_units(i) == list_units(i - 1) + unit_step(i));
    } else {
        assert(list_units(-1) == 0);
        assert(list_units(0) == list_units(-1) + unit_step(0));
    }
}

proof fn lemma_list_units_bounds(i: int)
    requires
        0 <= i < NUM_INDEXES,
    ensures
        list_units(i - 1) < list_units(i),
        list_units(i) <= 128,
        i == NUM_INDEXES - 1 ==> list_units(i) == 128,
{
    lemma_list_units_closed(i);
    if i > 0 {
        lemma_list_units_closed(i - 1);
    }
}

proof fn lemma_list_units_monotone(i: int, j: int)
    requires
        -1 <= i <= j < NUM_INDEXES,
    ensures
        list_units(i) <= list_units(j),
    decreases j - i,
{
    if i < j {
        lemma_list_units_monotone(i, j - 1);
        if j >= 0 {
            lemma_list_units_bounds(j);
        }
    }
}

/// The unit tables: `index2units[i]` is the block size of list `i` (0 past the 38
/// lists), and `units2index[n - 1]` is the first list whose blocks hold `n` units.
pub fn unit_tables() -> (r: (Vec<u8>, Vec<u8>))
    ensures
        r.0@.len() == 40,
        r.1@.len() == 128,
        forall|i: int| 0 <= i < NUM_INDEXES ==> r.0@[i] == list_units(i),
        r.0@[38] == 0 && r.0@[39] == 0,
        forall|t: int|
            0 <= t < 128 ==> #[trigger] r.1@[t] < NUM_INDEXES && list_units(r.1@[t] - 1) <= t
                < list_units(r.1@[t] as int),
{
    let mut units2index: Vec<u8> = vec![0u8; 128];
    let mut index2units: Vec<u8> = vec![0u8; 40];
    let mut k: u32 = 0;
    let mut i: u32 = 0;
    while i < NUM_INDEXES
        invariant
            units2index@.len() == 128,
            index2units@.len() == 40,
            i <= NUM_INDEXES,
            k == list_units(i - 1),
            forall|j: int| 0 <= j < i ==> index2units@[j] == list_units(j),
            forall|j: int| i <= j < 40 ==> index2units@[j] == 0,
            forall|t: int|
                0 <= t < k ==> #[trigger] units2index@[t] < i && list_units(units2index@[t] - 1)
                    <= t < list_units(units2index@[t] as int),
        decreases NUM_INDEXES - i,
    {
        proof {
            lemma_list_units_bounds(i as int);
        }
        let step: u32 = if i >= 12 { 4 } else { i / 4 + 1 };
        let k0: u32 = k;
        let mut j: u32 = 0;
        while j < step
            invariant
                units2index@.len() == 128,
                i < NUM_INDEXES,
                step == unit_step(i as int),
                k0 == list_units(i - 1),
                list_units(i as int) == k0 + step,
                list_units(i as int) <= 128,
                j <= step,
                k == k0 + j,
                forall|t: int|
                    0 <= t < k ==> #[trigger] units2index@[t] <= i && list_units(units2index@[t]
                        - 1) <= t < list_units(units2index@[t] as int),
            decreases step - j,
        {
            units2index.set(k as usize, i as u8);
            k = k + 1;
            j = j + 1;
        }
        index2units.set(i as usize, k as u8);
        i = i + 1;
    }
    proof {
        lemma_list_units_bounds(NUM_INDEXES - 1);
    }
    (index2units, units2index)
}

/// `ns2index` from entry 5 on: runs of equal values, the value `m` repeated `m - 4`
/// times, starting from 5. The state is the value and how much of its run is left
/// after `n` entries.
pub open spec fn ns_run(n: nat) -> (int, int)
    decreases n,
{
    if n == 0 {
        (5, 1)
    } else {
        let (m, k) = ns_run((n - 1) as nat);
        if k - 1 == 0 {
            (m + 1, m + 1 - 4)
        } else {
            (m, k - 1)
        }
    }
}

/// The entry of `ns2index` for `i` statistics: `i` below 5, then the runs of `ns_run`.
pub open spec fn ns_index(i: int) -> int {
    if i < 5 {
        i
    } else {
        ns_run((i - 5) as nat).0
    }
}

/// The entry of `ns2bs_index` for `i` statistics: 0, 2, then 4 up to 10, then 6.
pub open spec fn ns_bs_index(i: int) -> int {
    if i == 0 {
        0
    } else if i == 1 {
        2
    } else if i < 11 {
        4
    } else {
        6
    }
}

proof fn lemma_ns_run_bounds(n: nat)
    ensures
        5 <= ns_run(n).0,
        1 <= ns_run(n).1 <= ns_run(n).0 - 4,
        2 * n == (ns_run(n).0 - 5) * (ns_run(n).0 - 4) + 2 * (ns_run(n).0 - 4 - ns_run(n).1),
    decreases n,
{
    if n > 0 {
        lemma_ns_run_bounds((n - 1) as nat);
        let prev = ns_run((n - 1) as nat);
        let m = prev.0;
        let k = prev.1;
        if k - 1 == 0 {
            assert(ns_run(n) == (m + 1, m + 1 - 4));
            assert((m - 4) * (m - 3) == (m - 5) * (m - 4) + 2 * (m - 4)) by (nonlinear_arith);
        } else {
            assert(ns_run(n) == (m, k - 1));
        }
    }
}

/// The tables indexed by a context's statistics count: `ns2bs_index` (256 entries)
/// and `ns2index` (260 entries).
pub fn stats_tables() -> (r: (Vec<u8>, Vec<u8>))
    ensures
        r.0@.len() == 256,
        r.1@.len() == 260,
        forall|i: int| 0 <= i < 256 ==> r.0@[i] == ns_bs_index(i),
        forall|i: int| 0 <= i < 260 ==> r.1@[i] == ns_index(i),
{
    let mut ns2bs_index: Vec<u8> = vec![6u8; 256];
    ns2bs_index.set(0, 0);
    ns2bs_index.set(1, 2);
    let mut t: usize = 2;
    while t < 11
        invariant
            ns2bs_index@.len() == 256,
            2 <= t <= 11,
            ns2bs_index@[0] == 0,
            ns2bs_index@[1] == 2,
            forall|j: int| 2 <= j < t ==> ns2bs_index@[j] == 4,
            forall|j: int| 11 <= j < 256 ==> ns2bs_index@[j] == 6,
        decreases 11 - t,
    {
        ns2bs_index.set(t, 4);
        t = t + 1;
    }
    let mut ns2index: Vec<u8> = vec![0u8; 260];
    let mut i: u32 = 0;
    while i < 5
        invariant
            ns2index@.len() == 260,
            i <= 5,
            forall|j: int| 0 <= j < i ==> ns2index@[j] == j,
        decreases 5 - i,
    {
        ns2index.set(i as usize, i as u8);
        i = i + 1;
    }
    let mut m: u32 = 5;
    let mut kk: u32 = 1;
    let mut i: u32 = 5;
    while i < 260
        invariant
            ns2index@.len() == 260,
            5 <= i <= 260,
            (m as int, kk as int) == ns_run((i - 5) as nat),
            forall|j: int| 0 <= j < 5 ==> ns2index@[j] == j,
            forall|j: int| 5 <= j < i ==> ns2index@[j] == ns_index(j),
        decreases 260 - i,
    {
        proof {
            let n = (i - 5) as nat;
            lemma_ns_run_bounds(n);
            assert(m < 256) by (nonlinear_arith)
                requires
                    2 * n == (m - 5) * (m - 4) + 2 * (m - 4 - kk),
                    n <= 254,
                    m >= 5,
                    1 <= kk <= m - 4,
            ;
        }
        ns2index.set(i as usize, m as u8);
        kk = kk - 1;
        if kk == 0 {
            m = m + 1;
            kk = m - 4;
        }
        i = i + 1;
    }
    (ns2bs_index, ns2index)
}

/// The state (symbol, frequency, successor) stored at `s`.
pub open spec fn state_at(mem: Seq<u8>, s: u32) -> (u8, u8, u32) {
    (byte_at(mem, s as int), byte_at(mem, s + 1), le32_at(mem, s + 2))
}

/// `mem` with the state `st` stored at `s`.
pub open spec fn put_state(mem: Seq<u8>, s: u32, st: (u8, u8, u32)) -> Seq<u8> {
    put_le32(mem.update(s as int, st.0).update(s + 1, st.1), s + 2, st.2)
}

/// Whether `c` holds the root context of a fresh model: 256 states (the count byte
/// holds one less), flags 0, frequency sum 257, statistics at `stats`, no suffix; and
/// whether those statistics hold, in order, each symbol with frequency 1 and no
/// successor.
pub open spec fn fresh_root(mem: Seq<u8>, c: u32, stats: u32) -> bool {
    &&& stats as int + 1536 <= c as int
    &&& c as int + 12 <= mem.len()
    &&& c as int + 12 <= u32::MAX
    &&& byte_at(mem, c as int) == 255
    &&& byte_at(mem, c + 1) == 0
    &&& byte_at(mem, c + 2) as int + 256 * byte_at(mem, c + 3) as int == 257
    &&& le32_at(mem, c + 4) == stats
    &&& le32_at(mem, c + 8) == 0
    &&& forall|i: int|
        0 <= i < 256 ==> #[trigger] state_at(mem, (stats + 6 * i) as u32) == (i as u8, 1u8, 0u32)
}

/// Two arenas that agree on the twelve bytes of the context at `c` agree on its
/// header fields.
proof fn lemma_root_header_kept(a: Seq<u8>, b: Seq<u8>, c: u32, stats: u32)
    requires
        c as int + 12 <= a.len(),
        c as int + 12 <= b.len(),
        forall|k: int| c <= k < c + 12 ==> a[k] == b[k],
    ensures
        byte_at(a, c as int) == byte_at(b, c as int),
        byte_at(a, c + 1) == byte_at(b, c + 1),
        byte_at(a, c + 2) == byte_at(b, c + 2),
        byte_at(a, c + 3) == byte_at(b, c + 3),
        le32_at(a, c + 4) == le32_at(b, c + 4),
        le32_at(a, c + 8) == le32_at(b, c + 8),
{
    assert(a[c + 4] == b[c + 4] && a[c + 5] == b[c + 5] && a[c + 6] == b[c + 6] && a[c + 7] == b[c + 7]);
    assert(a[c + 8] == b[c + 8] && a[c + 9] == b[c + 9] && a[c + 10] == b[c + 10] && a[c + 11] == b[c + 11]);
}

/// Whether the states at `t1` and `t2` lie in the arena without overlapping.
pub open spec fn states_apart(mem: Seq<u8>, t1: u32, t2: u32) -> bool {
    &&& t1 <= 0xFFFF_FFF9u32
    &&& t2 <= 0xFFFF_FFF9u32
    &&& t1 + 6 <= mem.len()
    &&& t2 + 6 <= mem.len()
    &&& (t1 + 6 <= t2 || t2 + 6 <= t1)
}

/// `mem` with the states at `t1` and `t2` exchanged.
pub open spec fn swapped_states(mem: Seq<u8>, t1: u32, t2: u32) -> Seq<u8> {
    put_state(put_state(mem, t1, state_at(mem, t2)), t2, state_at(mem, t1))
}

/// The frequency byte of state `t` of the statistics at `stats`.
pub open spec fn state_freq(mem: Seq<u8>, stats: u32, t: int) -> int {
    byte_at(mem, stats + 6 * t + 1) as int
}

/// The sum of `w(i)` over `0 <= i < p`.
pub open spec fn index_sum(w: spec_fn(int) -> int, p: nat) -> int
    decreases p,
{
    if p == 0 {
        0
    } else {
        index_sum(w, (p - 1) as nat) + w(p - 1)
    }
}

/// Where position `t` of a sequence with element `k` moved to the front (the
/// elements before it shifted up one place) comes from.
pub open spec fn rotated_index(k: int, t: int) -> int {
    if t == 0 {
        k
    } else if t <= k {
        t - 1
    } else {
        t
    }
}

/// The sum of `w` over the first `p` positions of the sequence with element `k`
/// moved to the front.
pub open spec fn rotated_sum(w: spec_fn(int) -> int, k: int, p: nat) -> int
    decreases p,
{
    if p == 0 {
        0
    } else {
        rotated_sum(w, k, (p - 1) as nat) + w(rotated_index(k, p - 1))
    }
}

proof fn lemma_rotated_sum_prefix(w: spec_fn(int) -> int, k: int, p: nat)
    requires
        1 <= p <= k + 1,
    ensures
        rotated_sum(w, k, p) == w(k) + index_sum(w, (p - 1) as nat),
    decreases p,
{
    if p > 1 {
        lemma_rotated_sum_prefix(w, k, (p - 1) as nat);
        assert(rotated_index(k, p - 1) == p - 2);
        assert(index_sum(w, (p - 1) as nat) == index_sum(w, (p - 2) as nat) + w(p - 2));
    } else {
        assert(rotated_sum(w, k, 0) == 0);
        assert(index_sum(w, 0) == 0);
    }
}

/// Moving one element to the front leaves the sum over all positions as it was.
pub proof fn law_rotated_sum(w: spec_fn(int) -> int, k: int, p: nat)
    requires
        0 <= k < p,
    ensures
        rotated_sum(w, k, p) == index_sum(w, p),
    decreases p,
{
    if p == k + 1 {
        lemma_rotated_sum_prefix(w, k, p);
    } else {
        law_rotated_sum(w, k, (p - 1) as nat);
    }
}

/// The frequencies of the statistics at `stats` as a function of the position.
pub open spec fn freq_weight(mem: Seq<u8>, stats: u32) -> spec_fn(int) -> int {
    |i: int| state_freq(mem, stats, i)
}

/// The frequencies of the statistics at `stats` as `rescale` halves them: 4 added
/// to that of position `k` (the found state) and `adder` to each, then halved.
pub open spec fn halved_weight(mem: Seq<u8>, stats: u32, k: int, adder: int) -> spec_fn(int) -> int {
    |i: int| (state_freq(mem, stats, i) + (if i == k { 4int } else { 0int }) + adder) / 2
}

/// Whether the bytes of the 12-byte context at `mc` are the same in `m1` as in
/// `m0`, and the arenas have one length.
pub open spec fn ctx_same(m1: Seq<u8>, m0: Seq<u8>, mc: u32) -> bool {
    &&& m1.len() == m0.len()
    &&& forall|i: int| mc <= i < mc + 12 ==> #[trigger] byte_at(m1, i) == byte_at(m0, i)
}

proof fn lemma_rotated_sum_bounds(w: spec_fn(int) -> int, k: int, p: nat, hi: int)
    requires
        hi >= 0,
        forall|i: int| 0 <= #[trigger] w(i) <= hi,
    ensures
        0 <= rotated_sum(w, k, p) <= hi * p,
    decreases p,
{
    if p > 0 {
        lemma_rotated_sum_bounds(w, k, (p - 1) as nat, hi);
        assert(0 <= w(rotated_index(k, p - 1)) <= hi);
        assert(rotated_sum(w, k, p) == rotated_sum(w, k, (p - 1) as nat) + w(rotated_index(k, p - 1)));
        assert(hi * p == hi * (p - 1) + hi) by (nonlinear_arith);
    } else {
        assert(rotated_sum(w, k, 0) == 0);
        assert(hi * 0 == 0) by (nonlinear_arith);
    }
}

proof fn lemma_ctx_same_trans(m2: Seq<u8>, m1: Seq<u8>, m0: Seq<u8>, mc: u32)
    requires
        ctx_same(m2, m1, mc),
        ctx_same(m1, m0, mc),
    ensures
        ctx_same(m2, m0, mc),
{
    assert forall|i: int| mc <= i < mc + 12 implies #[trigger] byte_at(m2, i) == byte_at(m0, i) by {
        assert(byte_at(m2, i) == byte_at(m1, i));
    }
}

proof fn lemma_wrapping_sub_step(a: u32, b: u32, c: u32)
    requires
        b + c <= u32::MAX,
    ensures
        a.wrapping_sub(b).wrapping_sub(c) == a.wrapping_sub((b + c) as u32),
{
}

/// A 16-bit value written at `o`, followed by a byte written just below it, reads
/// back from `o`.
proof fn lemma_rd16_after_writes(m: Seq<u8>, o: u32, v: u16, x: u8)
    requires
        1 <= o,
        o as int + 2 <= m.len(),
        o as int + 2 <= u32::MAX,
    ensures
        rd16_spec(wr8_spec(wr16_spec(m, o, v), (o - 1) as u32, x), o) == v,
{
    let m2 = wr8_spec(wr16_spec(m, o, v), (o - 1) as u32, x);
    assert(o.wrapping_add(1) == o + 1);
    assert(byte_at(m2, o as int) == v as u8);
    assert(byte_at(m2, o + 1) == (v >> 8u16) as u8);
    assert(((v as u8) as u16) | ((((v >> 8u16) as u8) as u16) << 8u16) == v) by (bit_vector);
}

/// A write that changes the bytes of `m0` only within `lo..hi` keeps the frequency
/// of each state whose frequency byte lies outside, and the bytes of a context that
/// lies outside.
proof fn lemma_write_frame(m0: Seq<u8>, m1: Seq<u8>, lo: int, hi: int, stats: u32, n: nat, mc: u32)
    requires
        m1.len() == m0.len(),
        forall|i: int| 0 <= i < m0.len() && !(lo <= i < hi) ==> m1[i] == m0[i],
    ensures
        forall|t: int|
            0 <= t < n && !(lo <= stats + 6 * t + 1 < hi) ==> #[trigger] state_freq(m1, stats, t)
                == state_freq(m0, stats, t),
        mc + 12 <= lo || hi <= mc ==> ctx_same(m1, m0, mc),
{
    assert forall|t: int| 0 <= t < n && !(lo <= stats + 6 * t + 1 < hi) implies #[trigger] state_freq(
        m1,
        stats,
        t,
    ) == state_freq(m0, stats, t) by {
        let i = stats + 6 * t + 1;
        if 0 <= i < m0.len() {
            assert(m1[i] == m0[i]);
        }
    }
    if mc + 12 <= lo || hi <= mc {
        assert forall|i: int| mc <= i < mc + 12 implies #[trigger] byte_at(m1, i) == byte_at(m0, i) by {
            if 0 <= i < m0.len() {
                assert(m1[i] == m0[i]);
            }
        }
    }
}

proof fn lemma_put_state(mem: Seq<u8>, s: u32, st: (u8, u8, u32), other: u32)
    requires
        s <= 0xFFFF_FFF9u32,
        other <= 0xFFFF_FFF9u32,
        s + 6 <= mem.len(),
        other + 6 <= mem.len(),
    ensures
        put_state(mem, s, st).len() == mem.len(),
        state_at(put_state(mem, s, st), s) == st,
        (other + 6 <= s || s + 6 <= other) ==> state_at(put_state(mem, s, st), other) == state_at(
            mem,
            other,
        ),
        (other + 6 <= s || s + 6 <= other) ==> forall|i: int|
            other <= i < other + 6 ==> put_state(mem, s, st)[i] == mem[i],
        forall|i: int| 0 <= i < mem.len() && !(s <= i < s + 6) ==> put_state(mem, s, st)[i] == mem[i],
{
    let m1 = mem.update(s as int, st.0).update(s + 1, st.1);
    lemma_le32_put_get(m1, s + 2, st.2);
    let m2 = put_state(mem, s, st);
    assert(byte_at(m2, s as int) == st.0);
    assert(byte_at(m2, s + 1) == st.1);
    if other + 6 <= s || s + 6 <= other {
        lemma_le32_put_other(m1, s + 2, st.2, other + 2);
        assert(le32_at(m1, other + 2) == le32_at(mem, other + 2)) by {
            assert(byte_at(m1, other + 2) == byte_at(mem, other + 2));
            assert(byte_at(m1, other + 3) == byte_at(mem, other + 3));
            assert(byte_at(m1, other + 4) == byte_at(mem, other + 4));
            assert(byte_at(m1, other + 5) == byte_at(mem, other + 5));
        }
    }
}

/// A state stored back where it was read leaves the arena as it was.
proof fn lemma_put_state_same(mem: Seq<u8>, s: u32)
    requires
        s <= 0xFFFF_FFF9u32,
        s + 6 <= mem.len(),
    ensures
        put_state(mem, s, state_at(mem, s)) == mem,
{
    let st = state_at(mem, s);
    let m2 = put_state(mem, s, st);
    lemma_put_state(mem, s, st, s);
    let (a, b, c, d) = (mem[s + 2], mem[s + 3], mem[s + 4], mem[s + 5]);
    let w: u32 = st.2;
    assert(w == (a as u32) | ((b as u32) << 8u32) | ((c as u32) << 16u32) | ((d as u32) << 24u32));
    assert((w as u8) == a && ((w >> 8u32) as u8) == b && ((w >> 16u32) as u8) == c && ((w >> 24u32)
        as u8) == d) by (bit_vector)
        requires
            w == (a as u32) | ((b as u32) << 8u32) | ((c as u32) << 16u32) | ((d as u32) << 24u32),
    ;
    assert(m2 =~= mem);
}

/// Exchanging two states twice leaves the arena as it was.
pub proof fn law_swap_states_twice(mem: Seq<u8>, t1: u32, t2: u32)
    requires
        states_apart(mem, t1, t2),
    ensures
        swapped_states(mem, t1, t2).len() == mem.len(),
        swapped_states(swapped_states(mem, t1, t2), t1, t2) == mem,
{
    let s1 = state_at(mem, t1);
    let s2 = state_at(mem, t2);
    let m1 = put_state(mem, t1, s2);
    lemma_put_state(mem, t1, s2, t2);
    let m2 = put_state(m1, t2, s1);
    lemma_put_state(m1, t2, s1, t1);
    assert(state_at(m2, t1) == s2 && state_at(m2, t2) == s1);
    let m3 = put_state(m2, t1, s1);
    lemma_put_state(m2, t1, s1, t2);
    let m4 = put_state(m3, t2, s2);
    lemma_put_state(m3, t2, s2, t1);
    assert(state_at(m4, t1) == s1 && state_at(m4, t2) == s2);
    assert forall|i: int| 0 <= i < mem.len() implies m4[i] == mem[i] by {
        if t1 <= i < t1 + 6 {
            lemma_put_state_same(mem, t1);
            lemma_put_state(mem, t1, s1, t1);
            lemma_put_state(m4, t1, s1, t1);
            lemma_put_state_same(m4, t1);
            assert(put_state(m4, t1, s1) == m4);
            assert(put_state(mem, t1, s1) == mem);
            lemma_state_bytes(m4, mem, t1);
        } else if t2 <= i < t2 + 6 {
            lemma_put_state_same(m4, t2);
            lemma_put_state_same(mem, t2);
            lemma_state_bytes(m4, mem, t2);
        }
    }
    assert(m4 =~= mem);
}

/// Two arenas that hold the same state at `s` agree on its six bytes.
proof fn lemma_state_bytes(a: Seq<u8>, b: Seq<u8>, s: u32)
    requires
        s <= 0xFFFF_FFF9u32,
        s + 6 <= a.len(),
        s + 6 <= b.len(),
        state_at(a, s) == state_at(b, s),
    ensures
        forall|i: int| s <= i < s + 6 ==> a[i] == b[i],
{
    let (a2, a3, a4, a5) = (a[s + 2], a[s + 3], a[s + 4], a[s + 5]);
    let (b2, b3, b4, b5) = (b[s + 2], b[s + 3], b[s + 4], b[s + 5]);
    assert(a2 == b2 && a3 == b3 && a4 == b4 && a5 == b5) by (bit_vector)
        requires
            (a2 as u32) | ((a3 as u32) << 8u32) | ((a4 as u32) << 16u32) | ((a5 as u32) << 24u32) == (
            b2 as u32) | ((b3 as u32) << 8u32) | ((b4 as u32) << 16u32) | ((b5 as u32) << 24u32),
    ;
}

/// Where the walk over free blocks from `node` stops: at the first block not stamped
/// `EMPTY_NODE`, each block passed being stamped 0 and stepped over by its unit
/// count, or once `fuel` steps are taken; and the arena after those stamps.
pub open spec fn free_walk(mem: Seq<u8>, node: u32, fuel: nat) -> (u32, Seq<u8>)
    decreases fuel,
{
    if fuel == 0 || rd32_spec(mem, node) != EMPTY_NODE {
        (node, mem)
    } else {
        let nu = rd32_spec(mem, node.wrapping_add(8));
        free_walk(wr32_spec(mem, node, 0), node.wrapping_add(nu.wrapping_mul(UNIT_SIZE)), (fuel - 1) as nat)
    }
}

/// Entry `i` of the table `t`, or 0xFF past it.
pub open spec fn table_at(t: Seq<u8>, i: int) -> int {
    if 0 <= i < t.len() {
        t[i] as int
    } else {
        0xFF
    }
}

/// Where, from `i` on (below `limit`), the run of entries `t[i + offset]` equal to
/// `v` ends.
pub open spec fn run_end(t: Seq<u8>, v: int, i: int, limit: int, offset: int) -> int
    decreases limit - i,
{
    if i < limit && table_at(t, i + offset) == v {
        run_end(t, v, i + 1, limit, offset)
    } else {
        i
    }
}

/// Where the walk over `t` that skips, for each row `0, 1, ...` before `m` in turn,
/// the run of entries equal to the row plus `offset` stands when row `m` begins.
pub open spec fn run_start(t: Seq<u8>, m: int, limit: int, offset: int) -> int
    decreases m,
{
    if m <= 0 {
        0
    } else {
        run_end(t, m - 1 + offset, run_start(t, m - 1, limit, offset), limit, offset)
    }
}

/// The slot of `bin_summ` for row `m`, escape estimate `k` and repeat `r`.
pub open spec fn bin_slot(m: int, k: int, r: int) -> int {
    m * 64 + k + 8 * r
}

/// The initial probability in row `m` for escape estimate `k`: `BIN_SCALE` less the
/// estimate over one more than where row `m`'s run of `ns2index` ends.
pub open spec fn bin_init(t: Seq<u8>, m: int, k: int) -> u16 {
    BIN_SCALE.wrapping_sub(
        (spec_init_bin_esc(k) as u32) / ((run_start(t, m + 1, 260, 0) + 1) as u32),
    ) as u16
}

/// The slot of the estimation table for row `m` and column `k`.
pub open spec fn see_slot_at(m: int, k: int) -> int {
    m * 32 + k
}

/// The initial estimation cell of row `m`: a sum of twice plus 5, shifted left by
/// `PERIOD_BITS - 4`, where row `m`'s run of `ns2index` from entry 3 on ends; shift
/// `PERIOD_BITS - 4`; count 7.
pub open spec fn see_init(t: Seq<u8>, m: int) -> See {
    See {
        summ: ((2 * run_start(t, m + 1, 257, 3) + 5) as u32 * 8) as u16,
        shift: (PERIOD_BITS - 4) as u8,
        count: 7,
    }
}

proof fn lemma_bin_slot(m: int, k: int, r: int)
    requires
        0 <= m < 25,
        0 <= k < 8,
        0 <= r < 8,
    ensures
        0 <= bin_slot(m, k, r) < 25 * 64,
        forall|mm: int, kk: int, rr: int|
            0 <= mm < 25 && 0 <= kk < 8 && 0 <= rr < 8 && bin_slot(mm, kk, rr) == bin_slot(m, k, r)
                ==> mm == m && kk == k && rr == r,
{
    assert forall|mm: int, kk: int, rr: int|
        0 <= mm < 25 && 0 <= kk < 8 && 0 <= rr < 8 && bin_slot(mm, kk, rr) == bin_slot(m, k, r)
            implies mm == m && kk == k && rr == r by {
        assert(mm * 64 + kk + 8 * rr == m * 64 + k + 8 * r);
        if mm < m {
            assert(mm * 64 + 64 <= m * 64);
        } else if mm > m {
            assert(m * 64 + 64 <= mm * 64);
        }
    }
}

proof fn lemma_see_slot(m: int, k: int)
    requires
        0 <= m < 24,
        0 <= k < 32,
    ensures
        0 <= see_slot_at(m, k) < 24 * 32,
        forall|mm: int, kk: int|
            0 <= mm < 24 && 0 <= kk < 32 && see_slot_at(mm, kk) == see_slot_at(m, k) ==> mm == m && kk
                == k,
{
    assert forall|mm: int, kk: int|
        0 <= mm < 24 && 0 <= kk < 32 && see_slot_at(mm, kk) == see_slot_at(m, k) implies mm == m && kk
            == k by {
        if mm < m {
            assert(mm * 32 + 32 <= m * 32);
        } else if mm > m {
            assert(m * 32 + 32 <= mm * 32);
        }
    }
}

/// The PPMd8 model state.
pub struct Ppmd8 {
    pub(crate) min_context: u32,
    pub(crate) max_context: u32,
    pub(crate) found_state: u32,
    pub(crate) order_fall: u32,
    pub(crate) init_esc: u32,
    pub(crate) prev_success: u32,
    pub(crate) max_order: u32,
    pub(crate) restore_method: RestoreMethod,
    pub(crate) run_length: i32,
    pub(crate) init_rl: i32,
    pub(crate) size: u32,
    pub(crate) glue_count: u32,
    pub(crate) align_offset: u32,
    pub(crate) lo_unit: u32,
    pub(crate) hi_unit: u32,
    pub(crate) text: u32,
    pub(crate) units_start: u32,
    pub(crate) index2units: Vec<u8>,
    pub(crate) units2index: Vec<u8>,
    pub(crate) free_list: Vec<u32>,
    pub(crate) stamps: Vec<u32>,
    pub(crate) ns2bs_index: Vec<u8>,
    pub(crate) ns2index: Vec<u8>,
    pub(crate) exp_escape: Vec<u8>,
    pub(crate) dummy_see: See,
    pub(crate) see: Vec<See>,
    pub(crate) bin_summ: Vec<u16>,
    pub(crate) memory: Vec<u8>,
}

impl Ppmd8 {
    // ---------------------------------------------------------------- tables

    /// The size in units of the blocks on free list `i` (0 past the table).
    pub fn i2u(&self, i: u32) -> (r: u32)
        ensures
            r <= 0xFF,
            r == self.spec_i2u(i),
    {
        let k: usize = i as usize;
        if k < self.index2units.len() {
            self.index2units[k] as u32
        } else {
            0
        }
    }

    /// Whether `self` has the tables, the arena size and the model parameters of
    /// `before`: none of the model's operations changes them.
    pub(crate) open spec fn keeps_layout(&self, before: &Self) -> bool {
        &&& self.index2units@ == before.index2units@
        &&& self.units2index@ == before.units2index@
        &&& self.ns2bs_index@ == before.ns2bs_index@
        &&& self.ns2index@ == before.ns2index@
        &&& self.exp_escape@ == before.exp_escape@
        &&& self.memory@.len() == before.memory@.len()
        &&& self.size == before.size
        &&& self.align_offset == before.align_offset
        &&& self.max_order == before.max_order
        &&& self.restore_method == before.restore_method
    }

    /// Whether `self` has the tables, the arena size and the model parameters of
    /// `before`.
    pub closed spec fn layout_kept(&self, before: &Self) -> bool {
        self.keeps_layout(before)
    }

    /// `layout_kept` is `keeps_layout`.
    pub(crate) proof fn lemma_layout_kept(&self, before: &Self)
        requires
            self.keeps_layout(before),
        ensures
            self.layout_kept(before),
    {
    }

    /// Whether `self` keeps `before`'s coding state: the estimation cells, the binary
    /// probabilities, the run length and its initial value.
    pub(crate) open spec fn coding_kept(&self, before: &Self) -> bool {
        &&& self.see@ == before.see@
        &&& self.dummy_see == before.dummy_see
        &&& self.bin_summ@ == before.bin_summ@
        &&& self.run_length == before.run_length
        &&& self.init_rl == before.init_rl
    }

    /// Whether `self` is `before` but for the free lists, their stamps and the arena.
    pub closed spec fn same_but_lists(&self, before: &Self) -> bool {
        *self == (Ppmd8 {
            free_list: self.free_list,
            stamps: self.stamps,
            memory: self.memory,
            ..*before
        })
    }

    /// Whether `self` is `before` but for the free lists, their stamps, the arena, and
    /// `glue_count`, which is 0x2000.
    pub(crate) open spec fn glue_kept(&self, before: &Self) -> bool {
        *self == (Ppmd8 {
            free_list: self.free_list,
            stamps: self.stamps,
            memory: self.memory,
            glue_count: 0x2000u32,
            ..*before
        })
    }

    /// Whether `self` is `before` but for the arena.
    pub closed spec fn same_but_arena(&self, before: &Self) -> bool {
        *self == (Ppmd8 { memory: self.memory, ..*before })
    }

    /// The escape estimates that a binary context's probability selects on an escape.
    pub closed spec fn exp_escape_table(&self) -> Seq<u8> {
        self.exp_escape@
    }

    /// The heads of the free lists.
    pub closed spec fn free_lists(&self) -> Seq<u32> {
        self.free_list@
    }

    /// The stamps of the free lists: how many blocks each holds.
    pub closed spec fn list_stamps(&self) -> Seq<u32> {
        self.stamps@
    }

    /// The bytes of the arena.
    pub closed spec fn arena(&self) -> Seq<u8> {
        self.memory@
    }

    /// The block sizes of the free lists, in units.
    pub closed spec fn unit_sizes(&self) -> Seq<u8> {
        self.index2units@
    }

    /// For each block size `n` in units, at `n - 1`, the first free list that fits it.
    pub closed spec fn unit_lists(&self) -> Seq<u8> {
        self.units2index@
    }

    /// The statistics-count tables `ns2bs_index` and `ns2index`.
    pub closed spec fn stats_tables(&self) -> (Seq<u8>, Seq<u8>) {
        (self.ns2bs_index@, self.ns2index@)
    }

    /// The model's arena size in bytes, its order and restore method.
    pub closed spec fn parameters(&self) -> (u32, u32, RestoreMethod) {
        (self.size, self.max_order, self.restore_method)
    }

    /// The first free list whose blocks hold `nu` units, or 0 outside 1..=128 and the
    /// table.
    pub(crate) open spec fn spec_u2i(&self, nu: u32) -> u32 {
        if 1 <= nu <= 128 && nu - 1 < self.units2index@.len() {
            self.units2index@[nu - 1] as u32
        } else {
            0
        }
    }

    /// The size in units of the blocks on free list `i`, or 0 past the table.
    pub closed spec fn spec_i2u(&self, i: u32) -> u32 {
        if (i as int) < self.index2units@.len() {
            self.index2units@[i as int] as u32
        } else {
            0
        }
    }

    /// The first free list whose blocks hold `nu` units (0 outside 1..=128).
    pub(crate) fn u2i(&self, nu: u32) -> (r: u32)
        ensures
            r <= 0xFF,
            r == self.spec_u2i(nu),
    {
        if nu >= 1 && nu <= 128 && ((nu - 1) as usize) < self.units2index.len() {
            self.units2index[(nu - 1) as usize] as u32
        } else {
            0
        }
    }

    /// Entry `i` of `ns2index`, or 0xFF past it.
    pub(crate) open spec fn spec_ns2index_at(&self, i: u32) -> u32 {
        if (i as int) < self.ns2index@.len() {
            self.ns2index@[i as int] as u32
        } else {
            0xFF
        }
    }

    /// Entry `i` of `ns2bs_index`, or 0 past it.
    pub(crate) open spec fn spec_ns2bs_at(&self, i: u32) -> u32 {
        if (i as int) < self.ns2bs_index@.len() {
            self.ns2bs_index@[i as int] as u32
        } else {
            0
        }
    }

    /// Entry `i` of `ns2index`, or 0xFF past it.
    pub(crate) fn ns2index_at(&self, i: u32) -> (r: u32)
        ensures
            r <= 0xFF,
            (i as int) < self.ns2index@.len() ==> r == self.ns2index@[i as int],
            (i as int) >= self.ns2index@.len() ==> r == 0xFF,
    {
        let k: usize = i as usize;
        if k < self.ns2index.len() {
            self.ns2index[k] as u32
        } else {
            0xFF
        }
    }

    /// Entry `i` of `ns2bs_index`, or 0 past it.
    pub(crate) fn ns2bs_at(&self, i: u32) -> (r: u32)
        ensures
            r <= 0xFF,
            (i as int) < self.ns2bs_index@.len() ==> r == self.ns2bs_index@[i as int],
            (i as int) >= self.ns2bs_index@.len() ==> r == 0,
    {
        let k: usize = i as usize;
        if k < self.ns2bs_index.len() {
            self.ns2bs_index[k] as u32
        } else {
            0
        }
    }

    /// Entry `i` of `exp_escape`, or 0 past it.
    pub(crate) fn exp_escape_at(&self, i: u32) -> (r: u32)
        ensures
            (i as int) < self.exp_escape@.len() ==> r == self.exp_escape@[i as int],
            (i as int) >= self.exp_escape@.len() ==> r == 0,
    {
        let k: usize = i as usize;
        if k < self.exp_escape.len() {
            self.exp_escape[k] as u32
        } else {
            0
        }
    }

    /// The head of free list `i` (0 past the lists).
    pub fn fl(&self, i: u32) -> (r: u32)
        ensures
            (i as int) < self.free_lists().len() ==> r == self.free_lists()[i as int],
            (i as int) >= self.free_lists().len() ==> r == 0,
    {
        let k: usize = i as usize;
        if k < self.free_list.len() {
            self.free_list[k]
        } else {
            0
        }
    }

    pub(crate) fn set_fl(&mut self, i: u32, v: u32)
        ensures
            final(self).keeps_layout(old(self)),
            *final(self) == (Ppmd8 { free_list: final(self).free_list, ..*old(self) }),
            (i as int) < old(self).free_list@.len() ==> final(self).free_list@ == old(
                self,
            ).free_list@.update(i as int, v),
            (i as int) >= old(self).free_list@.len() ==> final(self).free_list@ == old(self).free_list@,
            final(self).stamps@ == old(self).stamps@,
            final(self).memory@ == old(self).memory@,
            final(self).index2units@ == old(self).index2units@,
    {
        let k: usize = i as usize;
        if k < self.free_list.len() {
            self.free_list.set(k, v);
        }
    }

    fn add_stamp(&mut self, i: u32, delta: u32, up: bool)
        ensures
            final(self).keeps_layout(old(self)),
            *final(self) == (Ppmd8 { stamps: final(self).stamps, ..*old(self) }),
            (i as int) < old(self).stamps@.len() ==> final(self).stamps@ == old(self).stamps@.update(
                i as int,
                if up {
                    old(self).stamps@[i as int].wrapping_add(delta)
                } else {
                    old(self).stamps@[i as int].wrapping_sub(delta)
                },
            ),
            (i as int) >= old(self).stamps@.len() ==> final(self).stamps@ == old(self).stamps@,
            final(self).free_list@ == old(self).free_list@,
            final(self).memory@ == old(self).memory@,
            final(self).index2units@ == old(self).index2units@,
    {
        let k: usize = i as usize;
        if k < self.stamps.len() {
            let v: u32 = self.stamps[k];
            let nv: u32 = if up { v.wrapping_add(delta) } else { v.wrapping_sub(delta) };
            self.stamps.set(k, nv);
        }
    }

    /// Entry `idx` of `bin_summ`, or 0 past it.
    pub(crate) fn bin_summ_at(&self, idx: usize) -> (r: u16)
        ensures
            (idx as int) < self.bin_summ@.len() ==> r == self.bin_summ@[idx as int],
            (idx as int) >= self.bin_summ@.len() ==> r == 0,
    {
        if idx < self.bin_summ.len() {
            self.bin_summ[idx]
        } else {
            0
        }
    }

    /// Sets entry `idx` of `bin_summ`; past it, nothing changes.
    pub(crate) fn set_bin_summ(&mut self, idx: usize, v: u16)
        ensures
            final(self).keeps_layout(old(self)),
            *final(self) == (Ppmd8 { bin_summ: final(self).bin_summ, ..*old(self) }),
            (idx as int) < old(self).bin_summ@.len() ==> final(self).bin_summ@ == old(
                self,
            ).bin_summ@.update(idx as int, v),
            (idx as int) >= old(self).bin_summ@.len() ==> final(self).bin_summ@ == old(self).bin_summ@,
    {
        if idx < self.bin_summ.len() {
            self.bin_summ.set(idx, v);
        }
    }

    /// The estimation cell `src` names: the dummy cell, or a table cell (the dummy
    /// one past the table).
    pub(crate) fn see_at(&self, src: SeeSource) -> (r: See)
        ensures
            r == self.spec_see_at(src),
    {
        match src {
            SeeSource::Dummy => self.dummy_see,
            SeeSource::Table(i) => {
                if i < self.see.len() {
                    self.see[i]
                } else {
                    self.dummy_see
                }
            },
        }
    }

    /// Stores `v` in the cell `src` names (the dummy one for a table cell past the
    /// table).
    pub(crate) fn set_see(&mut self, src: SeeSource, v: See)
        ensures
            final(self).keeps_layout(old(self)),
            *final(self) == (Ppmd8 { see: final(self).see, dummy_see: final(self).dummy_see, ..*old(self) }),
            match src {
                SeeSource::Table(i) => if i < old(self).see@.len() {
                    final(self).see@ == old(self).see@.update(i as int, v) && final(self).dummy_see
                        == old(self).dummy_see
                } else {
                    final(self).see@ == old(self).see@ && final(self).dummy_see == v
                },
                SeeSource::Dummy => final(self).see@ == old(self).see@ && final(self).dummy_see == v,
            },
    {
        match src {
            SeeSource::Dummy => {
                self.dummy_see = v;
            },
            SeeSource::Table(i) => {
                if i < self.see.len() {
                    self.see.set(i, v);
                } else {
                    self.dummy_see = v;
                }
            },
        }
    }

    /// The cell that `src` names, as `see_at` reads it.
    pub(crate) open spec fn spec_see_at(&self, src: SeeSource) -> See {
        match src {
            SeeSource::Dummy => self.dummy_see,
            SeeSource::Table(i) => if i < self.see@.len() {
                self.see@[i as int]
            } else {
                self.dummy_see
            },
        }
    }

    /// An upper bound on the length of any chain or list in the arena: half the
    /// arena size plus 512.
    pub(crate) fn fuel(&self) -> (r: u64)
        ensures
            r == self.memory@.len() / 2 + 512,
    {
        (self.memory.len() as u64) / 2 + 512
    }

    // ---------------------------------------------------------------- arena fields

    /// The arena byte at `off`.
    pub(crate) fn mem8(&self, off: u32) -> (r: u8)
        ensures
            r == byte_at(self.memory@, off as int),
    {
        rd8(&self.memory, off)
    }

    /// Writes the arena byte at `off`.
    pub(crate) fn set_mem8(&mut self, off: u32, v: u8)
        ensures
            final(self).keeps_layout(old(self)),
            *final(self) == (Ppmd8 { memory: final(self).memory, ..*old(self) }),
            final(self).memory@ == wr8_spec(old(self).memory@, off, v),
    {
        wr8(&mut self.memory, off, v);
    }

    /// The state count field of the context at `c`.
    pub(crate) fn ctx_ns(&self, c: u32) -> (r: u32)
        ensures
            r <= 0xFF,
            r == byte_at(self.memory@, c as int),
    {
        rd8(&self.memory, c) as u32
    }

    /// Sets the state count field of the context at `c` to the low byte of `v`.
    pub(crate) fn set_ctx_ns(&mut self, c: u32, v: u32)
        ensures
            final(self).keeps_layout(old(self)),
            *final(self) == (Ppmd8 { memory: final(self).memory, ..*old(self) }),
            final(self).memory@ == wr8_spec(old(self).memory@, c, v as u8),
    {
        wr8(&mut self.memory, c, v as u8);
    }

    /// The flags of the context at `c`.
    pub(crate) fn ctx_flags(&self, c: u32) -> (r: u32)
        ensures
            r <= 0xFF,
            r == byte_at(self.memory@, c.wrapping_add(1) as int),
    {
        rd8(&self.memory, c.wrapping_add(1)) as u32
    }

    /// Sets the flags of the context at `c` to the low byte of `v`.
    pub(crate) fn set_ctx_flags(&mut self, c: u32, v: u32)
        ensures
            final(self).keeps_layout(old(self)),
            *final(self) == (Ppmd8 { memory: final(self).memory, ..*old(self) }),
            final(self).memory@ == wr8_spec(old(self).memory@, c.wrapping_add(1), v as u8),
    {
        wr8(&mut self.memory, c.wrapping_add(1), v as u8);
    }

    /// The frequency sum of the context at `c`.
    pub(crate) fn ctx_summ(&self, c: u32) -> (r: u32)
        ensures
            r <= 0xFFFF,
            r == rd16_spec(self.memory@, c.wrapping_add(2)),
    {
        rd16(&self.memory, c.wrapping_add(2)) as u32
    }

    /// Sets the frequency sum of the context at `c` to the low half of `v`.
    pub(crate) fn set_ctx_summ(&mut self, c: u32, v: u32)
        ensures
            final(self).keeps_layout(old(self)),
            *final(self) == (Ppmd8 { memory: final(self).memory, ..*old(self) }),
            final(self).memory@ == wr16_spec(old(self).memory@, c.wrapping_add(2), v as u16),
    {
        wr16(&mut self.memory, c.wrapping_add(2), v as u16);
    }

    /// The offset of the statistics of the context at `c`.
    pub(crate) fn ctx_stats(&self, c: u32) -> (r: u32)
        ensures
            r == rd32_spec(self.memory@, c.wrapping_add(4)),
    {
        rd32(&self.memory, c.wrapping_add(4))
    }

    /// Sets the offset of the statistics of the context at `c`.
    pub(crate) fn set_ctx_stats(&mut self, c: u32, v: u32)
        ensures
            final(self).keeps_layout(old(self)),
            *final(self) == (Ppmd8 { memory: final(self).memory, ..*old(self) }),
            final(self).memory@ == wr32_spec(old(self).memory@, c.wrapping_add(4), v),
    {
        wr32(&mut self.memory, c.wrapping_add(4), v);
    }

    /// The offset of the suffix of the context at `c`.
    pub(crate) fn ctx_suffix(&self, c: u32) -> (r: u32)
        ensures
            r == rd32_spec(self.memory@, c.wrapping_add(8)),
    {
        rd32(&self.memory, c.wrapping_add(8))
    }

    /// Sets the offset of the suffix of the context at `c`.
    pub(crate) fn set_ctx_suffix(&mut self, c: u32, v: u32)
        ensures
            final(self).keeps_layout(old(self)),
            *final(self) == (Ppmd8 { memory: final(self).memory, ..*old(self) }),
            final(self).memory@ == wr32_spec(old(self).memory@, c.wrapping_add(8), v),
    {
        wr32(&mut self.memory, c.wrapping_add(8), v);
    }

    /// The state that a context with one state holds inside itself.
    pub(crate) fn one_state(c: u32) -> (r: u32)
        ensures
            r == c.wrapping_add(2),
    {
        c.wrapping_add(2)
    }

    pub(crate) fn st_sym(&self, s: u32) -> (r: u32)
        ensures
            r <= 0xFF,
            r == byte_at(self.memory@, s as int),
    {
        rd8(&self.memory, s) as u32
    }

    pub(crate) fn set_st_sym(&mut self, s: u32, v: u32)
        ensures
            final(self).keeps_layout(old(self)),
            *final(self) == (Ppmd8 { memory: final(self).memory, ..*old(self) }),
            final(self).memory@ == wr8_spec(old(self).memory@, s, v as u8),
            (s as int) < old(self).memory@.len() ==> final(self).memory@ == old(self).memory@.update(
                s as int,
                v as u8,
            ),
    {
        wr8(&mut self.memory, s, v as u8);
    }

    pub(crate) fn st_freq(&self, s: u32) -> (r: u32)
        ensures
            r <= 0xFF,
            s < u32::MAX ==> r == byte_at(self.memory@, s + 1),
            r == byte_at(self.memory@, s.wrapping_add(1) as int),
    {
        rd8(&self.memory, s.wrapping_add(1)) as u32
    }

    pub(crate) fn set_st_freq(&mut self, s: u32, v: u32)
        ensures
            final(self).keeps_layout(old(self)),
            *final(self) == (Ppmd8 { memory: final(self).memory, ..*old(self) }),
            final(self).memory@ == wr8_spec(old(self).memory@, s.wrapping_add(1), v as u8),
            s < u32::MAX && s + 1 < old(self).memory@.len() ==> final(self).memory@ == old(
                self,
            ).memory@.update(s + 1, v as u8),
    {
        wr8(&mut self.memory, s.wrapping_add(1), v as u8);
    }

    pub(crate) fn st_succ(&self, s: u32) -> (r: u32)
        ensures
            s <= 0xFFFF_FFF9u32 && s + 6 <= self.memory@.len() ==> r == le32_at(self.memory@, s + 2),
            r == rd32_spec(self.memory@, s.wrapping_add(2)),
    {
        rd32(&self.memory, s.wrapping_add(2))
    }

    pub(crate) fn set_st_succ(&mut self, s: u32, v: u32)
        ensures
            final(self).keeps_layout(old(self)),
            *final(self) == (Ppmd8 { memory: final(self).memory, ..*old(self) }),
            final(self).memory@ == wr32_spec(old(self).memory@, s.wrapping_add(2), v),
            s <= 0xFFFF_FFF9u32 && s + 6 <= old(self).memory@.len() ==> final(self).memory@
                == put_le32(old(self).memory@, s + 2, v),
    {
        wr32(&mut self.memory, s.wrapping_add(2), v);
    }

    /// The state `k` places after `s`.
    pub(crate) fn st_next(s: u32, k: u32) -> (r: u32)
        ensures
            r == s.wrapping_add(6u32.wrapping_mul(k)),
    {
        s.wrapping_add(6u32.wrapping_mul(k))
    }

    /// The state just before `s`.
    pub(crate) fn st_prev(s: u32) -> (r: u32)
        ensures
            r == s.wrapping_sub(6),
    {
        s.wrapping_sub(6)
    }

    /// Copies the 6-byte state at `src` over the one at `dst`.
    pub(crate) fn copy_state(&mut self, dst: u32, src: u32)
        ensures
            final(self).keeps_layout(old(self)),
            *final(self) == (Ppmd8 { memory: final(self).memory, ..*old(self) }),
            states_apart(old(self).memory@, dst, src) ==> final(self).memory@ == put_state(
                old(self).memory@,
                dst,
                state_at(old(self).memory@, src),
            ),
    {
        let sym: u32 = self.st_sym(src);
        let freq: u32 = self.st_freq(src);
        let succ: u32 = self.st_succ(src);
        self.set_st_sym(dst, sym);
        self.set_st_freq(dst, freq);
        self.set_st_succ(dst, succ);
    }

    /// The state (symbol, frequency, successor) stored at `s`.
    pub fn state(&self, s: u32) -> (r: (u8, u8, u32))
        ensures
            s <= 0xFFFF_FFF9u32 && s + 6 <= self.arena().len() ==> r == state_at(self.arena(), s),
    {
        (self.st_sym(s) as u8, self.st_freq(s) as u8, self.st_succ(s))
    }

    /// Exchanges the 6-byte states at `t1` and `t2`.
    pub fn swap_states(&mut self, t1: u32, t2: u32)
        ensures
            final(self).layout_kept(old(self)),
            final(self).same_but_arena(old(self)),
            states_apart(old(self).arena(), t1, t2) ==> final(self).arena() == swapped_states(
                old(self).arena(),
                t1,
                t2,
            ),
    {
        let sym: u32 = self.st_sym(t1);
        let freq: u32 = self.st_freq(t1);
        let succ: u32 = self.st_succ(t1);
        self.copy_state(t1, t2);
        self.set_st_sym(t2, sym);
        self.set_st_freq(t2, freq);
        self.set_st_succ(t2, succ);
    }

    /// The stamp of the free-list node at `n`.
    fn nd_stamp(&self, n: u32) -> (r: u32)
        ensures
            r == rd32_spec(self.memory@, n),
    {
        rd32(&self.memory, n)
    }

    fn set_nd_stamp(&mut self, n: u32, v: u32)
        ensures
            *final(self) == (Ppmd8 { memory: final(self).memory, ..*old(self) }),
            final(self).memory@ == wr32_spec(old(self).memory@, n, v),
            final(self).keeps_layout(old(self)),
            final(self).memory@.len() == old(self).memory@.len(),
            fits32(old(self).memory@, n) ==> final(self).memory@ == put_le32(old(self).memory@, n as int, v),
            final(self).free_list@ == old(self).free_list@,
            final(self).stamps@ == old(self).stamps@,
            final(self).index2units@ == old(self).index2units@,
    {
        wr32(&mut self.memory, n, v);
    }

    fn nd_next(&self, n: u32) -> (r: u32)
        ensures
            n <= 0xFFFF_FFF8u32 && fits32(self.memory@, (n + 4) as u32) ==> r == le32_at(
                self.memory@,
                n + 4,
            ),
    {
        rd32(&self.memory, n.wrapping_add(4))
    }

    fn set_nd_next(&mut self, n: u32, v: u32)
        ensures
            *final(self) == (Ppmd8 { memory: final(self).memory, ..*old(self) }),
            final(self).memory@ == wr32_spec(old(self).memory@, n.wrapping_add(4), v),
            final(self).keeps_layout(old(self)),
            final(self).memory@.len() == old(self).memory@.len(),
            n <= 0xFFFF_FFF8u32 && fits32(old(self).memory@, (n + 4) as u32) ==> final(self).memory@
                == put_le32(old(self).memory@, n + 4, v),
            final(self).free_list@ == old(self).free_list@,
            final(self).stamps@ == old(self).stamps@,
            final(self).index2units@ == old(self).index2units@,
    {
        wr32(&mut self.memory, n.wrapping_add(4), v);
    }

    /// The unit count of the free-list node at `n`.
    fn nd_nu(&self, n: u32) -> (r: u32)
        ensures
            r == rd32_spec(self.memory@, n.wrapping_add(8)),
    {
        rd32(&self.memory, n.wrapping_add(8))
    }

    fn set_nd_nu(&mut self, n: u32, v: u32)
        ensures
            *final(self) == (Ppmd8 { memory: final(self).memory, ..*old(self) }),
            final(self).memory@ == wr32_spec(old(self).memory@, n.wrapping_add(8), v),
            final(self).keeps_layout(old(self)),
            final(self).memory@.len() == old(self).memory@.len(),
            n <= 0xFFFF_FFF4u32 && fits32(old(self).memory@, (n + 8) as u32) ==> final(self).memory@
                == put_le32(old(self).memory@, n + 8, v),
            final(self).free_list@ == old(self).free_list@,
            final(self).stamps@ == old(self).stamps@,
            final(self).index2units@ == old(self).index2units@,
    {
        wr32(&mut self.memory, n.wrapping_add(8), v);
    }

    /// Writes the link `v` where `slot` says: into `local`, at the head of a free
    /// list, or into a free-list node.
    fn set_link(&mut self, slot: LinkSlot, local: &mut u32, v: u32)
        ensures
            final(self).keeps_layout(old(self)),
            match slot {
                LinkSlot::Local => *final(local) == v && *final(self) == *old(self),
                LinkSlot::FreeList(i) => *final(local) == *old(local) && *final(self) == (Ppmd8 {
                    free_list: final(self).free_list,
                    ..*old(self)
                }) && ((i as int) < old(self).free_list@.len() ==> final(self).free_list@ == old(
                    self,
                ).free_list@.update(i as int, v)) && ((i as int) >= old(self).free_list@.len()
                    ==> final(self).free_list@ == old(self).free_list@),
                LinkSlot::Node(n) => *final(local) == *old(local) && *final(self) == (Ppmd8 {
                    memory: final(self).memory,
                    ..*old(self)
                }) && final(self).memory@ == wr32_spec(old(self).memory@, n.wrapping_add(4), v),
            },
    {
        match slot {
            LinkSlot::Local => {
                *local = v;
            },
            LinkSlot::FreeList(i) => {
                self.set_fl(i, v);
            },
            LinkSlot::Node(n) => {
                self.set_nd_next(n, v);
            },
        }
    }

    /// Copies `nu` units (12 bytes each) from `src` to `dst`.
    pub(crate) fn copy_units(&mut self, dst: u32, src: u32, nu: u32)
        ensures
            final(self).keeps_layout(old(self)),
            *final(self) == (Ppmd8 { memory: final(self).memory, ..*old(self) }),
            final(self).memory@ == copy_spec(
                old(self).memory@,
                dst,
                src,
                nu.wrapping_mul(UNIT_SIZE) as nat,
            ),
    {
        copy_bytes(&mut self.memory, dst, src, nu.wrapping_mul(UNIT_SIZE));
    }

    // ---------------------------------------------------------------- sub-allocator

    /// Puts the block at `node` at the head of free list `index`, marking it free and
    /// recording its size in units.
    pub fn insert_node(&mut self, node: u32, index: u32)
        ensures
            final(self).layout_kept(old(self)),
            final(self).same_but_lists(old(self)),
            free_list_slot_ok(old(self).free_lists(), old(self).list_stamps(), old(self).arena(), node, index)
                ==> (final(self).free_lists(), final(self).list_stamps(), final(self).arena())
                == spec_insert_node(
                old(self).free_lists(),
                old(self).list_stamps(),
                old(self).arena(),
                node,
                index as int,
                old(self).spec_i2u(index),
            ),
            final(self).unit_sizes() == old(self).unit_sizes(),
    {
        self.set_nd_stamp(node, EMPTY_NODE);
        let head: u32 = self.fl(index);
        self.set_nd_next(node, head);
        let nu: u32 = self.i2u(index);
        self.set_nd_nu(node, nu);
        self.set_fl(index, node);
        self.add_stamp(index, 1, true);
    }

    /// Takes the block at the head of free list `index` off it and gives it.
    pub fn remove_node(&mut self, index: u32) -> (r: u32)
        ensures
            final(self).layout_kept(old(self)),
            final(self).same_but_lists(old(self)),
            (index as int) < old(self).free_lists().len() ==> r == old(self).free_lists()[index as int],
            free_list_slot_ok(
                old(self).free_lists(),
                old(self).list_stamps(),
                old(self).arena(),
                old(self).free_lists()[index as int],
                index,
            ) ==> (r, final(self).free_lists(), final(self).list_stamps()) == spec_remove_node(
                old(self).free_lists(),
                old(self).list_stamps(),
                old(self).arena(),
                index as int,
            ),
            final(self).arena() == old(self).arena(),
            final(self).unit_sizes() == old(self).unit_sizes(),
    {
        let node: u32 = self.fl(index);
        let next: u32 = self.nd_next(node);
        self.set_fl(index, next);
        self.add_stamp(index, 1, false);
        node
    }

    /// The free lists, stamps and arena after `split_block(ptr0, old_index, new_index)`:
    /// the `nu` units past the first `i2u(new_index)` are freed as one block of list
    /// `u2i(nu)` when that list's size is exactly `nu`; otherwise as a block of the
    /// next smaller list, with the rest freed first as a block of list `nu - k - 1`.
    pub(crate) open spec fn spec_split_block(&self, ptr0: u32, old_index: u32, new_index: u32) -> (
        Seq<u32>,
        Seq<u32>,
        Seq<u8>,
    ) {
        self.split_block_on(self.free_list@, self.stamps@, self.memory@, ptr0, old_index, new_index)
    }

    /// `spec_split_block` on the free lists `fl`, stamps `st` and arena `mem`.
    pub(crate) open spec fn split_block_on(
        &self,
        fl: Seq<u32>,
        st: Seq<u32>,
        mem: Seq<u8>,
        ptr0: u32,
        old_index: u32,
        new_index: u32,
    ) -> (Seq<u32>, Seq<u32>, Seq<u8>) {
        let nu = self.spec_i2u(old_index).wrapping_sub(self.spec_i2u(new_index));
        let ptr = ptr0.wrapping_add(self.spec_i2u(new_index).wrapping_mul(UNIT_SIZE));
        let i0 = self.spec_u2i(nu);
        if self.spec_i2u(i0) != nu {
            let i = i0.wrapping_sub(1);
            let k = self.spec_i2u(i);
            let tail = ptr.wrapping_add(k.wrapping_mul(UNIT_SIZE));
            let ti = nu.wrapping_sub(k).wrapping_sub(1);
            let (l1, s1, m1) = spec_insert_node(
                fl,
                st,
                mem,
                tail,
                ti as int,
                self.spec_i2u(ti),
            );
            spec_insert_node(l1, s1, m1, ptr, i as int, self.spec_i2u(i))
        } else {
            spec_insert_node(fl, st, mem, ptr, i0 as int, self.spec_i2u(i0))
        }
    }

    /// Whether the blocks that `split_block(ptr0, old_index, new_index)` frees, and
    /// their lists, lie in the arena and the tables.
    pub(crate) open spec fn split_block_ok(&self, ptr0: u32, old_index: u32, new_index: u32) -> bool {
        self.split_block_ok_on(self.free_list@, self.stamps@, self.memory@, ptr0, old_index, new_index)
    }

    /// `split_block_ok` on the free lists `fl`, stamps `st` and arena `mem`.
    pub(crate) open spec fn split_block_ok_on(
        &self,
        fl: Seq<u32>,
        st: Seq<u32>,
        mem: Seq<u8>,
        ptr0: u32,
        old_index: u32,
        new_index: u32,
    ) -> bool {
        let nu = self.spec_i2u(old_index).wrapping_sub(self.spec_i2u(new_index));
        let ptr = ptr0.wrapping_add(self.spec_i2u(new_index).wrapping_mul(UNIT_SIZE));
        let i0 = self.spec_u2i(nu);
        if self.spec_i2u(i0) != nu {
            let i = i0.wrapping_sub(1);
            let k = self.spec_i2u(i);
            let tail = ptr.wrapping_add(k.wrapping_mul(UNIT_SIZE));
            let ti = nu.wrapping_sub(k).wrapping_sub(1);
            free_list_slot_ok(fl, st, mem, tail, ti)
                && free_list_slot_ok(fl, st, mem, ptr, i)
        } else {
            free_list_slot_ok(fl, st, mem, ptr, i0)
        }
    }

    /// Keeps the first `i2u(new_index)` units of the block at `ptr0` (of list
    /// `old_index`) and frees the rest into the lists that fit it.
    pub(crate) fn split_block(&mut self, ptr0: u32, old_index: u32, new_index: u32)
        ensures
            final(self).keeps_layout(old(self)),
            final(self).same_but_lists(old(self)),
            old(self).split_block_ok(ptr0, old_index, new_index) ==> (
                final(self).free_list@,
                final(self).stamps@,
                final(self).memory@,
            ) == old(self).spec_split_block(ptr0, old_index, new_index),
    {
        let nu: u32 = self.i2u(old_index).wrapping_sub(self.i2u(new_index));
        let ptr: u32 = ptr0.wrapping_add(self.i2u(new_index).wrapping_mul(UNIT_SIZE));
        let mut i: u32 = self.u2i(nu);
        if self.i2u(i) != nu {
            i = i.wrapping_sub(1);
            let k: u32 = self.i2u(i);
            self.insert_node(ptr.wrapping_add(k.wrapping_mul(UNIT_SIZE)), nu.wrapping_sub(k).wrapping_sub(1));
        }
        self.insert_node(ptr, i);
    }

    /// Merges adjacent free blocks: collects every free list into one chain, glues each
    /// block with the free blocks that follow it in the arena, and files the results
    /// back into the lists, in pieces of at most 128 units.
    pub(crate) fn glue_free_blocks(&mut self)
        ensures
            final(self).keeps_layout(old(self)),
            final(self).glue_kept(old(self)),
    {
        let mut n: u32 = 0;
        self.glue_count = 1u32 << 13u32;
        assert(1u32 << 13u32 == 0x2000u32) by (bit_vector);
        self.stamps = vec![0u32; 38];
        if self.lo_unit != self.hi_unit {
            let lo: u32 = self.lo_unit;
            self.set_nd_stamp(lo, 0);
        }
        let mut prev: LinkSlot = LinkSlot::Local;
        let mut i: u32 = 0;
        while i < NUM_INDEXES
            invariant
                self.keeps_layout(old(self)),
                self.glue_kept(old(self)),
            decreases NUM_INDEXES - i,
        {
            let mut next: u32 = self.fl(i);
            self.set_fl(i, 0);
            let mut fuel: u64 = self.fuel();
            while next != 0 && fuel > 0
                invariant
                    self.keeps_layout(old(self)),
                    self.glue_kept(old(self)),
                decreases fuel,
            {
                fuel = fuel - 1;
                let node: u32 = next;
                let mut nu: u32 = self.nd_nu(node);
                self.set_link(prev, &mut n, next);
                next = self.nd_next(node);
                if nu != 0 {
                    prev = LinkSlot::Node(node);
                    let mut fuel2: u64 = self.fuel();
                    while fuel2 > 0
                        invariant
                            self.keeps_layout(old(self)),
                            self.glue_kept(old(self)),
                        decreases fuel2,
                    {
                        fuel2 = fuel2 - 1;
                        let node2: u32 = node.wrapping_add(nu.wrapping_mul(UNIT_SIZE));
                        if self.nd_stamp(node2) != EMPTY_NODE {
                            break;
                        }
                        nu = nu.wrapping_add(self.nd_nu(node2));
                        self.set_nd_nu(node2, 0);
                        self.set_nd_nu(node, nu);
                    }
                }
            }
            i = i + 1;
        }
        self.set_link(prev, &mut n, 0);
        let mut fuel: u64 = self.fuel();
        while n != 0 && fuel > 0
            invariant
                self.keeps_layout(old(self)),
                self.glue_kept(old(self)),
            decreases fuel,
        {
            fuel = fuel - 1;
            let mut node: u32 = n;
            let mut nu: u32 = self.nd_nu(node);
            n = self.nd_next(node);
            if nu != 0 {
                while nu > 128
                    invariant
                        self.keeps_layout(old(self)),
                        self.glue_kept(old(self)),
                    decreases nu,
                {
                    self.insert_node(node, NUM_INDEXES - 1);
                    nu = nu - 128;
                    node = node.wrapping_add(128 * UNIT_SIZE);
                }
                let mut i0: u32 = self.u2i(nu);
                if self.i2u(i0) != nu {
                    i0 = i0.wrapping_sub(1);
                    let k: u32 = self.i2u(i0);
                    self.insert_node(node.wrapping_add(k.wrapping_mul(UNIT_SIZE)), nu.wrapping_sub(k).wrapping_sub(1));
                }
                self.insert_node(node, i0);
            }
        }
    }

    /// The first free list after `from`, up to the last one, whose head is set, or
    /// `NUM_INDEXES` when there is none.
    pub(crate) open spec fn first_filled(fl: Seq<u32>, from: int) -> int
        decreases NUM_INDEXES - from,
    {
        if from + 1 >= NUM_INDEXES {
            NUM_INDEXES as int
        } else if from + 1 < fl.len() && fl[from + 1] != 0 {
            from + 1
        } else {
            Self::first_filled(fl, from + 1)
        }
    }

    /// What `alloc_units_rare` gives and leaves once no gluing is due, from the
    /// model `before`: a block split off the first non-empty larger list; else, if
    /// the text area leaves room, the block just below `units_start`, which moves
    /// down; else 0. A step of the glue countdown is taken in the last two cases.
    pub(crate) open spec fn rare_alloc_from(&self, before: &Self, index: u32, r: u32) -> bool {
            let fl = before.free_list@;
            let j = Self::first_filled(fl, index as int);
            let bytes = before.spec_i2u(index).wrapping_mul(UNIT_SIZE);
            let us = before.units_start;
            let glue = before.glue_count.wrapping_sub(1);
            &&& j == NUM_INDEXES && us.wrapping_sub(before.text) > bytes ==> r == us.wrapping_sub(
                bytes,
            ) && *self == (Ppmd8 {
                glue_count: glue,
                units_start: us.wrapping_sub(bytes),
                ..*before
            })
            &&& j == NUM_INDEXES && us.wrapping_sub(before.text) <= bytes ==> r == 0
                && *self == (Ppmd8 { glue_count: glue, ..*before })
            &&& j < NUM_INDEXES ==> r == fl[j] && self.same_but_lists(before) && (
            free_list_slot_ok(fl, before.stamps@, before.memory@, fl[j], j as u32) ==> {
                let (p, l1, s1) = spec_remove_node(fl, before.stamps@, before.memory@, j);
                before.split_block_ok_on(l1, s1, before.memory@, p, j as u32, index) ==> (
                    self.free_list@,
                    self.stamps@,
                    self.memory@,
                ) == before.split_block_on(l1, s1, before.memory@, p, j as u32, index)
            })
    }

    /// Allocates a block for list `index` when neither its list nor the unit area can:
    /// glues the free blocks first when due, then splits a block of a larger list, and
    /// last takes room below `units_start` from the text area; gives 0 when all fail.
    pub(crate) fn alloc_units_rare(&mut self, index: u32) -> (r: u32)
        ensures
            final(self).coding_kept(old(self)),
            final(self).keeps_layout(old(self)),
            index >= NUM_INDEXES ==> r == 0 && *final(self) == *old(self),
            index < NUM_INDEXES && old(self).glue_count != 0 ==> final(self).rare_alloc_from(
                old(self),
                index,
                r,
            ),
            index < NUM_INDEXES && old(self).glue_count == 0 ==> exists|mid: Ppmd8|
                mid.glue_kept(old(self)) && mid.keeps_layout(old(self)) && if (index as int)
                    < mid.free_list@.len() && mid.free_list@[index as int] != 0 {
                    r == mid.free_list@[index as int] && final(self).same_but_lists(&mid)
                } else {
                    final(self).rare_alloc_from(&mid, index, r)
                },
    {
        if index >= NUM_INDEXES {
            return 0;
        }
        if self.glue_count == 0 {
            self.glue_free_blocks();
            let ghost mid: Ppmd8 = *self;
            if self.fl(index) != 0 {
                let r: u32 = self.remove_node(index);
                assert(mid.glue_kept(old(self)) && mid.keeps_layout(old(self)));
                return r;
            }
            assert(mid.glue_kept(old(self)) && mid.keeps_layout(old(self)));
        }
        let ghost base: Ppmd8 = *self;
        assert(old(self).glue_count != 0 ==> base == *old(self));
        assert(old(self).glue_count == 0 ==> base.glue_kept(old(self)) && base.keeps_layout(old(self))
            && !((index as int) < base.free_list@.len() && base.free_list@[index as int] != 0));
        let mut i: u32 = index;
        loop
            invariant_except_break
                Self::first_filled(self.free_list@, index as int) == Self::first_filled(
                    self.free_list@,
                    i as int,
                ),
            invariant
                self.coding_kept(old(self)),
                self.keeps_layout(old(self)),
                i < NUM_INDEXES,
                index <= i,
                *self == base,
                old(self).glue_count != 0 ==> base == *old(self),
                old(self).glue_count == 0 ==> base.glue_kept(old(self)) && base.keeps_layout(old(self))
                    && !((index as int) < base.free_list@.len() && base.free_list@[index as int] != 0),
            ensures
                self.keeps_layout(old(self)),
                index < i < NUM_INDEXES,
                *self == base,
                Self::first_filled(self.free_list@, index as int) == i,
                (i as int) < self.free_list@.len() && self.free_list@[i as int] != 0,
            decreases NUM_INDEXES - i,
        {
            i = i + 1;
            if i == NUM_INDEXES {
                let num_bytes: u32 = self.i2u(index).wrapping_mul(UNIT_SIZE);
                let us: u32 = self.units_start;
                self.glue_count = self.glue_count.wrapping_sub(1);
                let r: u32 = if us.wrapping_sub(self.text) > num_bytes {
                    self.units_start = us.wrapping_sub(num_bytes);
                    self.units_start
                } else {
                    0
                };
                assert(self.rare_alloc_from(&base, index, r));
                return r;
            }
            if self.fl(i) != 0 {
                break;
            }
        }
        let block: u32 = self.remove_node(i);
        self.split_block(block, i, index);
        assert(self.rare_alloc_from(&base, index, block));
        block
    }

    /// Allocates a block of `i2u(index)` units: from its free list, else from the unit
    /// area between `lo_unit` and `hi_unit`, else as `alloc_units_rare` does.
    pub(crate) fn alloc_units(&mut self, index: u32) -> (r: u32)
        ensures
            final(self).coding_kept(old(self)),
            final(self).keeps_layout(old(self)),
            (index as int) < old(self).free_list@.len() && old(self).free_list@[index as int] != 0
                && free_list_slot_ok(
                old(self).free_list@,
                old(self).stamps@,
                old(self).memory@,
                old(self).free_list@[index as int],
                index,
            ) ==> final(self).same_but_lists(old(self)) && (r, final(self).free_list@,
                final(self).stamps@) == spec_remove_node(
                old(self).free_list@,
                old(self).stamps@,
                old(self).memory@,
                index as int,
            ) && final(self).memory@ == old(self).memory@,
            ((index as int) >= old(self).free_list@.len() || old(self).free_list@[index as int] == 0)
                && old(self).hi_unit.wrapping_sub(old(self).lo_unit) >= old(self).spec_i2u(
                index,
            ).wrapping_mul(UNIT_SIZE) ==> r == old(self).lo_unit && *final(self) == (Ppmd8 {
                lo_unit: old(self).lo_unit.wrapping_add(old(self).spec_i2u(index).wrapping_mul(UNIT_SIZE)),
                ..*old(self)
            }),
    {
        if self.fl(index) != 0 {
            return self.remove_node(index);
        }
        let num_bytes: u32 = self.i2u(index).wrapping_mul(UNIT_SIZE);
        let lo: u32 = self.lo_unit;
        if self.hi_unit.wrapping_sub(lo) >= num_bytes {
            self.lo_unit = lo.wrapping_add(num_bytes);
            return lo;
        }
        self.alloc_units_rare(index)
    }

    /// Shrinks the block at `old_ptr` from `old_nu` to `new_nu` units: moves it into a
    /// free block of the smaller list when there is one, else frees its tail; gives
    /// where the block now is.
    pub(crate) fn shrink_units(&mut self, old_ptr: u32, old_nu: u32, new_nu: u32) -> (r: u32)
        ensures
            final(self).coding_kept(old(self)),
            final(self).keeps_layout(old(self)),
            ({
                let i0 = old(self).spec_u2i(old_nu);
                let i1 = old(self).spec_u2i(new_nu);
                let fl = old(self).free_list@;
                &&& i0 == i1 ==> r == old_ptr && *final(self) == *old(self)
                &&& i0 != i1 && ((i1 as int) >= fl.len() || fl[i1 as int] == 0) ==> r == old_ptr
                    && final(self).same_but_lists(old(self)) && (old(self).split_block_ok(
                    old_ptr,
                    i0,
                    i1,
                ) ==> (final(self).free_list@, final(self).stamps@, final(self).memory@) == old(
                    self,
                ).spec_split_block(old_ptr, i0, i1))
                &&& i0 != i1 && (i1 as int) < fl.len() && fl[i1 as int] != 0 ==> r == fl[i1 as int]
                    && final(self).same_but_lists(old(self)) && (free_list_slot_ok(
                    fl,
                    old(self).stamps@,
                    old(self).memory@,
                    fl[i1 as int],
                    i1,
                ) && free_list_slot_ok(fl, old(self).stamps@, old(self).memory@, old_ptr, i0) ==> {
                    let (p, l1, s1) = spec_remove_node(fl, old(self).stamps@, old(self).memory@, i1 as int);
                    let m1 = copy_spec(old(self).memory@, p, old_ptr, new_nu.wrapping_mul(UNIT_SIZE) as nat);
                    (final(self).free_list@, final(self).stamps@, final(self).memory@)
                        == spec_insert_node(l1, s1, m1, old_ptr, i0 as int, old(self).spec_i2u(i0))
                })
            }),
    {
        let i0: u32 = self.u2i(old_nu);
        let i1: u32 = self.u2i(new_nu);
        if i0 == i1 {
            return old_ptr;
        }
        if self.fl(i1) != 0 {
            let ptr: u32 = self.remove_node(i1);
            self.copy_units(ptr, old_ptr, new_nu);
            self.insert_node(old_ptr, i0);
            return ptr;
        }
        self.split_block(old_ptr, i0, i1);
        old_ptr
    }

    /// Frees the block of `nu` units at `ptr` into the list that fits it.
    pub(crate) fn free_units(&mut self, ptr: u32, nu: u32)
        ensures
            final(self).keeps_layout(old(self)),
            final(self).same_but_lists(old(self)),
            free_list_slot_ok(
                old(self).free_list@,
                old(self).stamps@,
                old(self).memory@,
                ptr,
                old(self).spec_u2i(nu),
            ) ==> (final(self).free_list@, final(self).stamps@, final(self).memory@)
                == spec_insert_node(
                old(self).free_list@,
                old(self).stamps@,
                old(self).memory@,
                ptr,
                old(self).spec_u2i(nu) as int,
                old(self).spec_i2u(old(self).spec_u2i(nu)),
            ),
    {
        let i: u32 = self.u2i(nu);
        self.insert_node(ptr, i);
    }

    /// Frees the one-unit block at `ptr`; the block at `units_start` is given back to
    /// the text area instead.
    pub(crate) fn special_free_unit(&mut self, ptr: u32)
        ensures
            final(self).coding_kept(old(self)),
            final(self).keeps_layout(old(self)),
            ptr != old(self).units_start ==> final(self).same_but_lists(old(self)) && (
            free_list_slot_ok(old(self).free_list@, old(self).stamps@, old(self).memory@, ptr, 0)
                ==> (final(self).free_list@, final(self).stamps@, final(self).memory@)
                == spec_insert_node(
                old(self).free_list@,
                old(self).stamps@,
                old(self).memory@,
                ptr,
                0,
                old(self).spec_i2u(0),
            )),
            ptr == old(self).units_start ==> *final(self) == (Ppmd8 {
                units_start: old(self).units_start.wrapping_add(UNIT_SIZE),
                ..*old(self)
            }),
    {
        if ptr != self.units_start {
            self.insert_node(ptr, 0);
        } else {
            self.units_start = self.units_start.wrapping_add(UNIT_SIZE);
        }
    }

    /// Gives the free blocks just above the text area back to it: moves `units_start`
    /// up past them and takes them off their free lists.
    pub(crate) fn expand_text_area(&mut self)
        ensures
            final(self).keeps_layout(old(self)),
            ({
                let mem0 = if old(self).lo_unit != old(self).hi_unit {
                    wr32_spec(old(self).memory@, old(self).lo_unit, 0)
                } else {
                    old(self).memory@
                };
                let u = free_walk(mem0, old(self).units_start, old(self).memory@.len() / 2 + 512).0;
                *final(self) == (Ppmd8 {
                    units_start: u,
                    free_list: final(self).free_list,
                    stamps: final(self).stamps,
                    memory: final(self).memory,
                    ..*old(self)
                })
            }),
    {
        let mut count: Vec<u32> = vec![0u32; 38];
        if self.lo_unit != self.hi_unit {
            let lo: u32 = self.lo_unit;
            self.set_nd_stamp(lo, 0);
        }
        let ghost mem0 = self.memory@;
        let mut node: u32 = self.units_start;
        let mut fuel: u64 = self.fuel();
        while self.nd_stamp(node) == EMPTY_NODE && fuel > 0
            invariant
                self.keeps_layout(old(self)),
                self.same_but_lists(old(self)),
                free_walk(self.memory@, node, fuel as nat) == free_walk(
                    mem0,
                    old(self).units_start,
                    old(self).memory@.len() / 2 + 512,
                ),
                count@.len() == 38,
            decreases fuel,
        {
            fuel = fuel - 1;
            let nu: u32 = self.nd_nu(node);
            self.set_nd_stamp(node, 0);
            let k: usize = self.u2i(nu) as usize;
            if k < count.len() {
                let c: u32 = count[k];
                count.set(k, c.wrapping_add(1));
            }
            node = node.wrapping_add(nu.wrapping_mul(UNIT_SIZE));
        }
        self.units_start = node;
        let ghost u = node;
        let mut i: u32 = 0;
        while i < NUM_INDEXES
            invariant
                self.keeps_layout(old(self)),
                *self == (Ppmd8 {
                    units_start: u,
                    free_list: self.free_list,
                    stamps: self.stamps,
                    memory: self.memory,
                    ..*old(self)
                }),
                count@.len() == 38,
            decreases NUM_INDEXES - i,
        {
            let mut cnt: u32 = count[i as usize];
            if cnt != 0 {
                let mut prev: LinkSlot = LinkSlot::FreeList(i);
                let mut n: u32 = self.fl(i);
                self.add_stamp(i, cnt, false);
                let mut unused: u32 = 0;
                let mut fuel2: u64 = self.fuel();
                while fuel2 > 0
                    invariant
                        self.keeps_layout(old(self)),
                        *self == (Ppmd8 {
                            units_start: u,
                            free_list: self.free_list,
                            stamps: self.stamps,
                            memory: self.memory,
                            ..*old(self)
                        }),
                    decreases fuel2,
                {
                    fuel2 = fuel2 - 1;
                    let nd: u32 = n;
                    n = self.nd_next(nd);
                    if self.nd_stamp(nd) != 0 {
                        prev = LinkSlot::Node(nd);
                    } else {
                        self.set_link(prev, &mut unused, n);
                        cnt = cnt.wrapping_sub(1);
                        if cnt == 0 {
                            break;
                        }
                    }
                }
            }
            i = i + 1;
        }
    }
}


impl Ppmd8 {
    // ---------------------------------------------------------------- construction

    /// Builds a model over a fresh arena of `mem_size` bytes and starts it afresh;
    /// fails with `InternalError` when the arena cannot be allocated.
    pub fn construct(mem_size: u32, max_order: u32, restore_method: RestoreMethod) -> (r: Result<
        Self,
        Error,
    >)
        ensures
            r is Err ==> (r matches Err(Error::InternalError(_))),
            r matches Ok(p) ==> {
                &&& p.parameters() == (mem_size, max_order, restore_method)
                &&& p.arena().len() == mem_size + 4u32.wrapping_sub(mem_size) % 4
                &&& p.unit_sizes().len() == 40
                &&& forall|i: int| 0 <= i < NUM_INDEXES ==> p.unit_sizes()[i] == list_units(i)
                &&& p.unit_lists().len() == 128
                &&& forall|t: int|
                    0 <= t < 128 ==> #[trigger] p.unit_lists()[t] < NUM_INDEXES && list_units(
                        p.unit_lists()[t] - 1,
                    ) <= t < list_units(p.unit_lists()[t] as int)
                &&& p.stats_tables().0.len() == 256
                &&& forall|i: int| 0 <= i < 256 ==> p.stats_tables().0[i] == ns_bs_index(i)
                &&& p.stats_tables().1.len() == 260
                &&& forall|i: int| 0 <= i < 260 ==> p.stats_tables().1[i] == ns_index(i)
                &&& p.exp_escape_table() == seq![25u8, 14, 9, 7, 5, 5, 4, 4, 4, 3, 3, 3, 2, 2, 2, 2]
                &&& 2048 <= mem_size <= u32::MAX - 3 ==> p.is_fresh()
                &&& p.alignment() == 4u32.wrapping_sub(mem_size) % 4
                &&& p.is_restarted()
            },
    {
        let (index2units, units2index) = unit_tables();
        let (ns2bs_index, ns2index) = stats_tables();
        let align_offset: u32 = 4u32.wrapping_sub(mem_size) % 4;
        if mem_size as usize > usize::MAX - 4 {
            return Err(Error::InternalError("Failed to create memory layout"));
        }
        let total_size: usize = align_offset as usize + mem_size as usize;
        let mut memory: Vec<u8> = Vec::new();
        match memory.try_reserve(total_size) {
            Ok(()) => {},
            Err(_) => {
                return Err(
                    Error::InternalError("Failed to allocate memory for the internal memory allocation"),
                );
            },
        }
        memory.resize(total_size, 0u8);
        let mut ppmd = Ppmd8 {
            min_context: 0,
            max_context: 0,
            found_state: 0,
            order_fall: 0,
            init_esc: 0,
            prev_success: 0,
            max_order,
            restore_method,
            run_length: 0,
            init_rl: 0,
            size: mem_size,
            glue_count: 0,
            align_offset,
            lo_unit: 0,
            hi_unit: 0,
            text: 0,
            units_start: 0,
            index2units,
            units2index,
            free_list: vec![0u32; 38],
            stamps: vec![0u32; 38],
            ns2bs_index,
            ns2index,
            exp_escape: vec![25u8, 14, 9, 7, 5, 5, 4, 4, 4, 3, 3, 3, 2, 2, 2, 2],
            dummy_see: See { summ: 0, shift: 0, count: 0 },
            see: vec![See { summ: 0, shift: 0, count: 0 }; 24 * 32],
            bin_summ: vec![0u16; 25 * 64],
            memory,
        };
        assert(ppmd.exp_escape@ == seq![25u8, 14, 9, 7, 5, 5, 4, 4, 4, 3, 3, 3, 2, 2, 2, 2]);
        ppmd.restart_model();
        Ok(ppmd)
    }

    /// Whether the model is as `restart_model` leaves it: the root context is the
    /// current one and the one of the longest match, with its 256 states of
    /// frequency 1 (`fresh_root`); its first state is the found one; the full order is
    /// still to fall; the binary probabilities and the estimation cells hold their
    /// initial values (`bin_init`, `see_init`).
    pub closed spec fn is_fresh(&self) -> bool {
        &&& fresh_root(self.memory@, self.min_context, self.units_start)
        &&& self.max_context == self.min_context
        &&& self.found_state == self.units_start
        &&& self.order_fall == self.max_order
        &&& self.bin_summ@.len() == 25 * 64
        &&& forall|m: int, k: int, r: int|
            0 <= m < 25 && 0 <= k < 8 && 0 <= r < 8 ==> #[trigger] self.bin_summ@[bin_slot(m, k, r)]
                == bin_init(self.ns2index@, m, k)
        &&& self.see@.len() == 24 * 32
        &&& forall|m: int, k: int|
            0 <= m < 24 && 0 <= k < 32 ==> #[trigger] self.see@[see_slot_at(m, k)] == see_init(
                self.ns2index@,
                m,
            )
    }

    /// The bytes at the start of the arena that align the units after it.
    pub closed spec fn alignment(&self) -> u32 {
        self.align_offset
    }

    /// Whether the allocator and coder state are as `restart_model` leaves them
    /// (`restarted`): empty free lists, the text area at the start of the arena, the
    /// unit area in the top seven eighths less the root and its states, the root as
    /// both current contexts, the full order still to fall, the initial run length.
    pub closed spec fn is_restarted(&self) -> bool {
        self.restarted(self)
    }

    /// What `is_fresh` says of the model's fields.
    pub(crate) proof fn reveal_fresh(&self)
        requires
            self.is_fresh(),
        ensures
            fresh_root(self.memory@, self.min_context, self.units_start),
            self.max_context == self.min_context,
            self.found_state == self.units_start,
            self.order_fall == self.max_order,
    {
    }

    /// Whether the arena holds exactly `align_offset + size` bytes, that sum fits in a
    /// `u32`, and `size` is at least 2048 bytes: room for the root context and its
    /// states apart from each other.
    pub(crate) open spec fn arena_fits(&self) -> bool {
        &&& self.memory@.len() == self.align_offset + self.size
        &&& self.align_offset + self.size <= u32::MAX
        &&& self.size >= 2048
    }

    /// The allocator and coder state that `restart_model` leaves, given the model
    /// `before` it: empty free lists with zero stamps; the text area at the start of
    /// the arena; the unit area in the top seven eighths (rounded to units), less the
    /// root context just below `hi_unit` and its 128 units of states from
    /// `units_start` on; the root context as both current contexts and its first state
    /// as the found state; the full order still to fall; the initial run length.
    pub(crate) open spec fn restarted(&self, before: &Self) -> bool {
        let top = before.align_offset.wrapping_add(before.size);
        let units_start = top.wrapping_sub((before.size / 8 / UNIT_SIZE * 7 * UNIT_SIZE) as u32);
        let rl: i32 = if before.max_order < 12 {
            before.max_order as i32
        } else {
            12
        };
        &&& self.free_list@ == Seq::new(38, |i: int| 0u32)
        &&& self.stamps@ == Seq::new(38, |i: int| 0u32)
        &&& self.text == before.align_offset
        &&& self.units_start == units_start
        &&& self.hi_unit == top.wrapping_sub(UNIT_SIZE)
        &&& self.lo_unit == units_start.wrapping_add((128 * UNIT_SIZE) as u32)
        &&& self.glue_count == 0
        &&& self.order_fall == before.max_order
        &&& self.init_rl == -rl - 1
        &&& self.run_length == -rl - 1
        &&& self.prev_success == 0
        &&& self.min_context == top.wrapping_sub(UNIT_SIZE)
        &&& self.max_context == top.wrapping_sub(UNIT_SIZE)
        &&& self.found_state == units_start
    }

    /// Resets the model to its initial state: the arena split into text and units,
    /// a root context holding all 256 symbols, and the initial escape estimates.
    pub(crate) fn restart_model(&mut self)
        ensures
            final(self).keeps_layout(old(self)),
            final(self).restarted(old(self)),
            final(self).dummy_see == (See { summ: 0, shift: PERIOD_BITS as u8, count: 64 }),
            old(self).arena_fits() ==> fresh_root(
                final(self).memory@,
                final(self).min_context,
                final(self).units_start,
            ),
            old(self).bin_summ@.len() == 25 * 64 ==> final(self).bin_summ@.len() == 25 * 64
                && forall|m: int, k: int, r: int|
                0 <= m < 25 && 0 <= k < 8 && 0 <= r < 8 ==> #[trigger] final(self).bin_summ@[bin_slot(
                    m,
                    k,
                    r,
                )] == bin_init(old(self).ns2index@, m, k),
            old(self).see@.len() == 24 * 32 ==> final(self).see@.len() == 24 * 32 && forall|m: int, k: int|
                0 <= m < 24 && 0 <= k < 32 ==> #[trigger] final(self).see@[see_slot_at(m, k)] == see_init(
                    old(self).ns2index@,
                    m,
                ),
    {
        self.free_list = vec![0u32; 38];
        self.stamps = vec![0u32; 38];
        assert(self.free_list@ =~= Seq::new(38, |i: int| 0u32));
        assert(self.stamps@ =~= Seq::new(38, |i: int| 0u32));
        self.text = self.align_offset;
        self.hi_unit = self.text.wrapping_add(self.size);
        self.units_start = self.hi_unit.wrapping_sub(self.size / 8 / UNIT_SIZE * 7 * UNIT_SIZE);
        self.lo_unit = self.units_start;
        self.glue_count = 0;
        self.order_fall = self.max_order;
        let rl: i32 = if self.max_order < 12 { self.max_order as i32 } else { 12 };
        self.init_rl = -rl - 1;
        self.run_length = self.init_rl;
        self.prev_success = 0;
        self.hi_unit = self.hi_unit.wrapping_sub(UNIT_SIZE);
        let mc: u32 = self.hi_unit;
        let s: u32 = self.lo_unit;
        self.lo_unit = self.lo_unit.wrapping_add(128 * UNIT_SIZE);
        self.min_context = mc;
        self.max_context = mc;
        self.found_state = s;
        assert(self.restarted(old(self)));
        let ghost fits: bool = old(self).arena_fits();
        proof {
            if fits {
                let ao: int = old(self).align_offset as int;
                let sz: int = old(self).size as int;
                let len: int = self.memory@.len() as int;
                let q: int = old(self).size as int / 8 / 12;
                assert(q * 84 <= sz && q >= 21) by (nonlinear_arith)
                    requires
                        q == sz / 8 / 12,
                        sz >= 2048,
                ;
                assert(s as int + 1536 <= mc && mc as int + 12 == len);
            }
        }
        self.set_ctx_flags(mc, 0);
        self.set_ctx_ns(mc, 255);
        self.set_ctx_summ(mc, 257);
        let ghost m3: Seq<u8> = self.memory@;
        self.set_ctx_stats(mc, s);
        let ghost m4: Seq<u8> = self.memory@;
        self.set_ctx_suffix(mc, 0);
        proof {
            if fits {
                assert((257u16 as u8) == 1u8 && ((257u16 >> 8u16) as u8) == 1u8) by (bit_vector);
                lemma_wr32_fits(m3, (mc + 4) as u32, s);
                lemma_le32_put_get(m3, mc + 4, s);
                lemma_wr32_fits(m4, (mc + 8) as u32, 0);
                lemma_le32_put_get(m4, mc + 8, 0);
                lemma_le32_put_other(m4, mc + 8, 0, mc + 4);
                assert(byte_at(self.memory@, mc + 2) == 1 && byte_at(self.memory@, mc + 3) == 1);
            }
        }
        let mut i: u32 = 0;
        while i < 256
            invariant
                self.keeps_layout(old(self)),
                self.restarted(old(self)),
                i <= 256,
                mc == self.min_context,
                s == self.units_start,
                self.bin_summ@ == old(self).bin_summ@,
                self.see@ == old(self).see@,
                self.dummy_see == old(self).dummy_see,
                fits ==> s as int + 1536 <= mc && mc as int + 12 == self.memory@.len(),
                fits ==> byte_at(self.memory@, mc as int) == 255 && byte_at(self.memory@, mc + 1) == 0
                    && byte_at(self.memory@, mc + 2) == 1 && byte_at(self.memory@, mc + 3) == 1
                    && le32_at(self.memory@, mc + 4) == s && le32_at(self.memory@, mc + 8) == 0,
                fits ==> forall|j: int|
                    0 <= j < i ==> #[trigger] state_at(self.memory@, (s + 6 * j) as u32) == (
                        j as u8,
                        1u8,
                        0u32,
                    ),
            decreases 256 - i,
        {
            let st: u32 = Self::st_next(s, i);
            let ghost before: Seq<u8> = self.memory@;
            self.set_st_sym(st, i);
            self.set_st_freq(st, 1);
            self.set_st_succ(st, 0);
            proof {
                if fits {
                    assert(st == s + 6 * i);
                    let tup: (u8, u8, u32) = (i as u8, 1u8, 0u32);
                    assert(self.memory@ == put_state(before, st, tup));
                    lemma_put_state(before, st, tup, st);
                    assert forall|j: int| 0 <= j < i + 1 implies #[trigger] state_at(
                        self.memory@,
                        (s + 6 * j) as u32,
                    ) == (j as u8, 1u8, 0u32) by {
                        if j < i {
                            lemma_put_state(before, st, tup, (s + 6 * j) as u32);
                        }
                    }
                    assert forall|k: int| mc <= k < mc + 12 implies self.memory@[k] == before[k] by {
                        lemma_put_state(before, st, tup, st);
                    }
                    lemma_root_header_kept(before, self.memory@, mc, s);
                }
            }
            i = i + 1;
        }
        let ghost rooted: Seq<u8> = self.memory@;
        let ghost t: Seq<u8> = self.ns2index@;
        let ghost bins: bool = old(self).bin_summ@.len() == 25 * 64;
        let mut i: u32 = 0;
        let mut m: u32 = 0;
        while m < 25
            invariant
                self.keeps_layout(old(self)),
                self.restarted(old(self)),
                self.memory@ == rooted,
                t == self.ns2index@,
                self.bin_summ@.len() == old(self).bin_summ@.len(),
                self.see@ == old(self).see@,
                self.dummy_see == old(self).dummy_see,
                bins == (old(self).bin_summ@.len() == 25 * 64),
                m <= 25,
                i <= 260,
                i == run_start(t, m as int, 260, 0),
                bins ==> forall|mm: int, kk: int, rr: int|
                    0 <= mm < m && 0 <= kk < 8 && 0 <= rr < 8 ==> #[trigger] self.bin_summ@[bin_slot(
                        mm,
                        kk,
                        rr,
                    )] == bin_init(t, mm, kk),
            decreases 25 - m,
        {
            let ghost i0: int = i as int;
            while i < 260 && self.ns2index_at(i) == m
                invariant
                    self.keeps_layout(old(self)),
                    self.restarted(old(self)),
                    self.memory@ == rooted,
                    t == self.ns2index@,
                    i <= 260,
                    run_end(t, m as int, i0, 260, 0) == run_end(t, m as int, i as int, 260, 0),
                decreases 260 - i,
            {
                i = i + 1;
            }
            assert(i == run_start(t, m + 1, 260, 0));
            let mut k: usize = 0;
            while k < 8
                invariant
                    self.keeps_layout(old(self)),
                    self.restarted(old(self)),
                    self.memory@ == rooted,
                    t == self.ns2index@,
                    self.bin_summ@.len() == old(self).bin_summ@.len(),
                    self.see@ == old(self).see@,
                    self.dummy_see == old(self).dummy_see,
                    bins == (old(self).bin_summ@.len() == 25 * 64),
                    i <= 260,
                    i == run_start(t, m + 1, 260, 0),
                    m < 25,
                    k <= 8,
                    bins ==> forall|mm: int, kk: int, rr: int|
                        (0 <= mm < m && 0 <= kk < 8 && 0 <= rr < 8) || (mm == m && 0 <= kk < k && 0
                            <= rr < 8) ==> #[trigger] self.bin_summ@[bin_slot(mm, kk, rr)] == bin_init(
                            t,
                            mm,
                            kk,
                        ),
                decreases 8 - k,
            {
                let val: u32 = BIN_SCALE.wrapping_sub((init_bin_esc(k) as u32) / (i + 1));
                assert(val as u16 == bin_init(t, m as int, k as int));
                let mut r: usize = 0;
                while r < 8
                    invariant
                        self.keeps_layout(old(self)),
                        self.restarted(old(self)),
                        self.memory@ == rooted,
                        t == self.ns2index@,
                        self.bin_summ@.len() == old(self).bin_summ@.len(),
                        self.see@ == old(self).see@,
                        self.dummy_see == old(self).dummy_see,
                        bins == (old(self).bin_summ@.len() == 25 * 64),
                        k < 8,
                        m < 25,
                        r <= 8,
                        val as u16 == bin_init(t, m as int, k as int),
                        bins ==> forall|mm: int, kk: int, rr: int|
                            (0 <= mm < m && 0 <= kk < 8 && 0 <= rr < 8) || (mm == m && 0 <= kk < k && 0
                                <= rr < 8) || (mm == m && kk == k && 0 <= rr < r) ==> #[trigger] self.bin_summ@[bin_slot(
                                mm,
                                kk,
                                rr,
                            )] == bin_init(t, mm, kk),
                    decreases 8 - r,
                {
                    proof {
                        lemma_bin_slot(m as int, k as int, r as int);
                    }
                    self.set_bin_summ((m as usize) * 64 + k + 8 * r, val as u16);
                    r = r + 1;
                }
                k = k + 1;
            }
            m = m + 1;
        }
        let ghost sees: bool = old(self).see@.len() == 24 * 32;
        let ghost bin_done: Seq<u16> = self.bin_summ@;
        let mut i: u32 = 0;
        let mut m: u32 = 0;
        while m < 24
            invariant
                self.keeps_layout(old(self)),
                self.restarted(old(self)),
                self.memory@ == rooted,
                t == self.ns2index@,
                self.bin_summ@ == bin_done,
                self.see@.len() == old(self).see@.len(),
                sees == (old(self).see@.len() == 24 * 32),
                m <= 24,
                i <= 257,
                i == run_start(t, m as int, 257, 3),
                sees ==> forall|mm: int, kk: int|
                    0 <= mm < m && 0 <= kk < 32 ==> #[trigger] self.see@[see_slot_at(mm, kk)] == see_init(
                        t,
                        mm,
                    ),
            decreases 24 - m,
        {
            let ghost i0: int = i as int;
            while i < 257 && self.ns2index_at(i + 3) == m + 3
                invariant
                    self.keeps_layout(old(self)),
                    self.restarted(old(self)),
                    self.memory@ == rooted,
                    t == self.ns2index@,
                    i <= 257,
                    m < 24,
                    run_end(t, m + 3, i0, 257, 3) == run_end(t, m + 3, i as int, 257, 3),
                decreases 257 - i,
            {
                i = i + 1;
            }
            assert(i == run_start(t, m + 1, 257, 3));
            let base: u32 = 2 * i + 5;
            let summ: u32 = base << (PERIOD_BITS - 4);
            assert(summ == base * 8) by (bit_vector)
                requires
                    summ == base << 3u32,
                    base <= 519,
            ;
            assert(summ as u16 == see_init(t, m as int).summ);
            let mut k: usize = 0;
            while k < 32
                invariant
                    self.keeps_layout(old(self)),
                    self.restarted(old(self)),
                    self.memory@ == rooted,
                    t == self.ns2index@,
                    self.bin_summ@ == bin_done,
                    self.see@.len() == old(self).see@.len(),
                    sees == (old(self).see@.len() == 24 * 32),
                    m < 24,
                    k <= 32,
                    i <= 257,
                    i == run_start(t, m + 1, 257, 3),
                    summ as u16 == see_init(t, m as int).summ,
                    sees ==> forall|mm: int, kk: int|
                        (0 <= mm < m && 0 <= kk < 32) || (mm == m && 0 <= kk < k) ==> #[trigger] self.see@[see_slot_at(
                            mm,
                            kk,
                        )] == see_init(t, mm),
                decreases 32 - k,
            {
                proof {
                    lemma_see_slot(m as int, k as int);
                }
                self.set_see(
                    SeeSource::Table((m as usize) * 32 + k),
                    See { summ: summ as u16, shift: (PERIOD_BITS - 4) as u8, count: 7 },
                );
                k = k + 1;
            }
            m = m + 1;
        }
        self.dummy_see = See { summ: 0, shift: PERIOD_BITS as u8, count: 64 };
    }

    // ---------------------------------------------------------------- model maintenance

    /// Shrinks the statistics of `ctx` to fit its state count and halves the
    /// frequencies (rounding up) when `scale0` is 1 or their sum has reached 0x8000,
    /// recomputing the frequency sum and the flags.
    pub(crate) fn refresh(&mut self, ctx: u32, old_nu: u32, scale0: u32)
        ensures
            final(self).coding_kept(old(self)),
            final(self).keeps_layout(old(self)),
    {
        let mut i: u32 = self.ctx_ns(ctx);
        let stats: u32 = self.ctx_stats(ctx);
        let mut s: u32 = self.shrink_units(stats, old_nu, (i + 2) >> 1u32);
        self.set_ctx_stats(ctx, s);
        let scale: u32 = scale0 | (if self.ctx_summ(ctx) >= 0x8000 { 1u32 } else { 0u32 });
        let mut flags: u32 = self.st_sym(s).wrapping_add(0xC0);
        let mut freq: u32 = self.st_freq(s);
        let mut esc_freq: u32 = self.ctx_summ(ctx).wrapping_sub(freq);
        freq = shr(freq.wrapping_add(scale), scale);
        let mut sum_freq: u32 = freq;
        self.set_st_freq(s, freq);
        let mut fuel: u32 = 256;
        while fuel > 0
            invariant
                self.coding_kept(old(self)),
                self.keeps_layout(old(self)),
            decreases fuel,
        {
            fuel = fuel - 1;
            s = Self::st_next(s, 1);
            let mut f: u32 = self.st_freq(s);
            esc_freq = esc_freq.wrapping_sub(f);
            f = shr(f.wrapping_add(scale), scale);
            sum_freq = sum_freq.wrapping_add(f);
            self.set_st_freq(s, f);
            flags = flags | self.st_sym(s).wrapping_add(0xC0);
            i = i.wrapping_sub(1);
            if i == 0 {
                break;
            }
        }
        self.set_ctx_summ(ctx, sum_freq.wrapping_add(shr(esc_freq.wrapping_add(scale), scale)));
        let fl: u32 = (self.ctx_flags(ctx) & 0x10u32.wrapping_add(4u32.wrapping_mul(scale))).wrapping_add(
            (flags >> 5u32) & 8u32,
        );
        self.set_ctx_flags(ctx, fl);
    }

    /// Whether `cut_off` finds none of the states of the context `ctx`, which has
    /// several, worth keeping and leaves them where they are: each state's successor
    /// points into the text (below `units_start`), and the statistics are not due to
    /// move to a lower free block first.
    pub(crate) open spec fn cut_frees_all(&self, ctx: u32) -> bool {
        let mem = self.memory@;
        let ns = byte_at(mem, ctx as int) as u32;
        let stats = rd32_spec(mem, ctx.wrapping_add(4));
        let index = self.spec_u2i(((ns + 2) / 2) as u32);
        let fl: u32 = if (index as int) < self.free_list@.len() {
            self.free_list@[index as int]
        } else {
            0
        };
        &&& !(stats.wrapping_sub(self.units_start) <= 0x4000 && stats <= fl)
        &&& forall|j: u32|
            j <= ns ==> #[trigger] rd32_spec(mem, stats.wrapping_add(6u32.wrapping_mul(j)).wrapping_add(2))
                < self.units_start
    }

    /// Cuts the subtree below `ctx` (at `order`) down to the contexts still in use,
    /// going no deeper than `max_order`; gives `ctx`, or 0 where it was freed.
    pub(crate) fn cut_off(&mut self, ctx: u32, order: u32, max_order: u32) -> (r: u32)
        ensures
            final(self).coding_kept(old(self)),
            final(self).keeps_layout(old(self)),
            r == ctx || r == 0,
            ({
                let mem = old(self).memory@;
                let succ_at = ctx.wrapping_add(2).wrapping_add(2);
                let succ = rd32_spec(mem, succ_at);
                let one = byte_at(mem, ctx as int) == 0;
                &&& one && succ < old(self).units_start ==> r == 0 && (ctx == old(self).units_start
                    ==> *final(self) == (Ppmd8 {
                    units_start: old(self).units_start.wrapping_add(UNIT_SIZE),
                    ..*old(self)
                })) && (ctx != old(self).units_start ==> final(self).same_but_lists(old(self)))
                &&& !one && order == 0 ==> r == ctx
                &&& !one && order != 0 && old(self).cut_frees_all(ctx) ==> r == 0
                &&& one && succ >= old(self).units_start && order >= max_order && order <= 9 ==> r == ctx
                    && final(self).memory@ == wr32_spec(mem, succ_at, 0) && *final(self) == (Ppmd8 {
                    memory: final(self).memory,
                    ..*old(self)
                })
            }),
        decreases max_order - order,
    {
        let mut ns: i32 = self.ctx_ns(ctx) as i32;
        if ns == 0 {
            let s: u32 = Self::one_state(ctx);
            let mut successor: u32 = self.st_succ(s);
            if successor >= self.units_start {
                if order < max_order {
                    successor = self.cut_off(successor, order + 1, max_order);
                } else {
                    successor = 0;
                }
                self.set_st_succ(s, successor);
                if successor != 0 || order <= 9 {
                    return ctx;
                }
            }
            self.special_free_unit(ctx);
            return 0;
        }
        let ghost all: bool = order != 0 && old(self).cut_frees_all(ctx);
        let ns2: u32 = (ns as u32) + 2;
        let nu: u32 = ns2 >> 1u32;
        assert(nu == ns2 / 2) by (bit_vector)
            requires
                nu == ns2 >> 1u32,
        ;
        let index: u32 = self.u2i(nu);
        let mut stats: u32 = self.ctx_stats(ctx);
        assert((1u32 << 14u32) == 0x4000u32) by (bit_vector);
        if stats.wrapping_sub(self.units_start) <= (1u32 << 14u32) && stats <= self.fl(index) {
            let ptr: u32 = self.remove_node(index);
            self.set_ctx_stats(ctx, ptr);
            self.copy_units(ptr, stats, nu);
            if stats != self.units_start {
                self.insert_node(stats, index);
            } else {
                self.units_start = self.units_start.wrapping_add(
                    self.i2u(index).wrapping_mul(UNIT_SIZE),
                );
            }
            stats = ptr;
        }
        let top: i32 = ns;
        let mut j: i32 = top;
        let ghost snap: Ppmd8 = *self;
        assert(all ==> snap == *old(self));
        while j >= 0
            invariant
                self.coding_kept(old(self)),
                self.keeps_layout(old(self)),
                ns <= 255,
                ns >= j,
                top <= 255,
                j <= top,
                j >= -1,
                all ==> *self == snap && ns == j && snap == *old(self) && order != 0
                    && old(self).cut_frees_all(ctx) && stats == rd32_spec(old(self).memory@, ctx.wrapping_add(4))
                    && top == byte_at(old(self).memory@, ctx as int) as i32,
            decreases j + 1,
        {
            let s: u32 = Self::st_next(stats, j as u32);
            let successor: u32 = self.st_succ(s);
            if successor < self.units_start {
                let fresh: i32 = ns;
                ns = ns - 1;
                let s2: u32 = Self::st_next(stats, fresh as u32);
                if order != 0 {
                    if s != s2 {
                        self.copy_state(s, s2);
                    }
                } else {
                    self.swap_states(s, s2);
                    self.set_st_succ(s2, 0);
                }
            } else if order < max_order {
                let r: u32 = self.cut_off(successor, order + 1, max_order);
                self.set_st_succ(s, r);
            } else {
                self.set_st_succ(s, 0);
            }
            j = j - 1;
        }
        if ns != (self.ctx_ns(ctx) as i32) && order != 0 {
            if ns < 0 {
                self.free_units(stats, nu);
                self.special_free_unit(ctx);
                return 0;
            }
            self.set_ctx_ns(ctx, ns as u32);
            if ns == 0 {
                let sym: u32 = self.st_sym(stats);
                let fl: u32 = (self.ctx_flags(ctx) & 0x10u32).wrapping_add(
                    (sym.wrapping_add(0xC0) >> 5u32) & 8u32,
                );
                self.set_ctx_flags(ctx, fl);
                let freq: u32 = (self.st_freq(stats) + 11) >> 3u32;
                let succ: u32 = self.st_succ(stats);
                let one: u32 = Self::one_state(ctx);
                self.set_st_sym(one, sym);
                self.set_st_freq(one, freq);
                self.set_st_succ(one, succ);
                self.free_units(stats, nu);
            } else {
                let big: bool = self.ctx_summ(ctx) > 16u32.wrapping_mul(ns as u32);
                self.refresh(ctx, nu, if big { 1 } else { 0 });
            }
        }
        ctx
    }

    /// The arena bytes that the model occupies: the size less the free gap between the
    /// unit areas, the text area, and the units on the free lists.
    /// The units on the first `n` free lists: each list's stamp times its unit size,
    /// summed in wrapping 32-bit arithmetic.
    pub(crate) open spec fn free_units_counted(&self, n: nat) -> u32
        decreases n,
    {
        if n == 0 {
            0
        } else {
            let i = (n - 1) as u32;
            let st: u32 = if (i as int) < self.stamps@.len() { self.stamps@[i as int] } else { 0 };
            self.free_units_counted((n - 1) as nat).wrapping_add(st.wrapping_mul(self.spec_i2u(i)))
        }
    }

    /// The bytes in use: the arena less the gap between the unit pointers, the text
    /// area's free room and twelve bytes per free unit, in wrapping 32-bit arithmetic.
    /// The bytes of the arena in use: its size less the gap between the unit areas,
    /// the gap between the text and the units, and the free blocks' units.
    pub(crate) open spec fn used_memory(&self) -> u32 {
        self.size.wrapping_sub(self.hi_unit.wrapping_sub(self.lo_unit)).wrapping_sub(
            self.units_start.wrapping_sub(self.text),
        ).wrapping_sub(self.free_units_counted(NUM_INDEXES as nat).wrapping_mul(12))
    }

    pub(crate) fn get_used_memory(&self) -> (r: u32)
        ensures
            r == self.used_memory(),
            r == self.size.wrapping_sub(self.hi_unit.wrapping_sub(self.lo_unit)).wrapping_sub(
                self.units_start.wrapping_sub(self.text),
            ).wrapping_sub(self.free_units_counted(NUM_INDEXES as nat).wrapping_mul(12)),
    {
        let mut v: u32 = 0;
        let mut i: u32 = 0;
        while i < NUM_INDEXES
            invariant
                i <= NUM_INDEXES,
                v == self.free_units_counted(i as nat),
            decreases NUM_INDEXES - i,
        {
            let st: u32 = if (i as usize) < self.stamps.len() { self.stamps[i as usize] } else { 0 };
            v = v.wrapping_add(st.wrapping_mul(self.i2u(i)));
            i = i + 1;
        }
        self.size.wrapping_sub(self.hi_unit.wrapping_sub(self.lo_unit)).wrapping_sub(
            self.units_start.wrapping_sub(self.text),
        ).wrapping_sub(v.wrapping_mul(12))
    }

    /// Recovers once the model's memory has run out: undoes the partial update of the
    /// contexts from `max_context` down to `ctx_error`, then restarts the model or cuts
    /// it down, as `restore_method` and the memory in use say.
    pub(crate) fn restore_model(&mut self, ctx_error: u32)
        ensures
            final(self).keeps_layout(old(self)),
            final(self).min_context == final(self).max_context,
            final(self).glue_count == 0,
            final(self).order_fall == old(self).max_order,
            old(self).restore_method == RestoreMethod::Restart ==> final(self).restarted(old(self))
                && (old(self).arena_fits() ==> fresh_root(
                final(self).memory@,
                final(self).min_context,
                final(self).units_start,
            )),
            old(self).run_length == old(self).init_rl ==> final(self).run_length == final(self).init_rl,
    {
        self.text = self.align_offset;
        let mut c: u32 = self.max_context;
        let mut fuel: u64 = self.fuel();
        while c != ctx_error && fuel > 0
            invariant
                self.keeps_layout(old(self)),
                self.coding_kept(old(self)),
            decreases fuel,
        {
            fuel = fuel - 1;
            let ns: u32 = (self.ctx_ns(c) as u8).wrapping_sub(1) as u32;
            self.set_ctx_ns(c, ns);
            if ns == 0 {
                let s: u32 = self.ctx_stats(c);
                let fl: u32 = (self.ctx_flags(c) & 0x10u32).wrapping_add(
                    (self.st_sym(s).wrapping_add(0xC0) >> 5u32) & 8u32,
                );
                self.set_ctx_flags(c, fl);
                let sym: u32 = self.st_sym(s);
                let freq: u32 = (self.st_freq(s) + 11) >> 3u32;
                let succ: u32 = self.st_succ(s);
                let one: u32 = Self::one_state(c);
                self.set_st_sym(one, sym);
                self.set_st_freq(one, freq);
                self.set_st_succ(one, succ);
                self.special_free_unit(s);
            } else {
                self.refresh(c, (ns + 3) >> 1u32, 0);
            }
            c = self.ctx_suffix(c);
        }
        let mut fuel: u64 = self.fuel();
        while c != self.min_context && fuel > 0
            invariant
                self.keeps_layout(old(self)),
                self.coding_kept(old(self)),
            decreases fuel,
        {
            fuel = fuel - 1;
            let ns: u32 = self.ctx_ns(c);
            if ns == 0 {
                let one: u32 = Self::one_state(c);
                let f: u32 = (self.st_freq(one) + 1) >> 1u32;
                self.set_st_freq(one, f);
            } else {
                let summ: u32 = (self.ctx_summ(c) as u16).wrapping_add(4) as u32;
                self.set_ctx_summ(c, summ);
                if summ > 128 + 4 * ns {
                    self.refresh(c, (ns + 2) >> 1u32, 1);
                }
            }
            c = self.ctx_suffix(c);
        }
        self.restart_or_cut_down();
    }

    /// The end of a recovery: restarts the model where `restore_method` is `Restart`
    /// or less than half the arena is in use; otherwise cuts it down (`cut_off` from
    /// the root, then `expand_text_area`) until at most three quarters are in use,
    /// keeping its estimation cells, binary probabilities and run length.
    pub(crate) fn restart_or_cut_down(&mut self)
        ensures
            final(self).keeps_layout(old(self)),
            final(self).min_context == final(self).max_context,
            final(self).glue_count == 0,
            final(self).order_fall == old(self).max_order,
            old(self).restore_method == RestoreMethod::Restart || old(self).used_memory() < old(self).size
                / 2 ==> final(self).restarted(old(self)) && (old(self).arena_fits() ==> fresh_root(
                final(self).memory@,
                final(self).min_context,
                final(self).units_start,
            )),
            old(self).restore_method != RestoreMethod::Restart && old(self).used_memory() >= old(self).size
                / 2 ==> final(self).coding_kept(old(self)),
            old(self).run_length == old(self).init_rl ==> final(self).run_length == final(self).init_rl,
    {
        let sz: u32 = self.size;
        assert(sz >> 1u32 == sz / 2) by (bit_vector);
        if self.restore_method == RestoreMethod::Restart || self.get_used_memory() < (self.size
            >> 1u32) {
            self.restart_model();
            assert(self.restarted(old(self)));
        } else {
            let mut fuel: u64 = self.fuel();
            while self.ctx_suffix(self.max_context) != 0 && fuel > 0
                invariant
                    self.keeps_layout(old(self)),
                    self.coding_kept(old(self)),
                decreases fuel,
            {
                fuel = fuel - 1;
                self.max_context = self.ctx_suffix(self.max_context);
            }
            let mut fuel: u64 = self.fuel();
            while fuel > 0
                invariant
                    self.keeps_layout(old(self)),
                    self.coding_kept(old(self)),
                decreases fuel,
            {
                fuel = fuel - 1;
                let mc: u32 = self.max_context;
                let mo: u32 = self.max_order;
                self.cut_off(mc, 0, mo);
                self.expand_text_area();
                if !(self.get_used_memory() > 3u32.wrapping_mul(self.size >> 2u32)) {
                    break;
                }
            }
            self.glue_count = 0;
            self.order_fall = self.max_order;
        }
        self.min_context = self.max_context;
    }

}

impl Ppmd8 {
    // ---------------------------------------------------------------- successors

    /// Creates the chain of order-1-higher contexts for the found symbol along the
    /// suffix chain of `c0`; gives the new context, or 0 when memory ran out.
    pub(crate) fn create_successors(&mut self, skip: bool, s1_0: u32, c0: u32) -> (r: u32)
        ensures
            final(self).coding_kept(old(self)),
            final(self).keeps_layout(old(self)),
            ({
                let mem = old(self).memory@;
                let succ = rd32_spec(mem, s1_0.wrapping_add(2));
                skip && s1_0 != 0 && rd32_spec(mem, c0.wrapping_add(8)) != 0 && succ != rd32_spec(
                    mem,
                    old(self).found_state.wrapping_add(2),
                ) ==> r == succ && *final(self) == *old(self)
            }),
    {
        let ghost early: bool = {
            let mem = old(self).memory@;
            skip && s1_0 != 0 && rd32_spec(mem, c0.wrapping_add(8)) != 0 && rd32_spec(
                mem,
                s1_0.wrapping_add(2),
            ) != rd32_spec(mem, old(self).found_state.wrapping_add(2))
        };
        let mut s1: u32 = s1_0;
        let mut c: u32 = c0;
        let mut up_branch: u32 = self.st_succ(self.found_state);
        let mut ps: Vec<u32> = Vec::new();
        if !skip {
            ps.push(self.found_state);
        }
        let mut fuel: u64 = self.fuel();
        let ghost mut first: bool = true;
        while self.ctx_suffix(c) != 0 && fuel > 0
            invariant_except_break
                first ==> *self == *old(self) && c == c0 && s1 == s1_0 && fuel > 0 && (skip ==> ps@.len()
                    == 0) && up_branch == rd32_spec(old(self).memory@, old(self).found_state.wrapping_add(2)),
            invariant
                self.coding_kept(old(self)),
                self.keeps_layout(old(self)),
                early ==> first,
                early == {
                    let mem = old(self).memory@;
                    skip && s1_0 != 0 && rd32_spec(mem, c0.wrapping_add(8)) != 0 && rd32_spec(
                        mem,
                        s1_0.wrapping_add(2),
                    ) != rd32_spec(mem, old(self).found_state.wrapping_add(2))
                },
            ensures
                self.keeps_layout(old(self)),
                !early,
            decreases fuel,
        {
            fuel = fuel - 1;
            let mut s: u32;
            c = self.ctx_suffix(c);
            if s1 != 0 {
                s = s1;
                s1 = 0;
            } else if self.ctx_ns(c) != 0 {
                let sym: u32 = self.st_sym(self.found_state);
                s = self.ctx_stats(c);
                let mut f2: u32 = 256;
                while self.st_sym(s) != sym && f2 > 0
                    invariant
                        self.coding_kept(old(self)),
                        self.keeps_layout(old(self)),
                    decreases f2,
                {
                    f2 = f2 - 1;
                    s = Self::st_next(s, 1);
                }
                if self.st_freq(s) < MAX_FREQ - 9 {
                    let f: u32 = self.st_freq(s) + 1;
                    self.set_st_freq(s, f);
                    let sf: u32 = (self.ctx_summ(c) as u16).wrapping_add(1) as u32;
                    self.set_ctx_summ(c, sf);
                }
            } else {
                s = Self::one_state(c);
                let suffix: u32 = self.ctx_suffix(c);
                let bump: u32 = if self.ctx_ns(suffix) == 0 && self.st_freq(s) < 24 { 1 } else { 0 };
                let f: u32 = self.st_freq(s) + bump;
                self.set_st_freq(s, f);
            }
            let successor: u32 = self.st_succ(s);
            if successor != up_branch {
                c = successor;
                if ps.len() == 0 {
                    return c;
                }
                break;
            } else {
                ps.push(s);
            }
            proof {
                first = false;
            }
        }
        let new_sym: u32 = self.mem8(up_branch) as u32;
        up_branch = up_branch.wrapping_add(1);
        let flags: u32 = ((self.st_sym(self.found_state).wrapping_add(0xC0) >> 4u32) & 0x10u32).wrapping_add(
            (new_sym.wrapping_add(0xC0) >> 5u32) & 0x08u32,
        );
        let new_freq: u32 = if self.ctx_ns(c) == 0 {
            self.st_freq(Self::one_state(c))
        } else {
            let mut s: u32 = self.ctx_stats(c);
            let mut f2: u32 = 256;
            while self.st_sym(s) != new_sym && f2 > 0
                invariant
                    self.coding_kept(old(self)),
                    self.keeps_layout(old(self)),
                decreases f2,
            {
                f2 = f2 - 1;
                s = Self::st_next(s, 1);
            }
            let cf: u32 = self.st_freq(s).wrapping_sub(1);
            let s0: u32 = self.ctx_summ(c).wrapping_sub(self.ctx_ns(c)).wrapping_sub(cf);
            let add: u32 = if 2u32.wrapping_mul(cf) <= s0 {
                if 5u32.wrapping_mul(cf) > s0 { 1 } else { 0 }
            } else {
                udiv(cf.wrapping_add(2u32.wrapping_mul(s0)).wrapping_sub(3), s0)
            };
            1u32.wrapping_add(add) & 0xFF
        };
        let mut fuel: u64 = self.fuel();
        while fuel > 0
            invariant
                self.coding_kept(old(self)),
                self.keeps_layout(old(self)),
                !early,
                early == {
                    let mem = old(self).memory@;
                    skip && s1_0 != 0 && rd32_spec(mem, c0.wrapping_add(8)) != 0 && rd32_spec(
                        mem,
                        s1_0.wrapping_add(2),
                    ) != rd32_spec(mem, old(self).found_state.wrapping_add(2))
                },
            decreases fuel,
        {
            fuel = fuel - 1;
            let c1: u32;
            if self.hi_unit != self.lo_unit {
                self.hi_unit = self.hi_unit.wrapping_sub(UNIT_SIZE);
                c1 = self.hi_unit;
            } else if self.fl(0) != 0 {
                c1 = self.remove_node(0);
            } else {
                c1 = self.alloc_units_rare(0);
                if c1 == 0 {
                    return 0;
                }
            }
            self.set_ctx_flags(c1, flags);
            self.set_ctx_ns(c1, 0);
            let one: u32 = Self::one_state(c1);
            self.set_st_sym(one, new_sym);
            self.set_st_freq(one, new_freq);
            self.set_st_succ(one, up_branch);
            self.set_ctx_suffix(c1, c);
            match ps.pop() {
                Some(p) => {
                    self.set_st_succ(p, c1);
                },
                None => {},
            }
            c = c1;
            if ps.len() == 0 {
                break;
            }
        }
        c
    }

    /// Links the found symbol's states along the suffix chain of `c0` to the text,
    /// raising their frequencies; gives the context to continue from, or 0.
    pub(crate) fn reduce_order(&mut self, s1_0: u32, c0: u32) -> (r: u32)
        ensures
            final(self).coding_kept(old(self)),
            final(self).keeps_layout(old(self)),
            ({
                let m1 = wr32_spec(old(self).memory@, old(self).found_state.wrapping_add(2), old(self).text);
                s1_0 == 0 && rd32_spec(m1, c0.wrapping_add(8)) == 0 ==> r == c0 && final(self).memory@
                    == m1 && *final(self) == (Ppmd8 {
                    memory: final(self).memory,
                    order_fall: old(self).order_fall.wrapping_add(1),
                    ..*old(self)
                })
            }),
    {
        let mut s1: u32 = s1_0;
        let mut c: u32 = c0;
        let mut s: u32 = 0;
        let c1: u32 = c;
        let up_branch: u32 = self.text;
        let fs: u32 = self.found_state;
        self.set_st_succ(fs, up_branch);
        self.order_fall = self.order_fall.wrapping_add(1);
        let ghost after_link = *self;
        assert(after_link.memory@ == wr32_spec(
            old(self).memory@,
            old(self).found_state.wrapping_add(2),
            old(self).text,
        ));
        assert(after_link == (Ppmd8 {
            memory: after_link.memory,
            order_fall: old(self).order_fall.wrapping_add(1),
            ..*old(self)
        }));
        let mut fuel: u64 = self.fuel();
        let ghost fuel0 = fuel;
        while fuel > 0
            invariant
                self.coding_kept(old(self)),
                self.keeps_layout(old(self)),
                fuel <= fuel0,
                fuel0 > 0,
                after_link.memory@ == wr32_spec(
                    old(self).memory@,
                    old(self).found_state.wrapping_add(2),
                    old(self).text,
                ),
                after_link == (Ppmd8 {
                    memory: after_link.memory,
                    order_fall: old(self).order_fall.wrapping_add(1),
                    ..*old(self)
                }),
                fuel == fuel0 ==> s1 == s1_0 && c == c0 && *self == after_link,
                fuel < fuel0 ==> !(s1_0 == 0 && rd32_spec(after_link.memory@, c0.wrapping_add(8)) == 0),
            ensures
                self.keeps_layout(old(self)),
                !(s1_0 == 0 && rd32_spec(after_link.memory@, c0.wrapping_add(8)) == 0),
            decreases fuel,
        {
            fuel = fuel - 1;
            if s1 != 0 {
                c = self.ctx_suffix(c);
                s = s1;
                s1 = 0;
            } else {
                if self.ctx_suffix(c) == 0 {
                    return c;
                }
                c = self.ctx_suffix(c);
                if self.ctx_ns(c) != 0 {
                    let sym: u32 = self.st_sym(self.found_state);
                    s = self.ctx_stats(c);
                    let mut f2: u32 = 256;
                    while self.st_sym(s) != sym && f2 > 0
                        invariant
                            self.coding_kept(old(self)),
                            self.keeps_layout(old(self)),
                        decreases f2,
                    {
                        f2 = f2 - 1;
                        s = Self::st_next(s, 1);
                    }
                    if self.st_freq(s) < MAX_FREQ - 9 {
                        let f: u32 = self.st_freq(s) + 2;
                        self.set_st_freq(s, f);
                        let sf: u32 = (self.ctx_summ(c) as u16).wrapping_add(2) as u32;
                        self.set_ctx_summ(c, sf);
                    }
                } else {
                    s = Self::one_state(c);
                    let f: u32 = self.st_freq(s) + (if self.st_freq(s) < 32 { 1u32 } else { 0u32 });
                    self.set_st_freq(s, f);
                }
            }
            if self.st_succ(s) != 0 {
                break;
            }
            self.set_st_succ(s, up_branch);
            self.order_fall = self.order_fall.wrapping_add(1);
        }
        if self.st_succ(s) <= up_branch {
            let s2: u32 = self.found_state;
            self.found_state = s;
            let successor: u32 = self.create_successors(false, 0, c);
            self.set_st_succ(s, successor);
            self.found_state = s2;
        }
        let successor: u32 = self.st_succ(s);
        if self.order_fall == 1 && c1 == self.max_context {
            let fs: u32 = self.found_state;
            self.set_st_succ(fs, successor);
            self.text = self.text.wrapping_sub(1);
        }
        successor
    }

    /// Adds the found symbol to the contexts from `max_context` down to
    /// `min_context`, writes it to the text, and moves to its successor context;
    /// restores the model when memory runs out.
    pub(crate) fn update_model(&mut self)
        ensures
            final(self).keeps_layout(old(self)),
            final(self).min_context == final(self).max_context,
            !(old(self).order_fall == 0 && rd32_spec(old(self).memory@, old(self).found_state.wrapping_add(2))
                != 0) && old(self).text.wrapping_add(1) >= old(self).units_start ==> {
                &&& final(self).glue_count == 0
                &&& final(self).order_fall == old(self).max_order
                &&& old(self).restore_method == RestoreMethod::Restart ==> final(self).restarted(old(self))
            },
            old(self).run_length == old(self).init_rl ==> final(self).run_length == final(self).init_rl,
    {
        let fs0: u32 = self.found_state;
        let mut min_successor: u32 = self.st_succ(fs0);
        let f_freq: u32 = self.st_freq(fs0);
        let f_symbol: u32 = self.st_sym(fs0);
        let mut s: u32 = 0;
        let mut c: u32;
        if self.st_freq(fs0) < MAX_FREQ / 4 && self.ctx_suffix(self.min_context) != 0 {
            c = self.ctx_suffix(self.min_context);
            if self.ctx_ns(c) == 0 {
                s = Self::one_state(c);
                if self.st_freq(s) < 32 {
                    let f: u32 = self.st_freq(s) + 1;
                    self.set_st_freq(s, f);
                }
            } else {
                let sym: u32 = self.st_sym(fs0);
                s = self.ctx_stats(c);
                if self.st_sym(s) != sym {
                    let mut f2: u32 = 256;
                    while f2 > 0
                        invariant
                            self.coding_kept(old(self)),
                            self.keeps_layout(old(self)),
                        decreases f2,
                    {
                        f2 = f2 - 1;
                        s = Self::st_next(s, 1);
                        if self.st_sym(s) == sym {
                            break;
                        }
                    }
                    if self.st_freq(s) >= self.st_freq(Self::st_prev(s)) {
                        self.swap_states(s, Self::st_prev(s));
                        s = Self::st_prev(s);
                    }
                }
                if self.st_freq(s) < MAX_FREQ - 9 {
                    let f: u32 = self.st_freq(s) + 2;
                    self.set_st_freq(s, f);
                    let sf: u32 = (self.ctx_summ(c) as u16).wrapping_add(2) as u32;
                    self.set_ctx_summ(c, sf);
                }
            }
        }
        c = self.max_context;
        if self.order_fall == 0 && min_successor != 0 {
            let mc: u32 = self.min_context;
            let cs: u32 = self.create_successors(true, s, mc);
            if cs == 0 {
                let fs: u32 = self.found_state;
                self.set_st_succ(fs, 0);
                self.restore_model(c);
                return;
            }
            let fs: u32 = self.found_state;
            self.set_st_succ(fs, cs);
            self.max_context = cs;
            self.min_context = cs;
            return;
        }
        let text: u32 = self.text;
        let sym: u32 = self.st_sym(self.found_state);
        self.set_mem8(text, sym as u8);
        let text: u32 = text.wrapping_add(1);
        self.text = text;
        if text >= self.units_start {
            self.restore_model(c);
            return;
        }
        let mut max_successor: u32 = text;
        if min_successor == 0 {
            let mc: u32 = self.min_context;
            let cs: u32 = self.reduce_order(s, mc);
            if cs == 0 {
                self.restore_model(c);
                return;
            }
            min_successor = cs;
        } else if min_successor < self.units_start {
            let mc: u32 = self.min_context;
            let cs: u32 = self.create_successors(false, s, mc);
            if cs == 0 {
                self.restore_model(c);
                return;
            }
            min_successor = cs;
        }
        self.order_fall = self.order_fall.wrapping_sub(1);
        if self.order_fall == 0 {
            max_successor = min_successor;
            if self.max_context != self.min_context {
                self.text = self.text.wrapping_sub(1);
            }
        }
        let flag: u32 = (f_symbol.wrapping_add(0xC0) >> 5u32) & 8u32;
        let ns: u32 = self.ctx_ns(self.min_context);
        let s0: u32 = self.ctx_summ(self.min_context).wrapping_sub(ns).wrapping_sub(f_freq);
        let mut fuel: u64 = self.fuel();
        while c != self.min_context && fuel > 0
            invariant
                self.coding_kept(old(self)),
                self.keeps_layout(old(self)),
            decreases fuel,
        {
            fuel = fuel - 1;
            let mut sum: u32;
            let ns1: u32 = self.ctx_ns(c);
            if ns1 != 0 {
                if ns1 & 1 != 0 {
                    let old_nu: u32 = (ns1 + 1) / 2;
                    let i: u32 = self.u2i(old_nu);
                    if i != self.u2i(old_nu + 1) {
                        let ptr: u32 = self.alloc_units(i + 1);
                        if ptr == 0 {
                            self.restore_model(c);
                            return;
                        }
                        let old_ptr: u32 = self.ctx_stats(c);
                        self.copy_units(ptr, old_ptr, old_nu);
                        self.insert_node(old_ptr, i);
                        self.set_ctx_stats(c, ptr);
                    }
                }
                sum = self.ctx_summ(c);
                if 3 * ns1 + 1 < ns {
                    sum = sum + 1;
                }
            } else {
                let st: u32 = self.alloc_units(0);
                if st == 0 {
                    self.restore_model(c);
                    return;
                }
                let one: u32 = Self::one_state(c);
                let mut freq: u32 = self.st_freq(one);
                let osym: u32 = self.st_sym(one);
                let osucc: u32 = self.st_succ(one);
                self.set_st_sym(st, osym);
                self.set_st_succ(st, osucc);
                self.set_ctx_stats(c, st);
                if freq < MAX_FREQ / 4 - 1 {
                    freq = freq << 1u32;
                } else {
                    freq = MAX_FREQ - 4;
                }
                self.set_st_freq(st, freq);
                sum = freq.wrapping_add(self.init_esc).wrapping_add(if ns > 2 { 1u32 } else { 0u32 });
            }
            let st: u32 = Self::st_next(self.ctx_stats(c), ns1 + 1);
            let mut cf: u32 = 2u32.wrapping_mul(sum.wrapping_add(6)).wrapping_mul(f_freq);
            let sf: u32 = s0.wrapping_add(sum);
            self.set_st_sym(st, f_symbol);
            self.set_ctx_ns(c, ns1 + 1);
            self.set_st_succ(st, max_successor);
            let fl: u32 = self.ctx_flags(c) | flag;
            self.set_ctx_flags(c, fl);
            if cf < 6u32.wrapping_mul(sf) {
                cf = 1u32 + (if cf > sf { 1u32 } else { 0u32 }) + (if cf >= 4u32.wrapping_mul(sf) {
                    1u32
                } else {
                    0u32
                });
                sum = sum.wrapping_add(4);
            } else {
                cf = 4u32 + (if cf > 9u32.wrapping_mul(sf) { 1u32 } else { 0u32 }) + (if cf
                    > 12u32.wrapping_mul(sf) {
                    1u32
                } else {
                    0u32
                }) + (if cf > 15u32.wrapping_mul(sf) { 1u32 } else { 0u32 });
                sum = sum.wrapping_add(cf);
            }
            self.set_ctx_summ(c, sum);
            self.set_st_freq(st, cf);
            c = self.ctx_suffix(c);
        }
        self.min_context = min_successor;
        self.max_context = min_successor;
    }

    /// The position of the found state among the statistics of `min_context`.
    pub(crate) open spec fn found_index(&self) -> int {
        let stats = rd32_spec(self.memory@, self.min_context.wrapping_add(4));
        (self.found_state - stats) / 6
    }

    /// What `rescale` adds to each frequency before halving it: 1 below the full
    /// order, else 0.
    pub(crate) open spec fn rescale_adder(&self) -> int {
        if self.order_fall != 0 {
            1
        } else {
            0
        }
    }

    /// Whether `rescale` finds `min_context` with several states whose statistics lie
    /// inside the arena and apart from the context, the found state among them, and
    /// no frequency that halves to 0.
    pub(crate) open spec fn rescale_keeps_states(&self) -> bool {
        let mem = self.memory@;
        let mc = self.min_context;
        let stats = rd32_spec(mem, mc.wrapping_add(4));
        let n = byte_at(mem, mc as int) as int + 1;
        let k = self.found_index();
        &&& n >= 2
        &&& mc as int + 12 <= mem.len()
        &&& mc as int + 12 <= u32::MAX
        &&& stats as int + 6 * n <= mem.len()
        &&& stats as int + 6 * n + 6 <= u32::MAX
        &&& (mc as int + 12 <= stats || stats + 6 * n <= mc)
        &&& stats <= self.found_state
        &&& (self.found_state - stats) % 6 == 0
        &&& 0 <= k < n
        &&& forall|t: int| 0 <= t < n && t != k ==> #[trigger] state_freq(mem, stats, t) + self.rescale_adder() >= 2
    }

    /// The sum of the frequencies of the states of `min_context`.
    pub(crate) open spec fn context_freq_sum(&self) -> int {
        let mem = self.memory@;
        let stats = rd32_spec(mem, self.min_context.wrapping_add(4));
        index_sum(freq_weight(mem, stats), (byte_at(mem, self.min_context as int) as int + 1) as nat)
    }

    /// The sum of the frequencies of the states of `min_context` as `rescale` halves
    /// them (`halved_weight`).
    pub(crate) open spec fn halved_freq_sum(&self) -> int {
        let mem = self.memory@;
        let stats = rd32_spec(mem, self.min_context.wrapping_add(4));
        index_sum(
            halved_weight(mem, stats, self.found_index(), self.rescale_adder()),
            (byte_at(mem, self.min_context as int) as int + 1) as nat,
        )
    }

    /// Halves the frequencies of `min_context` (keeping them sorted, most frequent
    /// first) and drops the states whose frequency falls to 0. Where none falls to 0
    /// (`rescale_keeps_states`), the context keeps its state count and statistics, and
    /// its frequency sum becomes the sum of the halved frequencies (`halved_freq_sum`)
    /// plus the escape count `e` (the old sum less the old frequencies) less `e / 2`.
    pub(crate) fn rescale(&mut self)
        ensures
            final(self).keeps_layout(old(self)),
            *final(self) == (Ppmd8 {
                found_state: final(self).found_state,
                free_list: final(self).free_list,
                stamps: final(self).stamps,
                memory: final(self).memory,
                ..*old(self)
            }),
            final(self).found_state == old(self).min_context.wrapping_add(2) || final(self).found_state
                == rd32_spec(final(self).memory@, old(self).min_context.wrapping_add(4)),
            (old(self).min_context.wrapping_add(1) as int) < old(self).memory@.len()
                && final(self).found_state != old(self).min_context.wrapping_add(2) ==> byte_at(
                final(self).memory@,
                old(self).min_context.wrapping_add(1) as int,
            ) & 4 == 4,
            old(self).rescale_keeps_states() ==> ({
                let mem0 = old(self).memory@;
                let mc = old(self).min_context;
                let e = (rd16_spec(mem0, mc.wrapping_add(2)) as u32).wrapping_sub(
                    old(self).context_freq_sum() as u32,
                );
                &&& byte_at(final(self).memory@, mc as int) == byte_at(mem0, mc as int)
                &&& rd32_spec(final(self).memory@, mc.wrapping_add(4)) == rd32_spec(mem0, mc.wrapping_add(4))
                &&& rd16_spec(final(self).memory@, mc.wrapping_add(2)) == ((old(self).halved_freq_sum() as u32).wrapping_add(
                    e,
                ).wrapping_sub(e / 2)) as u16
            }),
    {
        let ghost plain: bool = old(self).rescale_keeps_states();
        let ghost mem0: Seq<u8> = old(self).memory@;
        let ghost k: int = old(self).found_index();
        let ghost n: int = byte_at(mem0, old(self).min_context as int) as int + 1;
        let ghost adder_g: int = old(self).rescale_adder();
        let ghost fw: spec_fn(int) -> int = freq_weight(mem0, rd32_spec(mem0, old(self).min_context.wrapping_add(4)));
        let ghost hw: spec_fn(int) -> int = halved_weight(
            mem0,
            rd32_spec(mem0, old(self).min_context.wrapping_add(4)),
            k,
            adder_g,
        );
        let ghost summ0: u32 = rd16_spec(mem0, old(self).min_context.wrapping_add(2)) as u32;
        let mc: u32 = self.min_context;
        let stats: u32 = self.ctx_stats(mc);
        let mut s: u32 = self.found_state;
        if s != stats {
            let sym: u32 = self.st_sym(s);
            let freq: u32 = self.st_freq(s);
            let succ: u32 = self.st_succ(s);
            let ghost mut j: int = k;
            proof {
                if plain {
                    assert(s == stats + 6 * k);
                    assert(freq == state_freq(mem0, stats, k));
                }
            }
            let mut fuel: u32 = 256;
            while fuel > 0
                invariant_except_break
                    plain ==> 1 <= j,
                invariant
                    plain == old(self).rescale_keeps_states() && mem0 == old(self).memory@ && mc == old(
                        self,
                    ).min_context && stats == rd32_spec(mem0, mc.wrapping_add(4)) && k == old(self).found_index()
                        && n == byte_at(mem0, mc as int) as int + 1 && adder_g == old(self).rescale_adder() && fw
                        == freq_weight(mem0, stats) && hw == halved_weight(mem0, stats, k, adder_g) && summ0
                        == rd16_spec(mem0, mc.wrapping_add(2)) as u32,
                    self.keeps_layout(old(self)),
                    self.same_but_lists(old(self)),
                    plain ==> 0 <= j <= k && j <= fuel && s == stats + 6 * j && ctx_same(self.memory@, mem0, mc)
                        && (forall|t: int|
                        0 <= t < n ==> #[trigger] state_freq(self.memory@, stats, t) == (if j < t && t <= k {
                            state_freq(mem0, stats, t - 1)
                        } else {
                            state_freq(mem0, stats, t)
                        })),
                ensures
                    plain ==> j == 0 && s == stats && ctx_same(self.memory@, mem0, mc) && (forall|t: int|
                        0 <= t < n ==> #[trigger] state_freq(self.memory@, stats, t) == (if 0 < t && t <= k {
                            state_freq(mem0, stats, t - 1)
                        } else {
                            state_freq(mem0, stats, t)
                        })),
                decreases fuel,
            {
                fuel = fuel - 1;
                let ghost m1: Seq<u8> = self.memory@;
                self.copy_state(s, Self::st_prev(s));
                proof {
                    if plain {
                        let dst = (stats + 6 * j) as u32;
                        let src = (stats + 6 * (j - 1)) as u32;
                        assert(states_apart(m1, dst, src));
                        lemma_put_state(m1, dst, state_at(m1, src), src);
                        lemma_write_frame(m1, self.memory@, dst as int, dst + 6, stats, n as nat, mc);
                        assert(state_freq(self.memory@, stats, j) == state_freq(m1, stats, j - 1));
                        lemma_ctx_same_trans(self.memory@, m1, mem0, mc);
                        j = j - 1;
                    }
                }
                s = Self::st_prev(s);
                if s == stats {
                    break;
                }
            }
            let ghost m2: Seq<u8> = self.memory@;
            self.set_st_sym(s, sym);
            let ghost m3: Seq<u8> = self.memory@;
            self.set_st_freq(s, freq);
            let ghost m4: Seq<u8> = self.memory@;
            self.set_st_succ(s, succ);
            proof {
                if plain {
                    assert(j == 0);
                    lemma_write_frame(m2, m3, stats as int, stats + 1, stats, n as nat, mc);
                    lemma_write_frame(m3, m4, stats + 1, stats + 2, stats, n as nat, mc);
                    lemma_write_frame(m4, self.memory@, stats + 2, stats + 6, stats, n as nat, mc);
                    assert(state_freq(m4, stats, 0) == freq);
                    assert(state_freq(self.memory@, stats, 0) == freq);
                    lemma_ctx_same_trans(m3, m2, mem0, mc);
                    lemma_ctx_same_trans(m4, m3, mem0, mc);
                    lemma_ctx_same_trans(self.memory@, m4, mem0, mc);
                }
            }
        }
        proof {
            if plain {
                assert forall|t: int| 0 <= t < n implies #[trigger] state_freq(self.memory@, stats, t) == fw(
                    rotated_index(k, t),
                ) by {
                }
            }
        }
        let mut sum_freq: u32 = self.st_freq(s);
        let mut esc_freq: u32 = self.ctx_summ(mc).wrapping_sub(sum_freq);
        let adder: u32 = if self.order_fall != 0 { 1 } else { 0 };
        sum_freq = (sum_freq + 4 + adder) >> 1u32;
        let mut i: u32 = self.ctx_ns(mc);
        let ghost m5: Seq<u8> = self.memory@;
        self.set_st_freq(s, sum_freq);
        let ghost mut p: int = 1;
        proof {
            if plain {
                let x = (state_freq(mem0, stats, k) + 4 + adder) as u32;
                assert(x >> 1u32 == x / 2) by (bit_vector);
                assert(sum_freq == hw(k));
                assert(rotated_sum(hw, k, 1) == hw(k)) by {
                    assert(rotated_sum(hw, k, 0) == 0);
                }
                assert(rotated_sum(fw, k, 1) == fw(k)) by {
                    assert(rotated_sum(fw, k, 0) == 0);
                }
                assert(byte_at(self.memory@, mc + 2) == byte_at(mem0, mc + 2));
                lemma_write_frame(m5, self.memory@, stats + 1, stats + 2, stats, n as nat, mc);
                lemma_ctx_same_trans(self.memory@, m5, mem0, mc);
            }
        }
        let mut fuel: u32 = 256;
        while fuel > 0
            invariant_except_break
                plain ==> 1 <= i,
            invariant
                plain == old(self).rescale_keeps_states() && mem0 == old(self).memory@ && mc == old(
                        self,
                    ).min_context && stats == rd32_spec(mem0, mc.wrapping_add(4)) && k == old(self).found_index()
                        && n == byte_at(mem0, mc as int) as int + 1 && adder_g == old(self).rescale_adder() && fw
                        == freq_weight(mem0, stats) && hw == halved_weight(mem0, stats, k, adder_g) && summ0
                        == rd16_spec(mem0, mc.wrapping_add(2)) as u32,
                self.keeps_layout(old(self)),
                self.same_but_lists(old(self)),
                adder <= 1,
                plain ==> adder == adder_g && 1 <= p <= n && i == n - p && i <= fuel && s == stats + 6 * (p - 1)
                    && sum_freq == rotated_sum(hw, k, p as nat) && esc_freq == summ0.wrapping_sub(
                    rotated_sum(fw, k, p as nat) as u32,
                ) && ctx_same(self.memory@, mem0, mc) && (forall|t: int|
                    p <= t < n ==> #[trigger] state_freq(self.memory@, stats, t) == fw(rotated_index(k, t)))
                    && (forall|t: int| 0 <= t < p ==> #[trigger] state_freq(self.memory@, stats, t) >= 1),
            ensures
                plain ==> p == n && s == stats + 6 * (n - 1) && sum_freq == rotated_sum(hw, k, n as nat)
                    && esc_freq == summ0.wrapping_sub(rotated_sum(fw, k, n as nat) as u32) && ctx_same(
                    self.memory@,
                    mem0,
                    mc,
                ) && (forall|t: int| 0 <= t < n ==> #[trigger] state_freq(self.memory@, stats, t) >= 1),
            decreases fuel,
        {
            fuel = fuel - 1;
            s = Self::st_next(s, 1);
            let mut freq: u32 = self.st_freq(s);
            let ghost e_old: u32 = esc_freq;
            esc_freq = esc_freq.wrapping_sub(freq);
            freq = (freq + adder) >> 1u32;
            sum_freq = sum_freq.wrapping_add(freq);
            let ghost m6: Seq<u8> = self.memory@;
            self.set_st_freq(s, freq);
            proof {
                if plain {
                    let ri = rotated_index(k, p);
                    assert(ri != k && 0 <= ri < n);
                    assert(state_freq(m6, stats, p) == fw(ri));
                    let x = (fw(ri) + adder) as u32;
                    assert(x >> 1u32 == x / 2) by (bit_vector);
                    assert(freq == hw(ri));
                    assert(freq >= 1);
                    assert(rotated_sum(hw, k, (p + 1) as nat) == rotated_sum(hw, k, p as nat) + hw(ri));
                    assert(rotated_sum(fw, k, (p + 1) as nat) == rotated_sum(fw, k, p as nat) + fw(ri));
                    assert forall|x: int| 0 <= #[trigger] fw(x) <= 255 by {
                        assert(fw(x) == state_freq(mem0, stats, x));
                    }
                    assert forall|x: int| 0 <= #[trigger] hw(x) <= 255 by {
                        assert(hw(x) == (state_freq(mem0, stats, x) + (if x == k { 4int } else { 0int }) + adder_g) / 2);
                    }
                    lemma_rotated_sum_bounds(fw, k, p as nat, 255);
                    lemma_rotated_sum_bounds(hw, k, p as nat, 255);
                    assert(255 * p <= 255 * 256) by (nonlinear_arith)
                        requires
                            p <= 256,
                    ;
                    lemma_wrapping_sub_step(summ0, rotated_sum(fw, k, p as nat) as u32, fw(ri) as u32);
                    lemma_write_frame(m6, self.memory@, stats + 6 * p + 1, stats + 6 * p + 2, stats, n as nat, mc);
                    lemma_ctx_same_trans(self.memory@, m6, mem0, mc);
                    assert(state_freq(self.memory@, stats, p) == freq);
                }
            }
            if freq > self.st_freq(Self::st_prev(s)) {
                let tsym: u32 = self.st_sym(s);
                let tfreq: u32 = self.st_freq(s);
                let tsucc: u32 = self.st_succ(s);
                let mut s1: u32 = s;
                let ghost mut q: int = p;
                let mut fuel2: u32 = 256;
                while fuel2 > 0
                    invariant_except_break
                        plain ==> 1 <= q,
                    invariant
                        plain == old(self).rescale_keeps_states() && mem0 == old(self).memory@ && mc == old(
                        self,
                    ).min_context && stats == rd32_spec(mem0, mc.wrapping_add(4)) && k == old(self).found_index()
                        && n == byte_at(mem0, mc as int) as int + 1 && adder_g == old(self).rescale_adder() && fw
                        == freq_weight(mem0, stats) && hw == halved_weight(mem0, stats, k, adder_g) && summ0
                        == rd16_spec(mem0, mc.wrapping_add(2)) as u32,
                        self.keeps_layout(old(self)),
                        self.same_but_lists(old(self)),
                        plain ==> 1 <= p < n && 0 <= q <= p && q <= fuel2 && s1 == stats + 6 * q && tfreq >= 1 && ctx_same(
                            self.memory@,
                            mem0,
                            mc,
                        ) && (forall|t: int|
                            p < t < n ==> #[trigger] state_freq(self.memory@, stats, t) == fw(rotated_index(k, t)))
                            && (forall|t: int| 0 <= t <= p ==> #[trigger] state_freq(self.memory@, stats, t) >= 1),
                    decreases fuel2,
                {
                    fuel2 = fuel2 - 1;
                    let ghost m7: Seq<u8> = self.memory@;
                    self.copy_state(s1, Self::st_prev(s1));
                    proof {
                        if plain {
                            let dst = (stats + 6 * q) as u32;
                            let src = (stats + 6 * (q - 1)) as u32;
                            assert(states_apart(m7, dst, src));
                            lemma_put_state(m7, dst, state_at(m7, src), src);
                            lemma_write_frame(m7, self.memory@, dst as int, dst + 6, stats, n as nat, mc);
                            assert(state_freq(self.memory@, stats, q) == state_freq(m7, stats, q - 1));
                            lemma_ctx_same_trans(self.memory@, m7, mem0, mc);
                            q = q - 1;
                        }
                    }
                    s1 = Self::st_prev(s1);
                    if !(s1 != stats && freq > self.st_freq(Self::st_prev(s1))) {
                        break;
                    }
                }
                let ghost m8: Seq<u8> = self.memory@;
                self.set_st_sym(s1, tsym);
                let ghost m9: Seq<u8> = self.memory@;
                self.set_st_freq(s1, tfreq);
                let ghost m10: Seq<u8> = self.memory@;
                self.set_st_succ(s1, tsucc);
                proof {
                    if plain {
                        lemma_write_frame(m8, m9, stats + 6 * q, stats + 6 * q + 1, stats, n as nat, mc);
                        lemma_write_frame(m9, m10, stats + 6 * q + 1, stats + 6 * q + 2, stats, n as nat, mc);
                        lemma_write_frame(m10, self.memory@, stats + 6 * q + 2, stats + 6 * q + 6, stats, n as nat, mc);
                        assert(state_freq(m10, stats, q) == tfreq);
                        assert(state_freq(self.memory@, stats, q) == tfreq);
                        lemma_ctx_same_trans(m9, m8, mem0, mc);
                        lemma_ctx_same_trans(m10, m9, mem0, mc);
                        lemma_ctx_same_trans(self.memory@, m10, mem0, mc);
                    }
                }
            }
            i = i.wrapping_sub(1);
            proof {
                p = p + 1;
            }
            if i == 0 {
                break;
            }
        }
        proof {
            if plain {
                assert(p == n);
                assert(state_freq(self.memory@, stats, n - 1) >= 1);
                law_rotated_sum(hw, k, n as nat);
                law_rotated_sum(fw, k, n as nat);
                assert(fw == freq_weight(mem0, stats));
            }
        }
        if self.st_freq(s) == 0 {
            let mut k: u32 = 0;
            let mut fuel: u32 = 256;
            while fuel > 0
                invariant
                    self.keeps_layout(old(self)),
                    self.same_but_lists(old(self)),
                decreases fuel,
            {
                fuel = fuel - 1;
                k = k.wrapping_add(1);
                s = Self::st_prev(s);
                if self.st_freq(s) != 0 {
                    break;
                }
            }
            esc_freq = esc_freq.wrapping_add(k);
            let num_stats: u32 = self.ctx_ns(mc);
            let num_stats_new: u32 = num_stats.wrapping_sub(k);
            self.set_ctx_ns(mc, num_stats_new);
            let n0: u32 = (num_stats + 2) >> 1u32;
            if num_stats_new == 0 {
                let mut freq: u32 = udiv(
                    2u32.wrapping_mul(self.st_freq(stats)).wrapping_add(esc_freq).wrapping_sub(1),
                    esc_freq,
                );
                if freq > MAX_FREQ / 3 {
                    freq = MAX_FREQ / 3;
                }
                let sym: u32 = self.st_sym(stats);
                let fl: u32 = (self.ctx_flags(mc) & 0x10u32).wrapping_add(
                    (sym.wrapping_add(0xC0) >> 5u32) & 8u32,
                );
                self.set_ctx_flags(mc, fl);
                let one: u32 = Self::one_state(mc);
                self.copy_state(one, stats);
                self.set_st_freq(one, freq);
                self.found_state = one;
                let idx: u32 = self.u2i(n0);
                self.insert_node(stats, idx);
                return;
            }
            let n1: u32 = (num_stats_new.wrapping_add(2)) >> 1u32;
            if n0 != n1 {
                let shrunk: u32 = self.shrink_units(stats, n0, n1);
                self.set_ctx_stats(mc, shrunk);
            }
        }
        let summ: u32 = sum_freq.wrapping_add(esc_freq).wrapping_sub(esc_freq >> 1u32);
        let ghost m11: Seq<u8> = self.memory@;
        self.set_ctx_summ(mc, summ);
        let f0: u32 = self.ctx_flags(mc);
        let fl: u32 = f0 | 4u32;
        assert((fl as u8) & 4 == 4) by (bit_vector)
            requires
                fl == f0 | 4u32,
        ;
        self.set_ctx_flags(mc, fl);
        proof {
            if plain {
                let e = esc_freq;
                assert(e >> 1u32 == e / 2) by (bit_vector);
                assert(mc.wrapping_add(2) == mc + 2);
                assert(mc.wrapping_add(1) == mc + 1);
                lemma_rd16_after_writes(m11, (mc + 2) as u32, summ as u16, fl as u8);
                assert(byte_at(self.memory@, mc as int) == byte_at(m11, mc as int));
                assert(byte_at(m11, mc as int) == byte_at(mem0, mc as int));
                assert(byte_at(m11, mc + 4) == byte_at(mem0, mc + 4));
                assert(byte_at(m11, mc + 5) == byte_at(mem0, mc + 5));
                assert(byte_at(m11, mc + 6) == byte_at(mem0, mc + 6));
                assert(byte_at(m11, mc + 7) == byte_at(mem0, mc + 7));
                assert(byte_at(self.memory@, mc + 4) == byte_at(mem0, mc + 4));
                assert(byte_at(self.memory@, mc + 5) == byte_at(mem0, mc + 5));
                assert(byte_at(self.memory@, mc + 6) == byte_at(mem0, mc + 6));
                assert(byte_at(self.memory@, mc + 7) == byte_at(mem0, mc + 7));
                assert(mc.wrapping_add(4).wrapping_add(1) == mc + 5);
                assert(mc.wrapping_add(4).wrapping_add(2) == mc + 6);
                assert(mc.wrapping_add(4).wrapping_add(3) == mc + 7);
            }
        }
        self.found_state = self.ctx_stats(mc);
    }

    // ---------------------------------------------------------------- escapes and updates

    /// Which estimation cell an escape from `min_context` uses once `num_masked`
    /// symbols were masked: none for a context of 256 states; else row
    /// `ns2index[num_stats + 2] - 3` and, as column, 1 if the frequency sum exceeds 11
    /// per state, plus 2 if twice `num_stats` is below the suffix's `num_stats` plus
    /// `num_masked`, plus the context's flags; none where that falls outside the table.
    pub(crate) open spec fn see_slot(&self, num_masked: u32) -> (bool, usize) {
        let mem = self.memory@;
        let mc = self.min_context;
        let ns = byte_at(mem, mc as int) as u32;
        let base = self.spec_ns2index_at((ns + 2) as u32);
        let suffix_ns = byte_at(mem, rd32_spec(mem, mc.wrapping_add(8)) as int) as u32;
        let summ = rd16_spec(mem, mc.wrapping_add(2)) as u32;
        let h1: u32 = if summ > 11 * (ns + 1) { 1 } else { 0 };
        let h2: u32 = if 2 * ns < suffix_ns.wrapping_add(num_masked) { 2 } else { 0 };
        let hash = h1 + h2 + byte_at(mem, mc.wrapping_add(1) as int) as u32;
        if ns != 0xFF && base >= 3 && base - 3 < 24 && hash < 32 {
            (true, ((base - 3) * 32 + hash) as usize)
        } else {
            (false, 0)
        }
    }

    /// Picks the estimation cell for an escape from `min_context` (after `num_masked`
    /// symbols were excluded, `see_slot`), ages it, and gives it with the escape
    /// frequency, never 0; a context without a cell gets the dummy cell and 1.
    pub(crate) fn make_esc_freq(&mut self, num_masked: u32) -> (r: (SeeSource, u32))
        ensures
            final(self).keeps_layout(old(self)),
            r.1 >= 1,
            ({
                let (use_table, idx) = old(self).see_slot(num_masked);
                let src = SeeSource::Table(idx);
                let see = old(self).spec_see_at(src);
                let e = spec_shr(see.summ as u32, see.shift as u32);
                if use_table {
                    &&& r.0 == src
                    &&& r.1 == (if e == 0 { 1 } else { e })
                    &&& final(self).spec_see_at(src) == (See {
                        summ: (see.summ as u32).wrapping_sub(e) as u16,
                        ..see
                    })
                    &&& *final(self) == (Ppmd8 {
                        see: final(self).see,
                        dummy_see: final(self).dummy_see,
                        ..*old(self)
                    })
                } else {
                    r == (SeeSource::Dummy, 1u32) && *final(self) == *old(self)
                }
            }),
    {
        let mc: u32 = self.min_context;
        let num_stats: u32 = self.ctx_ns(mc);
        if num_stats != 0xFF {
            let base: u32 = self.ns2index_at(num_stats + 2);
            let suffix_ns: u32 = self.ctx_ns(self.ctx_suffix(mc));
            let summ_freq: u32 = self.ctx_summ(mc);
            let h1: u32 = if summ_freq > 11 * (num_stats + 1) { 1 } else { 0 };
            let h2: u32 = if 2 * num_stats < suffix_ns.wrapping_add(num_masked) { 2 } else { 0 };
            let hash: u32 = h1 + h2 + self.ctx_flags(mc);
            if base >= 3 && base - 3 < 24 && hash < 32 {
                let src: SeeSource = SeeSource::Table(((base - 3) as usize) * 32 + hash as usize);
                let see: See = self.see_at(src);
                let summ: u32 = see.summ as u32;
                let r: u32 = shr(summ, see.shift as u32);
                self.set_see(src, See { summ: summ.wrapping_sub(r) as u16, ..see });
                (src, if r == 0 { 1 } else { r })
            } else {
                (SeeSource::Dummy, 1)
            }
        } else {
            (SeeSource::Dummy, 1)
        }
    }

    /// Moves to the successor of the found state when the model is at its full order
    /// and that successor is a context; otherwise updates the model.
    pub(crate) fn next_context(&mut self)
        ensures
            final(self).keeps_layout(old(self)),
            final(self).min_context == final(self).max_context,
            ({
                let c = rd32_spec(old(self).memory@, old(self).found_state.wrapping_add(2));
                old(self).order_fall == 0 && c >= old(self).units_start ==> *final(self) == (Ppmd8 {
                    min_context: c,
                    max_context: c,
                    ..*old(self)
                })
            }),
    {
        let c: u32 = self.st_succ(self.found_state);
        if self.order_fall == 0 && c >= self.units_start {
            self.min_context = c;
            self.max_context = c;
        } else {
            self.update_model();
        }
    }

    /// What `update1` leaves, given the model `before` it: where the found state's
    /// frequency, raised by 4, stays at most its predecessor's (or it is swapped in
    /// front of it and stays at most `MAX_FREQ`), and the model is at its full order
    /// with a context as that state's successor, the arena with the raised frequency
    /// and sum (and the swap), and that successor as both current contexts.
    pub closed spec fn after_update1(&self, before: &Self) -> bool {
        let s = before.found_state;
        let mc = before.min_context;
        let freq = byte_at(before.memory@, s.wrapping_add(1) as int) as u32 + 4;
        let summ = (rd16_spec(before.memory@, mc.wrapping_add(2)) as u16).wrapping_add(4);
        let mem1 = wr8_spec(
            wr16_spec(before.memory@, mc.wrapping_add(2), summ),
            s.wrapping_add(1),
            freq as u8,
        );
        let p = s.wrapping_sub(6);
        let kept = freq <= byte_at(mem1, p.wrapping_add(1) as int);
        let mem2 = if kept { mem1 } else { swapped_states(mem1, s, p) };
        let s2 = if kept { s } else { p };
        let c = rd32_spec(mem2, s2.wrapping_add(2));
        (kept || freq <= MAX_FREQ && states_apart(mem1, s, p)) && before.order_fall == 0
            && c >= before.units_start ==> self.memory@ == mem2 && *self == (
        Ppmd8 {
            found_state: s2,
            min_context: c,
            max_context: c,
            memory: self.memory,
            ..*before
        })
    }

    /// The update after coding a symbol that is not the first in its context.
    pub(crate) fn update1(&mut self)
        ensures
            final(self).keeps_layout(old(self)),
            final(self).min_context == final(self).max_context,
            final(self).after_update1(old(self)),
    {
        let mut s: u32 = self.found_state;
        let freq: u32 = self.st_freq(s) + 4;
        let mc: u32 = self.min_context;
        let summ: u32 = (self.ctx_summ(mc) as u16).wrapping_add(4) as u32;
        self.set_ctx_summ(mc, summ);
        self.set_st_freq(s, freq);
        if freq > self.st_freq(Self::st_prev(s)) {
            self.swap_states(s, Self::st_prev(s));
            s = Self::st_prev(s);
            self.found_state = s;
            if freq > MAX_FREQ {
                self.rescale();
            }
        }
        self.next_context();
    }

    /// What `update1_0` leaves, given the model `before` it: where the found state's
    /// frequency, raised by 4, stays at most `MAX_FREQ` and the model is at its full
    /// order with a context as that state's successor, the arena with the raised
    /// frequency and sum, `prev_success` 1 exactly when the state held at least half
    /// the sum (counted into `run_length`), and that successor as both current
    /// contexts.
    pub closed spec fn after_update1_0(&self, before: &Self) -> bool {
        let s = before.found_state;
        let mc = before.min_context;
        let freq = byte_at(before.memory@, s.wrapping_add(1) as int) as u32;
        let summ = rd16_spec(before.memory@, mc.wrapping_add(2)) as u32;
        let ps: u32 = if 2 * freq >= summ { 1 } else { 0 };
        let mem1 = wr8_spec(
            wr16_spec(before.memory@, mc.wrapping_add(2), (summ + 4) as u16),
            s.wrapping_add(1),
            (freq + 4) as u8,
        );
        let c = rd32_spec(mem1, s.wrapping_add(2));
        freq + 4 <= MAX_FREQ && before.order_fall == 0 && c >= before.units_start
            ==> self.memory@ == mem1 && *self == (Ppmd8 {
            prev_success: ps,
            run_length: before.run_length.wrapping_add(ps as i32),
            min_context: c,
            max_context: c,
            memory: self.memory,
            ..*before
        })
    }

    /// Whether `update1_0` from this model takes its shortcut: the found state's
    /// frequency, raised by 4, stays at most `MAX_FREQ`, and the model is at its full
    /// order with a context as that state's successor.
    pub closed spec fn update1_0_shortcut(&self) -> bool {
        let s = self.found_state;
        let mc = self.min_context;
        let freq = byte_at(self.memory@, s.wrapping_add(1) as int) as u32;
        let summ = rd16_spec(self.memory@, mc.wrapping_add(2)) as u32;
        let mem1 = wr8_spec(
            wr16_spec(self.memory@, mc.wrapping_add(2), (summ + 4) as u16),
            s.wrapping_add(1),
            (freq + 4) as u8,
        );
        let c = rd32_spec(mem1, s.wrapping_add(2));
        freq + 4 <= MAX_FREQ && self.order_fall == 0 && c >= self.units_start
    }

    /// The coders update alike after a hit on the first state: where `update1_0`
    /// takes its shortcut from `model`, any two models it may leave (the encoder's
    /// and the decoder's, each coding that state's symbol) agree in every field and
    /// hold the same arena contents.
    pub proof fn law_first_state_update_determined(model: Ppmd8, a: Ppmd8, b: Ppmd8)
        requires
            model.update1_0_shortcut(),
            a.after_update1_0(&model),
            b.after_update1_0(&model),
        ensures
            a.same_but_arena(&b),
            a.arena() == b.arena(),
    {
    }

    /// The update after coding the first (most probable) symbol of a context.
    pub(crate) fn update1_0(&mut self)
        ensures
            final(self).keeps_layout(old(self)),
            final(self).min_context == final(self).max_context,
            final(self).after_update1_0(old(self)),
    {
        let s: u32 = self.found_state;
        let mc: u32 = self.min_context;
        let freq: u32 = self.st_freq(s);
        let summ_freq: u32 = self.ctx_summ(mc);
        self.prev_success = if 2 * freq >= summ_freq { 1 } else { 0 };
        self.run_length = self.run_length.wrapping_add(self.prev_success as i32);
        self.set_ctx_summ(mc, summ_freq + 4);
        let freq: u32 = freq + 4;
        self.set_st_freq(s, freq);
        if freq > MAX_FREQ {
            self.rescale();
        }
        self.next_context();
    }

    /// The update after coding a symbol that was reached through an escape: the run
    /// length starts again from its initial value.
    pub(crate) fn update2(&mut self)
        ensures
            final(self).keeps_layout(old(self)),
            final(self).min_context == final(self).max_context,
            final(self).run_length == final(self).init_rl,
    {
        let s: u32 = self.found_state;
        let freq: u32 = self.st_freq(s) + 4;
        self.run_length = self.init_rl;
        let mc: u32 = self.min_context;
        let summ: u32 = (self.ctx_summ(mc) as u16).wrapping_add(4) as u32;
        self.set_ctx_summ(mc, summ);
        self.set_st_freq(s, freq);
        if freq > MAX_FREQ {
            self.rescale();
        }
        self.update_model();
    }
}

} // verus!
