//! Stratified keyed generator.
//!
//! A `Generator` is seeded with a data key and an upper bound (in ticks,
//! see [`crate::UNIT`]) and yields a deterministic, infinite sequence of
//! fixed-point samples.  Stratum `k` covers the tick interval
//! `[2^(k-1) * UNIT, 2^k * UNIT)` and is served by a dedicated 32-bit
//! PCG sub-generator whose sub-seed depends on the key alone, never on the
//! bound.  That makes sequences of generators with nested bounds share the
//! samples of the common strata, which is what keeps placements stable when
//! the cluster grows or shrinks.
//!
//! The generator algorithm (PCG32 with the standard multiplier and
//! increment, samples taken as the high 24 bits of each 32-bit draw) is part
//! of the external contract: every build must produce identical sequences.
//! The whole pipeline is defined here over integers, so each sample is
//! pinned exactly by the specification functions below.

use vstd::prelude::*;

verus! {

use vstd::arithmetic::power2::{
    pow2,
    lemma_pow2_adds,
    lemma_pow2_pos,
    lemma_pow2_strictly_increases,
    lemma2_to64,
    lemma2_to64_rest,
};
use vstd::bits::lemma_u64_shl_is_mul;
use vstd::wrapping::u64_specs;
use crate::UNIT;

/// Multiplier of the 32-bit PCG linear-congruential state update.
pub const PCG_MULTIPLIER: u64 = 6364136223846793005;

/// Increment of the state update: the standard default increment,
/// shifted left once and made odd, as the 32-bit PCG seeding does.
pub const PCG_INCREMENT: u64 = 2885390081777926815;

/// A sample is accepted for stratum `k >= 1` when its 24-bit mantissa has
/// the top bit set, i.e. when the sample falls in the upper half of
/// `[0, 2^k)` slots.
pub const ACCEPT_MIN: u64 = 0x80_0000;

/// One linear-congruential step of the PCG state.
#[verifier::opaque]
pub open spec fn pcg_step(s: u64) -> u64 {
    u64_specs::wrapping_add(u64_specs::wrapping_mul(s, PCG_MULTIPLIER), PCG_INCREMENT)
}

/// Right rotation of a 32-bit word; meaningful for `r < 32`.
pub open spec fn spec_rotate_right32(x: u32, r: u32) -> u32 {
    if r == 0 {
        x
    } else {
        (x >> r) | (x << ((32 - r) as u32))
    }
}

/// The 32-bit output drawn from a PCG state (xorshift-high, random rotate).
#[verifier::opaque]
pub open spec fn pcg_output(s: u64) -> u32 {
    spec_rotate_right32(((((s >> 18u64) ^ s) >> 27u64) & 0xFFFF_FFFFu64) as u32, (s >> 59u64) as u32)
}

/// The state of a freshly seeded PCG: the seeding routine steps once from
/// zero (bringing the state to the increment), mixes in the seed, and steps
/// again.
pub open spec fn pcg_init(seed: u64) -> u64 {
    pcg_step(u64_specs::wrapping_add(PCG_INCREMENT, seed))
}

/// The state of a PCG seeded with `seed` after `i` draws.
pub open spec fn pcg_state_at(seed: u64, i: nat) -> u64
    decreases i,
{
    if i == 0 {
        pcg_init(seed)
    } else {
        pcg_step(pcg_state_at(seed, (i - 1) as nat))
    }
}

/// Sub-seed of stratum `k`: the `k`-th 32-bit draw of a PCG seeded with the
/// data key.  It depends on the key and the stratum index alone.
pub open spec fn sub_seed(seed: u64, k: nat) -> u64 {
    pcg_output(pcg_state_at(seed, k)) as u64
}

/// The initial states of the `n` stratum sub-generators for a key.
pub open spec fn init_states(seed: u64, n: nat) -> Seq<u64> {
    Seq::new(n, |k: int| pcg_init(sub_seed(seed, k as nat)))
}

/// One sample draw, scanning strata from `k` downward: each tried stratum's
/// sub-generator advances by exactly one draw; the first stratum whose
/// 24-bit mantissa `m` falls in its upper half yields `m * 2^k` ticks, and
/// stratum `0` always yields its mantissa.  Returns the advanced states and
/// the sample.
pub open spec fn scan_step(states: Seq<u64>, k: nat) -> (Seq<u64>, u64)
    decreases k,
{
    let m = (pcg_output(states[k as int]) >> 8u32) as u64;
    let updated = states.update(k as int, pcg_step(states[k as int]));
    if k == 0 {
        (updated, m)
    } else if m >= ACCEPT_MIN {
        (updated, ((m as nat) * pow2(k)) as u64)
    } else {
        scan_step(updated, (k - 1) as nat)
    }
}

/// The states of the `n` sub-generators after `i` full sample draws.
pub open spec fn states_at(seed: u64, n: nat, i: nat) -> Seq<u64>
    decreases i,
{
    if i == 0 {
        init_states(seed, n)
    } else {
        scan_step(states_at(seed, n, (i - 1) as nat), (n - 1) as nat).0
    }
}

/// The `i`-th sample (in ticks) of the generator with `n` strata for a key.
/// This function of `(seed, n, i)` alone is the whole external contract of
/// the generator: every build yields exactly this sequence.
pub open spec fn sample_at(seed: u64, n: nat, i: nat) -> u64 {
    scan_step(states_at(seed, n, i), (n - 1) as nat).1
}

/// Number of strata for an upper bound in ticks: `1` when the bound is at
/// most one slot, else one more than for the bound halved (rounding up);
/// that is, `ceil(log2(bound in slots)) + 1` strata.
pub open spec fn stratum_count(upper: u64) -> nat
    decreases upper,
{
    if upper <= UNIT {
        1
    } else {
        1 + stratum_count(((upper + 1) / 2) as u64)
    }
}

/// Number of strata serving an upper bound of `upper` ticks.
pub fn compute_n(upper: u64) -> (n: usize)
    requires
        upper <= 0x100_0000_0000_0000,
    ensures
        n == stratum_count(upper),
        1 <= n <= 33,
{
    proof {
        lemma2_to64();
        lemma2_to64_rest();
    }
    let mut u = upper;
    let mut n: usize = 1;
    while u > UNIT
        invariant
            1 <= n <= 33,
            u <= 0x100_0000_0000_0000,
            stratum_count(upper) == stratum_count(u) + n - 1,
            u as nat <= pow2((57 - n) as nat),
        decreases u,
    {
        proof {
            lemma2_to64();
            if 57 - n < 24 {
                lemma_pow2_strictly_increases((57 - n) as nat, 24);
            }
            assert(57 - n > 24);
            lemma_pow2_adds(1, (56 - n) as nat);
            assert(pow2((57 - n) as nat) == 2 * pow2((56 - n) as nat));
        }
        u = (u + 1) / 2;
        n += 1;
    }
    n
}

/// Reproducibility: two well-formed generators built from the same key
/// with the same stratum count, having drawn the same number of samples,
/// are in identical states — so (by `next_rand`'s contract, which pins
/// every output to `sample_at`) they produce identical sample sequences of
/// any length.
pub proof fn lemma_generator_reproducible(g1: Generator, g2: Generator)
    requires
        g1.wf(),
        g2.wf(),
        g1.seed@ == g2.seed@,
        g1.strata() == g2.strata(),
        g1.drawn@ == g2.drawn@,
    ensures
        g1.rngs@ == g2.rngs@,
        sample_at(g1.seed@, g1.strata(), g1.drawn@) == sample_at(
            g2.seed@,
            g2.strata(),
            g2.drawn@,
        ),
{
}

/// One scan, started at stratum `k`, keeps every sub-generator state
/// sequence the same length and yields a sample below `2^(24 + k)` ticks.
pub proof fn lemma_scan_bound(states: Seq<u64>, k: nat)
    requires
        k < 33,
        k < states.len(),
    ensures
        scan_step(states, k).0.len() == states.len(),
        scan_step(states, k).1 < pow2((24 + k) as nat),
    decreases k,
{
    lemma2_to64();
    lemma2_to64_rest();
    let o = pcg_output(states[k as int]);
    let m = (o >> 8u32) as u64;
    assert((o >> 8u32) < 0x100_0000u32) by (bit_vector);
    if k == 0 {
    } else if m >= ACCEPT_MIN {
        lemma_pow2_adds(24, k);
        assert((m as nat) * pow2(k) < pow2(24) * pow2(k)) by (nonlinear_arith)
            requires
                (m as nat) < pow2(24),
                pow2(k) > 0,
        ;
        lemma_pow2_pos(k);
        if 24 + k < 56 {
            lemma_pow2_strictly_increases((24 + k) as nat, 56);
        }
    } else {
        lemma_scan_bound(states.update(k as int, pcg_step(states[k as int])), (k - 1) as nat);
        lemma_pow2_strictly_increases((23 + k) as nat, (24 + k) as nat);
    }
}

/// The generator's states keep one entry per stratum across draws.
pub proof fn lemma_states_at_len(seed: u64, n: nat, i: nat)
    requires
        1 <= n <= 33,
    ensures
        states_at(seed, n, i).len() == n,
    decreases i,
{
    if i > 0 {
        lemma_states_at_len(seed, n, (i - 1) as nat);
        lemma_scan_bound(states_at(seed, n, (i - 1) as nat), (n - 1) as nat);
    }
}

/// The stratum count of a bound below `2^(b - 24)` slots is at most
/// `b - 23`.
proof fn lemma_stratum_count_le_rec(upper: u64, b: nat)
    requires
        24 <= b <= 56,
        upper as nat <= pow2(b),
    ensures
        1 <= stratum_count(upper) <= b - 23,
    decreases upper,
{
    lemma2_to64();
    if upper <= UNIT {
    } else {
        if b == 24 {
            assert(false);
        }
        lemma_pow2_adds(1, (b - 1) as nat);
        lemma_stratum_count_le_rec(((upper + 1) / 2) as u64, (b - 1) as nat);
    }
}

/// A bound of at most `2^32` slots is served by at most 33 strata.
pub proof fn lemma_stratum_count_le(upper: u64)
    requires
        upper <= 0x100_0000_0000_0000,
    ensures
        1 <= stratum_count(upper) <= 33,
{
    lemma2_to64();
    lemma2_to64_rest();
    lemma_stratum_count_le_rec(upper, 56);
}

/// The strata cover the bound: `upper` ticks fit below `2^(n - 1)` slots,
/// where `n` is the stratum count.
pub proof fn lemma_stratum_covers(upper: u64)
    ensures
        upper as nat <= pow2((23 + stratum_count(upper)) as nat),
    decreases upper,
{
    lemma2_to64();
    if upper <= UNIT {
    } else {
        let h = ((upper + 1) / 2) as u64;
        lemma_stratum_covers(h);
        lemma_pow2_adds(1, (23 + stratum_count(h)) as nat);
    }
}

/// Stratification: every sample of the generator for bound `upper` lies in
/// `[0, 2^ceil(log2(upper in slots)))` slots when the bound is at least a
/// slot, and in `[0, 1)` slots otherwise — and that range covers `upper`.
pub proof fn lemma_stratification(seed: u64, upper: u64, i: nat)
    requires
        upper <= 0x100_0000_0000_0000,
    ensures
        upper as nat <= pow2((23 + stratum_count(upper)) as nat),
        sample_at(seed, stratum_count(upper), i) < pow2((23 + stratum_count(upper)) as nat),
        upper <= UNIT ==> sample_at(seed, stratum_count(upper), i) < UNIT,
{
    lemma2_to64();
    lemma_stratum_count_le(upper);
    lemma_stratum_covers(upper);
    let n = stratum_count(upper);
    lemma_states_at_len(seed, n, i);
    lemma_scan_bound(states_at(seed, n, i), (n - 1) as nat);
}

/// A scan depends only on the states it reads: two state sequences that
/// agree up to stratum `k` scan to the same sample, agree on the advanced
/// low states, and leave higher states untouched.
proof fn lemma_scan_frame(st_a: Seq<u64>, st_b: Seq<u64>, k: nat)
    requires
        k < st_a.len(),
        k < st_b.len(),
        forall|x: int| 0 <= x <= k ==> st_a[x] == st_b[x],
    ensures
        scan_step(st_a, k).1 == scan_step(st_b, k).1,
        forall|x: int| 0 <= x <= k
            ==> #[trigger] scan_step(st_a, k).0[x] == scan_step(st_b, k).0[x],
        forall|x: int| k < x < st_a.len() ==> #[trigger] scan_step(st_a, k).0[x] == st_a[x],
        forall|x: int| k < x < st_b.len() ==> #[trigger] scan_step(st_b, k).0[x] == st_b[x],
    decreases k,
{
    let m = (pcg_output(st_a[k as int]) >> 8u32) as u64;
    if k == 0 || m >= ACCEPT_MIN {
    } else {
        lemma_scan_frame(
            st_a.update(k as int, pcg_step(st_a[k as int])),
            st_b.update(k as int, pcg_step(st_b[k as int])),
            (k - 1) as nat,
        );
    }
}

/// A scan started at or above stratum `n1 - 1` either accepts in a high
/// stratum — yielding a sample at or above the `n1`-strata range and
/// leaving the low `n1` states untouched — or runs the same scan a
/// generator of `n1` strata with the same low states would run.
proof fn lemma_scan_high(st: Seq<u64>, low: Seq<u64>, k: nat, n1: nat)
    requires
        1 <= n1,
        n1 - 1 <= k < st.len(),
        low.len() == n1,
        k <= 32,
        forall|x: int| 0 <= x < n1 ==> st[x] == low[x],
    ensures
        scan_step(st, k).0.len() == st.len(),
        scan_step(st, k).1 >= pow2((23 + n1) as nat) ==> (forall|x: int| 0 <= x < n1
            ==> #[trigger] scan_step(st, k).0[x] == st[x]),
        scan_step(st, k).1 < pow2((23 + n1) as nat) ==> (scan_step(st, k).1 == scan_step(
            low,
            (n1 - 1) as nat,
        ).1 && (forall|x: int| 0 <= x < n1
            ==> #[trigger] scan_step(st, k).0[x] == scan_step(low, (n1 - 1) as nat).0[x])),
    decreases k,
{
    lemma_scan_bound(st, k);
    let o = pcg_output(st[k as int]);
    let m = (o >> 8u32) as u64;
    assert((o >> 8u32) < 0x100_0000u32) by (bit_vector);
    if k == n1 - 1 {
        lemma_scan_frame(st, low, k);
        lemma_scan_bound(low, (n1 - 1) as nat);
    } else if m >= ACCEPT_MIN {
        lemma2_to64();
        lemma2_to64_rest();
        lemma_pow2_adds(23, k);
        assert((m as nat) * pow2(k) >= pow2(23) * pow2(k)) by (nonlinear_arith)
            requires
                (m as nat) >= pow2(23),
                pow2(k) > 0,
        ;
        lemma_pow2_pos(k);
        if (k as nat) < 32 {
            lemma_pow2_strictly_increases(k as nat, 32);
        }
        assert((m as nat) * pow2(k) <= 0x100_0000 * 0x1_0000_0000) by (nonlinear_arith)
            requires
                m <= 0x100_0000,
                pow2(k) <= 0x1_0000_0000,
        ;
        assert(scan_step(st, k).1 == (m as nat) * pow2(k));
        if 23 + n1 < 23 + k {
            lemma_pow2_strictly_increases((23 + n1) as nat, (23 + k) as nat);
        }
        assert(scan_step(st, k).1 >= pow2((23 + n1) as nat));
    } else {
        let st2 = st.update(k as int, pcg_step(st[k as int]));
        lemma_scan_high(st2, low, (k - 1) as nat, n1);
    }
}

/// Number of samples among the first `j` of the `n2`-strata stream that
/// fall below the `n1`-strata range.
pub open spec fn low_count(seed: u64, n1: nat, n2: nat, j: nat) -> nat
    decreases j,
{
    if j == 0 {
        0
    } else {
        low_count(seed, n1, n2, (j - 1) as nat) + if sample_at(seed, n2, (j - 1) as nat) < pow2(
            (23 + n1) as nat,
        ) {
            1nat
        } else {
            0nat
        }
    }
}

/// The low `n1` sub-generator states of the `n2`-strata generator, after
/// `j` draws, equal those of the `n1`-strata generator after it has drawn
/// the low samples among them.
proof fn lemma_states_correspond(seed: u64, n1: nat, n2: nat, j: nat)
    requires
        1 <= n1 <= n2 <= 33,
    ensures
        forall|x: int| 0 <= x < n1 ==> #[trigger] states_at(seed, n2, j)[x] == states_at(
            seed,
            n1,
            low_count(seed, n1, n2, j),
        )[x],
    decreases j,
{
    if j == 0 {
    } else {
        lemma_states_correspond(seed, n1, n2, (j - 1) as nat);
        let t = low_count(seed, n1, n2, (j - 1) as nat);
        let st2 = states_at(seed, n2, (j - 1) as nat);
        let st1 = states_at(seed, n1, t);
        lemma_states_at_len(seed, n2, (j - 1) as nat);
        lemma_states_at_len(seed, n1, t);
        lemma_scan_high(st2, st1, (n2 - 1) as nat, n1);
        if sample_at(seed, n2, (j - 1) as nat) < pow2((23 + n1) as nat) {
            assert(low_count(seed, n1, n2, j) == t + 1);
            assert(states_at(seed, n1, t + 1) == scan_step(st1, (n1 - 1) as nat).0);
        } else {
            assert(low_count(seed, n1, n2, j) == t);
        }
    }
}

/// Prefix sharing: whenever a sample of the wider generator (of `n2`
/// strata) falls inside the narrower generator's range (of `n1` strata,
/// `[0, 2^(n1 - 1))` slots), it equals the narrower generator's next
/// sample — so the sub-sequence of the wide stream below that range is,
/// term for term, the narrow stream.  Both generators are seeded with the
/// same key; the sub-seeds do not depend on the bound.
pub proof fn lemma_prefix_sharing(seed: u64, n1: nat, n2: nat, j: nat)
    requires
        1 <= n1 <= n2 <= 33,
    ensures
        sample_at(seed, n2, j) < pow2((23 + n1) as nat) ==> sample_at(seed, n2, j) == sample_at(
            seed,
            n1,
            low_count(seed, n1, n2, j),
        ),
{
    lemma_states_correspond(seed, n1, n2, j);
    let t = low_count(seed, n1, n2, j);
    lemma_states_at_len(seed, n2, j);
    lemma_states_at_len(seed, n1, t);
    lemma_scan_high(states_at(seed, n2, j), states_at(seed, n1, t), (n2 - 1) as nat, n1);
}

/// Doubling the bound adds exactly one stratum, as long as the bound is at
/// least one slot: the stratum count of `upper * 2^m` is `m` more than
/// that of `upper`.
pub proof fn lemma_stratum_shift(upper: u64, m: nat)
    requires
        UNIT <= upper,
        upper as nat * pow2(m) <= 0x100_0000_0000_0000,
    ensures
        stratum_count(((upper as nat) * pow2(m)) as u64) == stratum_count(upper) + m,
    decreases m,
{
    lemma_pow2_pos(m);
    if m == 0 {
        assert(pow2(0) == 1) by {
            lemma2_to64();
        }
    } else {
        lemma_pow2_adds((m - 1) as nat, 1);
        lemma2_to64();
        let v = ((upper as nat) * pow2((m - 1) as nat)) as u64;
        assert((upper as nat) * pow2(m) == (upper as nat) * pow2((m - 1) as nat) * 2)
            by (nonlinear_arith)
            requires
                pow2(m) == pow2((m - 1) as nat) * 2,
        ;
        assert((upper as nat) * pow2((m - 1) as nat) <= (upper as nat) * pow2(m))
            by (nonlinear_arith)
            requires
                (upper as nat) * pow2(m) == (upper as nat) * pow2((m - 1) as nat) * 2,
        ;
        assert(upper as nat <= (upper as nat) * pow2((m - 1) as nat)) by (nonlinear_arith)
            requires
                pow2((m - 1) as nat) >= 1,
        ;
        lemma_stratum_shift(upper, (m - 1) as nat);
        let w = (((upper as nat) * pow2(m)) as u64);
        assert(w == 2 * v);
        assert(v > UNIT || v == UNIT);
        assert(w > UNIT);
        assert(stratum_count(w) == 1 + stratum_count(((w + 1) / 2) as u64));
        assert((w + 1) / 2 == v);
    }
}

/// Prefix sharing over bounds: for a bound of at least one slot and any
/// number of doublings, whenever the generator for the doubled bound emits
/// a sample inside the smaller bound's range (`[0, 2^ceil(log2 upper1))`
/// slots — the bound itself, when it is a power of two), that sample
/// equals the next sample of the generator for the smaller bound.
pub proof fn lemma_prefix_sharing_bounds(seed: u64, upper1: u64, m: nat, j: nat)
    requires
        UNIT <= upper1,
        (upper1 as nat) * pow2(m) <= 0x100_0000_0000_0000,
    ensures
        stratum_count(((upper1 as nat) * pow2(m)) as u64) == stratum_count(upper1) + m,
        sample_at(seed, stratum_count(((upper1 as nat) * pow2(m)) as u64), j) < pow2(
            (23 + stratum_count(upper1)) as nat,
        ) ==> sample_at(seed, stratum_count(((upper1 as nat) * pow2(m)) as u64), j) == sample_at(
            seed,
            stratum_count(upper1),
            low_count(
                seed,
                stratum_count(upper1),
                stratum_count(((upper1 as nat) * pow2(m)) as u64),
                j,
            ),
        ),
{
    lemma_stratum_shift(upper1, m);
    lemma_pow2_pos(m);
    assert(upper1 as nat <= (upper1 as nat) * pow2(m)) by (nonlinear_arith)
        requires
            pow2(m) >= 1,
    ;
    lemma_stratum_count_le(((upper1 as nat) * pow2(m)) as u64);
    lemma_stratum_count_le(upper1);
    lemma_prefix_sharing(
        seed,
        stratum_count(upper1),
        stratum_count(((upper1 as nat) * pow2(m)) as u64),
        j,
    );
}

/// A 24-bit mantissa shifted into stratum `k` stays within 64 bits and
/// equals the mathematical product with `2^k`.
proof fn lemma_mantissa_shift(m: u64, k: u64)
    requires
        m < 0x100_0000,
        k <= 32,
    ensures
        m << k == (m as nat) * pow2(k as nat),
{
    lemma2_to64();
    lemma2_to64_rest();
    if (k as nat) < 32 {
        lemma_pow2_strictly_increases(k as nat, 32);
    }
    assert(pow2(k as nat) <= pow2(32));
    assert((m as nat) * pow2(k as nat) <= 0x100_0000 * 0x1_0000_0000) by (nonlinear_arith)
        requires
            m <= 0x100_0000,
            pow2(k as nat) <= 0x1_0000_0000,
    ;
    lemma_u64_shl_is_mul(m, k);
}

/// Exec mirror of [`pcg_step`].
fn pcg_step_exec(s: u64) -> (r: u64)
    ensures
        r == pcg_step(s),
{
    proof {
        reveal(pcg_step);
    }
    s.wrapping_mul(PCG_MULTIPLIER).wrapping_add(PCG_INCREMENT)
}

/// Exec mirror of [`pcg_output`].
fn pcg_output_exec(s: u64) -> (r: u32)
    ensures
        r == pcg_output(s),
{
    let x: u64 = ((s >> 18u64) ^ s) >> 27u64;
    proof {
        reveal(pcg_output);
        assert((x & 0xFFFF_FFFFu64) < 0x1_0000_0000u64) by (bit_vector);
        assert((s >> 59u64) < 32u64) by (bit_vector);
    }
    let x32: u32 = (x & 0xFFFF_FFFFu64) as u32;
    let rot: u32 = (s >> 59u64) as u32;
    if rot == 0 {
        x32
    } else {
        (x32 >> rot) | (x32 << (32 - rot))
    }
}

/// Exec mirror of [`pcg_init`].
fn pcg_init_exec(seed: u64) -> (r: u64)
    ensures
        r == pcg_init(seed),
{
    pcg_step_exec(PCG_INCREMENT.wrapping_add(seed))
}

/// The stratified keyed generator: one PCG state per stratum, plus the
/// ghost history (key and number of draws) that pins the states to the
/// specification-level sequence.
pub struct Generator {
    pub rngs: Vec<u64>,
    pub seed: Ghost<u64>,
    pub drawn: Ghost<nat>,
}

impl Generator {
    /// Number of strata.
    pub open spec fn strata(self) -> nat {
        self.rngs@.len() as nat
    }

    /// The generator's states are exactly those a fresh generator for this
    /// key reaches after `drawn` draws.
    pub open spec fn wf(self) -> bool {
        &&& 1 <= self.rngs@.len() <= 33
        &&& self.rngs@ == states_at(self.seed@, self.strata(), self.drawn@)
    }

    /// A fresh generator for data key `seed` and an upper bound of `upper`
    /// ticks.  The sub-seeds are drawn from a PCG seeded with the key, in
    /// stratum order, so they do not depend on `upper`.
    pub fn new(seed: u64, upper: u64) -> (g: Generator)
        requires
            upper <= 0x100_0000_0000_0000,
        ensures
            g.wf(),
            g.seed@ == seed,
            g.drawn@ == 0,
            g.strata() == stratum_count(upper),
    {
        let n = compute_n(upper);
        let mut rngs: Vec<u64> = Vec::new();
        let mut sg: u64 = pcg_init_exec(seed);
        let mut i: usize = 0;
        while i < n
            invariant
                i <= n,
                sg == pcg_state_at(seed, i as nat),
                rngs@.len() == i,
                forall|j: int| 0 <= j < i ==> rngs@[j] == pcg_init(sub_seed(seed, j as nat)),
            decreases n - i,
        {
            let sk = pcg_output_exec(sg);
            rngs.push(pcg_init_exec(sk as u64));
            sg = pcg_step_exec(sg);
            i += 1;
        }
        let g = Generator { rngs, seed: Ghost(seed), drawn: Ghost(0nat) };
        proof {
            assert(g.rngs@ =~= init_states(seed, n as nat));
        }
        g
    }

    /// Draw the next sample, in ticks.  The result is exactly the
    /// `drawn`-th entry of the specification-level sample sequence for this
    /// key and stratum count.
    #[verifier::rlimit(100)]
    pub fn next_rand(&mut self) -> (r: u64)
        requires
            old(self).wf(),
        ensures
            final(self).wf(),
            final(self).seed == old(self).seed,
            final(self).strata() == old(self).strata(),
            final(self).drawn@ == old(self).drawn@ + 1,
            r == sample_at(old(self).seed@, old(self).strata(), old(self).drawn@),
    {
        let ghost seed0 = self.seed@;
        let ghost n0 = self.strata();
        let ghost d0 = self.drawn@;
        let n = self.rngs.len();
        let mut k = n - 1;
        while k >= 1
            invariant
                seed0 == old(self).seed@,
                d0 == old(self).drawn@,
                n0 == old(self).strata(),
                self.rngs@.len() == n0,
                1 <= n0 <= 33,
                k < n0,
                self.seed@ == seed0,
                self.drawn@ == d0,
                states_at(seed0, n0, d0) == old(self).rngs@,
                scan_step(states_at(seed0, n0, d0), (n0 - 1) as nat)
                    == scan_step(self.rngs@, k as nat),
            decreases k,
        {
            let ghost pre = self.rngs@;
            let s = self.rngs[k];
            let out = pcg_output_exec(s);
            let m: u64 = (out >> 8u32) as u64;
            proof {
                assert((out >> 8u32) < 0x100_0000u32) by (bit_vector);
            }
            self.rngs[k] = pcg_step_exec(s);
            proof {
                assert(self.rngs@ == pre.update(k as int, pcg_step(pre[k as int])));
            }
            if m >= ACCEPT_MIN {
                self.drawn = Ghost(d0 + 1);
                proof {
                    assert(s == pre[k as int]);
                    assert(m == (pcg_output(pre[k as int]) >> 8u32) as u64);
                    assert(scan_step(pre, k as nat)
                        == (pre.update(k as int, pcg_step(pre[k as int])),
                            ((m as nat) * pow2(k as nat)) as u64));
                    assert(scan_step(pre, k as nat).0 == self.rngs@);
                    assert(scan_step(pre, k as nat).1 == ((m as nat) * pow2(k as nat)) as u64);
                    assert(states_at(seed0, n0, d0 + 1)
                        == scan_step(states_at(seed0, n0, d0), (n0 - 1) as nat).0);
                    lemma_mantissa_shift(m, k as u64);
                }
                return m << (k as u64);
            }
            proof {
                assert(scan_step(pre, k as nat) == scan_step(self.rngs@, (k - 1) as nat));
            }
            k -= 1;
        }
        let s = self.rngs[0];
        let out = pcg_output_exec(s);
        let m0: u64 = (out >> 8u32) as u64;
        self.rngs[0] = pcg_step_exec(s);
        self.drawn = Ghost(d0 + 1);
        m0
    }
}

} // verus!
