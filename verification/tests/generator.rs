//! Tests of the stratified keyed generator.

use asura::rng::compute_n;
use asura::{pow2, Generator, UNIT};

#[test]
fn test_compute_n() {
    // Bounds of 0.5, 1.5, 2, 3 and 10 slots, in ticks.
    let tbl = [
        (UNIT / 2, 1),
        (UNIT + UNIT / 2, 2),
        (2 * UNIT, 2),
        (3 * UNIT, 3),
        (10 * UNIT, 5),
    ];
    for (x, ans) in tbl {
        let y = compute_n(x);
        assert_eq!(y, ans);
    }
}

#[test]
fn test_pow2() {
    let tbl = [(0u64, UNIT), (1, 2 * UNIT), (2, 4 * UNIT)];
    for (x, ans) in tbl {
        assert_eq!(pow2(x), ans);
    }
}

#[test]
fn test_inclusive() {
    let n = 3;
    let mut gen1 = Generator::new(0, 4 * UNIT);
    let mut out1 = vec![];
    for _ in 0..n {
        out1.push(gen1.next_rand());
    }
    let mut gen2 = Generator::new(0, 8 * UNIT);
    let mut out2 = vec![];
    for _ in 0..n * 2 {
        out2.push(gen2.next_rand());
    }
    let mut out3 = vec![];
    for x in out2 {
        if x < 4 * UNIT {
            out3.push(x);
        }
    }
    assert_eq!(out1[0..n], out3[0..n]);
}

#[test]
fn test_reproducible() {
    let mut gen1 = Generator::new(0, 100 * UNIT);
    let mut out1 = vec![];
    for _ in 0..1000 {
        out1.push(gen1.next_rand());
    }

    let mut gen2 = Generator::new(0, 100 * UNIT);
    let mut out2 = vec![];
    for _ in 0..1000 {
        out2.push(gen2.next_rand());
    }

    assert_eq!(out1, out2);
}

/// Samples stay below `2^ceil(log2(upper))` slots when the bound is at
/// least one slot, and below one slot otherwise.
#[test]
fn test_stratification_range() {
    // (bound in ticks, exclusive sample cap in ticks)
    let cases = [
        (0u64, UNIT),
        (UNIT / 2, UNIT),
        (UNIT, UNIT),
        (3 * UNIT, 4 * UNIT),
        (5 * UNIT, 8 * UNIT),
        (100 * UNIT, 128 * UNIT),
    ];
    for (upper, cap) in cases {
        let mut g = Generator::new(7, upper);
        for _ in 0..2000 {
            let x = g.next_rand();
            assert!(x < cap);
        }
    }
}

/// Prefix sharing across nested bounds: the sub-sequence of samples below
/// the smaller power-of-two bound reproduces the smaller generator's
/// sequence, for several seeds and doubling counts.
#[test]
fn test_prefix_sharing() {
    for seed in [0u64, 1, 42, 123456789] {
        for (small, big) in [(UNIT, 8 * UNIT), (4 * UNIT, 8 * UNIT), (4 * UNIT, 64 * UNIT)] {
            let mut g1 = Generator::new(seed, small);
            let mut out1 = vec![];
            for _ in 0..50 {
                out1.push(g1.next_rand());
            }
            let mut g2 = Generator::new(seed, big);
            let mut filtered = vec![];
            let mut draws = 0;
            while filtered.len() < 50 && draws < 100000 {
                let x = g2.next_rand();
                if x < small {
                    filtered.push(x);
                }
                draws += 1;
            }
            assert_eq!(out1, filtered);
        }
    }
}

/// The integer pipeline reproduces, tick for tick, the float pipeline it
/// pins down: a PCG32 per stratum, samples taken as the high 24 bits of a
/// 32-bit draw, scanned from the top stratum down.
#[test]
fn test_matches_float_reference() {
    fn reference_outputs(seed: u64, upper: f64, count: usize) -> Vec<u64> {
        let n = if upper < 1.0 {
            1
        } else {
            (upper.log2().ceil() as usize) + 1
        };
        let mut seed_gen = oorandom::Rand32::new(seed);
        let mut rngs = vec![];
        for _ in 0..n {
            let sk = seed_gen.rand_u32();
            rngs.push(oorandom::Rand32::new(sk as u64));
        }
        let mut out = vec![];
        for _ in 0..count {
            let mut k = n - 1;
            let mut val: Option<f32> = None;
            while k >= 1 {
                let upper_k = (k as f32).exp2();
                let lower_k = ((k - 1) as f32).exp2();
                let v = rngs[k].rand_float() * upper_k;
                if lower_k <= v && v < upper_k {
                    val = Some(v);
                    break;
                }
                k -= 1;
            }
            let v = match val {
                Some(v) => v,
                None => rngs[0].rand_float(),
            };
            out.push((v as f64 * 16777216.0) as u64);
        }
        out
    }

    for seed in [0u64, 1, 42, 0xDEAD_BEEF] {
        for slots in [0u64, 1, 2, 3, 23, 100, 1000] {
            let reference = reference_outputs(seed, slots as f64, 1000);
            let mut g = Generator::new(seed, slots * UNIT);
            let mut ours = vec![];
            for _ in 0..1000 {
                ours.push(g.next_rand());
            }
            assert_eq!(ours, reference);
        }
        // A fractional bound of half a slot.
        let reference = reference_outputs(seed, 0.5, 1000);
        let mut g = Generator::new(seed, UNIT / 2);
        let mut ours = vec![];
        for _ in 0..1000 {
            ours.push(g.next_rand());
        }
        assert_eq!(ours, reference);
    }
}
