//! ASURA consistent placement: a weighted, deterministic mapping from data
//! keys to cluster node identifiers that stays stable under node churn.

use vstd::prelude::*;

pub mod cluster;
pub mod dump;
pub mod rng;
pub mod search;
pub mod table;

pub use cluster::{Cluster, SegmentTableBuilder};
pub use dump::{Row, Table};
pub use rng::Generator;
pub use search::Searcher;
pub use table::{Node, NodeRec, Segment, SegmentTable};

verus! {

/// Node identifiers are caller-assigned 64-bit values.
pub type NodeId = u64;

/// Fixed-point scale: one slot width on the number line is `UNIT` ticks.
/// A tick is 2^-24, the quantum of the 24-bit uniform samples the
/// placement generator draws.  Node capacities, segment lengths, bounds and
/// samples are all measured in ticks.
pub const UNIT: u64 = 0x100_0000;

/// Largest number of slots a segment table may occupy, so that every tick
/// coordinate fits comfortably in 64 bits and every slot index in usize.
pub const MAX_SLOTS: u64 = 0x8000_0000;

/// `2^x` slots, in ticks: the width of the sampling range that `x + 1`
/// strata cover.
pub fn pow2(x: u64) -> (r: u64)
    requires
        x <= 32,
    ensures
        r == UNIT * vstd::arithmetic::power2::pow2(x as nat),
{
    proof {
        vstd::arithmetic::power2::lemma2_to64();
        vstd::arithmetic::power2::lemma2_to64_rest();
        if (x as nat) < 32 {
            vstd::arithmetic::power2::lemma_pow2_strictly_increases(x as nat, 32);
        }
        assert(UNIT * vstd::arithmetic::power2::pow2(x as nat) <= 0x100_0000 * 0x1_0000_0000)
            by (nonlinear_arith)
            requires
                vstd::arithmetic::power2::pow2(x as nat) <= 0x1_0000_0000,
        ;
        vstd::bits::lemma_u64_shl_is_mul(UNIT, x);
    }
    UNIT << x
}

} // verus!
