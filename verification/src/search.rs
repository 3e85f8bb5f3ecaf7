//! Rejection-sampling search over a segment table.
//!
//! A search seeds a [`Generator`](crate::rng::Generator) with the data key
//! and the table's tick bound, draws samples, and resolves each against the
//! table until a segment is hit.  The multi-candidate variant keeps
//! collecting distinct node ids, in the order they are first hit, until the
//! requested count is reached.
//!
//! Sampling is deterministic, so the whole outcome is a function of the
//! table, the key and the requested count; the contracts below pin it as
//! such.  The draw loops carry an enormous fuel bound (`SEARCH_FUEL`
//! draws); a run that exhausts it — which no real table can cause — falls
//! back to the owner of the rightmost slot, keeping the result total and
//! still deterministic.

use vstd::prelude::*;

verus! {

use crate::UNIT;
use crate::MAX_SLOTS;
use crate::rng::{Generator, sample_at, stratum_count};
use crate::table::{
    Segment,
    SegmentTable,
    spec_resolve,
    has_id,
    lemma_max_bound_le,
};

/// Number of draws after which a search gives up on sampling.
pub const SEARCH_FUEL: u64 = 0xFFFF_FFFF_FFFF_FFFF;

/// Owner of the rightmost slot: the deterministic fallback when sampling
/// exhausts its fuel.  Meaningful on a canonical non-empty table.
pub open spec fn fallback_id(slots: Seq<Option<Segment>>) -> u64 {
    slots.last().unwrap().node_id
}

/// The distinct node ids hit within the first `d` samples of the stream
/// for `(seed, n)`, in the order they were first hit.
pub open spec fn hits_prefix(slots: Seq<Option<Segment>>, seed: u64, n: nat, d: nat) -> Seq<u64>
    decreases d,
{
    if d == 0 {
        Seq::empty()
    } else {
        let prev = hits_prefix(slots, seed, n, (d - 1) as nat);
        match spec_resolve(slots, sample_at(seed, n, (d - 1) as nat)) {
            Some(id) => if prev.contains(id) {
                prev
            } else {
                prev.push(id)
            },
            None => prev,
        }
    }
}

/// Distinctness: the hit prefix of any length holds no node id twice.
pub proof fn lemma_hits_prefix_distinct(slots: Seq<Option<Segment>>, seed: u64, n: nat, d: nat)
    ensures
        forall|i: int, j: int| 0 <= i < j < hits_prefix(slots, seed, n, d).len()
            ==> hits_prefix(slots, seed, n, d)[i] != hits_prefix(slots, seed, n, d)[j],
    decreases d,
{
    if d > 0 {
        lemma_hits_prefix_distinct(slots, seed, n, (d - 1) as nat);
        let prev = hits_prefix(slots, seed, n, (d - 1) as nat);
        let cur = hits_prefix(slots, seed, n, d);
        if cur != prev {
            let id = spec_resolve(slots, sample_at(seed, n, (d - 1) as nat)).unwrap();
            assert(!prev.contains(id));
            assert forall|i: int, j: int| 0 <= i < j < cur.len() implies cur[i] != cur[j] by {
                if j == cur.len() - 1 {
                    assert(cur[i] == prev[i]);
                    assert(prev.contains(prev[i]));
                }
            }
        }
    }
}

/// What a single-result search returns: the node of the first sample that
/// hits, or — only if every one of the `SEARCH_FUEL` samples misses — the
/// fallback owner of the rightmost slot.
pub open spec fn search_post(slots: Seq<Option<Segment>>, seed: u64, n: nat, r: u64) -> bool {
    ||| (exists|d: int|
        0 <= d < SEARCH_FUEL && spec_resolve(slots, #[trigger] sample_at(seed, n, d as nat)) == Some(r)
            && (forall|e: int| 0 <= e < d
                ==> spec_resolve(slots, #[trigger] sample_at(seed, n, e as nat)) is None))
    ||| ((forall|e: int| 0 <= e < SEARCH_FUEL
        ==> spec_resolve(slots, #[trigger] sample_at(seed, n, e as nat)) is None)
        && r == fallback_id(slots))
}

/// What a multi-candidate search returns: a hit prefix of the sample
/// stream, of the requested length unless even the full fuel yields fewer
/// distinct hits.
pub open spec fn candidates_post(
    slots: Seq<Option<Segment>>,
    seed: u64,
    n: nat,
    limit: int,
    r: Seq<u64>,
) -> bool {
    exists|d: int|
        0 <= d <= SEARCH_FUEL && r == #[trigger] hits_prefix(slots, seed, n, d as nat) && r.len() <= limit
            && (r.len() == limit || d == SEARCH_FUEL)
}

/// A borrowed view of a table, ready to answer placement queries.
pub struct Searcher<'a> {
    pub seg_table: &'a SegmentTable,
}

/// Whether a vector of ids contains an id.
fn contains_id(v: &Vec<u64>, id: u64) -> (r: bool)
    ensures
        r == v@.contains(id),
{
    let mut i: usize = 0;
    while i < v.len()
        invariant
            i <= v@.len(),
            forall|j: int| 0 <= j < i ==> v@[j] != id,
        decreases v@.len() - i,
    {
        if v[i] == id {
            return true;
        }
        i = i + 1;
    }
    false
}

impl<'a> Searcher<'a> {
    /// Borrow a non-empty table for querying.
    pub fn new(seg_table: &'a SegmentTable) -> (s: Searcher<'a>)
        requires
            seg_table.wf(),
            seg_table.slots@.len() > 0,
        ensures
            s.seg_table == seg_table,
    {
        Searcher { seg_table }
    }

    /// The node that hosts `data_key`: draw samples until one lands on a
    /// segment.  The result is a present node, pinned by [`search_post`].
    pub fn search(&self, data_key: u64) -> (r: u64)
        requires
            self.seg_table.wf(),
            self.seg_table.slots@.len() > 0,
        ensures
            search_post(
                self.seg_table.slots@,
                data_key,
                stratum_count(self.seg_table.max_bound),
                r,
            ),
            has_id(self.seg_table.nodes@, r),
    {
        let ghost slots = self.seg_table.slots@;
        let ghost n = stratum_count(self.seg_table.max_bound);
        proof {
            lemma_table_bound_fits(*self.seg_table);
        }
        let mut rng = Generator::new(data_key, self.seg_table.max_bound);
        let mut d: u64 = 0;
        while d < SEARCH_FUEL
            invariant
                self.seg_table.wf(),
                self.seg_table.slots@.len() > 0,
                slots == self.seg_table.slots@,
                n == stratum_count(self.seg_table.max_bound),
                rng.wf(),
                rng.seed@ == data_key,
                rng.strata() == n,
                rng.drawn@ == d,
                d <= SEARCH_FUEL,
                forall|e: int| 0 <= e < d
                    ==> spec_resolve(slots, #[trigger] sample_at(data_key, n, e as nat)) is None,
            decreases SEARCH_FUEL - d,
        {
            let x = rng.next_rand();
            match self.seg_table.search_once(x) {
                Some(id) => {
                    proof {
                        lemma_resolved_is_present(*self.seg_table, x);
                    }
                    return id;
                },
                None => {},
            }
            d = d + 1;
        }
        let last = self.seg_table.slots.len() - 1;
        let seg = self.seg_table.slots[last].unwrap();
        seg.node_id
    }

    /// Up to `want` distinct nodes for `data_key`, in the order the
    /// sampling first hits them.  The list is pinned by
    /// [`candidates_post`]: a hit prefix of the sample stream whose length
    /// is the requested count clamped to the number of present nodes
    /// (short only in the impossible case that the whole fuel is spent).
    pub fn candidates(&self, data_key: u64, want: usize) -> (r: Vec<u64>)
        requires
            self.seg_table.wf(),
            self.seg_table.slots@.len() > 0,
        ensures
            candidates_post(
                self.seg_table.slots@,
                data_key,
                stratum_count(self.seg_table.max_bound),
                vstd::math::min(want as int, self.seg_table.nodes@.len() as int),
                r@,
            ),
            forall|i: int, j: int| 0 <= i < j < r@.len() ==> r@[i] != r@[j],
            forall|i: int| 0 <= i < r@.len() ==> has_id(self.seg_table.nodes@, #[trigger] r@[i]),
            r@.len() <= want,
            r@.len() <= self.seg_table.nodes@.len(),
    {
        let ghost slots = self.seg_table.slots@;
        let ghost n = stratum_count(self.seg_table.max_bound);
        proof {
            lemma_table_bound_fits(*self.seg_table);
        }
        let node_total = self.seg_table.node_count();
        let limit = if want < node_total {
            want
        } else {
            node_total
        };
        let mut res: Vec<u64> = Vec::new();
        let mut rng = Generator::new(data_key, self.seg_table.max_bound);
        let mut d: u64 = 0;
        while d < SEARCH_FUEL && res.len() < limit
            invariant
                self.seg_table.wf(),
                self.seg_table.slots@.len() > 0,
                slots == self.seg_table.slots@,
                n == stratum_count(self.seg_table.max_bound),
                limit == vstd::math::min(want as int, self.seg_table.nodes@.len() as int),
                rng.wf(),
                rng.seed@ == data_key,
                rng.strata() == n,
                rng.drawn@ == d,
                d <= SEARCH_FUEL,
                res@ == hits_prefix(slots, data_key, n, d as nat),
                res@.len() <= limit,
                forall|i: int, j: int| 0 <= i < j < res@.len() ==> res@[i] != res@[j],
                forall|i: int| 0 <= i < res@.len()
                    ==> has_id(self.seg_table.nodes@, #[trigger] res@[i]),
            decreases SEARCH_FUEL - d,
        {
            let x = rng.next_rand();
            match self.seg_table.search_once(x) {
                Some(id) => {
                    if !contains_id(&res, id) {
                        proof {
                            lemma_resolved_is_present(*self.seg_table, x);
                        }
                        res.push(id);
                    }
                },
                None => {},
            }
            d = d + 1;
        }
        proof {
            let dd = d as int;
            assert(res@ == hits_prefix(slots, data_key, n, dd as nat));
            assert(candidates_post(
                slots,
                data_key,
                n,
                vstd::math::min(want as int, self.seg_table.nodes@.len() as int),
                res@,
            ));
        }
        res
    }
}

/// A well-formed table's tick bound fits under the generator's cap.
pub proof fn lemma_table_bound_fits(t: SegmentTable)
    requires
        t.wf(),
    ensures
        t.max_bound <= 0x100_0000_0000_0000,
{
    lemma_max_bound_le(t.slots@);
    assert(t.slots@.len() * UNIT <= MAX_SLOTS * UNIT) by (nonlinear_arith)
        requires
            t.slots@.len() <= MAX_SLOTS,
    ;
}

/// A sample that resolves resolves to a present node.
pub proof fn lemma_resolved_is_present(t: SegmentTable, x: u64)
    requires
        t.wf(),
        spec_resolve(t.slots@, x) is Some,
    ensures
        has_id(t.nodes@, spec_resolve(t.slots@, x).unwrap()),
{
    let k = x as int / (UNIT as int);
    assert(t.slots@[k] is Some);
}

/// Longer prefixes of the hit stream only extend shorter ones: the first
/// `d1` samples' distinct hits are a prefix of the first `d2` samples'.
pub proof fn lemma_hits_prefix_extends(
    slots: Seq<Option<Segment>>,
    seed: u64,
    n: nat,
    d1: nat,
    d2: nat,
)
    requires
        d1 <= d2,
    ensures
        hits_prefix(slots, seed, n, d1).len() <= hits_prefix(slots, seed, n, d2).len(),
        hits_prefix(slots, seed, n, d1) == hits_prefix(slots, seed, n, d2).take(
            hits_prefix(slots, seed, n, d1).len() as int,
        ),
    decreases d2,
{
    if d1 == d2 {
        assert(hits_prefix(slots, seed, n, d1) =~= hits_prefix(slots, seed, n, d2).take(
            hits_prefix(slots, seed, n, d1).len() as int,
        ));
    } else {
        lemma_hits_prefix_extends(slots, seed, n, d1, (d2 - 1) as nat);
        let prev = hits_prefix(slots, seed, n, (d2 - 1) as nat);
        let cur = hits_prefix(slots, seed, n, d2);
        let h1 = hits_prefix(slots, seed, n, d1);
        assert(prev == cur || cur == prev.push(
            spec_resolve(slots, sample_at(seed, n, (d2 - 1) as nat)).unwrap(),
        ));
        assert(h1 =~= cur.take(h1.len() as int));
    }
}

/// Placement determinism: any two hit prefixes of the same stream that
/// reach the same length are the same list.  With the searcher's
/// contract this pins `candidates` to a single possible result for a
/// given table, key and count.
pub proof fn lemma_candidates_deterministic(
    slots: Seq<Option<Segment>>,
    seed: u64,
    n: nat,
    limit: int,
    r1: Seq<u64>,
    r2: Seq<u64>,
)
    requires
        candidates_post(slots, seed, n, limit, r1),
        candidates_post(slots, seed, n, limit, r2),
    ensures
        r1 == r2,
{
    let d1 = choose|d: int|
        0 <= d <= SEARCH_FUEL && r1 == #[trigger] hits_prefix(slots, seed, n, d as nat) && r1.len() <= limit
            && (r1.len() == limit || d == SEARCH_FUEL);
    let d2 = choose|d: int|
        0 <= d <= SEARCH_FUEL && r2 == #[trigger] hits_prefix(slots, seed, n, d as nat) && r2.len() <= limit
            && (r2.len() == limit || d == SEARCH_FUEL);
    if d1 <= d2 {
        lemma_hits_prefix_extends(slots, seed, n, d1 as nat, d2 as nat);
        if r1.len() == r2.len() {
            assert(r1 =~= r2);
        } else {
            assert(r1.len() < r2.len() || r1.len() > r2.len());
            assert(r1.len() >= r2.len());
            assert(false);
        }
    } else {
        lemma_hits_prefix_extends(slots, seed, n, d2 as nat, d1 as nat);
        if r1.len() == r2.len() {
            assert(r2 =~= r1);
        } else {
            assert(r2.len() >= r1.len());
            assert(false);
        }
    }
}

/// Determinism of the single-result search: only one value can satisfy
/// its contract for a given table, key and stratum count.
pub proof fn lemma_search_deterministic(
    slots: Seq<Option<Segment>>,
    seed: u64,
    n: nat,
    r1: u64,
    r2: u64,
)
    requires
        search_post(slots, seed, n, r1),
        search_post(slots, seed, n, r2),
    ensures
        r1 == r2,
{
    if (exists|d: int|
        0 <= d < SEARCH_FUEL && spec_resolve(slots, #[trigger] sample_at(seed, n, d as nat)) == Some(r1)
            && (forall|e: int| 0 <= e < d
                ==> spec_resolve(slots, #[trigger] sample_at(seed, n, e as nat)) is None)) {
        let d1 = choose|d: int|
            0 <= d < SEARCH_FUEL && spec_resolve(slots, #[trigger] sample_at(seed, n, d as nat)) == Some(r1)
                && (forall|e: int| 0 <= e < d
                    ==> spec_resolve(slots, #[trigger] sample_at(seed, n, e as nat)) is None);
        if (exists|d: int|
            0 <= d < SEARCH_FUEL && spec_resolve(slots, #[trigger] sample_at(seed, n, d as nat)) == Some(r2)
                && (forall|e: int| 0 <= e < d
                    ==> spec_resolve(slots, #[trigger] sample_at(seed, n, e as nat)) is None)) {
            let d2 = choose|d: int|
                0 <= d < SEARCH_FUEL && spec_resolve(slots, #[trigger] sample_at(seed, n, d as nat)) == Some(
                    r2,
                ) && (forall|e: int| 0 <= e < d
                    ==> spec_resolve(slots, #[trigger] sample_at(seed, n, e as nat)) is None);
            assert(!(d1 < d2) && !(d2 < d1));
        } else {
            assert(spec_resolve(slots, sample_at(seed, n, d1 as nat)) is None);
            assert(false);
        }
    } else {
        if (exists|d: int|
            0 <= d < SEARCH_FUEL && spec_resolve(slots, #[trigger] sample_at(seed, n, d as nat)) == Some(r2)
                && (forall|e: int| 0 <= e < d
                    ==> spec_resolve(slots, #[trigger] sample_at(seed, n, e as nat)) is None)) {
            let d2 = choose|d: int|
                0 <= d < SEARCH_FUEL && spec_resolve(slots, #[trigger] sample_at(seed, n, d as nat)) == Some(
                    r2,
                ) && (forall|e: int| 0 <= e < d
                    ==> spec_resolve(slots, #[trigger] sample_at(seed, n, e as nat)) is None);
            assert(spec_resolve(slots, sample_at(seed, n, d2 as nat)) is None);
            assert(false);
        }
    }
}

} // verus!
