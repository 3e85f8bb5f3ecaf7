//! The cluster facade: build, mutate, query, dump and restore.
//!
//! A `Cluster` owns a segment table and exposes the placement operations:
//! `add_nodes` and `remove_node` edit the cluster, `search` and
//! `calc_candidates` map a data key to the node (or replica-ordered list
//! of distinct nodes) that hosts it, and `dump_table` / `from_table`
//! serialize and rebuild the whole state.
//!
//! `SegmentTableBuilder` is the low-level construction path: it appends one
//! node's segments at a time at the right edge and hands out the finished
//! table.

use vstd::prelude::*;

verus! {

use crate::{UNIT, MAX_SLOTS};
use crate::rng::stratum_count;
use crate::table::{
    Node,
    NodeRec,
    Segment,
    SegmentTable,
    has_id,
    slots_needed,
    spec_mask_out,
    spec_place,
    spec_place_all,
    spec_trim,
    seg_mass,
};
use crate::search::{Searcher, search_post, candidates_post};
use crate::dump::{Table, restore_rows, spec_dump, lemma_dump_round_trip};

/// Dump round trip at the facade: restoring the rows a well-formed
/// cluster dumps rebuilds exactly its slots and roster, so (with
/// `dump_table` and `from_table`'s contracts) `from_table(dump_table(c))`
/// answers every placement query as `c` does.
pub proof fn lemma_cluster_round_trip(c: Cluster)
    requires
        c.wf(),
    ensures
        restore_rows(spec_dump(c.seg_table.slots@, c.seg_table.nodes@)) == Some(
            (c.seg_table.slots@, c.seg_table.nodes@),
        ),
{
    lemma_dump_round_trip(c.seg_table.slots@, c.seg_table.nodes@);
}

/// A well-formed table has slots exactly when it has roster entries.
pub proof fn lemma_empty_iff(t: SegmentTable)
    requires
        t.wf(),
    ensures
        (t.slots@.len() == 0) <==> (t.nodes@.len() == 0),
{
    if t.slots@.len() > 0 {
        assert(t.slots@.last() is Some);
        assert(has_id(t.nodes@, t.slots@.last().unwrap().node_id));
    }
    if t.nodes@.len() > 0 {
        assert(t.nodes@[0].cap > 0);
        assert(seg_mass(t.slots@, t.nodes@[0].node_id) == t.nodes@[0].cap);
    }
}

/// A cluster of weighted nodes and its placement state.
pub struct Cluster {
    pub seg_table: SegmentTable,
}

impl Cluster {
    /// The cluster's invariant: its segment table is well formed.
    pub open spec fn wf(self) -> bool {
        self.seg_table.wf()
    }

    /// An empty cluster.
    pub fn new() -> (c: Cluster)
        ensures
            c.wf(),
            c.seg_table.slots@.len() == 0,
            c.seg_table.nodes@.len() == 0,
    {
        Cluster { seg_table: SegmentTable::new() }
    }

    /// Add a batch of nodes with their capacities.  Ids must be new and
    /// distinct, capacities positive, and the batch must fit under the
    /// slot limit.
    /// Cost: O(n) where n is the size of this segment table.
    pub fn add_nodes(&mut self, nodes: &Vec<Node>)
        requires
            old(self).wf(),
            forall|i: int, j: int| 0 <= i < j < nodes@.len()
                ==> (#[trigger] nodes@[i]).node_id != (#[trigger] nodes@[j]).node_id,
            forall|i: int| 0 <= i < nodes@.len()
                ==> 0 < (#[trigger] nodes@[i]).cap
                    && !has_id(old(self).seg_table.nodes@, nodes@[i].node_id),
            old(self).seg_table.slots@.len() + slots_needed(nodes@) <= MAX_SLOTS,
        ensures
            final(self).wf(),
            final(self).seg_table.nodes@ == old(self).seg_table.nodes@ + Seq::new(
                nodes@.len() as nat,
                |i: int| NodeRec { node_id: nodes@[i].node_id, cap: nodes@[i].cap },
            ),
            old(self).seg_table.slots@.len() <= final(self).seg_table.slots@.len(),
            final(self).seg_table.slots@.len() <= old(self).seg_table.slots@.len()
                + slots_needed(nodes@),
            final(self).seg_table.slots@ == spec_place_all(
                old(self).seg_table.slots@,
                nodes@,
                0,
            ).0,
            forall|s: int| 0 <= s < old(self).seg_table.slots@.len()
                && old(self).seg_table.slots@[s] is Some
                ==> final(self).seg_table.slots@[s] == old(self).seg_table.slots@[s],
    {
        self.seg_table.add_nodes(nodes)
    }

    /// Remove a present node; its slots become vacant and may be reused.
    /// Cost: O(n) where n is the size of this segment table.
    pub fn remove_node(&mut self, node_id: u64)
        requires
            old(self).wf(),
            has_id(old(self).seg_table.nodes@, node_id),
        ensures
            final(self).wf(),
            final(self).seg_table.slots@ == spec_trim(
                spec_mask_out(old(self).seg_table.slots@, node_id),
            ),
            final(self).seg_table.slots@.len() <= old(self).seg_table.slots@.len(),
            exists|idx: int|
                0 <= idx < old(self).seg_table.nodes@.len()
                    && (#[trigger] old(self).seg_table.nodes@[idx]).node_id == node_id
                    && final(self).seg_table.nodes@ == old(self).seg_table.nodes@.remove(idx),
    {
        self.seg_table.remove_node(node_id)
    }

    /// The node that hosts `data_key`.  The cluster must not be empty.
    pub fn search(&self, data_key: u64) -> (r: u64)
        requires
            self.wf(),
            self.seg_table.nodes@.len() > 0,
        ensures
            search_post(
                self.seg_table.slots@,
                data_key,
                stratum_count(self.seg_table.max_bound),
                r,
            ),
            has_id(self.seg_table.nodes@, r),
    {
        proof {
            lemma_empty_iff(self.seg_table);
        }
        let searcher = Searcher::new(&self.seg_table);
        searcher.search(data_key)
    }

    /// Up to `want` distinct nodes for `data_key`, primary first, in the
    /// order the sampling discovers them; `None` exactly when the cluster
    /// has no nodes.
    pub fn calc_candidates(&self, data_key: u64, want: usize) -> (r: Option<Vec<u64>>)
        requires
            self.wf(),
        ensures
            (r is None) <==> self.seg_table.nodes@.len() == 0,
            match r {
                Some(v) => {
                    &&& candidates_post(
                        self.seg_table.slots@,
                        data_key,
                        stratum_count(self.seg_table.max_bound),
                        vstd::math::min(want as int, self.seg_table.nodes@.len() as int),
                        v@,
                    )
                    &&& (forall|i: int, j: int| 0 <= i < j < v@.len() ==> v@[i] != v@[j])
                    &&& (forall|i: int| 0 <= i < v@.len()
                        ==> has_id(self.seg_table.nodes@, #[trigger] v@[i]))
                    &&& v@.len() <= want
                    &&& v@.len() <= self.seg_table.nodes@.len()
                },
                None => true,
            },
    {
        proof {
            lemma_empty_iff(self.seg_table);
        }
        if self.seg_table.is_empty() {
            return None;
        }
        let searcher = Searcher::new(&self.seg_table);
        Some(searcher.candidates(data_key, want))
    }

    /// Serialize the cluster's placement state.
    pub fn dump_table(&self) -> (t: Table)
        requires
            self.wf(),
        ensures
            t.rows@ == spec_dump(self.seg_table.slots@, self.seg_table.nodes@),
    {
        self.seg_table.dump_table()
    }

    /// Rebuild a cluster from a dump; `None` when the rows are rejected.
    pub fn from_table(t: &Table) -> (r: Option<Cluster>)
        ensures
            match r {
                Some(c) => restore_rows(t.rows@) == Some(
                    (c.seg_table.slots@, c.seg_table.nodes@),
                ) && c.wf(),
                None => restore_rows(t.rows@) is None,
            },
    {
        match SegmentTable::from_table(t) {
            Some(st) => Some(Cluster { seg_table: st }),
            None => None,
        }
    }
}

/// Incremental construction of a segment table: each `add_segment` call
/// appends one node's segments at the right edge (a builder never leaves
/// holes, so the cursor always sits at the end).
pub struct SegmentTableBuilder {
    pub table: SegmentTable,
    pub next: usize,
}

impl SegmentTableBuilder {
    /// The builder's invariant: the growing table is well formed (bound
    /// aside) and the cursor sits at the right edge.
    pub open spec fn wf(self) -> bool {
        &&& self.table.wf_core()
        &&& self.next == self.table.slots@.len()
    }

    /// An empty builder.
    pub fn new() -> (b: SegmentTableBuilder)
        ensures
            b.wf(),
            b.table.slots@.len() == 0,
            b.table.nodes@.len() == 0,
    {
        SegmentTableBuilder { table: SegmentTable::new(), next: 0 }
    }

    /// Append one node's capacity, in ticks, as consecutive segments at
    /// the right edge: whole-`UNIT` segments and a fractional tail, placed
    /// exactly as the specification walk [`spec_place`] says, starting at
    /// the cursor.  The id must be new, the capacity positive and within
    /// the slot limit.
    pub fn add_segment(&mut self, node_id: u64, len: u64)
        requires
            old(self).wf(),
            0 < len,
            !has_id(old(self).table.nodes@, node_id),
            old(self).table.slots@.len() + (len + UNIT - 1) / (UNIT as int) <= MAX_SLOTS,
        ensures
            final(self).wf(),
            final(self).table.nodes@ == old(self).table.nodes@.push(
                NodeRec { node_id, cap: len },
            ),
            (final(self).table.slots@, final(self).next as int) == spec_place(
                old(self).table.slots@,
                node_id,
                len,
                old(self).next as int,
            ),
            final(self).table.slots@.len() == old(self).table.slots@.len() + (len + UNIT - 1) / (
            UNIT as int),
            forall|s: int| 0 <= s < old(self).table.slots@.len()
                ==> final(self).table.slots@[s] == old(self).table.slots@[s],
    {
        self.next = self.table.add_node(node_id, len, self.next);
    }

    /// Finish: compute the tick bound and hand out the table.
    pub fn build(self) -> (t: SegmentTable)
        requires
            self.wf(),
        ensures
            t.wf(),
            t.slots@ == self.table.slots@,
            t.nodes@ == self.table.nodes@,
    {
        let mut t = self.table;
        t.recalc_max_bound();
        t
    }
}

} // verus!
