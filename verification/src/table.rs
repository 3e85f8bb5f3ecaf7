//! The segment table: a sparse mapping from integer slots on the number
//! line to node identifiers.
//!
//! Each node consumes one slot per whole `UNIT` of its capacity, plus a
//! fractional trailing slot for the remainder.  The table is held as a
//! vector indexed by slot (`None` marks a vacant slot left by a removal),
//! kept canonical: the last slot is always occupied.  Beside it stands the
//! roster of present nodes, in insertion order, remembering each node's
//! originally added capacity; the table's well-formedness ties the two
//! together by mass conservation: the segment lengths of a present node
//! always sum to its capacity.

use vstd::prelude::*;

verus! {

use crate::{UNIT, MAX_SLOTS};

/// One segment: the occupant of a single slot.  `len` is in ticks,
/// `0 < len <= UNIT`.
#[derive(Clone, Copy, PartialEq, Eq, Structural)]
pub struct Segment {
    pub node_id: u64,
    pub len: u64,
}

impl Segment {
    /// A segment of `len` ticks (at most one whole slot) owned by a node.
    pub fn new(node_id: u64, len: u64) -> (s: Segment)
        requires
            0 < len <= UNIT,
        ensures
            s.node_id == node_id,
            s.len == len,
    {
        Segment { node_id, len }
    }
}

/// A node to be added: caller-assigned identifier and capacity in ticks.
/// The capacity must be positive.
#[derive(Clone, Copy, PartialEq, Eq, Structural)]
pub struct Node {
    pub node_id: u64,
    pub cap: u64,
}

/// Roster entry: a present node and its originally added capacity in ticks.
#[derive(Clone, Copy, PartialEq, Eq, Structural)]
pub struct NodeRec {
    pub node_id: u64,
    pub cap: u64,
}

/// Total length, in ticks, of the segments a node owns.
pub open spec fn seg_mass(slots: Seq<Option<Segment>>, id: u64) -> int
    decreases slots.len(),
{
    if slots.len() == 0 {
        0
    } else {
        seg_mass(slots.drop_last(), id) + match slots.last() {
            Some(seg) => if seg.node_id == id {
                seg.len as int
            } else {
                0
            },
            None => 0,
        }
    }
}

/// One past the rightmost occupied point, in ticks; `0` when empty.
pub open spec fn spec_max_bound(slots: Seq<Option<Segment>>) -> int
    decreases slots.len(),
{
    if slots.len() == 0 {
        0
    } else {
        let rest = spec_max_bound(slots.drop_last());
        let here = match slots.last() {
            Some(seg) => (slots.len() - 1) * UNIT + seg.len,
            None => 0,
        };
        if here > rest {
            here
        } else {
            rest
        }
    }
}

/// Whether a node id is on the roster.
pub open spec fn has_id(nodes: Seq<NodeRec>, id: u64) -> bool {
    exists|j: int| 0 <= j < nodes.len() && nodes[j].node_id == id
}

/// Resolution of a sample against the table: the sample's slot either
/// misses (vacant, or past the end, or the fractional remainder falls
/// beyond the segment) or yields the occupant's node id.
pub open spec fn spec_resolve(slots: Seq<Option<Segment>>, x: u64) -> Option<u64> {
    let k = x as int / (UNIT as int);
    if 0 <= k < slots.len() {
        match slots[k] {
            Some(seg) => if seg.len > x as int % (UNIT as int) {
                Some(seg.node_id)
            } else {
                None
            },
            None => None,
        }
    } else {
        None
    }
}

/// Well-formedness of a slot sequence and its roster: bounded size,
/// canonical trailing occupancy, valid segment lengths, owners on the
/// roster, distinct roster ids, positive capacities, and mass conservation
/// (a present node's segment lengths sum to its capacity).
pub open spec fn table_wf(slots: Seq<Option<Segment>>, nodes: Seq<NodeRec>) -> bool {
    &&& slots.len() <= MAX_SLOTS
    &&& (slots.len() > 0 ==> slots.last() is Some)
    &&& (forall|s: int| 0 <= s < slots.len() && slots[s] is Some
        ==> 0 < (#[trigger] slots[s]).unwrap().len <= UNIT
            && has_id(nodes, slots[s].unwrap().node_id))
    &&& (forall|j: int, l: int| 0 <= j < l < nodes.len()
        ==> (#[trigger] nodes[j]).node_id != (#[trigger] nodes[l]).node_id)
    &&& (forall|j: int| 0 <= j < nodes.len()
        ==> 0 < (#[trigger] nodes[j]).cap
            && seg_mass(slots, nodes[j].node_id) == nodes[j].cap)
}

/// The segment table, its tick bound, and the roster of present nodes.
pub struct SegmentTable {
    pub slots: Vec<Option<Segment>>,
    pub max_bound: u64,
    pub nodes: Vec<NodeRec>,
}

impl SegmentTable {
    /// Everything well-formedness asks of the slots and roster: bounded
    /// size, canonical trailing occupancy, valid segment lengths, owners on
    /// the roster, distinct roster ids, positive capacities, and mass
    /// conservation.
    pub open spec fn wf_core(self) -> bool {
        table_wf(self.slots@, self.nodes@)
    }

    /// Full well-formedness: the core plus an up-to-date tick bound.
    pub open spec fn wf(self) -> bool {
        &&& self.wf_core()
        &&& self.max_bound == spec_max_bound(self.slots@)
    }

    /// Create an empty segment table.
    pub fn new() -> (t: SegmentTable)
        ensures
            t.wf(),
            t.slots@.len() == 0,
            t.nodes@.len() == 0,
            t.max_bound == 0,
    {
        SegmentTable { slots: Vec::new(), max_bound: 0, nodes: Vec::new() }
    }

    pub fn is_empty(&self) -> (r: bool)
        ensures
            r == (self.slots@.len() == 0),
    {
        self.slots.len() == 0
    }

    /// Number of distinct nodes present.
    pub fn node_count(&self) -> (r: usize)
        ensures
            r == self.nodes@.len(),
    {
        self.nodes.len()
    }

    /// Recompute the tick bound by scanning every slot.
    pub fn recalc_max_bound(&mut self)
        requires
            old(self).wf_core(),
        ensures
            final(self).slots == old(self).slots,
            final(self).nodes == old(self).nodes,
            final(self).wf(),
    {
        proof {
            lemma_max_bound_le(self.slots@);
        }
        let mut maxv: u64 = 0;
        let mut i: usize = 0;
        let n = self.slots.len();
        while i < n
            invariant
                i <= n,
                n == self.slots@.len(),
                self.slots@.len() <= MAX_SLOTS,
                forall|s: int| 0 <= s < self.slots@.len() && self.slots@[s] is Some
                    ==> 0 < (#[trigger] self.slots@[s]).unwrap().len <= UNIT,
                maxv == spec_max_bound(self.slots@.take(i as int)),
                maxv <= i * UNIT,
            decreases n - i,
        {
            proof {
                assert(self.slots@.take(i + 1).drop_last() =~= self.slots@.take(i as int));
                assert(self.slots@.take(i + 1).last() == self.slots@[i as int]);
            }
            match self.slots[i] {
                Some(seg) => {
                    let r = (i as u64) * UNIT + seg.len;
                    if r > maxv {
                        maxv = r;
                    }
                },
                None => {},
            }
            i += 1;
        }
        proof {
            assert(self.slots@.take(n as int) =~= self.slots@);
        }
        self.max_bound = maxv;
    }

    /// Resolve one sample (in ticks) against the table.
    pub fn search_once(&self, x: u64) -> (r: Option<u64>)
        ensures
            r == spec_resolve(self.slots@, x),
    {
        proof {
            vstd::bits::lemma_u64_shr_is_div(x, 24);
            vstd::bits::lemma_u64_low_bits_mask_is_mod(x, 24);
            vstd::bits::lemma_low_bits_mask_values();
            vstd::arithmetic::power2::lemma2_to64();
            assert(x & 0xFF_FFFFu64 == x & (vstd::bits::low_bits_mask(24) as u64));
        }
        let k = x >> 24u64;
        if k >= self.slots.len() as u64 {
            return None;
        }
        match self.slots[k as usize] {
            None => None,
            Some(seg) => {
                if seg.len == UNIT {
                    Some(seg.node_id)
                } else {
                    let rem = x & 0xFF_FFFF;
                    if seg.len > rem {
                        Some(seg.node_id)
                    } else {
                        None
                    }
                }
            },
        }
    }
}

/// The tick bound never exceeds the table's slot count times the slot
/// width, provided every segment fits its slot.
pub proof fn lemma_max_bound_le(slots: Seq<Option<Segment>>)
    requires
        forall|s: int| 0 <= s < slots.len() && slots[s] is Some
            ==> (#[trigger] slots[s]).unwrap().len <= UNIT,
    ensures
        0 <= spec_max_bound(slots) <= slots.len() * UNIT,
    decreases slots.len(),
{
    if slots.len() > 0 {
        lemma_max_bound_le(slots.drop_last());
    }
}

/// A node with no segment has zero mass.
pub proof fn lemma_mass_absent(slots: Seq<Option<Segment>>, id: u64)
    requires
        forall|s: int| 0 <= s < slots.len() && slots[s] is Some
            ==> (#[trigger] slots[s]).unwrap().node_id != id,
    ensures
        seg_mass(slots, id) == 0,
    decreases slots.len(),
{
    if slots.len() > 0 {
        lemma_mass_absent(slots.drop_last(), id);
    }
}

/// Contribution of one slot's content to a node's mass.
pub open spec fn slot_mass(v: Option<Segment>, id: u64) -> int {
    match v {
        Some(seg) => if seg.node_id == id {
            seg.len as int
        } else {
            0
        },
        None => 0,
    }
}

/// Updating one slot shifts a node's mass by the difference of the old and
/// new contributions of that slot.
pub proof fn lemma_mass_update(slots: Seq<Option<Segment>>, i: int, v: Option<Segment>, id: u64)
    requires
        0 <= i < slots.len(),
    ensures
        seg_mass(slots.update(i, v), id)
            == seg_mass(slots, id) - slot_mass(slots[i], id) + slot_mass(v, id),
    decreases slots.len(),
{
    let upd = slots.update(i, v);
    if i == slots.len() - 1 {
        assert(upd.drop_last() =~= slots.drop_last());
    } else {
        assert(upd.drop_last() =~= slots.drop_last().update(i, v));
        lemma_mass_update(slots.drop_last(), i, v, id);
    }
}

/// Appending one slot adds its contribution to a node's mass.
pub proof fn lemma_mass_push(slots: Seq<Option<Segment>>, v: Option<Segment>, id: u64)
    ensures
        seg_mass(slots.push(v), id) == seg_mass(slots, id) + slot_mass(v, id),
{
    assert(slots.push(v).drop_last() =~= slots);
}

/// Number of slots a batch of nodes will consume: one per whole `UNIT` of
/// capacity, plus one for a fractional remainder.
pub open spec fn slots_needed(nodes: Seq<Node>) -> int
    decreases nodes.len(),
{
    if nodes.len() == 0 {
        0
    } else {
        (nodes[0].cap + UNIT - 1) / (UNIT as int) + slots_needed(nodes.drop_first())
    }
}

/// The slots with every segment of one node blanked out.
pub open spec fn spec_mask_out(slots: Seq<Option<Segment>>, id: u64) -> Seq<Option<Segment>> {
    Seq::new(slots.len(), |s: int| match slots[s] {
        Some(seg) => if seg.node_id == id {
            None
        } else {
            Some(seg)
        },
        None => None,
    })
}

/// The slots with trailing vacancies dropped, restoring the canonical
/// form in which the last slot is occupied.
pub open spec fn spec_trim(slots: Seq<Option<Segment>>) -> Seq<Option<Segment>>
    decreases slots.len(),
{
    if slots.len() == 0 || slots.last() is Some {
        slots
    } else {
        spec_trim(slots.drop_last())
    }
}

/// Blanking one node's segments leaves every other node's mass unchanged.
pub proof fn lemma_mass_mask_out(slots: Seq<Option<Segment>>, id: u64, other: u64)
    requires
        other != id,
    ensures
        seg_mass(spec_mask_out(slots, id), other) == seg_mass(slots, other),
    decreases slots.len(),
{
    if slots.len() > 0 {
        assert(spec_mask_out(slots, id).drop_last() =~= spec_mask_out(slots.drop_last(), id));
        lemma_mass_mask_out(slots.drop_last(), id, other);
    }
}

/// Dropping trailing vacancies changes no node's mass.
pub proof fn lemma_mass_trim(slots: Seq<Option<Segment>>, id: u64)
    ensures
        seg_mass(spec_trim(slots), id) == seg_mass(slots, id),
    decreases slots.len(),
{
    if slots.len() == 0 || slots.last() is Some {
    } else {
        lemma_mass_trim(slots.drop_last(), id);
    }
}

/// The greedy placement walk, replayed at the specification level: starting
/// at slot `next`, each vacant slot (vacancies past the end included)
/// receives `min(remaining, UNIT)` ticks of the node's capacity and each
/// occupied slot is skipped, until the capacity is exhausted.  Returns the
/// slots and the cursor one past the last slot visited.  Meaningful for
/// `0 <= next <= slots.len()`; placement beyond the end appends.
pub open spec fn spec_place(
    slots: Seq<Option<Segment>>,
    node_id: u64,
    cap: u64,
    next: int,
) -> (Seq<Option<Segment>>, int)
    decreases cap, (if next < slots.len() {
        slots.len() - next
    } else {
        0
    }),
{
    if cap == 0 {
        (slots, next)
    } else if 0 <= next < slots.len() && slots[next] is Some {
        spec_place(slots, node_id, cap, next + 1)
    } else {
        let piece = if cap > UNIT {
            UNIT
        } else {
            cap
        };
        let placed = Some(Segment { node_id, len: piece });
        let slots2 = if 0 <= next < slots.len() {
            slots.update(next, placed)
        } else {
            slots.push(placed)
        };
        spec_place(slots2, node_id, (cap - piece) as u64, next + 1)
    }
}

/// A whole batch placed by the greedy walk, the cursor threaded from one
/// node to the next.
pub open spec fn spec_place_all(
    slots: Seq<Option<Segment>>,
    nodes: Seq<Node>,
    next: int,
) -> (Seq<Option<Segment>>, int)
    decreases nodes.len(),
{
    if nodes.len() == 0 {
        (slots, next)
    } else {
        let placed = spec_place(slots, nodes[0].node_id, nodes[0].cap, next);
        spec_place_all(placed.0, nodes.drop_first(), placed.1)
    }
}

impl SegmentTable {
    /// Place one node's capacity, walking upward from slot `next`: every
    /// vacant slot on the way receives a whole-`UNIT` segment (or the
    /// remainder, on the last one); occupied slots are skipped.  Holes left
    /// by removals are thereby refilled before the table grows at the right
    /// edge.  Returns the cursor one past the last slot visited.  The
    /// resulting slots and cursor are exactly those of the specification
    /// walk [`spec_place`].
    pub(crate) fn add_node(&mut self, node_id: u64, cap: u64, next: usize) -> (l: usize)
        requires
            old(self).wf_core(),
            !has_id(old(self).nodes@, node_id),
            0 < cap,
            next <= old(self).slots@.len(),
            old(self).slots@.len() + (cap + UNIT - 1) / (UNIT as int) <= MAX_SLOTS,
        ensures
            final(self).wf_core(),
            final(self).nodes@ == old(self).nodes@.push(NodeRec { node_id, cap }),
            final(self).max_bound == old(self).max_bound,
            old(self).slots@.len() <= final(self).slots@.len(),
            final(self).slots@.len() <= old(self).slots@.len() + (cap + UNIT - 1) / (
            UNIT as int),
            next <= l <= final(self).slots@.len(),
            next == old(self).slots@.len() ==> l == final(self).slots@.len(),
            next == old(self).slots@.len() ==> final(self).slots@.len() == old(
                self,
            ).slots@.len() + (cap + UNIT - 1) / (UNIT as int),
            (final(self).slots@, l as int) == spec_place(
                old(self).slots@,
                node_id,
                cap,
                next as int,
            ),
            forall|s: int| 0 <= s < old(self).slots@.len() && old(self).slots@[s] is Some
                ==> final(self).slots@[s] == old(self).slots@[s],
            forall|s: int| 0 <= s < next ==> final(self).slots@[s] == old(self).slots@[s],
            forall|s: int| 0 <= s < final(self).slots@.len() && final(self).slots@[s] is Some
                && (s >= old(self).slots@.len() || old(self).slots@[s] is None)
                ==> (#[trigger] final(self).slots@[s]).unwrap().node_id == node_id,
    {
        proof {
            lemma_mass_absent(self.slots@, node_id);
        }
        self.nodes.push(NodeRec { node_id, cap });
        let ghost old_slots = old(self).slots@;
        let ghost old_nodes = old(self).nodes@;
        proof {
            assert forall|s: int| 0 <= s < self.slots@.len() && self.slots@[s] is Some implies 0 < (
            #[trigger] self.slots@[s]).unwrap().len <= UNIT && has_id(
                self.nodes@,
                self.slots@[s].unwrap().node_id,
            ) by {
                lemma_has_id_push(old_nodes, NodeRec { node_id, cap }, self.slots@[s].unwrap().node_id);
            }
        }
        let mut remaining: u64 = cap;
        let mut l: usize = next;
        while remaining > 0
            invariant
                old(self).wf_core(),
                !has_id(old_nodes, node_id),
                old_slots == old(self).slots@,
                old_nodes == old(self).nodes@,
                0 < cap,
                remaining <= cap,
                self.nodes@ == old_nodes.push(NodeRec { node_id, cap }),
                self.max_bound == old(self).max_bound,
                next <= l <= self.slots@.len(),
                next == old_slots.len() ==> l == self.slots@.len(),
                next == old_slots.len() ==> self.slots@.len() + (if remaining > 0 {
                    (remaining + UNIT - 1) / (UNIT as int)
                } else {
                    0
                }) == old_slots.len() + (cap + UNIT - 1) / (UNIT as int),
                spec_place(old_slots, node_id, cap, next as int) == spec_place(
                    self.slots@,
                    node_id,
                    remaining,
                    l as int,
                ),
                old_slots.len() <= self.slots@.len(),
                self.slots@.len() + (if remaining > 0 {
                    (remaining + UNIT - 1) / (UNIT as int)
                } else {
                    0
                }) <= old_slots.len() + (cap + UNIT - 1) / (UNIT as int),
                old_slots.len() + (cap + UNIT - 1) / (UNIT as int) <= MAX_SLOTS,
                forall|s: int| 0 <= s < old_slots.len() && old_slots[s] is Some
                    ==> self.slots@[s] == old_slots[s],
                forall|s: int| 0 <= s < next ==> self.slots@[s] == old_slots[s],
                forall|s: int| 0 <= s < self.slots@.len() && self.slots@[s] is Some
                    && (s >= old_slots.len() || old_slots[s] is None)
                    ==> (#[trigger] self.slots@[s]).unwrap().node_id == node_id,
                forall|s: int| 0 <= s < self.slots@.len() && self.slots@[s] is Some
                    ==> 0 < (#[trigger] self.slots@[s]).unwrap().len <= UNIT
                        && has_id(self.nodes@, self.slots@[s].unwrap().node_id),
                self.slots@.len() > 0 ==> self.slots@.last() is Some,
                seg_mass(self.slots@, node_id) == cap - remaining,
                forall|j: int| 0 <= j < old_nodes.len()
                    ==> seg_mass(self.slots@, (#[trigger] old_nodes[j]).node_id)
                        == old_nodes[j].cap,
            decreases remaining, self.slots@.len() - l,
        {
            let ghost pre = self.slots@;
            let ghost rem_pre = remaining;
            let len = self.slots.len();
            let vacant = l >= len || self.slots[l].is_none();
            if vacant {
                let seg_len = if remaining > UNIT {
                    UNIT
                } else {
                    remaining
                };
                remaining = remaining - seg_len;
                let seg = Segment { node_id, len: seg_len };
                if l < len {
                    self.slots[l] = Some(seg);
                    proof {
                        assert(spec_place(pre, node_id, rem_pre, l as int) == spec_place(
                            self.slots@,
                            node_id,
                            remaining,
                            l + 1,
                        ));
                        lemma_mass_update(pre, l as int, Some(seg), node_id);
                        assert forall|j: int| 0 <= j < old_nodes.len() implies seg_mass(
                            self.slots@,
                            (#[trigger] old_nodes[j]).node_id,
                        ) == old_nodes[j].cap by {
                            lemma_mass_update(pre, l as int, Some(seg), old_nodes[j].node_id);
                        }
                    }
                } else {
                    self.slots.push(Some(seg));
                    proof {
                        assert(spec_place(pre, node_id, rem_pre, l as int) == spec_place(
                            self.slots@,
                            node_id,
                            remaining,
                            l + 1,
                        ));
                        lemma_mass_push(pre, Some(seg), node_id);
                        assert forall|j: int| 0 <= j < old_nodes.len() implies seg_mass(
                            self.slots@,
                            (#[trigger] old_nodes[j]).node_id,
                        ) == old_nodes[j].cap by {
                            lemma_mass_push(pre, Some(seg), old_nodes[j].node_id);
                        }
                    }
                }
                proof {
                    assert(self.nodes@[old_nodes.len() as int].node_id == node_id);
                    assert forall|s: int| 0 <= s < self.slots@.len() && self.slots@[s] is Some
                        implies 0 < (#[trigger] self.slots@[s]).unwrap().len <= UNIT && has_id(
                        self.nodes@,
                        self.slots@[s].unwrap().node_id,
                    ) by {
                        if s != l {
                            assert(self.slots@[s] == pre[s]);
                        }
                    }
                }
            }
            proof {
                if !vacant {
                    assert(spec_place(pre, node_id, rem_pre, l as int) == spec_place(
                        pre,
                        node_id,
                        rem_pre,
                        l + 1,
                    ));
                }
            }
            l = l + 1;
        }
        proof {
            assert(spec_place(self.slots@, node_id, 0, l as int) == (self.slots@, l as int));
        }
        l
    }

    /// Add a batch of nodes.  Each node's segments are placed starting at
    /// the cursor where the previous node's walk ended, beginning at slot
    /// zero, and the tick bound is recomputed once at the end.
    ///
    /// Every id must be new and every capacity positive, and the batch must
    /// fit under the table's slot limit.
    pub fn add_nodes(&mut self, nodes: &Vec<Node>)
        requires
            old(self).wf(),
            forall|i: int, j: int| 0 <= i < j < nodes@.len()
                ==> (#[trigger] nodes@[i]).node_id != (#[trigger] nodes@[j]).node_id,
            forall|i: int| 0 <= i < nodes@.len()
                ==> 0 < (#[trigger] nodes@[i]).cap && !has_id(old(self).nodes@, nodes@[i].node_id),
            old(self).slots@.len() + slots_needed(nodes@) <= MAX_SLOTS,
        ensures
            final(self).wf(),
            final(self).nodes@ == old(self).nodes@ + Seq::new(
                nodes@.len() as nat,
                |i: int| NodeRec { node_id: nodes@[i].node_id, cap: nodes@[i].cap },
            ),
            old(self).slots@.len() <= final(self).slots@.len(),
            final(self).slots@.len() <= old(self).slots@.len() + slots_needed(nodes@),
            final(self).slots@ == spec_place_all(old(self).slots@, nodes@, 0).0,
            forall|s: int| 0 <= s < old(self).slots@.len() && old(self).slots@[s] is Some
                ==> final(self).slots@[s] == old(self).slots@[s],
    {
        let ghost incoming = nodes@;
        proof {
            assert(incoming.skip(0) =~= incoming);
        }
        let mut next: usize = 0;
        let mut i: usize = 0;
        while i < nodes.len()
            invariant
                incoming == nodes@,
                self.wf_core(),
                self.max_bound == old(self).max_bound,
                i <= incoming.len(),
                next <= self.slots@.len(),
                self.nodes@ == old(self).nodes@ + Seq::new(
                    i as nat,
                    |j: int| NodeRec { node_id: incoming[j].node_id, cap: incoming[j].cap },
                ),
                self.slots@.len() + slots_needed(incoming.skip(i as int)) <= MAX_SLOTS,
                self.slots@.len() + slots_needed(incoming.skip(i as int)) <= old(
                    self,
                ).slots@.len() + slots_needed(incoming),
                spec_place_all(old(self).slots@, incoming, 0) == spec_place_all(
                    self.slots@,
                    incoming.skip(i as int),
                    next as int,
                ),
                old(self).slots@.len() <= self.slots@.len(),
                forall|s: int| 0 <= s < old(self).slots@.len() && old(self).slots@[s] is Some
                    ==> self.slots@[s] == old(self).slots@[s],
                forall|ii: int, jj: int| 0 <= ii < jj < incoming.len()
                    ==> (#[trigger] incoming[ii]).node_id != (#[trigger] incoming[jj]).node_id,
                forall|j: int| i <= j < incoming.len()
                    ==> 0 < (#[trigger] incoming[j]).cap
                        && !has_id(self.nodes@, incoming[j].node_id),
            decreases nodes@.len() - i,
        {
            let ghost pre_nodes = self.nodes@;
            let node = nodes[i];
            proof {
                assert(slots_needed(incoming.skip(i as int)) == (node.cap + UNIT - 1) / (
                UNIT as int) + slots_needed(incoming.skip(i + 1))) by {
                    assert(incoming.skip(i as int).drop_first() =~= incoming.skip(i + 1));
                    lemma_slots_needed_nonneg(incoming.skip(i + 1));
                }
                lemma_slots_needed_nonneg(incoming.skip(i + 1));
            }
            let ghost pre_slots = self.slots@;
            let ghost pre_next = next as int;
            next = self.add_node(node.node_id, node.cap, next);
            proof {
                assert(incoming.skip(i as int).drop_first() =~= incoming.skip(i + 1));
                assert(incoming.skip(i as int)[0] == incoming[i as int]);
                assert(spec_place_all(pre_slots, incoming.skip(i as int), pre_next)
                    == spec_place_all(self.slots@, incoming.skip(i + 1), next as int));
                assert(self.nodes@ =~= old(self).nodes@ + Seq::new(
                    (i + 1) as nat,
                    |j: int| NodeRec { node_id: incoming[j].node_id, cap: incoming[j].cap },
                ));
                assert forall|j: int| i + 1 <= j < incoming.len() implies !has_id(
                    self.nodes@,
                    incoming[j].node_id,
                ) by {
                    assert(!has_id(pre_nodes, incoming[j].node_id));
                    assert(incoming[j].node_id != incoming[i as int].node_id);
                }
            }
            i = i + 1;
        }
        proof {
            assert(incoming.skip(i as int) =~= Seq::<Node>::empty());
            assert(spec_place_all(self.slots@, incoming.skip(i as int), next as int) == (
                self.slots@,
                next as int,
            ));
        }
        self.recalc_max_bound();
    }

    /// Delete every segment of one node, drop the vacated right edge,
    /// remove the node from the roster, and recompute the tick bound.  The
    /// vacated slots may be refilled by a later addition.
    pub fn remove_node(&mut self, node_id: u64)
        requires
            old(self).wf(),
            has_id(old(self).nodes@, node_id),
        ensures
            final(self).wf(),
            final(self).slots@ == spec_trim(spec_mask_out(old(self).slots@, node_id)),
            final(self).slots@.len() <= old(self).slots@.len(),
            exists|idx: int|
                0 <= idx < old(self).nodes@.len()
                    && (#[trigger] old(self).nodes@[idx]).node_id == node_id
                    && final(self).nodes@ == old(self).nodes@.remove(idx),
    {
        let ghost old_slots = old(self).slots@;
        let ghost old_nodes = old(self).nodes@;
        // Blank out the node's segments.
        let mut i: usize = 0;
        let n = self.slots.len();
        while i < n
            invariant
                n == self.slots@.len(),
                old_slots.len() == self.slots@.len(),
                i <= n,
                self.nodes@ == old_nodes,
                self.max_bound == old(self).max_bound,
                forall|s: int| 0 <= s < i ==> self.slots@[s] == spec_mask_out(old_slots, node_id)[s],
                forall|s: int| i <= s < n ==> self.slots@[s] == old_slots[s],
            decreases n - i,
        {
            let blank = match self.slots[i] {
                Some(seg) => seg.node_id == node_id,
                None => false,
            };
            if blank {
                self.slots[i] = None;
            }
            i = i + 1;
        }
        proof {
            assert(self.slots@ =~= spec_mask_out(old_slots, node_id));
        }
        // Drop the vacated right edge.
        while self.slots.len() > 0 && self.slots[self.slots.len() - 1].is_none()
            invariant
                self.nodes@ == old_nodes,
                self.max_bound == old(self).max_bound,
                spec_trim(self.slots@) == spec_trim(spec_mask_out(old_slots, node_id)),
                self.slots@.len() <= old_slots.len(),
            decreases self.slots@.len(),
        {
            let ghost pre = self.slots@;
            self.slots.pop();
            proof {
                assert(self.slots@ =~= pre.drop_last());
            }
        }
        proof {
            assert(self.slots@ == spec_trim(self.slots@));
        }
        // Remove the roster entry.
        let ghost trimmed = self.slots@;
        let mut j: usize = 0;
        let m = self.nodes.len();
        while j < m
            invariant_except_break
                m == self.nodes@.len(),
                self.nodes@ == old_nodes,
                j <= m,
                has_id(old_nodes, node_id),
                self.slots@ == trimmed,
                self.max_bound == old(self).max_bound,
                forall|jj: int| 0 <= jj < j ==> (#[trigger] old_nodes[jj]).node_id != node_id,
            ensures
                self.slots@ == trimmed,
                self.max_bound == old(self).max_bound,
                exists|idx: int|
                    0 <= idx < old_nodes.len()
                        && (#[trigger] old_nodes[idx]).node_id == node_id
                        && self.nodes@ == old_nodes.remove(idx),
            decreases m - j,
        {
            if self.nodes[j].node_id == node_id {
                self.nodes.remove(j);
                proof {
                    assert(old_nodes[j as int].node_id == node_id);
                }
                break;
            }
            j = j + 1;
        }
        proof {
            let idx = choose|idx: int|
                0 <= idx < old_nodes.len() && (#[trigger] old_nodes[idx]).node_id == node_id
                    && self.nodes@ == old_nodes.remove(idx);
            lemma_mass_restore_masses(old_slots, old_nodes, self.nodes@, node_id);
            lemma_trim_is_prefix(spec_mask_out(old_slots, node_id));
            assert(old(self).wf_core());
            // Every remaining roster entry keeps a distinct id other than the
            // removed one, its capacity, and its mass.
            assert forall|jj: int| 0 <= jj < self.nodes@.len() implies 0 < (
            #[trigger] self.nodes@[jj]).cap && seg_mass(self.slots@, self.nodes@[jj].node_id)
                == self.nodes@[jj].cap && self.nodes@[jj].node_id != node_id by {
                if jj < idx {
                    assert(self.nodes@[jj] == old_nodes[jj]);
                } else {
                    assert(self.nodes@[jj] == old_nodes[jj + 1]);
                }
            }
            assert forall|jj: int, ll: int| 0 <= jj < ll < self.nodes@.len() implies (
            #[trigger] self.nodes@[jj]).node_id != (#[trigger] self.nodes@[ll]).node_id by {
                let ojj: int = if jj < idx {
                    jj
                } else {
                    jj + 1
                };
                let oll: int = if ll < idx {
                    ll
                } else {
                    ll + 1
                };
                assert(self.nodes@[jj] == old_nodes[ojj]);
                assert(self.nodes@[ll] == old_nodes[oll]);
            }
            // Surviving segments belong to surviving roster entries.
            assert forall|s: int| 0 <= s < self.slots@.len() && self.slots@[s] is Some implies 0 < (
            #[trigger] self.slots@[s]).unwrap().len <= UNIT && has_id(
                self.nodes@,
                self.slots@[s].unwrap().node_id,
            ) by {
                assert(self.slots@[s] == spec_mask_out(old_slots, node_id)[s]);
                assert(self.slots@[s] == old_slots[s]);
                let owner = self.slots@[s].unwrap().node_id;
                assert(owner != node_id);
                let w = choose|w: int| 0 <= w < old_nodes.len() && old_nodes[w].node_id == owner;
                if w < idx {
                    assert(self.nodes@[w].node_id == owner);
                } else {
                    assert(w != idx);
                    assert(self.nodes@[w - 1].node_id == owner);
                }
            }
        }
        self.recalc_max_bound();
    }
}

/// Trimming only drops trailing vacancies: the result is a prefix whose
/// last slot, if any, is occupied.
pub proof fn lemma_trim_is_prefix(slots: Seq<Option<Segment>>)
    ensures
        spec_trim(slots).len() <= slots.len(),
        forall|i: int| 0 <= i < spec_trim(slots).len() ==> spec_trim(slots)[i] == slots[i],
        spec_trim(slots).len() > 0 ==> spec_trim(slots).last() is Some,
    decreases slots.len(),
{
    if slots.len() == 0 || slots.last() is Some {
    } else {
        lemma_trim_is_prefix(slots.drop_last());
        assert forall|i: int| 0 <= i < spec_trim(slots).len() implies spec_trim(slots)[i]
            == slots[i] by {
            assert(spec_trim(slots)[i] == slots.drop_last()[i]);
        }
    }
}

/// A node id still on the roster after another entry is removed.
pub proof fn lemma_has_id_push(nodes: Seq<NodeRec>, rec: NodeRec, id: u64)
    requires
        has_id(nodes, id),
    ensures
        has_id(nodes.push(rec), id),
{
    let j = choose|j: int| 0 <= j < nodes.len() && nodes[j].node_id == id;
    assert(nodes.push(rec)[j].node_id == id);
}

/// Helper for the removal proof: masking one node out and trimming keeps
/// every other node's mass.
proof fn lemma_mass_restore_masses(
    old_slots: Seq<Option<Segment>>,
    old_nodes: Seq<NodeRec>,
    new_nodes: Seq<NodeRec>,
    id: u64,
)
    ensures
        forall|j: int| 0 <= j < new_nodes.len() && (#[trigger] new_nodes[j]).node_id != id
            ==> seg_mass(spec_trim(spec_mask_out(old_slots, id)), new_nodes[j].node_id)
                == seg_mass(old_slots, new_nodes[j].node_id),
{
    assert forall|j: int| 0 <= j < new_nodes.len() && (#[trigger] new_nodes[j]).node_id != id
        implies seg_mass(spec_trim(spec_mask_out(old_slots, id)), new_nodes[j].node_id)
        == seg_mass(old_slots, new_nodes[j].node_id) by {
        lemma_mass_mask_out(old_slots, id, new_nodes[j].node_id);
        lemma_mass_trim(spec_mask_out(old_slots, id), new_nodes[j].node_id);
    }
}

/// Mass conservation: in every well-formed table — so after any sequence
/// of additions and removals — the segment lengths owned by each present
/// node sum to exactly the capacity that node was added with.
pub proof fn lemma_mass_conservation(t: SegmentTable)
    requires
        t.wf(),
    ensures
        forall|j: int| 0 <= j < t.nodes@.len()
            ==> seg_mass(t.slots@, (#[trigger] t.nodes@[j]).node_id) == t.nodes@[j].cap,
{
}

/// A batch never needs a negative number of slots.
pub proof fn lemma_slots_needed_nonneg(nodes: Seq<Node>)
    ensures
        slots_needed(nodes) >= 0,
    decreases nodes.len(),
{
    if nodes.len() > 0 {
        lemma_slots_needed_nonneg(nodes.drop_first());
    }
}

} // verus!
