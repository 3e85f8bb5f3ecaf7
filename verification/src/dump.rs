//! Dump and restore of a segment table.
//!
//! A dump lists one row per occupied slot, `{node_id, l, len}`, grouped by
//! node in roster order (each node's rows in slot order).  Restoring places
//! the rows back one by one, rejecting anything malformed: a zero or
//! oversized length, a slot out of range, a collision, or a capacity
//! overflow.  A restored table is well-formed, and restoring a table's own
//! dump rebuilds it exactly.

use vstd::prelude::*;

verus! {

use crate::{UNIT, MAX_SLOTS};
use crate::table::{
    Segment,
    NodeRec,
    SegmentTable,
    seg_mass,
    has_id,
    table_wf,
    lemma_mass_update,
    lemma_mass_push,
    lemma_mass_absent,
    lemma_has_id_push,
};

/// One dump row: `len` ticks at slot `l`, owned by `node_id`.
#[derive(Clone, Copy, PartialEq, Eq, Structural)]
pub struct Row {
    pub node_id: u64,
    pub l: u64,
    pub len: u64,
}

/// A serializable dump of a segment table.
pub struct Table {
    pub rows: Vec<Row>,
}

/// Index of the first roster entry with the given id (the roster length if
/// absent).
pub open spec fn roster_index(nodes: Seq<NodeRec>, id: u64) -> int
    decreases nodes.len(),
{
    if nodes.len() == 0 {
        0
    } else if nodes[0].node_id == id {
        0
    } else {
        1 + roster_index(nodes.drop_first(), id)
    }
}

/// When the id is on the roster, `roster_index` finds its first entry.
pub proof fn lemma_roster_index_finds(nodes: Seq<NodeRec>, id: u64)
    requires
        has_id(nodes, id),
    ensures
        0 <= roster_index(nodes, id) < nodes.len(),
        nodes[roster_index(nodes, id)].node_id == id,
        forall|j: int| 0 <= j < roster_index(nodes, id) ==> (#[trigger] nodes[j]).node_id != id,
    decreases nodes.len(),
{
    if nodes.len() > 0 && nodes[0].node_id != id {
        let j = choose|j: int| 0 <= j < nodes.len() && nodes[j].node_id == id;
        assert(nodes.drop_first()[j - 1].node_id == id);
        lemma_roster_index_finds(nodes.drop_first(), id);
        assert forall|jj: int| 0 <= jj < roster_index(nodes, id) implies (
        #[trigger] nodes[jj]).node_id != id by {
            if jj > 0 {
                assert(nodes[jj] == nodes.drop_first()[jj - 1]);
            }
        }
    }
}

/// Place one row into a partially restored table, or reject it.
pub open spec fn place_row(
    st: Option<(Seq<Option<Segment>>, Seq<NodeRec>)>,
    row: Row,
) -> Option<(Seq<Option<Segment>>, Seq<NodeRec>)> {
    match st {
        None => None,
        Some(p) => {
            let slots = p.0;
            let nodes = p.1;
            if row.len == 0 || row.len > UNIT || row.l >= MAX_SLOTS {
                None
            } else if (row.l as int) < slots.len() && slots[row.l as int] is Some {
                None
            } else if has_id(nodes, row.node_id) && nodes[roster_index(nodes, row.node_id)].cap
                + row.len > u64::MAX {
                None
            } else {
                let seg = Segment { node_id: row.node_id, len: row.len };
                let slots2 = if (row.l as int) < slots.len() {
                    slots.update(row.l as int, Some(seg))
                } else {
                    slots + Seq::new((row.l - slots.len()) as nat, |i: int| None) + seq![Some(seg)]
                };
                let nodes2 = if has_id(nodes, row.node_id) {
                    let j = roster_index(nodes, row.node_id);
                    nodes.update(
                        j,
                        NodeRec { node_id: row.node_id, cap: (nodes[j].cap + row.len) as u64 },
                    )
                } else {
                    nodes.push(NodeRec { node_id: row.node_id, cap: row.len })
                };
                Some((slots2, nodes2))
            }
        },
    }
}

/// Restore a sequence of rows into slots and a roster, left to right.
pub open spec fn restore_rows(rows: Seq<Row>) -> Option<(Seq<Option<Segment>>, Seq<NodeRec>)>
    decreases rows.len(),
{
    if rows.len() == 0 {
        Some((Seq::empty(), Seq::empty()))
    } else {
        place_row(restore_rows(rows.drop_last()), rows.last())
    }
}

/// A rejected prefix rejects the whole row sequence.
pub proof fn lemma_restore_none_persists(rows: Seq<Row>, i: int)
    requires
        0 <= i <= rows.len(),
        restore_rows(rows.take(i)) is None,
    ensures
        restore_rows(rows) is None,
    decreases rows.len() - i,
{
    if i < rows.len() {
        assert(rows.take(i + 1).drop_last() =~= rows.take(i));
        assert(rows.take(i + 1).last() == rows[i]);
        lemma_restore_none_persists(rows, i + 1);
    } else {
        assert(rows.take(i) =~= rows);
    }
}

/// Padding with vacancies changes no node's mass.
proof fn lemma_mass_append_nones(slots: Seq<Option<Segment>>, p: nat, id: u64)
    ensures
        seg_mass(slots + Seq::new(p, |i: int| None), id) == seg_mass(slots, id),
    decreases p,
{
    if p == 0 {
        assert(slots + Seq::new(0, |i: int| None) =~= slots);
    } else {
        assert(slots + Seq::new(p, |i: int| None) =~= (slots + Seq::new(
            (p - 1) as nat,
            |i: int| None,
        )).push(None));
        lemma_mass_push(slots + Seq::new((p - 1) as nat, |i: int| None), None, id);
        lemma_mass_append_nones(slots, (p - 1) as nat, id);
    }
}

/// Whatever a restore accepts is a well-formed table.
pub proof fn lemma_restore_wf(rows: Seq<Row>)
    ensures
        restore_rows(rows) matches Some(st) ==> table_wf(st.0, st.1),
    decreases rows.len(),
{
    if rows.len() == 0 {
    } else if restore_rows(rows) is Some {
        let prev = restore_rows(rows.drop_last());
        lemma_restore_wf(rows.drop_last());
        let row = rows.last();
        let slots = prev.unwrap().0;
        let nodes = prev.unwrap().1;
        let st = restore_rows(rows).unwrap();
        let seg = Segment { node_id: row.node_id, len: row.len };
        let l = row.l as int;
        // The new slot arrangement.
        if l < slots.len() {
            assert(st.0 == slots.update(l, Some(seg)));
            assert(st.0.last() is Some) by {
                if l == slots.len() - 1 {
                } else {
                    assert(st.0.last() == slots.last());
                }
            }
        } else {
            assert(st.0 == slots + Seq::new((row.l - slots.len()) as nat, |i: int| None) + seq![
                Some(seg),
            ]);
            assert(st.0.len() == l + 1);
            assert(st.0.last() == Some(seg));
        }
        // Masses.
        assert forall|id: u64| true implies seg_mass(st.0, id) == seg_mass(slots, id) + (if id
            == row.node_id {
            row.len as int
        } else {
            0
        }) by {
            if l < slots.len() {
                lemma_mass_update(slots, l, Some(seg), id);
            } else {
                let padded = slots + Seq::new((row.l - slots.len()) as nat, |i: int| None);
                lemma_mass_append_nones(slots, (row.l - slots.len()) as nat, id);
                assert(st.0 =~= padded.push(Some(seg)));
                lemma_mass_push(padded, Some(seg), id);
            }
        }
        assert(table_wf(slots, nodes));
        // The new roster.
        if has_id(nodes, row.node_id) {
            lemma_roster_index_finds(nodes, row.node_id);
            let j = roster_index(nodes, row.node_id);
            assert(st.1 == nodes.update(
                j,
                NodeRec { node_id: row.node_id, cap: (nodes[j].cap + row.len) as u64 },
            ));
            assert(nodes[j].cap + row.len <= u64::MAX);
            assert(seg_mass(st.0, row.node_id) == seg_mass(slots, row.node_id) + row.len);
            assert forall|jj: int| 0 <= jj < st.1.len() implies 0 < (#[trigger] st.1[jj]).cap
                && seg_mass(st.0, st.1[jj].node_id) == st.1[jj].cap by {
                if jj != j {
                    assert(st.1[jj] == nodes[jj]);
                    if jj < j {
                        assert(nodes[jj].node_id != nodes[j].node_id);
                    } else {
                        assert(nodes[j].node_id != nodes[jj].node_id);
                    }
                    assert(st.1[jj].node_id != row.node_id);
                    assert(0 < nodes[jj].cap);
                    assert(seg_mass(slots, nodes[jj].node_id) == nodes[jj].cap);
                    assert(seg_mass(st.0, st.1[jj].node_id) == seg_mass(slots, st.1[jj].node_id));
                } else {
                    assert(st.1[j].node_id == row.node_id);
                    assert(0 < nodes[j].cap);
                    assert(seg_mass(slots, nodes[j].node_id) == nodes[j].cap);
                    assert(st.1[j].cap == nodes[j].cap + row.len);
                }
            }
            assert forall|s: int| 0 <= s < st.0.len() && st.0[s] is Some implies 0 < (
            #[trigger] st.0[s]).unwrap().len <= UNIT && has_id(st.1, st.0[s].unwrap().node_id) by {
                if s != l {
                    assert(st.0[s] == slots[s]);
                    let owner = st.0[s].unwrap().node_id;
                    let w = choose|w: int| 0 <= w < nodes.len() && nodes[w].node_id == owner;
                    assert(st.1[w].node_id == owner);
                } else {
                    assert(st.1[j].node_id == row.node_id);
                }
            }
        } else {
            assert(st.1 == nodes.push(NodeRec { node_id: row.node_id, cap: row.len }));
            assert forall|jj: int| 0 <= jj < st.1.len() implies 0 < (#[trigger] st.1[jj]).cap
                && seg_mass(st.0, st.1[jj].node_id) == st.1[jj].cap by {
                if jj < nodes.len() {
                    assert(st.1[jj] == nodes[jj]);
                    assert(st.1[jj].node_id != row.node_id);
                    assert(0 < nodes[jj].cap);
                    assert(seg_mass(slots, nodes[jj].node_id) == nodes[jj].cap);
                } else {
                    assert(st.1[jj].node_id == row.node_id);
                    assert forall|s: int| 0 <= s < slots.len() && slots[s] is Some implies (
                    #[trigger] slots[s]).unwrap().node_id != row.node_id by {
                        if slots[s].unwrap().node_id == row.node_id {
                            assert(has_id(nodes, row.node_id));
                        }
                    }
                    lemma_mass_absent(slots, row.node_id);
                    assert(seg_mass(st.0, row.node_id) == row.len);
                }
            }
            assert forall|s: int| 0 <= s < st.0.len() && st.0[s] is Some implies 0 < (
            #[trigger] st.0[s]).unwrap().len <= UNIT && has_id(st.1, st.0[s].unwrap().node_id) by {
                if s != l {
                    assert(st.0[s] == slots[s]);
                    lemma_has_id_push(
                        nodes,
                        NodeRec { node_id: row.node_id, cap: row.len },
                        st.0[s].unwrap().node_id,
                    );
                } else {
                    assert(st.1[nodes.len() as int].node_id == row.node_id);
                }
            }
        }
    }
}

/// Restoration continued from a partial state.
pub open spec fn restore_from(
    st: Option<(Seq<Option<Segment>>, Seq<NodeRec>)>,
    rows: Seq<Row>,
) -> Option<(Seq<Option<Segment>>, Seq<NodeRec>)>
    decreases rows.len(),
{
    if rows.len() == 0 {
        st
    } else {
        place_row(restore_from(st, rows.drop_last()), rows.last())
    }
}

/// Restoring a row sequence is restoring from the empty state.
pub proof fn lemma_restore_rows_is_from_empty(rows: Seq<Row>)
    ensures
        restore_rows(rows) == restore_from(
            Some((Seq::<Option<Segment>>::empty(), Seq::<NodeRec>::empty())),
            rows,
        ),
    decreases rows.len(),
{
    if rows.len() > 0 {
        lemma_restore_rows_is_from_empty(rows.drop_last());
    }
}

/// Restoration processes a concatenation left part first.
pub proof fn lemma_restore_from_concat(
    st: Option<(Seq<Option<Segment>>, Seq<NodeRec>)>,
    a: Seq<Row>,
    b: Seq<Row>,
)
    ensures
        restore_from(st, a + b) == restore_from(restore_from(st, a), b),
    decreases b.len(),
{
    if b.len() == 0 {
        assert(a + b =~= a);
    } else {
        assert((a + b).drop_last() =~= a + b.drop_last());
        assert((a + b).last() == b.last());
        lemma_restore_from_concat(st, a, b.drop_last());
    }
}

/// The rows of one node within the first `s` slots, in slot order.
pub open spec fn rows_for(slots: Seq<Option<Segment>>, id: u64, s: nat) -> Seq<Row>
    decreases s,
{
    if s == 0 {
        Seq::empty()
    } else {
        rows_for(slots, id, (s - 1) as nat) + match slots[s - 1] {
            Some(seg) => if seg.node_id == id {
                seq![Row { node_id: id, l: (s - 1) as u64, len: seg.len }]
            } else {
                Seq::empty()
            },
            None => Seq::empty(),
        }
    }
}

/// The dump of a table: each roster node's rows, in roster order.
pub open spec fn spec_dump(slots: Seq<Option<Segment>>, nodes: Seq<NodeRec>) -> Seq<Row>
    decreases nodes.len(),
{
    if nodes.len() == 0 {
        Seq::empty()
    } else {
        rows_for(slots, nodes[0].node_id, slots.len()) + spec_dump(slots, nodes.drop_first())
    }
}

/// A node's mass never goes negative.
proof fn lemma_mass_nonneg(slots: Seq<Option<Segment>>, id: u64)
    ensures
        seg_mass(slots, id) >= 0,
    decreases slots.len(),
{
    if slots.len() > 0 {
        lemma_mass_nonneg(slots.drop_last(), id);
    }
}

/// A node's mass within a prefix of the slots never exceeds its whole
/// mass.
proof fn lemma_mass_take_le(slots: Seq<Option<Segment>>, id: u64, s: int)
    requires
        0 <= s <= slots.len(),
    ensures
        seg_mass(slots.take(s), id) <= seg_mass(slots, id),
    decreases slots.len() - s,
{
    if s == slots.len() {
        assert(slots.take(s) =~= slots);
    } else {
        assert(slots.take(s + 1).drop_last() =~= slots.take(s));
        assert(slots.take(s + 1).last() == slots[s]);
        lemma_mass_take_le(slots, id, s + 1);
    }
}

/// The segments of the first `i` roster nodes, plus those of node `i`
/// lying in slots below `s`: the part of the table that the first rows of
/// a dump rebuild.
pub open spec fn dump_mask(
    slots: Seq<Option<Segment>>,
    nodes: Seq<NodeRec>,
    i: int,
    s: int,
) -> Seq<Option<Segment>> {
    Seq::new(slots.len(), |x: int| match slots[x] {
        Some(seg) => if has_id(nodes.take(i), seg.node_id)
            || (0 <= i < nodes.len() && seg.node_id == nodes[i].node_id && x < s) {
            Some(seg)
        } else {
            None
        },
        None => None,
    })
}

/// A partially restored state agrees with the masked table: its slots are
/// a prefix of the mask and the mask is vacant beyond them, and its roster
/// is the given one.
pub open spec fn partial_matches(
    st: Option<(Seq<Option<Segment>>, Seq<NodeRec>)>,
    m: Seq<Option<Segment>>,
    pn: Seq<NodeRec>,
) -> bool {
    &&& st is Some
    &&& st.unwrap().1 == pn
    &&& st.unwrap().0.len() <= m.len()
    &&& (forall|x: int| 0 <= x < st.unwrap().0.len() ==> st.unwrap().0[x] == m[x])
    &&& (forall|x: int| st.unwrap().0.len() <= x < m.len() ==> m[x] is None)
}

/// Replaying one node's rows up to slot `s` extends the restored state by
/// exactly that node's segments below `s`, accumulating their mass.
proof fn lemma_restore_node_rows(
    slots: Seq<Option<Segment>>,
    nodes: Seq<NodeRec>,
    i: int,
    s: int,
    st: Option<(Seq<Option<Segment>>, Seq<NodeRec>)>,
)
    requires
        table_wf(slots, nodes),
        0 <= i < nodes.len(),
        0 <= s <= slots.len(),
        partial_matches(st, dump_mask(slots, nodes, i, 0), nodes.take(i)),
    ensures
        ({
            let rid = nodes[i].node_id;
            let pm = seg_mass(slots.take(s), rid);
            partial_matches(
                restore_from(st, rows_for(slots, rid, s as nat)),
                dump_mask(slots, nodes, i, s),
                if pm > 0 {
                    nodes.take(i).push(NodeRec { node_id: rid, cap: pm as u64 })
                } else {
                    nodes.take(i)
                },
            )
        }),
    decreases s,
{
    let rid = nodes[i].node_id;
    assert(!has_id(nodes.take(i), rid)) by {
        if has_id(nodes.take(i), rid) {
            let j = choose|j: int| 0 <= j < i && nodes.take(i)[j].node_id == rid;
            assert(nodes[j].node_id != nodes[i].node_id);
        }
    }
    if s == 0 {
        assert(dump_mask(slots, nodes, i, 0) =~= dump_mask(slots, nodes, i, s));
        assert(slots.take(0) =~= Seq::<Option<Segment>>::empty());
    } else {
        lemma_restore_node_rows(slots, nodes, i, s - 1, st);
        let pm_prev = seg_mass(slots.take(s - 1), rid);
        let pm = seg_mass(slots.take(s), rid);
        lemma_mass_nonneg(slots.take(s - 1), rid);
        assert(slots.take(s).drop_last() =~= slots.take(s - 1));
        assert(slots.take(s).last() == slots[s - 1]);
        let pn_prev: Seq<NodeRec> = if pm_prev > 0 {
            nodes.take(i).push(NodeRec { node_id: rid, cap: pm_prev as u64 })
        } else {
            nodes.take(i)
        };
        let p = restore_from(st, rows_for(slots, rid, (s - 1) as nat));
        let mprev = dump_mask(slots, nodes, i, s - 1);
        let mcur = dump_mask(slots, nodes, i, s);
        let owned = slots[s - 1] is Some && slots[s - 1].unwrap().node_id == rid;
        if !owned {
            assert(rows_for(slots, rid, s as nat) == rows_for(slots, rid, (s - 1) as nat) + Seq::<
                Row,
            >::empty());
            lemma_restore_from_concat(st, rows_for(slots, rid, (s - 1) as nat), Seq::empty());
            assert(restore_from(st, rows_for(slots, rid, s as nat)) == p) by {
                assert(rows_for(slots, rid, s as nat) =~= rows_for(slots, rid, (s - 1) as nat));
            }
            assert(mcur =~= mprev);
            assert(pm == pm_prev);
        } else {
            let seg = slots[s - 1].unwrap();
            let row = Row { node_id: rid, l: (s - 1) as u64, len: seg.len };
            assert(rows_for(slots, rid, s as nat) == rows_for(slots, rid, (s - 1) as nat) + seq![
                row,
            ]);
            lemma_restore_from_concat(st, rows_for(slots, rid, (s - 1) as nat), seq![row]);
            assert(seq![row].drop_last() =~= Seq::<Row>::empty());
            assert(restore_from(p, seq![row].drop_last()) == p);
            assert(restore_from(p, seq![row]) == place_row(p, row));
            assert(restore_from(st, rows_for(slots, rid, s as nat)) == place_row(p, row));
            assert(pm == pm_prev + seg.len);
            // Validity of this placement.
            assert(0 < seg.len <= UNIT);
            assert(s - 1 < MAX_SLOTS);
            let ps = p.unwrap().0;
            let pn = p.unwrap().1;
            assert(pn == pn_prev);
            if (s - 1) < ps.len() {
                assert(ps[s - 1] == mprev[s - 1]);
                assert(mprev[s - 1] is None);
            }
            // The roster update.
            if pm_prev > 0 {
                assert(has_id(pn, rid)) by {
                    assert(pn[i] == NodeRec { node_id: rid, cap: pm_prev as u64 });
                }
                lemma_roster_index_finds(pn, rid);
                let ri = roster_index(pn, rid);
                assert(ri == i) by {
                    if ri < i {
                        assert(pn[ri] == nodes.take(i)[ri]);
                        assert(has_id(nodes.take(i), rid));
                    }
                }
                assert(has_id(nodes, rid)) by {
                    assert(nodes[i].node_id == rid);
                }
                assert(seg_mass(slots, rid) == nodes[i].cap);
                lemma_mass_take_le(slots, rid, s);
                assert(pn[ri].cap + row.len == pm <= nodes[i].cap);
                assert(place_row(p, row) is Some);
                assert(place_row(p, row).unwrap().1 =~= nodes.take(i).push(
                    NodeRec { node_id: rid, cap: pm as u64 },
                ));
            } else {
                assert(!has_id(pn, rid)) by {
                    if has_id(pn, rid) {
                        let j = choose|j: int| 0 <= j < pn.len() && pn[j].node_id == rid;
                        assert(nodes.take(i)[j].node_id == rid);
                        assert(has_id(nodes.take(i), rid));
                    }
                }
                assert(place_row(p, row) is Some);
                assert(place_row(p, row).unwrap().1 == nodes.take(i).push(
                    NodeRec { node_id: rid, cap: seg.len },
                ));
                assert(pm == seg.len);
            }
            // The slot arrangement.
            let q = place_row(p, row).unwrap().0;
            assert forall|x: int| 0 <= x < slots.len() && x != s - 1 implies mcur[x] == mprev[x] by {}
            if (s - 1) < ps.len() {
                assert(q == ps.update(s - 1, Some(seg)));
                assert forall|x: int| 0 <= x < q.len() implies q[x] == mcur[x] by {
                    if x != s - 1 {
                        assert(q[x] == ps[x]);
                    }
                }
                assert forall|x: int| q.len() <= x < slots.len() implies mcur[x] is None by {
                    assert(mprev[x] is None);
                }
            } else {
                assert(q == ps + Seq::new(((s - 1) - ps.len()) as nat, |y: int| None) + seq![
                    Some(seg),
                ]);
                assert(q.len() == s);
                assert forall|x: int| 0 <= x < q.len() implies q[x] == mcur[x] by {
                    if x < ps.len() {
                        assert(q[x] == ps[x]);
                    } else if x < s - 1 {
                        assert(q[x] is None);
                        assert(mprev[x] is None);
                    } else {
                        assert(q[x] == Some(seg));
                    }
                }
                assert forall|x: int| q.len() <= x < slots.len() implies mcur[x] is None by {
                    assert(mprev[x] is None);
                }
            }
        }
    }
}

/// Replaying the dump of the roster's tail, onto the state its head has
/// rebuilt, completes the table.
proof fn lemma_restore_dump_rec(
    slots: Seq<Option<Segment>>,
    nodes: Seq<NodeRec>,
    i: int,
    st: Option<(Seq<Option<Segment>>, Seq<NodeRec>)>,
)
    requires
        table_wf(slots, nodes),
        0 <= i <= nodes.len(),
        partial_matches(st, dump_mask(slots, nodes, i, 0), nodes.take(i)),
    ensures
        restore_from(st, spec_dump(slots, nodes.skip(i))) == Some((slots, nodes)),
    decreases nodes.len() - i,
{
    if i == nodes.len() {
        assert(nodes.skip(i) =~= Seq::<NodeRec>::empty());
        let ps = st.unwrap().0;
        assert(nodes.take(i) =~= nodes);
        assert forall|x: int| 0 <= x < slots.len() implies dump_mask(slots, nodes, i, 0)[x]
            == slots[x] by {
            if slots[x] is Some {
                assert(has_id(nodes, slots[x].unwrap().node_id));
                let w = choose|w: int|
                    0 <= w < nodes.len() && nodes[w].node_id == slots[x].unwrap().node_id;
                assert(nodes.take(i)[w].node_id == slots[x].unwrap().node_id);
            }
        }
        assert(ps.len() == slots.len()) by {
            if ps.len() < slots.len() {
                assert(dump_mask(slots, nodes, i, 0)[slots.len() - 1] is None);
                assert(slots.last() is Some);
            }
        }
        assert(ps =~= slots);
        assert(st == Some((slots, nodes)));
    } else {
        let rid = nodes[i].node_id;
        assert(nodes.skip(i).drop_first() =~= nodes.skip(i + 1));
        assert(nodes.skip(i)[0] == nodes[i]);
        assert(spec_dump(slots, nodes.skip(i)) == rows_for(slots, rid, slots.len()) + spec_dump(
            slots,
            nodes.skip(i + 1),
        ));
        lemma_restore_from_concat(
            st,
            rows_for(slots, rid, slots.len() as nat),
            spec_dump(slots, nodes.skip(i + 1)),
        );
        lemma_restore_node_rows(slots, nodes, i, slots.len() as int, st);
        let p2 = restore_from(st, rows_for(slots, rid, slots.len() as nat));
        let pm = seg_mass(slots.take(slots.len() as int), rid);
        assert(slots.take(slots.len() as int) =~= slots);
        assert(has_id(nodes, rid)) by {
            assert(nodes[i].node_id == rid);
        }
        assert(seg_mass(slots, rid) == nodes[i].cap);
        assert(pm == nodes[i].cap);
        assert(nodes.take(i).push(NodeRec { node_id: rid, cap: pm as u64 }) =~= nodes.take(i + 1));
        assert forall|x: int| 0 <= x < slots.len() implies dump_mask(slots, nodes, i, slots.len() as int)[x]
            == dump_mask(slots, nodes, i + 1, 0)[x] by {
            if slots[x] is Some {
                let o = slots[x].unwrap().node_id;
                if has_id(nodes.take(i), o) {
                    let w = choose|w: int| 0 <= w < i && (#[trigger] nodes.take(i)[w]).node_id == o;
                    assert(nodes.take(i + 1)[w].node_id == o);
                } else if o == rid {
                    assert(nodes.take(i + 1)[i].node_id == o);
                } else if has_id(nodes.take(i + 1), o) {
                    let w = choose|w: int| 0 <= w < i + 1 && (#[trigger] nodes.take(i + 1)[w]).node_id == o;
                    assert(w < i ==> nodes.take(i)[w].node_id == o);
                }
            }
        }
        assert(dump_mask(slots, nodes, i, slots.len() as int) =~= dump_mask(
            slots,
            nodes,
            i + 1,
            0,
        ));
        lemma_restore_dump_rec(slots, nodes, i + 1, p2);
    }
}

/// Dump round trip: restoring a well-formed table's own dump rebuilds
/// exactly the same slots and roster — so a restored cluster answers every
/// placement query exactly as the dumped one did.
pub proof fn lemma_dump_round_trip(slots: Seq<Option<Segment>>, nodes: Seq<NodeRec>)
    requires
        table_wf(slots, nodes),
    ensures
        restore_rows(spec_dump(slots, nodes)) == Some((slots, nodes)),
{
    let empty_state = Some((Seq::<Option<Segment>>::empty(), Seq::<NodeRec>::empty()));
    lemma_restore_rows_is_from_empty(spec_dump(slots, nodes));
    assert(nodes.skip(0) =~= nodes);
    assert(nodes.take(0) =~= Seq::<NodeRec>::empty());
    assert(partial_matches(
        empty_state,
        dump_mask(slots, nodes, 0, 0),
        Seq::<NodeRec>::empty(),
    )) by {
        assert forall|x: int| 0 <= x < slots.len() implies dump_mask(slots, nodes, 0, 0)[x]
            is None by {
            if slots[x] is Some {
                assert(!has_id(nodes.take(0), slots[x].unwrap().node_id));
            }
        }
    }
    lemma_restore_dump_rec(slots, nodes, 0, empty_state);
}

impl SegmentTable {
    /// Serialize the table: one row per occupied slot, grouped by node in
    /// roster order, each node's rows in slot order.
    pub fn dump_table(&self) -> (t: Table)
        requires
            self.wf(),
        ensures
            t.rows@ == spec_dump(self.slots@, self.nodes@),
    {
        let ghost slots = self.slots@;
        let ghost roster = self.nodes@;
        let mut rows: Vec<Row> = Vec::new();
        let mut i: usize = 0;
        let m = self.nodes.len();
        proof {
            assert(roster.skip(0) =~= roster);
        }
        while i < m
            invariant
                m == roster.len(),
                slots == self.slots@,
                roster == self.nodes@,
                i <= m,
                spec_dump(slots, roster) == rows@ + spec_dump(slots, roster.skip(i as int)),
            decreases m - i,
        {
            let ghost pre_rows = rows@;
            let id = self.nodes[i].node_id;
            let mut s: usize = 0;
            let n = self.slots.len();
            while s < n
                invariant
                    n == slots.len(),
                    slots == self.slots@,
                    roster == self.nodes@,
                    s <= n,
                    id == roster[i as int].node_id,
                    rows@ == pre_rows + rows_for(slots, id, s as nat),
                decreases n - s,
            {
                match self.slots[s] {
                    Some(seg) => {
                        if seg.node_id == id {
                            rows.push(Row { node_id: id, l: s as u64, len: seg.len });
                        }
                    },
                    None => {},
                }
                proof {
                    assert(rows@ =~= pre_rows + rows_for(slots, id, (s + 1) as nat));
                }
                s = s + 1;
            }
            proof {
                assert(roster.skip(i as int).drop_first() =~= roster.skip(i + 1));
                assert(roster.skip(i as int)[0] == roster[i as int]);
                assert(spec_dump(slots, roster.skip(i as int)) == rows_for(slots, id, slots.len())
                    + spec_dump(slots, roster.skip(i + 1)));
                assert(spec_dump(slots, roster) =~= rows@ + spec_dump(slots, roster.skip(i + 1)));
            }
            i = i + 1;
        }
        proof {
            assert(roster.skip(m as int) =~= Seq::<NodeRec>::empty());
            assert(spec_dump(slots, roster) =~= rows@);
        }
        Table { rows }
    }

    /// Rebuild a table from a dump.  Returns `None` exactly when the rows
    /// are rejected: a zero or oversized length, a slot out of range, two
    /// rows on one slot, or a capacity overflow.
    pub fn from_table(t: &Table) -> (r: Option<SegmentTable>)
        ensures
            match r {
                Some(st) => restore_rows(t.rows@) == Some((st.slots@, st.nodes@)) && st.wf(),
                None => restore_rows(t.rows@) is None,
            },
    {
        let ghost rows = t.rows@;
        let mut slots: Vec<Option<Segment>> = Vec::new();
        let mut nodes: Vec<NodeRec> = Vec::new();
        let mut i: usize = 0;
        let m = t.rows.len();
        while i < m
            invariant
                m == rows.len(),
                rows == t.rows@,
                i <= m,
                restore_rows(rows.take(i as int)) == Some((slots@, nodes@)),
            decreases m - i,
        {
            let ghost pre_slots = slots@;
            let ghost pre_nodes = nodes@;
            proof {
                assert(rows.take(i + 1).drop_last() =~= rows.take(i as int));
                assert(rows.take(i + 1).last() == rows[i as int]);
            }
            let row = t.rows[i];
            if row.len == 0 || row.len > UNIT || row.l >= MAX_SLOTS {
                proof {
                    lemma_restore_none_persists(rows, i + 1);
                }
                return None;
            }
            let li = row.l as usize;
            if li < slots.len() && slots[li].is_some() {
                proof {
                    lemma_restore_none_persists(rows, i + 1);
                }
                return None;
            }
            // Find the roster entry, if the id is already known.
            let mut j: usize = 0;
            let nn = nodes.len();
            while j < nn
                invariant_except_break
                    nn == nodes@.len(),
                    j <= nn,
                    forall|jj: int| 0 <= jj < j ==> (#[trigger] nodes@[jj]).node_id != row.node_id,
                ensures
                    nn == nodes@.len(),
                    j <= nn,
                    forall|jj: int| 0 <= jj < j ==> (#[trigger] nodes@[jj]).node_id != row.node_id,
                    j < nn ==> nodes@[j as int].node_id == row.node_id,
                decreases nn - j,
            {
                if nodes[j].node_id == row.node_id {
                    break;
                }
                j = j + 1;
            }
            let seg = Segment { node_id: row.node_id, len: row.len };
            if j < nn {
                proof {
                    assert(has_id(nodes@, row.node_id));
                    lemma_roster_index_finds(nodes@, row.node_id);
                    let ri = roster_index(nodes@, row.node_id);
                    if ri < j {
                        assert(nodes@[ri].node_id != row.node_id);
                    }
                    if j < ri {
                        assert(nodes@[j as int].node_id != row.node_id);
                    }
                    assert(ri == j);
                }
                let cap = nodes[j].cap;
                if row.len > u64::MAX - cap {
                    proof {
                        lemma_restore_none_persists(rows, i + 1);
                    }
                    return None;
                }
                nodes[j] = NodeRec { node_id: row.node_id, cap: cap + row.len };
            } else {
                proof {
                    assert(!has_id(nodes@, row.node_id));
                }
                nodes.push(NodeRec { node_id: row.node_id, cap: row.len });
            }
            if li < slots.len() {
                slots[li] = Some(seg);
            } else {
                proof {
                    assert(slots@ =~= pre_slots + Seq::new(
                        (slots@.len() - pre_slots.len()) as nat,
                        |x: int| None,
                    ));
                }
                while slots.len() < li
                    invariant
                        pre_slots.len() <= slots@.len() <= li,
                        li < MAX_SLOTS,
                        slots@ == pre_slots + Seq::new(
                            (slots@.len() - pre_slots.len()) as nat,
                            |x: int| None,
                        ),
                    decreases li - slots@.len(),
                {
                    let ghost cur = slots@;
                    slots.push(None);
                    proof {
                        assert(slots@ =~= pre_slots + Seq::new(
                            (cur.len() + 1 - pre_slots.len()) as nat,
                            |x: int| None,
                        ));
                    }
                }
                slots.push(Some(seg));
                proof {
                    assert(slots@ =~= pre_slots + Seq::new(
                        (row.l - pre_slots.len()) as nat,
                        |x: int| None,
                    ) + seq![Some(seg)]);
                }
            }
            proof {
                assert(place_row(Some((pre_slots, pre_nodes)), row) == Some((slots@, nodes@)));
                assert(restore_rows(rows.take(i + 1)) == Some((slots@, nodes@)));
            }
            i = i + 1;
        }
        proof {
            assert(rows.take(m as int) =~= rows);
            lemma_restore_wf(rows);
        }
        let mut st = SegmentTable { slots, max_bound: 0, nodes };
        st.recalc_max_bound();
        Some(st)
    }
}

} // verus!
