//! Counting the entries beneath a cell: what a visit of a cell finds, that it
//! finds nothing twice, and that it finds as many entries as the cell counts.
//! All of this holds also while an entry is in transit.

use vstd::prelude::*;
use crate::geometry::Aabb3;
use crate::links::{lemma_cell_ok, lemma_child_cell, lemma_list_linked, lemma_root};
use crate::node::{ChildNode, OWN};
use crate::octree::{State, inv, link_ok, parent_ok, ROOT};
use crate::query::{fuel_of, visit_cell, visit_slot, visit_slots};

verus! {

/// An entry visited in one of the slots `i` to 7 is visited in some slot `j`
/// of them.
pub(crate) proof fn lemma_slot_of<T>(
    st: State<T>,
    pred: spec_fn(Aabb3) -> bool,
    c: usize,
    i: int,
    fuel: nat,
    e: usize,
) -> (j: int)
    requires
        0 <= i <= 8,
        visit_slots(st, pred, c, i, fuel).contains(e),
    ensures
        i <= j < 8,
        visit_slot(st, pred, c, j, fuel).contains(e),
    decreases 8 - i,
{
    if i >= 8 {
        assert(visit_slots(st, pred, c, i, fuel) =~= Seq::<usize>::empty());
        let k = visit_slots(st, pred, c, i, fuel).index_of(e);
        0
    } else {
        let a = visit_slot(st, pred, c, i, fuel);
        let b = visit_slots(st, pred, c, i + 1, fuel);
        let k = (a + b).index_of(e);
        if k < a.len() {
            assert(a[k] == e);
            i
        } else {
            assert(b[k - a.len()] == e);
            lemma_slot_of(st, pred, c, i + 1, fuel, e)
        }
    }
}

/// Only live entries of the tree are visited, none of the outer list.
pub(crate) proof fn lemma_visit_members<T>(
    st: State<T>, skip: usize, ex: usize,
    pred: spec_fn(Aabb3) -> bool,
    c: usize,
    fuel: nat,
    e: usize,
)
    requires
        inv(st, skip, ex),
        st.cells.contains_key(c),
        visit_cell(st, pred, c, fuel).contains(e),
    ensures
        st.nodes.contains_key(e),
        st.nodes[e].parent != 0,
    decreases fuel,
{
    lemma_root(st, skip, ex);
    let own = st.cells[c].nodes@;
    let rest = visit_slots(st, pred, c, 0, fuel);
    let k = (own + rest).index_of(e);
    if k < own.len() {
        lemma_list_linked(st, skip, ex, c, OWN);
        assert(link_ok(st.nodes, own, k, c, OWN, skip));
    } else {
        assert(rest[k - own.len()] == e);
        let j = lemma_slot_of(st, pred, c, 0, fuel, e);
        match st.cells[c].childs[j] {
            ChildNode::Oct(k2, _) => {
                lemma_child_cell(st, skip, ex, c, j as usize);
                lemma_visit_members(st, skip, ex, pred, k2, (fuel - 1) as nat, e);
            },
            ChildNode::Ab(l) => {
                lemma_list_linked(st, skip, ex, c, j as usize);
                let m = l@.index_of(e);
                assert(link_ok(st.nodes, l@, m, c, j as usize, skip));
            },
        }
    }
}

/// Two lists of distinct elements without a common element give a list of
/// distinct elements when one is put after the other.
pub(crate) proof fn lemma_distinct_concat(a: Seq<usize>, b: Seq<usize>)
    requires
        a.no_duplicates(),
        b.no_duplicates(),
        forall|e: usize| !(a.contains(e) && b.contains(e)),
    ensures
        (a + b).no_duplicates(),
{
    assert forall|i: int, j: int| 0 <= i < (a + b).len() && 0 <= j < (a + b).len() && i != j implies (
    a + b)[i] != (a + b)[j] by {
        if i < a.len() && j >= a.len() {
            assert(a.contains(a[i]));
            assert(b.contains(b[j - a.len()]));
        }
        if j < a.len() && i >= a.len() {
            assert(a.contains(a[j]));
            assert(b.contains(b[i - a.len()]));
        }
    }
}

/// The cell at the layer `layer` on the way from the cell `x` up to the
/// root; `x` itself if it is not deeper than that.
pub open spec fn cell_above<T>(st: State<T>, x: usize, layer: usize) -> usize
    decreases st.cells[x].layer,
{
    if st.cells[x].layer <= layer || st.cells[st.cells[x].parent].layer >= st.cells[x].layer {
        x
    } else {
        cell_above(st, st.cells[x].parent, layer)
    }
}

/// The way up from a cell depends on the cells only.
pub(crate) proof fn lemma_cell_above_cells<T>(a: State<T>, b: State<T>, x: usize, layer: usize)
    requires
        a.cells == b.cells,
    ensures
        cell_above(a, x, layer) == cell_above(b, x, layer),
    decreases a.cells[x].layer,
{
    if !(a.cells[x].layer <= layer || a.cells[a.cells[x].parent].layer >= a.cells[x].layer) {
        lemma_cell_above_cells(a, b, a.cells[x].parent, layer);
    }
}

/// The way up from a cell is the same in two states with the same cells.
pub(crate) proof fn lemma_cell_above_same<T>(
    a: State<T>,
    b: State<T>,
    skip: usize,
    ex: usize,
    x: usize,
    layer: usize,
)
    requires
        inv(a, skip, ex),
        crate::links::same_frame(a, b),
        a.cells.contains_key(x),
    ensures
        cell_above(a, x, layer) == cell_above(b, x, layer),
    decreases a.cells[x].layer,
{
    lemma_root(a, skip, ex);
    lemma_cell_ok(a, skip, ex, x);
    assert(b.cells.contains_key(x));
    assert(crate::links::same_cell(a.cells[x], b.cells[x]));
    if a.cells[x].layer > layer {
        assert(x != ROOT);
        let p = a.cells[x].parent;
        assert(parent_ok(a, x, ex));
        assert(b.cells.contains_key(p));
        assert(crate::links::same_cell(a.cells[p], b.cells[p]));
        lemma_cell_above_same(a, b, skip, ex, p, layer);
    }
}

/// The cell one layer higher on the way up from `x` is the parent of the
/// cell on that way at the layer below.
pub(crate) proof fn lemma_cell_above_step<T>(st: State<T>, skip: usize, ex: usize, x: usize, k: usize)
    requires
        inv(st, skip, ex),
        st.cells.contains_key(x),
        st.cells.contains_key(k),
        k != ROOT,
        cell_above(st, x, st.cells[k].layer) == k,
    ensures
        cell_above(st, x, st.cells[st.cells[k].parent].layer) == st.cells[k].parent,
    decreases st.cells[x].layer,
{
    lemma_root(st, skip, ex);
    lemma_cell_ok(st, skip, ex, x);
    lemma_cell_ok(st, skip, ex, k);
    let p = st.cells[k].parent;
    lemma_cell_ok(st, skip, ex, p);
    let l = st.cells[p].layer;
    if st.cells[x].layer <= st.cells[k].layer {
        assert(x == k);
        assert(cell_above(st, p, l) == p);
    } else {
        assert(x != ROOT);
        let q = st.cells[x].parent;
        lemma_cell_ok(st, skip, ex, q);
        lemma_cell_above_step(st, skip, ex, q, k);
    }
}

/// Every entry visited in a cell or beneath it has its home on the way from
/// that cell down.
pub(crate) proof fn lemma_visit_beneath<T>(
    st: State<T>, skip: usize, ex: usize,
    pred: spec_fn(Aabb3) -> bool,
    c: usize,
    fuel: nat,
    e: usize,
)
    requires
        inv(st, skip, ex),
        st.cells.contains_key(c),
        visit_cell(st, pred, c, fuel).contains(e),
    ensures
        st.nodes.contains_key(e),
        st.cells.contains_key(st.nodes[e].parent),
        cell_above(st, st.nodes[e].parent, st.cells[c].layer) == c,
        st.nodes[e].parent == c ==> (st.cells[c].nodes@.contains(e) <==> st.nodes[e].parent_child
            >= 8),
    decreases fuel,
{
    lemma_root(st, skip, ex);
    lemma_cell_ok(st, skip, ex, c);
    let own = st.cells[c].nodes@;
    let rest = visit_slots(st, pred, c, 0, fuel);
    let k = (own + rest).index_of(e);
    lemma_list_linked(st, skip, ex, c, OWN);
    if own.contains(e) {
        let m = own.index_of(e);
        assert(link_ok(st.nodes, own, m, c, OWN, skip));
    }
    if k < own.len() {
        assert(own[k] == e);
    } else {
        assert(rest[k - own.len()] == e);
        let j = lemma_slot_of(st, pred, c, 0, fuel, e);
        match st.cells[c].childs[j] {
            ChildNode::Oct(k2, _) => {
                lemma_child_cell(st, skip, ex, c, j as usize);
                lemma_visit_beneath(st, skip, ex, pred, k2, (fuel - 1) as nat, e);
                lemma_cell_above_step(st, skip, ex, st.nodes[e].parent, k2);
                lemma_cell_ok(st, skip, ex, st.nodes[e].parent);
                if st.nodes[e].parent == c {
                    assert(cell_above(st, c, st.cells[k2].layer) == c);
                }
            },
            ChildNode::Ab(l) => {
                lemma_list_linked(st, skip, ex, c, j as usize);
                let m = l@.index_of(e);
                assert(link_ok(st.nodes, l@, m, c, j as usize, skip));
            },
        }
    }
}

/// An entry visited in a slot is at home in the list of that slot, or on
/// the way down from the child cell of that slot.
pub(crate) proof fn lemma_visit_slot_home<T>(
    st: State<T>, skip: usize, ex: usize,
    pred: spec_fn(Aabb3) -> bool,
    c: usize,
    j: int,
    fuel: nat,
    e: usize,
)
    requires
        inv(st, skip, ex),
        st.cells.contains_key(c),
        0 <= j < 8,
        visit_slot(st, pred, c, j, fuel).contains(e),
    ensures
        st.nodes.contains_key(e),
        st.cells[c].childs[j] is Ab ==> st.nodes[e].parent == c && st.nodes[e].parent_child == j,
        st.cells[c].childs[j] matches ChildNode::Oct(k, _) ==> st.cells.contains_key(k)
            && st.cells[k].layer == st.cells[c].layer + 1 && st.cells[k].parent_child == j
            && cell_above(st, st.nodes[e].parent, st.cells[k].layer) == k,
{
    lemma_root(st, skip, ex);
    match st.cells[c].childs[j] {
        ChildNode::Oct(k2, _) => {
            lemma_child_cell(st, skip, ex, c, j as usize);
            lemma_visit_beneath(st, skip, ex, pred, k2, (fuel - 1) as nat, e);
        },
        ChildNode::Ab(l) => {
            lemma_list_linked(st, skip, ex, c, j as usize);
            let m = l@.index_of(e);
            assert(link_ok(st.nodes, l@, m, c, j as usize, skip));
        },
    }
}

/// No entry is visited in two different slots of a cell.
pub(crate) proof fn lemma_slots_apart<T>(
    st: State<T>, skip: usize, ex: usize,
    pred: spec_fn(Aabb3) -> bool,
    c: usize,
    i: int,
    j: int,
    fuel: nat,
    e: usize,
)
    requires
        inv(st, skip, ex),
        st.cells.contains_key(c),
        0 <= i < j < 8,
    ensures
        !(visit_slot(st, pred, c, i, fuel).contains(e) && visit_slot(st, pred, c, j, fuel).contains(
            e,
        )),
{
    if visit_slot(st, pred, c, i, fuel).contains(e) && visit_slot(st, pred, c, j, fuel).contains(e) {
        lemma_root(st, skip, ex);
        lemma_cell_ok(st, skip, ex, c);
        lemma_visit_slot_home(st, skip, ex, pred, c, i, fuel, e);
        lemma_visit_slot_home(st, skip, ex, pred, c, j, fuel, e);
        let h = st.nodes[e].parent;
        if st.cells[c].childs[i] is Ab && st.cells[c].childs[j] is Oct {
            let k = st.cells[c].childs[j]->Oct_0;
            assert(cell_above(st, c, st.cells[k].layer) == c);
        }
        if st.cells[c].childs[j] is Ab && st.cells[c].childs[i] is Oct {
            let k = st.cells[c].childs[i]->Oct_0;
            assert(cell_above(st, c, st.cells[k].layer) == c);
        }
    }
}

/// No entry is visited twice in a cell and beneath it.
pub(crate) proof fn lemma_visit_once<T>(st: State<T>, skip: usize, ex: usize, pred: spec_fn(Aabb3) -> bool, c: usize, fuel: nat)
    requires
        inv(st, skip, ex),
        st.cells.contains_key(c),
    ensures
        visit_cell(st, pred, c, fuel).no_duplicates(),
    decreases fuel, 10nat,
{
    if fuel > 0 {
        lemma_root(st, skip, ex);
        lemma_cell_ok(st, skip, ex, c);
        let own = st.cells[c].nodes@;
        let rest = visit_slots(st, pred, c, 0, fuel);
        lemma_list_linked(st, skip, ex, c, OWN);
        lemma_slots_once(st, skip, ex, pred, c, 0, fuel);
        assert forall|e: usize| !(own.contains(e) && rest.contains(e)) by {
            if own.contains(e) && rest.contains(e) {
                let m = own.index_of(e);
                assert(link_ok(st.nodes, own, m, c, OWN, skip));
                let j = lemma_slot_of(st, pred, c, 0, fuel, e);
                lemma_visit_slot_home(st, skip, ex, pred, c, j, fuel, e);
                if st.cells[c].childs[j] is Oct {
                    let k = st.cells[c].childs[j]->Oct_0;
                    assert(cell_above(st, c, st.cells[k].layer) == c);
                }
            }
        }
        lemma_distinct_concat(own, rest);
    }
}

/// No entry is visited twice in the slots `i` to 7 of a cell.
pub(crate) proof fn lemma_slots_once<T>(
    st: State<T>, skip: usize, ex: usize,
    pred: spec_fn(Aabb3) -> bool,
    c: usize,
    i: int,
    fuel: nat,
)
    requires
        inv(st, skip, ex),
        st.cells.contains_key(c),
        0 <= i <= 8,
        fuel > 0,
    ensures
        visit_slots(st, pred, c, i, fuel).no_duplicates(),
    decreases fuel, 9 - i,
{
    if i < 8 {
        lemma_root(st, skip, ex);
        let a = visit_slot(st, pred, c, i, fuel);
        let b = visit_slots(st, pred, c, i + 1, fuel);
        lemma_slots_once(st, skip, ex, pred, c, i + 1, fuel);
        match st.cells[c].childs[i] {
            ChildNode::Oct(k, _) => {
                lemma_child_cell(st, skip, ex, c, i as usize);
                lemma_visit_once(st, skip, ex, pred, k, (fuel - 1) as nat);
            },
            ChildNode::Ab(l) => {
                lemma_list_linked(st, skip, ex, c, i as usize);
            },
        }
        assert forall|e: usize| !(a.contains(e) && b.contains(e)) by {
            if a.contains(e) && b.contains(e) {
                let j = lemma_slot_of(st, pred, c, i + 1, fuel, e);
                lemma_slots_apart(st, skip, ex, pred, c, i, j, fuel, e);
            }
        }
        lemma_distinct_concat(a, b);
    }
}

/// The region test that accepts every box.
pub open spec fn everywhere() -> spec_fn(Aabb3) -> bool {
    |b: Aabb3| true
}

/// A visit that no region test cuts off finds as many entries in a cell and
/// beneath it as the cell counts, if the cell that is one short is neither
/// this cell nor beneath it.
pub(crate) proof fn lemma_visit_count<T>(st: State<T>, skip: usize, ex: usize, c: usize)
    requires
        inv(st, skip, ex),
        st.cells.contains_key(c),
        ex == 0 || (st.cells.contains_key(ex) && st.cells[ex].layer < st.cells[c].layer),
    ensures
        visit_cell(st, everywhere(), c, fuel_of(st, c)).len() == st.cells[c].population(),
    decreases st.deep - st.cells[c].layer,
{
    lemma_root(st, skip, ex);
    lemma_cell_ok(st, skip, ex, c);
    let cell = st.cells[c];
    let fuel = fuel_of(st, c);
    let pred = everywhere();
    lemma_list_linked(st, skip, ex, c, OWN);
    assert forall|i: int| 0 <= i < 8 implies visit_slot(st, pred, c, i, fuel).len()
        == #[trigger] cell.childs[i].count() by {
        assert(pred(crate::geometry::octant_box(cell.aabb, cell.loose, i)));
        match cell.childs[i] {
            ChildNode::Oct(k, n) => {
                lemma_child_cell(st, skip, ex, c, i as usize);
                lemma_visit_count(st, skip, ex, k);
            },
            ChildNode::Ab(l) => {
                lemma_list_linked(st, skip, ex, c, i as usize);
            },
        }
    }
    assert(visit_slots(st, pred, c, 8, fuel).len() == 0);
    assert(visit_slots(st, pred, c, 7, fuel).len() == cell.childs[7].count());
    assert(visit_slots(st, pred, c, 6, fuel).len() == cell.childs[6].count() + visit_slots(
        st,
        pred,
        c,
        7,
        fuel,
    ).len());
    assert(visit_slots(st, pred, c, 5, fuel).len() == cell.childs[5].count() + visit_slots(
        st,
        pred,
        c,
        6,
        fuel,
    ).len());
    assert(visit_slots(st, pred, c, 4, fuel).len() == cell.childs[4].count() + visit_slots(
        st,
        pred,
        c,
        5,
        fuel,
    ).len());
    assert(visit_slots(st, pred, c, 3, fuel).len() == cell.childs[3].count() + visit_slots(
        st,
        pred,
        c,
        4,
        fuel,
    ).len());
    assert(visit_slots(st, pred, c, 2, fuel).len() == cell.childs[2].count() + visit_slots(
        st,
        pred,
        c,
        3,
        fuel,
    ).len());
    assert(visit_slots(st, pred, c, 1, fuel).len() == cell.childs[1].count() + visit_slots(
        st,
        pred,
        c,
        2,
        fuel,
    ).len());
    assert(visit_slots(st, pred, c, 0, fuel).len() == cell.childs[0].count() + visit_slots(
        st,
        pred,
        c,
        1,
        fuel,
    ).len());
}

/// No cell counts as many entries as a counter can hold, if the cell that is
/// one short is neither this cell nor beneath it: the entries beneath a cell
/// are distinct live entries, and handles are bounded.
pub(crate) proof fn lemma_population_fits<T>(
    arena: &crate::arena::Arena<crate::node::AbNode<T>>,
    st: State<T>,
    skip: usize,
    ex: usize,
    c: usize,
)
    requires
        arena.wf(),
        arena@ == st.nodes,
        inv(st, skip, ex),
        st.cells.contains_key(c),
        ex == 0 || (st.cells.contains_key(ex) && st.cells[ex].layer < st.cells[c].layer),
    ensures
        st.cells[c].population() < usize::MAX,
{
    let v = visit_cell(st, everywhere(), c, fuel_of(st, c));
    lemma_visit_count(st, skip, ex, c);
    lemma_visit_once(st, skip, ex, everywhere(), c, fuel_of(st, c));
    assert forall|i: int| 0 <= i < v.len() implies arena.has(#[trigger] v[i]) by {
        assert(v.contains(v[i]));
        lemma_visit_members(st, skip, ex, everywhere(), c, fuel_of(st, c), v[i]);
    }
    arena.lemma_distinct_handles_fit(v);
}

} // verus!
