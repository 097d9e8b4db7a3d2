//! Placement: finding the list that an entry belongs to, from a cell down.

use vstd::prelude::*;
use crate::geometry::{Aabb3, find_octant, first_octant, layer_of, lemma_octant_inside, octant_box};
use crate::links::{
    clean_alike, lemma_cell_ok, lemma_child_cell, lemma_same_frame_trans, lemma_same_homes_trans,
    same_frame, same_homes,
};
use crate::node::{ChildNode, OWN};
use crate::octree::{Space, State, outside, ROOT};

verus! {

/// The entry `id` may be placed in the cell `c` or beneath it: its layer is
/// that of its box and not above the cell's, and the cell encloses the box
/// or, if it is the root, its loose box at least overlaps it.
pub open spec fn may_enter<T>(st: State<T>, id: usize, c: usize) -> bool {
    let n = st.nodes[id];
    &&& n.layer == layer_of(st.loose, n.aabb.extent())
    &&& n.layer >= st.cells[c].layer
    &&& if c == ROOT {
        !outside(st.cells[c].aabb, st.cells[c].loose, n.aabb)
    } else {
        st.cells[c].aabb.encloses(n.aabb)
    }
}

/// The entry `id` may be placed in slot `i` of the cell `c`: its layer is
/// that of its box and below the cell's, and the octant encloses the box.
pub open spec fn may_enter_slot<T>(st: State<T>, id: usize, c: usize, i: usize) -> bool {
    let n = st.nodes[id];
    let cell = st.cells[c];
    &&& n.layer == layer_of(st.loose, n.aabb.extent())
    &&& n.layer > cell.layer
    &&& octant_box(cell.aabb, cell.loose, i as int).encloses(n.aabb)
}

/// The list in which an entry with the box `aabb` and the layer `layer` is
/// placed from slot `i` of the cell `c`: the list of the slot, or a list of
/// the child cell of the slot or beneath it.
pub open spec fn landing_slot<T>(
    st: State<T>,
    c: usize,
    i: int,
    aabb: Aabb3,
    layer: usize,
    fuel: nat,
) -> (usize, usize)
    decreases fuel, 0nat,
{
    match st.cells[c].childs[i] {
        ChildNode::Oct(k, _) => if fuel == 0 {
            (c, OWN)
        } else {
            landing(st, k, aabb, layer, (fuel - 1) as nat)
        },
        ChildNode::Ab(_) => (c, i as usize),
    }
}

/// The list in which an entry with the box `aabb` and the layer `layer` is
/// placed from the cell `c`: the own list of the cell if the layer of the
/// entry is not below the cell's or no octant encloses the box; else as from
/// the slot of the first octant that encloses the box.
pub open spec fn landing<T>(st: State<T>, c: usize, aabb: Aabb3, layer: usize, fuel: nat) -> (
    usize,
    usize,
)
    decreases fuel, 1nat,
{
    let cell = st.cells[c];
    let i = first_octant(cell.aabb, cell.loose, aabb, 0);
    if cell.layer >= layer || i >= 8 {
        (c, OWN)
    } else {
        landing_slot(st, c, i, aabb, layer, fuel)
    }
}

/// Where an entry lands from a cell depends on the cells at the layer of
/// that cell and deeper only.
pub(crate) proof fn lemma_landing_frame<T>(
    a: State<T>,
    b: State<T>,
    skip: usize,
    ex: usize,
    c: usize,
    aabb: Aabb3,
    layer: usize,
    fuel: nat,
)
    requires
        crate::octree::inv(a, skip, ex),
        a.cells.contains_key(c),
        forall|x: usize|
            a.cells.contains_key(x) && a.cells[x].layer >= a.cells[c].layer ==> #[trigger] b.cells[x]
                == a.cells[x],
    ensures
        landing(b, c, aabb, layer, fuel) == landing(a, c, aabb, layer, fuel),
    decreases fuel,
{
    assert(b.cells[c] == a.cells[c]);
    let cell = a.cells[c];
    let i = first_octant(cell.aabb, cell.loose, aabb, 0);
    crate::geometry::lemma_first_octant(cell.aabb, cell.loose, aabb, 0);
    if !(cell.layer >= layer || i >= 8) {
        if let ChildNode::Oct(k, n) = cell.childs[i] {
            if fuel > 0 {
                lemma_child_cell(a, skip, ex, c, i as usize);
                lemma_landing_frame(a, b, skip, ex, k, aabb, layer, (fuel - 1) as nat);
            }
        }
    }
}

/// An entry lands from a cell in a list of that cell or of a cell beneath
/// it.
pub(crate) proof fn lemma_landing_cell<T>(
    a: State<T>,
    skip: usize,
    ex: usize,
    c: usize,
    aabb: Aabb3,
    layer: usize,
    fuel: nat,
)
    requires
        crate::octree::inv(a, skip, ex),
        a.cells.contains_key(c),
    ensures
        a.cells.contains_key(landing(a, c, aabb, layer, fuel).0),
        a.cells[landing(a, c, aabb, layer, fuel).0].layer >= a.cells[c].layer,
        landing(a, c, aabb, layer, fuel).1 <= 8,
    decreases fuel,
{
    let cell = a.cells[c];
    let i = first_octant(cell.aabb, cell.loose, aabb, 0);
    crate::geometry::lemma_first_octant(cell.aabb, cell.loose, aabb, 0);
    if !(cell.layer >= layer || i >= 8) {
        if let ChildNode::Oct(k, n) = cell.childs[i] {
            if fuel > 0 {
                lemma_child_cell(a, skip, ex, c, i as usize);
                lemma_landing_cell(a, skip, ex, k, aabb, layer, (fuel - 1) as nat);
            }
        }
    }
}

/// The counts after the entry `id` has been placed from the cell `top`: the
/// cell in which it has landed is `top` or lies beneath it, and the count of
/// a slot with a child cell is one more than before exactly if the child cell
/// lies beneath `top` on the way up from that cell.
pub open spec fn counted_in<T>(a: State<T>, b: State<T>, top: usize, id: usize) -> bool {
    let land = b.nodes[id].parent;
    &&& a.cells.contains_key(land)
    &&& crate::census::cell_above(a, land, a.cells[top].layer) == top
    &&& forall|c: usize, t: int|
        a.cells.contains_key(c) && 0 <= t < 8 ==> #[trigger] slot_counted(a, b, top, land, c, t)
}

/// Slot `t` of the cell `c` counts one more in `b` than in `a` if it holds a
/// child cell that lies beneath `top` on the way up from `land`, and is as
/// it was if it holds another child cell.
pub open spec fn slot_counted<T>(
    a: State<T>,
    b: State<T>,
    top: usize,
    land: usize,
    c: usize,
    t: int,
) -> bool {
    match a.cells[c].childs[t] {
        ChildNode::Oct(k, n) => b.cells[c].childs[t] == ChildNode::Oct(
            k,
            (n + if on_way(a, top, land, k) {
                1int
            } else {
                0int
            }) as usize,
        ),
        ChildNode::Ab(_) => b.cells[c].childs[t] is Ab,
    }
}

/// The cell `k` lies beneath `top` on the way up from the cell `land`.
pub open spec fn on_way<T>(a: State<T>, top: usize, land: usize, k: usize) -> bool {
    a.cells[k].layer > a.cells[top].layer && crate::census::cell_above(a, land, a.cells[k].layer)
        == k
}

/// The counts after a step down from the cell `c` into its child cell `k`
/// and a placement from there.
pub(crate) proof fn lemma_counted_step<T>(
    st: State<T>,
    mid: State<T>,
    now: State<T>,
    id: usize,
    c: usize,
    i: usize,
    k: usize,
)
    requires
        crate::octree::inv(st, id, c),
        crate::octree::inv(mid, id, k),
        same_frame(st, mid),
        st.cells.contains_key(c),
        i < 8,
        st.cells[c].childs[i as int] matches ChildNode::Oct(k2, n) && k2 == k && n < usize::MAX
            && mid.cells[c].childs[i as int] == ChildNode::Oct(k, (n + 1) as usize),
        forall|t: int| 0 <= t < 8 && t != i ==> #[trigger] mid.cells[c].childs[t] == st.cells[c].childs[t],
        forall|x: usize| x != c ==> mid.cells[x] == st.cells[x],
        counted_in(mid, now, k, id),
    ensures
        counted_in(st, now, c, id),
{
    let land = now.nodes[id].parent;
    lemma_child_cell(st, id, c, c, i);
    lemma_cell_ok(st, id, c, c);
    assert(st.cells.contains_key(land));
    crate::census::lemma_cell_above_same(st, mid, id, c, land, st.cells[k].layer);
    assert(mid.cells[k].layer == st.cells[k].layer);
    crate::census::lemma_cell_above_step(st, id, c, land, k);
    assert forall|x: usize, t: int| st.cells.contains_key(x) && 0 <= t < 8 implies #[trigger] slot_counted(
        st,
        now,
        c,
        land,
        x,
        t,
    ) by {
        assert(mid.cells.contains_key(x));
        assert(slot_counted(mid, now, k, land, x, t));
        if let ChildNode::Oct(y, n) = st.cells[x].childs[t] {
            lemma_child_cell(st, id, c, x, t as usize);
            assert(mid.cells[y].layer == st.cells[y].layer) by {
                assert(crate::links::same_cell(st.cells[y], mid.cells[y]));
            }
            crate::census::lemma_cell_above_same(st, mid, id, c, land, st.cells[y].layer);
            if x == c && t == i {
                assert(y == k);
            } else {
                assert(mid.cells[x].childs[t] == st.cells[x].childs[t]);
                assert(y != k);
            }
        } else {
            assert(mid.cells[x].childs[t] is Ab);
        }
    }
}

/// The counts after an entry has been put in a list of the cell `c` itself.
pub(crate) proof fn lemma_counted_here<T>(st: State<T>, now: State<T>, id: usize, c: usize)
    requires
        st.cells.contains_key(c),
        now.nodes[id].parent == c,
        forall|x: usize, t: int|
            st.cells.contains_key(x) && 0 <= t < 8 ==> (st.cells[x].childs[t] is Oct ==> (
            #[trigger] now.cells[x].childs[t]) == st.cells[x].childs[t]) && (st.cells[x].childs[t] is Ab
                ==> now.cells[x].childs[t] is Ab),
    ensures
        counted_in(st, now, c, id),
{
    assert forall|x: usize, t: int| st.cells.contains_key(x) && 0 <= t < 8 implies #[trigger] slot_counted(
        st,
        now,
        c,
        c,
        x,
        t,
    ) by {
        if let ChildNode::Oct(y, n) = st.cells[x].childs[t] {
            assert(now.cells[x].childs[t] == st.cells[x].childs[t]);
            if st.cells[y].layer > st.cells[c].layer {
                assert(crate::census::cell_above(st, c, st.cells[y].layer) == c);
            }
        }
    }
}

/// What placing the entry `id` returns for the worklist: the layer and the
/// handle of the cell in which the entry has landed if it landed in the list
/// of a child slot that is now longer than `adjust`, the cell is above the
/// deepest layer and had no pending slot before; `(0, 0)` otherwise.
pub open spec fn queued<T>(a: State<T>, b: State<T>, id: usize, adjust: usize) -> (usize, usize) {
    let c = b.nodes[id].parent;
    let s = b.nodes[id].parent_child;
    if s < 8 && b.cells[c].childs[s as int].count() > adjust && a.cells[c].layer < a.deep
        && a.cells[c].dirty == 0 {
        (a.cells[c].layer, c)
    } else {
        (0, 0)
    }
}

/// The dirty bits after the entry `id` has been placed: the slot of the list
/// in which it has landed is marked if that list is now longer than `adjust`
/// and the cell is above the deepest layer; no other bit has changed.
pub open spec fn marked<T>(a: State<T>, b: State<T>, id: usize, adjust: usize) -> bool {
    let c = b.nodes[id].parent;
    let s = b.nodes[id].parent_child;
    forall|k: usize|
        a.cells.contains_key(k) ==> (#[trigger] b.cells[k]).dirty == (if k == c && s < 8
            && b.cells[c].childs[s as int].count() > adjust && a.cells[c].layer < a.deep {
            crate::dirty::with_bit(a.cells[k].dirty, s)
        } else {
            a.cells[k].dirty
        })
}

impl<T> Space<T> {
    /// Putting an entry into the own list of a cell leaves the cells tidy.
    pub(crate) proof fn lemma_tidy_own(&self, before: &Space<T>, c: usize)
        requires
            self.deep == before.deep,
            forall|a: (usize, usize)|
                crate::octree::tidy(before.oct_slab@, a, before.deep, 0, 0)
                    ==> #[trigger] crate::octree::tidy(self.oct_slab@, a, self.deep, c, OWN),
        ensures
            forall|a: (usize, usize)|
                crate::octree::tidy(before.oct_slab@, a, before.deep, 0, 0)
                    ==> #[trigger] crate::octree::tidy(self.oct_slab@, a, self.deep, 0, 0),
    {
        assert forall|a: (usize, usize)|
            crate::octree::tidy(before.oct_slab@, a, before.deep, 0, 0) implies #[trigger] crate::octree::tidy(
            self.oct_slab@,
            a,
            self.deep,
            0,
            0,
        ) by {
            assert(crate::octree::tidy(self.oct_slab@, a, self.deep, c, OWN));
            crate::links::lemma_tidy_close(self.oct_slab@, a, self.deep, c, OWN);
        }
    }

    /// Places the entry `id`, which is in transit, in slot `i` of the cell
    /// `oct_id`: in the child cell or beneath it if the slot has one, else in
    /// the list of the slot. The slot is marked as pending where its list
    /// grows beyond `adjust` and the cell is above the deepest layer; the
    /// result is as for `down`.
    pub(crate) fn enter_slot(&mut self, adjust: usize, oct_id: usize, i: usize, id: usize) -> (r: (
        usize,
        usize,
    ))
        requires
            old(self).ok(id, oct_id),
            id != 0,
            old(self).oct_slab.has(oct_id),
            i < 8,
            may_enter_slot(old(self).state(), id, oct_id, i),
        ensures
            final(self).ok(0, 0),
            same_frame(old(self).state(), final(self).state()),
            same_homes(old(self).state(), final(self).state(), id),
            clean_alike(old(self).state(), final(self).state(), r.1),
            r.1 != 0 ==> final(self).oct_slab.has(r.1) && r.0 == final(self).oct_slab@[r.1].layer
                && final(self).oct_slab@[r.1].dirty != 0,
            r.0 <= crate::octree::DEEP_MAX,
            final(self).outer == old(self).outer,
            final(self).ab_slab.has(id),
            final(self).ab_slab@[id].parent != 0,
            final(self).oct_slab.has(ROOT),
            oct_id != ROOT ==> final(self).oct_slab@[ROOT] == old(self).oct_slab@[ROOT],
            oct_id == ROOT ==> final(self).oct_slab@[ROOT].population()
                == old(self).oct_slab@[ROOT].population() + 1,
            (final(self).ab_slab@[id].parent, final(self).ab_slab@[id].parent_child) == landing_slot(
                old(self).state(),
                oct_id,
                i as int,
                old(self).ab_slab@[id].aabb,
                old(self).ab_slab@[id].layer,
                crate::query::fuel_of(old(self).state(), oct_id),
            ),
            crate::links::entered(old(self).state(), final(self).state(), id),
            r == queued(old(self).state(), final(self).state(), id, adjust),
            marked(old(self).state(), final(self).state(), id, adjust),
            counted_in(old(self).state(), final(self).state(), oct_id, id),
            forall|a: (usize, usize)|
                a.1 == adjust && crate::octree::tidy(old(self).oct_slab@, a, old(self).deep, 0, 0)
                    ==> #[trigger] crate::octree::tidy(final(self).oct_slab@, a, final(self).deep, 0, 0),
        decreases old(self).deep - old(self).oct_slab@[oct_id].layer, 0int,
    {
        let ghost st = self.state();
        proof {
            lemma_cell_ok(st, id, oct_id, oct_id);
            lemma_octant_inside(st.cells[oct_id].aabb, st.cells[oct_id].loose, i as int);
        }
        let cell = self.oct_slab.at(oct_id);
        let layer = cell.layer;
        match cell.childs[i] {
            ChildNode::Oct(_, _) => {
                proof {
                    lemma_child_cell(st, id, oct_id, oct_id, i);
                    let k = st.cells[oct_id].childs[i as int]->Oct_0;
                    crate::census::lemma_population_fits(&self.ab_slab, st, id, oct_id, k);
                }
                let oct = self.count_up(oct_id, i, Ghost(id));
                let ghost mid = self.state();
                proof {
                    lemma_cell_ok(mid, id, oct, oct);
                    assert(mid.cells[oct].layer == st.cells[oct].layer);
                    assert(mid.cells[oct_id].layer == st.cells[oct_id].layer);
                    assert(mid.cells[ROOT].aabb == st.cells[ROOT].aabb);
                    lemma_landing_frame(
                        st,
                        mid,
                        id,
                        oct_id,
                        oct,
                        st.nodes[id].aabb,
                        st.nodes[id].layer,
                        crate::query::fuel_of(st, oct),
                    );
                    lemma_landing_cell(
                        st,
                        id,
                        oct_id,
                        oct,
                        st.nodes[id].aabb,
                        st.nodes[id].layer,
                        crate::query::fuel_of(st, oct),
                    );
                }
                let r = self.down(adjust, oct, id);
                proof {
                    lemma_counted_step(st, mid, self.state(), id, oct_id, i, oct);
                    assert forall|a: (usize, usize)|
                        a.1 == adjust && crate::octree::tidy(st.cells, a, st.deep, 0, 0) implies #[trigger] crate::octree::tidy(
                        self.oct_slab@,
                        a,
                        self.deep,
                        0,
                        0,
                    ) by {
                        assert(crate::octree::tidy(mid.cells, a, mid.deep, 0, 0));
                    }
                    crate::links::lemma_entered_after(st, mid, self.state(), id);
                    lemma_same_frame_trans(st, mid, self.state());
                    lemma_same_homes_trans(st, mid, self.state(), id);
                    assert(clean_alike(st, self.state(), r.1)) by {
                        assert forall|c: usize|
                            st.cells.contains_key(c) && c != r.1 implies ((
                        #[trigger] self.state().cells[c]).dirty == 0) == (st.cells[c].dirty
                            == 0) by {
                            assert(mid.cells[c].dirty == st.cells[c].dirty);
                        }
                    }
                }
                r
            },
            ChildNode::Ab(list) => {
                let len = list.len;
                self.link(id, oct_id, i);
                if len >= adjust && layer < self.deep {
                    let ghost mid = self.state();
                    let r = self.flag(oct_id, i, Ghost(0), Ghost(0));
                    proof {
                        assert forall|a: (usize, usize)|
                            a.1 == adjust && crate::octree::tidy(st.cells, a, st.deep, 0, 0) implies #[trigger] crate::octree::tidy(
                            self.oct_slab@,
                            a,
                            self.deep,
                            0,
                            0,
                        ) by {
                            assert(crate::octree::tidy(mid.cells, a, mid.deep, oct_id, i));
                        }
                        lemma_counted_here(st, self.state(), id, oct_id);
                        crate::links::lemma_entered_before(st, mid, self.state(), id);
                        lemma_same_frame_trans(st, mid, self.state());
                        lemma_same_homes_trans(st, mid, self.state(), id);
                        assert(clean_alike(st, self.state(), r.1)) by {
                            assert forall|c: usize|
                                st.cells.contains_key(c) && c != r.1 implies ((
                            #[trigger] self.state().cells[c]).dirty == 0) == (st.cells[c].dirty
                                == 0) by {
                                assert(mid.cells[c].dirty == st.cells[c].dirty);
                            }
                        }
                    }
                    return r;
                }
                proof {
                    let now = self.state();
                    lemma_counted_here(st, now, id, oct_id);
                    assert forall|a: (usize, usize)|
                        a.1 == adjust && crate::octree::tidy(st.cells, a, st.deep, 0, 0) implies #[trigger] crate::octree::tidy(
                        now.cells,
                        a,
                        now.deep,
                        0,
                        0,
                    ) by {
                        assert(crate::octree::tidy(now.cells, a, now.deep, oct_id, i));
                        crate::links::lemma_set_list(
                            st.cells[oct_id],
                            i,
                            crate::links::list_with(seq![id] + list@),
                        );
                        crate::links::lemma_tidy_close(now.cells, a, now.deep, oct_id, i);
                    }
                }
                (0, 0)
            },
        }
    }

    /// Places the entry `id`, which is in transit, in the cell `oct_id` or
    /// beneath it. An entry whose layer is not above the cell's stays in the
    /// cell's own list. Any other goes to the first octant that encloses its
    /// box: further down if the octant has a child cell, else into the list
    /// of that slot; an entry that no octant encloses stays in the own list.
    ///
    /// Where the list of a slot grows beyond `adjust` and the cell is above
    /// the deepest layer, the slot is marked as pending. The result is the
    /// layer and the handle of the cell if that was its first pending slot,
    /// for the caller to put on the worklist, and `(0, 0)` otherwise.
    pub(crate) fn down(&mut self, adjust: usize, oct_id: usize, id: usize) -> (r: (usize, usize))
        requires
            old(self).ok(id, oct_id),
            id != 0,
            old(self).oct_slab.has(oct_id),
            may_enter(old(self).state(), id, oct_id),
        ensures
            final(self).ok(0, 0),
            same_frame(old(self).state(), final(self).state()),
            same_homes(old(self).state(), final(self).state(), id),
            clean_alike(old(self).state(), final(self).state(), r.1),
            r.1 != 0 ==> final(self).oct_slab.has(r.1) && r.0 == final(self).oct_slab@[r.1].layer
                && final(self).oct_slab@[r.1].dirty != 0,
            r.0 <= crate::octree::DEEP_MAX,
            final(self).outer == old(self).outer,
            final(self).ab_slab.has(id),
            final(self).ab_slab@[id].parent != 0,
            final(self).oct_slab.has(ROOT),
            oct_id != ROOT ==> final(self).oct_slab@[ROOT] == old(self).oct_slab@[ROOT],
            oct_id == ROOT ==> final(self).oct_slab@[ROOT].population()
                == old(self).oct_slab@[ROOT].population() + 1,
            (final(self).ab_slab@[id].parent, final(self).ab_slab@[id].parent_child) == landing(
                old(self).state(),
                oct_id,
                old(self).ab_slab@[id].aabb,
                old(self).ab_slab@[id].layer,
                crate::query::fuel_of(old(self).state(), oct_id),
            ),
            crate::links::entered(old(self).state(), final(self).state(), id),
            r == queued(old(self).state(), final(self).state(), id, adjust),
            marked(old(self).state(), final(self).state(), id, adjust),
            counted_in(old(self).state(), final(self).state(), oct_id, id),
            forall|a: (usize, usize)|
                a.1 == adjust && crate::octree::tidy(old(self).oct_slab@, a, old(self).deep, 0, 0)
                    ==> #[trigger] crate::octree::tidy(final(self).oct_slab@, a, final(self).deep, 0, 0),
        decreases old(self).deep - old(self).oct_slab@[oct_id].layer, 1int,
    {
        let ghost st = self.state();
        proof {
            lemma_cell_ok(st, id, oct_id, oct_id);
        }
        let cell = self.oct_slab.at(oct_id);
        let node = self.ab_slab.at(id);
        let layer = cell.layer;
        if layer >= node.layer {
            self.link(id, oct_id, OWN);
            proof {
                self.lemma_tidy_own(old(self), oct_id);
                lemma_counted_here(st, self.state(), id, oct_id);
            }
            return (0, 0);
        }
        let i = find_octant(&cell.aabb, &cell.loose, &node.aabb);
        if i >= 8 {
            self.link(id, oct_id, OWN);
            proof {
                self.lemma_tidy_own(old(self), oct_id);
                lemma_counted_here(st, self.state(), id, oct_id);
            }
            return (0, 0);
        }
        self.enter_slot(adjust, oct_id, i, id)
    }
}

} // verus!
