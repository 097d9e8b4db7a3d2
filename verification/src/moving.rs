//! Moving an entry whose box has changed to the list it now belongs to.

use vstd::prelude::*;
use crate::dirty::{lemma_dirty_ok_extend, set_tree_dirty};
use crate::geometry::{
    Aabb3, Vector3, calc_layer, check_contain, intersects_loose, layer_of, lemma_contain_slot, octant,
};
use crate::links::{
    lemma_cell_in_root, lemma_cell_ok, lemma_dirty_kept, lemma_entries_same, lemma_home_ok,
    lemma_outer_iff_outside, lemma_root, lemma_root_excess, same_cells, same_frame, same_homes,
};
use crate::node::{AbNode, OWN};
use crate::node::ChildNode;
use crate::octree::{State, Tree, outside, placed_ok, ROOT};
use crate::place::{landing, landing_slot};
use crate::query::fuel_of;
use crate::geometry::{contain_slot, first_octant, octant_box, spec_intersects_loose};
use crate::place::{may_enter, may_enter_slot};

verus! {

/// What moving the entry `id` to the box `aabb` with layer `layer` leaves: a
/// well-formed tree with the same cells, in which the entry has the new box,
/// its old payload and a place that suits the box, and every other entry is
/// where it was.
pub open(crate) spec fn relocated<T>(
    pre: &Tree<T>,
    post: &Tree<T>,
    id: usize,
    aabb: Aabb3,
    layer: usize,
) -> bool {
    &&& post.wf()
    &&& post.same_setup(pre)
    &&& post.entries() == pre.entries().insert(id, (aabb, pre.entries()[id].1))
    &&& same_cells(pre.cells(), post.cells())
    &&& pre.others_stay(post, id)
    &&& post.is_outer(id) == outside(pre.root_bounds(), pre.slack(), aabb)
}

/// How moving the entry `id` changes the counts: the population of the tree
/// loses the entry if it was inside the tree and gains it if it is inside
/// now; the outer list loses the entry if it has left it and gains it, at its
/// head, if it has entered it.
pub open(crate) spec fn moved_counts<T>(pre: &Tree<T>, post: &Tree<T>, id: usize) -> bool {
    &&& post.population() == pre.population() - (if pre.is_outer(id) {
        0int
    } else {
        1int
    }) + (if post.is_outer(id) {
        0int
    } else {
        1int
    })
    &&& post.outer_list() == if pre.is_outer(id) == post.is_outer(id) {
        pre.outer_list()
    } else if pre.is_outer(id) {
        pre.outer_list().remove(pre.outer_list().index_of(id))
    } else {
        seq![id] + pre.outer_list()
    }
}

/// The list `(c, s)` of the tree `pre` without the entry `id`.
pub open(crate) spec fn list_without<T>(pre: &Tree<T>, id: usize, c: usize, s: usize) -> Seq<usize> {
    if (c, s) == pre.home(id) {
        pre.list(c, s).remove(pre.list(c, s).index_of(id))
    } else {
        pre.list(c, s)
    }
}

/// Every list of `mid` is the list of `pre` without the entry `id`.
pub open(crate) spec fn lists_without<T>(pre: &Tree<T>, mid: &Tree<T>, id: usize) -> bool {
    forall|c: usize, s: usize|
        crate::links::names_list(pre.space.state(), c, s) ==> #[trigger] mid.list(c, s)
            == list_without(pre, id, c, s)
}

/// The entry `id` has not moved: it is where it was, and every list is as it
/// was.
pub open(crate) spec fn stayed<T>(pre: &Tree<T>, post: &Tree<T>, id: usize) -> bool {
    &&& post.home(id) == pre.home(id)
    &&& crate::links::same_orders(pre.space.state(), post.space.state())
}

/// The entry `id` has moved to the head of the list it is in now: every
/// list is as it was without the entry, and that list has the entry before
/// the others.
pub open(crate) spec fn moved_to<T>(pre: &Tree<T>, post: &Tree<T>, id: usize) -> bool {
    forall|c: usize, s: usize|
        crate::links::names_list(pre.space.state(), c, s) ==> #[trigger] post.list(c, s) == (if (
        c,
        s,
    ) == post.home(id) {
            seq![id] + list_without(pre, id, c, s)
        } else {
            list_without(pre, id, c, s)
        })
}

/// The cell from which an entry that leaves the cell `k` upwards is placed
/// again: the nearest cell above `k` whose layer is not above the entry's and
/// which encloses its box; the root if there is none.
pub open spec fn rise<T>(st: State<T>, k: usize, aabb: Aabb3, layer: usize) -> usize
    decreases st.cells[k].layer,
{
    let q = st.cells[k].parent;
    if k == ROOT || st.cells[q].layer >= st.cells[k].layer {
        ROOT
    } else if st.cells[q].layer <= layer && st.cells[q].aabb.encloses(aabb) {
        q
    } else {
        rise(st, q, aabb, layer)
    }
}

/// The list in which an entry with the box `aabb` and the layer `layer` is
/// placed from the top: where it lands from the root if the root encloses
/// the box; the own list of the root if only the loose box of the root
/// overlaps it; else the outer list.
pub open spec fn top_place<T>(st: State<T>, aabb: Aabb3, layer: usize) -> (usize, usize) {
    if st.cells[ROOT].aabb.encloses(aabb) {
        landing(st, ROOT, aabb, layer, fuel_of(st, ROOT))
    } else if spec_intersects_loose(st.cells[ROOT].aabb, st.cells[ROOT].loose, aabb) {
        (ROOT, OWN)
    } else {
        (0, OWN)
    }
}

/// The list in which an entry that leaves the cell `from` upwards is placed:
/// where it lands from the cell that `rise` names, or from the top if that
/// is the root.
pub open spec fn climb_place<T>(st: State<T>, from: usize, aabb: Aabb3, layer: usize) -> (
    usize,
    usize,
) {
    let a = rise(st, from, aabb, layer);
    if a != ROOT {
        landing(st, a, aabb, layer, fuel_of(st, a))
    } else {
        top_place(st, aabb, layer)
    }
}

/// Whether the entry `id` stays in its list when it is given the box `aabb`
/// of the layer `layer`: in the outer list while the box is outside the root;
/// in a child slot, or in the own list of a cell, while its layer is below
/// the cell's and `contain_slot` names the same slot again (for slot 3 only
/// if octant 3 does enclose the box); in the own list of a cell while the
/// cell encloses the box and either the layer is the cell's or no octant
/// takes the box; and in the own list of the root while the loose box of
/// the root overlaps the box and the root does not enclose it.
pub open spec fn stays<T>(st: State<T>, id: usize, aabb: Aabb3, layer: usize) -> bool {
    let p = st.nodes[id].parent;
    let c = st.nodes[id].parent_child;
    let cell = st.cells[p];
    let child = contain_slot(cell.aabb, cell.loose, aabb, c as int);
    let sure = child != 3 || octant_box(cell.aabb, cell.loose, 3).encloses(aabb);
    if p == 0 {
        outside(st.cells[ROOT].aabb, st.cells[ROOT].loose, aabb)
    } else if layer > cell.layer && child != 9 {
        (child == c && (c >= 8 || sure)) || (child < 8 && !sure && c >= 8)
    } else if layer == cell.layer && cell.aabb.encloses(aabb) {
        c >= 8
    } else {
        p == ROOT && c >= 8 && !cell.aabb.encloses(aabb) && spec_intersects_loose(
            cell.aabb,
            cell.loose,
            aabb,
        )
    }
}

/// The list that holds the entry `id` after it has been given the box `aabb`
/// of the layer `layer`: its old list if it stays; else the slot that
/// `contain_slot` names, or what lies beneath it, while the layer of the
/// entry is below its cell's and octant of that slot encloses the box; the
/// own list of its cell while the cell encloses the box and the layer allows
/// it; and else where it is placed after leaving its cell upwards.
pub open spec fn move_place<T>(st: State<T>, id: usize, aabb: Aabb3, layer: usize) -> (
    usize,
    usize,
) {
    let p = st.nodes[id].parent;
    let c = st.nodes[id].parent_child;
    let cell = st.cells[p];
    let child = contain_slot(cell.aabb, cell.loose, aabb, c as int);
    let sure = child != 3 || octant_box(cell.aabb, cell.loose, 3).encloses(aabb);
    if stays(st, id, aabb, layer) {
        (p, c)
    } else if p == 0 {
        top_place(st, aabb, layer)
    } else if layer > cell.layer && child < 8 {
        if sure {
            landing_slot(st, p, child, aabb, layer, fuel_of(st, p))
        } else {
            (p, OWN)
        }
    } else if layer == cell.layer && cell.aabb.encloses(aabb) {
        (p, OWN)
    } else {
        climb_place(st, p, aabb, layer)
    }
}

/// Where an entry lands depends on the regions, the layers and the child
/// cells of the cells only.
pub(crate) proof fn lemma_landing_same<T>(
    a: State<T>,
    b: State<T>,
    c: usize,
    aabb: Aabb3,
    layer: usize,
    fuel: nat,
)
    requires
        same_cells(a.cells, b.cells),
        a.cells.contains_key(c),
        forall|k: usize, s: int|
            a.cells.contains_key(k) && 0 <= s < 8 && (#[trigger] a.cells[k].childs[s]) is Oct
                ==> a.cells.contains_key(a.cells[k].childs[s]->Oct_0),
    ensures
        landing(b, c, aabb, layer, fuel) == landing(a, c, aabb, layer, fuel),
        0 <= first_octant(a.cells[c].aabb, a.cells[c].loose, aabb, 0) < 8 ==> landing_slot(
            b,
            c,
            first_octant(a.cells[c].aabb, a.cells[c].loose, aabb, 0),
            aabb,
            layer,
            fuel,
        ) == landing_slot(
            a,
            c,
            first_octant(a.cells[c].aabb, a.cells[c].loose, aabb, 0),
            aabb,
            layer,
            fuel,
        ),
    decreases fuel, 1nat,
{
    assert(crate::links::same_cell(a.cells[c], b.cells[c]));
    let cell = a.cells[c];
    let i = first_octant(cell.aabb, cell.loose, aabb, 0);
    crate::geometry::lemma_first_octant(cell.aabb, cell.loose, aabb, 0);
    if i < 8 {
        lemma_landing_slot_same(a, b, c, i, aabb, layer, fuel);
    }
}

/// Where an entry lands from a slot depends on the regions, the layers and
/// the child cells of the cells only.
pub(crate) proof fn lemma_landing_slot_same<T>(
    a: State<T>,
    b: State<T>,
    c: usize,
    i: int,
    aabb: Aabb3,
    layer: usize,
    fuel: nat,
)
    requires
        same_cells(a.cells, b.cells),
        a.cells.contains_key(c),
        0 <= i < 8,
        forall|k: usize, s: int|
            a.cells.contains_key(k) && 0 <= s < 8 && (#[trigger] a.cells[k].childs[s]) is Oct
                ==> a.cells.contains_key(a.cells[k].childs[s]->Oct_0),
    ensures
        landing_slot(b, c, i, aabb, layer, fuel) == landing_slot(a, c, i, aabb, layer, fuel),
    decreases fuel, 0nat,
{
    assert(crate::links::same_cell(a.cells[c], b.cells[c]));
    assert(crate::links::same_slot(a.cells[c].childs[i], b.cells[c].childs[i]));
    if let ChildNode::Oct(k, _) = a.cells[c].childs[i] {
        if fuel > 0 {
            lemma_landing_same(a, b, k, aabb, layer, (fuel - 1) as nat);
        }
    }
}

/// Under the invariant every child slot names a live cell.
pub(crate) proof fn lemma_children_live<T>(st: State<T>, skip: usize, ex: usize)
    requires
        crate::octree::inv(st, skip, ex),
    ensures
        forall|k: usize, s: int|
            st.cells.contains_key(k) && 0 <= s < 8 && (#[trigger] st.cells[k].childs[s]) is Oct
                ==> st.cells.contains_key(st.cells[k].childs[s]->Oct_0),
{
    assert forall|k: usize, s: int|
        st.cells.contains_key(k) && 0 <= s < 8 && (#[trigger] st.cells[k].childs[s]) is Oct implies st.cells.contains_key(
        st.cells[k].childs[s]->Oct_0,
    ) by {
        crate::links::lemma_child_cell(st, skip, ex, k, s as usize);
    }
}

/// The cell from which an entry is placed again depends on the regions, the
/// layers and the parents of the cells only.
pub(crate) proof fn lemma_rise_same<T>(a: State<T>, b: State<T>, k: usize, aabb: Aabb3, layer: usize)
    requires
        same_cells(a.cells, b.cells),
        crate::octree::inv(a, 0, 0),
        a.cells.contains_key(k),
    ensures
        rise(b, k, aabb, layer) == rise(a, k, aabb, layer),
        a.cells.contains_key(rise(a, k, aabb, layer)),
    decreases a.cells[k].layer,
{
    lemma_root(a, 0, 0);
    lemma_cell_ok(a, 0, 0, k);
    assert(crate::links::same_cell(a.cells[k], b.cells[k]));
    if k != ROOT {
        let q = a.cells[k].parent;
        lemma_cell_ok(a, 0, 0, q);
        assert(crate::links::same_cell(a.cells[q], b.cells[q]));
        if !(a.cells[q].layer <= layer && a.cells[q].aabb.encloses(aabb)) {
            lemma_rise_same(a, b, q, aabb, layer);
        }
    }
}

/// How moving the entry `id` to the box `aabb` of the layer `layer` changes
/// the lists: the entry is in the list that `move_place` names; if it stays,
/// every list is as it was; if not, it has left its old list and is at the
/// head of its new one, and every other list is as it was.
pub open(crate) spec fn moved_lists<T>(
    pre: &Tree<T>,
    post: &Tree<T>,
    id: usize,
    aabb: Aabb3,
    layer: usize,
) -> bool {
    &&& post.home(id) == move_place(pre.space.state(), id, aabb, layer)
    &&& if stays(pre.space.state(), id, aabb, layer) {
        stayed(pre, post, id)
    } else {
        moved_to(pre, post, id)
    }
}

/// The entry `id` is in transit with its new box and layer, and nothing else
/// has changed since `pre` but lists, counters and dirty marks.
pub open(crate) spec fn lifted<T>(
    pre: &Tree<T>,
    mid: &Tree<T>,
    id: usize,
    aabb: Aabb3,
    layer: usize,
    ex: usize,
) -> bool {
    &&& pre.wf()
    &&& pre.entries().contains_key(id)
    &&& mid.ok(id, ex)
    &&& id != 0
    &&& mid.same_setup(pre)
    &&& mid.entries() == pre.entries().insert(id, (aabb, pre.entries()[id].1))
    &&& same_cells(pre.cells(), mid.cells())
    &&& pre.others_stay(mid, id)
    &&& mid.space.ab_slab@[id].aabb == aabb
    &&& mid.space.ab_slab@[id].layer == layer
    &&& layer == layer_of(pre.slack(), aabb.extent())
    &&& lists_without(pre, mid, id)
    &&& mid.neat()
}

/// `same_cells` is transitive.
pub(crate) proof fn lemma_same_cells_trans(
    a: Map<usize, crate::node::OctNode>,
    b: Map<usize, crate::node::OctNode>,
    c: Map<usize, crate::node::OctNode>,
)
    requires
        same_cells(a, b),
        same_cells(b, c),
    ensures
        same_cells(a, c),
{
    assert forall|k: usize| a.contains_key(k) == #[trigger] c.contains_key(k) by {
        assert(a.contains_key(k) == b.contains_key(k));
    }
    assert forall|k: usize| a.contains_key(k) implies crate::links::same_cell(a[k], #[trigger] c[k]) by {
        assert(b.contains_key(k));
        assert(crate::links::same_cell(a[k], b[k]));
        assert(crate::links::same_cell(b[k], c[k]));
        assert forall|s: int| 0 <= s < 8 implies crate::links::same_slot(
            a[k].childs[s],
            #[trigger] c[k].childs[s],
        ) by {
            assert(crate::links::same_slot(a[k].childs[s], b[k].childs[s]));
            assert(crate::links::same_slot(b[k].childs[s], c[k].childs[s]));
        }
    }
}

impl<T> Tree<T> {
    /// Gives the entry `id` its new box where it is: the box still suits the
    /// list that holds the entry.
    fn stay(&mut self, id: usize, aabb: Aabb3, layer: usize)
        requires
            old(self).wf(),
            old(self).entries().contains_key(id),
            layer == layer_of(old(self).slack(), aabb.extent()),
            placed_ok(
                State {
                    nodes: old(self).space.ab_slab@.insert(
                        id,
                        AbNode { aabb, layer, ..old(self).space.ab_slab@[id] },
                    ),
                    ..old(self).space.state()
                },
                id,
            ),
        ensures
            relocated(old(self), final(self), id, aabb, layer),
            final(self).outer_list() == old(self).outer_list(),
            final(self).population() == old(self).population(),
            final(self).is_outer(id) == old(self).is_outer(id),
            stayed(old(self), final(self), id),
    {
        let ghost st = self.space.state();
        self.space.set_box(id, aabb, layer, Ghost(0), Ghost(0));
        proof {
            let st2 = self.space.state();
            lemma_root(st2, 0, 0);
            lemma_outer_iff_outside(st2, 0, 0, id);
            lemma_dirty_ok_extend(st.cells, st2.cells, self.dirty, self.dirty, 0);
            assert(same_cells(st.cells, st2.cells)) by {
                assert forall|k: usize| st.cells.contains_key(k) implies crate::links::same_cell(
                    st.cells[k],
                    #[trigger] st2.cells[k],
                ) by {}
            }
        }
    }

    /// Takes the entry `id` out of its list and gives it its new box.
    fn lift(&mut self, id: usize, aabb: Aabb3, layer: usize)
        requires
            old(self).wf(),
            old(self).entries().contains_key(id),
            layer == layer_of(old(self).slack(), aabb.extent()),
        ensures
            lifted(old(self), final(self), id, aabb, layer, old(self).home(id).0),
            final(self).outer_list() == if old(self).is_outer(id) {
                old(self).outer_list().remove(old(self).outer_list().index_of(id))
            } else {
                old(self).outer_list()
            },
            final(self).population() == old(self).population() - if old(self).home(id).0 == ROOT {
                1int
            } else {
                0int
            },
            forall|k: usize|
                final(self).space.oct_slab.has(k) ==> final(self).space.oct_slab@[k].layer == old(
                    self,
                ).space.oct_slab@[k].layer && final(self).space.oct_slab@[k].aabb == old(
                    self,
                ).space.oct_slab@[k].aabb,
    {
        let ghost st = self.space.state();
        proof {
            lemma_root(st, 0, 0);
        }
        self.space.unlink(id);
        let ghost st1 = self.space.state();
        let ghost p = st.nodes[id].parent;
        proof {
            lemma_dirty_kept(st, st1, self.dirty);
            lemma_entries_same(st, st1);
            assert(crate::octree::tidy(st1.cells, self.adjust, st1.deep, 0, 0));
        }
        self.space.set_box(id, aabb, layer, Ghost(id), Ghost(p));
        proof {
            assert forall|e: usize| old(self).entries().contains_key(e) && e != id implies #[trigger] self.home(
                e,
            ) == old(self).home(e) by {
                assert(st1.nodes[e].parent == st.nodes[e].parent);
            }
            lemma_home_ok(st, 0, 0, id);
            assert forall|c: usize, s: usize| crate::links::names_list(st, c, s) implies #[trigger] self.list(
                c,
                s,
            ) == list_without(old(self), id, c, s) by {
                let h = old(self).home(id);
                if c == 0 {
                    assert(self.space.outer == st1.outer);
                } else if c == h.0 {
                    if s != h.1 {
                        assert(st1.cells[c].list_at(s) == st.cells[c].list_at(s));
                    }
                } else {
                    assert(st1.cells[c] == st.cells[c]);
                }
            }
            assert forall|k: usize| self.space.oct_slab.has(k) implies self.space.oct_slab@[k].layer
                == st.cells[k].layer && self.space.oct_slab@[k].aabb == st.cells[k].aabb by {
                assert(st.cells.contains_key(k) == st1.cells.contains_key(k));
                assert(crate::links::same_cell(st.cells[k], st1.cells[k]));
            }
        }
    }

    /// Once the entry in transit is linked again, it has been relocated.
    proof fn lemma_landed(
        &self,
        pre: &Tree<T>,
        mid: &Tree<T>,
        id: usize,
        aabb: Aabb3,
        layer: usize,
        ex: usize,
    )
        requires
            lifted(pre, mid, id, aabb, layer, ex),
            self.wf(),
            same_frame(mid.space.state(), self.space.state()),
            same_homes(mid.space.state(), self.space.state(), id),
            crate::links::entered(mid.space.state(), self.space.state(), id),
            self.adjust == mid.adjust,
            self.loose_ratio == mid.loose_ratio,
        ensures
            relocated(pre, self, id, aabb, layer),
            moved_to(pre, self, id),
    {
        let st = mid.space.state();
        let st2 = self.space.state();
        lemma_root(st2, 0, 0);
        lemma_root(st, id, ex);
        assert forall|c: usize, s: usize| crate::links::names_list(pre.space.state(), c, s) implies #[trigger] self.list(
            c,
            s,
        ) == (if (c, s) == self.home(id) {
            seq![id] + list_without(pre, id, c, s)
        } else {
            list_without(pre, id, c, s)
        }) by {
            assert(mid.list(c, s) == list_without(pre, id, c, s));
            if c != 0 {
                assert(st.cells.contains_key(c));
            }
            assert(crate::links::names_list(st, c, s));
            assert(crate::octree::list_of(st2, c, s)@ == (if c == st2.nodes[id].parent && s
                == st2.nodes[id].parent_child {
                seq![id] + crate::octree::list_of(st, c, s)@
            } else {
                crate::octree::list_of(st, c, s)@
            }));
        }
        lemma_entries_same(st, st2);
        lemma_same_cells_trans(pre.cells(), st.cells, st2.cells);
        lemma_outer_iff_outside(st2, 0, 0, id);
        assert(crate::links::same_entry(st.nodes[id], st2.nodes[id]));
        assert(crate::links::same_cell(st.cells[ROOT], st2.cells[ROOT]));
        assert(crate::links::same_cell(pre.cells()[ROOT], st.cells[ROOT]));
        assert forall|e: usize| pre.entries().contains_key(e) && e != id implies #[trigger] self.home(
            e,
        ) == pre.home(e) by {
            assert(mid.home(e) == pre.home(e));
            assert(mid.entries().contains_key(e));
            assert(st2.nodes[e].parent == st.nodes[e].parent);
        }
    }

    /// Puts the entry `id`, which is in transit with its new box, into the
    /// list `(c, s)`, where it fits.
    fn land(
        &mut self,
        id: usize,
        c: usize,
        s: usize,
        Ghost(pre): Ghost<&Tree<T>>,
        Ghost(aabb): Ghost<Aabb3>,
        Ghost(layer): Ghost<usize>,
    )
        requires
            lifted(pre, old(self), id, aabb, layer, c),
            crate::octree::key_ok(old(self).space.state(), c, s),
            crate::links::fits(old(self).space.state(), id, c, s),
            s >= 8,
        ensures
            relocated(pre, final(self), id, aabb, layer),
            final(self).outer_list() == if c == 0 {
                seq![id] + old(self).outer_list()
            } else {
                old(self).outer_list()
            },
            final(self).population() == old(self).population() + if c == ROOT {
                1int
            } else {
                0int
            },
            final(self).is_outer(id) == (c == 0),
            final(self).home(id) == (c, s),
            moved_to(pre, final(self), id),
    {
        let ghost st = self.space.state();
        self.space.link(id, c, s);
        proof {
            let st2 = self.space.state();
            lemma_dirty_kept(st, st2, self.dirty);
            assert(crate::octree::tidy(st2.cells, self.adjust, st2.deep, c, s));
            crate::links::lemma_tidy_close(st2.cells, self.adjust, st2.deep, c, s);
            self.lemma_landed(pre, old(self), id, aabb, layer, c);
        }
    }

    /// Puts the entry `id`, which is in transit with its new box, into the
    /// cell `c` or beneath it, and lists the cell if a slot became pending.
    fn sink(
        &mut self,
        id: usize,
        c: usize,
        Ghost(pre): Ghost<&Tree<T>>,
        Ghost(aabb): Ghost<Aabb3>,
        Ghost(layer): Ghost<usize>,
    )
        requires
            lifted(pre, old(self), id, aabb, layer, c),
            old(self).space.oct_slab.has(c),
            may_enter(old(self).space.state(), id, c),
        ensures
            relocated(pre, final(self), id, aabb, layer),
            final(self).outer_list() == old(self).outer_list(),
            final(self).population() == old(self).population() + if c == ROOT {
                1int
            } else {
                0int
            },
            !final(self).is_outer(id),
            final(self).home(id) == landing(
                old(self).space.state(),
                c,
                aabb,
                layer,
                fuel_of(old(self).space.state(), c),
            ),
            moved_to(pre, final(self), id),
    {
        let ghost st = self.space.state();
        let pair = self.space.down(self.adjust.1, c, id);
        let ghost dirty1 = self.dirty;
        set_tree_dirty(&mut self.dirty, pair);
        proof {
            let st2 = self.space.state();
            assert(crate::octree::tidy(st2.cells, self.adjust, st2.deep, 0, 0));
            lemma_root(st, id, c);
            crate::links::lemma_dirty_after(st, st2, dirty1, self.dirty, pair.1);
            self.lemma_landed(pre, old(self), id, aabb, layer, c);
        }
    }

    /// Puts the entry `id`, which is in transit with its new box, into slot
    /// `i` of the cell `c`, and lists the cell if a slot became pending.
    fn sink_slot(
        &mut self,
        id: usize,
        c: usize,
        i: usize,
        Ghost(pre): Ghost<&Tree<T>>,
        Ghost(aabb): Ghost<Aabb3>,
        Ghost(layer): Ghost<usize>,
    )
        requires
            lifted(pre, old(self), id, aabb, layer, c),
            old(self).space.oct_slab.has(c),
            i < 8,
            may_enter_slot(old(self).space.state(), id, c, i),
        ensures
            relocated(pre, final(self), id, aabb, layer),
            final(self).outer_list() == old(self).outer_list(),
            final(self).population() == old(self).population() + if c == ROOT {
                1int
            } else {
                0int
            },
            !final(self).is_outer(id),
            final(self).home(id) == landing_slot(
                old(self).space.state(),
                c,
                i as int,
                aabb,
                layer,
                fuel_of(old(self).space.state(), c),
            ),
            moved_to(pre, final(self), id),
    {
        let ghost st = self.space.state();
        let pair = self.space.enter_slot(self.adjust.1, c, i, id);
        let ghost dirty1 = self.dirty;
        set_tree_dirty(&mut self.dirty, pair);
        proof {
            let st2 = self.space.state();
            assert(crate::octree::tidy(st2.cells, self.adjust, st2.deep, 0, 0));
            lemma_root(st, id, c);
            crate::links::lemma_dirty_after(st, st2, dirty1, self.dirty, pair.1);
            self.lemma_landed(pre, old(self), id, aabb, layer, c);
        }
    }

    /// No cell below the root is short while the root is named as short.
    proof fn lemma_lifted_top(
        &self,
        pre: &Tree<T>,
        id: usize,
        aabb: Aabb3,
        layer: usize,
        ex: usize,
        ex2: usize,
    )
        requires
            lifted(pre, self, id, aabb, layer, ex),
            ex == 0 || ex == ROOT,
            ex2 == 0 || ex2 == ROOT,
        ensures
            lifted(pre, self, id, aabb, layer, ex2),
    {
        lemma_root_excess(self.space.state(), id, ex, ex2);
    }

    /// The entry stays lifted over steps that change only counters and
    /// dirty marks.
    proof fn lemma_lifted_step(
        &self,
        pre: &Tree<T>,
        mid: &Tree<T>,
        id: usize,
        aabb: Aabb3,
        layer: usize,
        ex: usize,
        ex2: usize,
    )
        requires
            lifted(pre, mid, id, aabb, layer, ex),
            self.ok(id, ex2),
            self.neat(),
            same_frame(mid.space.state(), self.space.state()),
            crate::links::same_orders(mid.space.state(), self.space.state()),
            self.space.ab_slab@ == mid.space.ab_slab@,
            self.adjust == mid.adjust,
            self.loose_ratio == mid.loose_ratio,
        ensures
            lifted(pre, self, id, aabb, layer, ex2),
    {
        let st = mid.space.state();
        let st2 = self.space.state();
        lemma_root(st, id, ex);
        lemma_root(st2, id, ex2);
        assert forall|c: usize, s: usize| crate::links::names_list(pre.space.state(), c, s) implies #[trigger] self.list(
            c,
            s,
        ) == list_without(pre, id, c, s) by {
            assert(mid.list(c, s) == list_without(pre, id, c, s));
            if c != 0 {
                assert(st.cells.contains_key(c));
                assert(st2.cells[c].list_at(s) == st.cells[c].list_at(s));
            }
        }
        lemma_entries_same(st, st2);
        lemma_same_cells_trans(pre.cells(), st.cells, st2.cells);
        assert(crate::links::same_cell(st.cells[ROOT], st2.cells[ROOT]));
        assert forall|e: usize| pre.entries().contains_key(e) && e != id implies #[trigger] self.home(
            e,
        ) == pre.home(e) by {
            assert(mid.home(e) == pre.home(e));
        }
    }

    /// Moves the entry `id`, which is in transit from the cell `from` with
    /// its new box, to the nearest cell above `from` that encloses the box
    /// and whose layer is not above the entry's, and places it from there;
    /// or, if the root does not enclose the box, into the own list of the
    /// root if the root overlaps the box, else into the outer list. Every
    /// cell left behind is counted down by one, and marked where its count
    /// falls below the shrink threshold.
    fn climb(
        &mut self,
        id: usize,
        from: usize,
        aabb: &Aabb3,
        layer: usize,
        Ghost(pre): Ghost<&Tree<T>>,
    )
        requires
            lifted(pre, old(self), id, *aabb, layer, from),
            old(self).space.oct_slab.has(from),
        ensures
            relocated(pre, final(self), id, *aabb, layer),
            final(self).outer_list() == if final(self).is_outer(id) {
                seq![id] + old(self).outer_list()
            } else {
                old(self).outer_list()
            },
            final(self).population() == old(self).population() - (if from != ROOT {
                1int
            } else {
                0int
            }) + (if final(self).is_outer(id) {
                0int
            } else {
                1int
            }),
            final(self).home(id) == climb_place(pre.space.state(), from, *aabb, layer),
            moved_to(pre, final(self), id),
    {
        let ghost pre_st = pre.space.state();
        proof {
            lemma_children_live(pre_st, 0, 0);
        }
        let mut k = from;
        while k != ROOT
            invariant
                lifted(pre, self, id, *aabb, layer, k),
                self.space.oct_slab.has(k),
                pre_st == pre.space.state(),
                climb_place(pre_st, k, *aabb, layer) == climb_place(pre_st, from, *aabb, layer),
                forall|x: usize, s: int|
                    pre_st.cells.contains_key(x) && 0 <= s < 8 && (
                    #[trigger] pre_st.cells[x].childs[s]) is Oct ==> pre_st.cells.contains_key(
                        pre_st.cells[x].childs[s]->Oct_0,
                    ),
                self.outer_list() == old(self).outer_list(),
                from == ROOT ==> k == ROOT,
                self.population() == old(self).population() - (if k == ROOT && from != ROOT {
                    1int
                } else {
                    0int
                }),
            decreases self.space.oct_slab@[k].layer,
        {
            let ghost st = self.space.state();
            let ghost start = *self;
            let q = self.step_up(k, Ghost(id));
            proof {
                self.lemma_lifted_step(pre, &start, id, *aabb, layer, k, q);
                lemma_cell_ok(self.space.state(), id, q, q);
                lemma_root(self.space.state(), id, q);
                let now = self.space.state();
                lemma_root(pre_st, 0, 0);
                lemma_cell_ok(pre_st, 0, 0, k);
                lemma_cell_ok(pre_st, 0, 0, q);
                assert(crate::links::same_cell(pre_st.cells[k], st.cells[k]));
                assert(crate::links::same_cell(pre_st.cells[q], now.cells[q]));
                assert(pre_st.cells[k].parent == q);
                lemma_landing_same(pre_st, now, q, *aabb, layer, fuel_of(pre_st, q));
            }
            k = q;
            let cell = self.space.oct_slab.at(k);
            if cell.layer <= layer && cell.aabb.contains(aabb) {
                self.sink(id, k, Ghost(pre), Ghost(*aabb), Ghost(layer));
                return ;
            }
        }
        proof {
            lemma_root(self.space.state(), id, ROOT);
            lemma_root(pre_st, 0, 0);
            let now = self.space.state();
            assert(crate::links::same_cell(pre_st.cells[ROOT], now.cells[ROOT]));
            lemma_landing_same(pre_st, now, ROOT, *aabb, layer, fuel_of(pre_st, ROOT));
        }
        let root = self.space.oct_slab.at(ROOT);
        if root.aabb.contains(aabb) {
            self.sink(id, ROOT, Ghost(pre), Ghost(*aabb), Ghost(layer));
        } else if intersects_loose(&root.aabb, &root.loose, aabb) {
            self.land(id, ROOT, OWN, Ghost(pre), Ghost(*aabb), Ghost(layer));
        } else {
            proof {
                self.lemma_lifted_top(pre, id, *aabb, layer, ROOT, 0);
            }
            self.land(id, 0, OWN, Ghost(pre), Ghost(*aabb), Ghost(layer));
        }
    }
}

/// Moves the entry `id` to the list that suits its new box `aabb` of layer
/// `layer`.
///
/// An entry of the outer list stays there unless the root now encloses or
/// overlaps its box; then it is placed from the root. An entry of a cell
/// stays in its list if the list still suits it: the same octant encloses the
/// box of an entry whose layer is below the cell's, or the cell encloses the
/// box of an entry of the cell's own layer that is in the own list. Else it
/// moves within the cell where the cell still encloses it: to the slot of
/// another octant, or to the own list. Else it climbs: see `climb`.
pub(crate) fn update<T>(tree: &mut Tree<T>, id: usize, aabb: Aabb3, layer: usize)
    requires
        old(tree).wf(),
        old(tree).entries().contains_key(id),
        layer == layer_of(old(tree).slack(), aabb.extent()),
    ensures
        relocated(old(tree), final(tree), id, aabb, layer),
        moved_counts(old(tree), final(tree), id),
        moved_lists(old(tree), final(tree), id, aabb, layer),
{
    let ghost pre = *tree;
    let ghost st = tree.space.state();
    proof {
        lemma_root(st, 0, 0);
        lemma_home_ok(st, 0, 0, id);
        lemma_children_live(st, 0, 0);
    }
    let node = tree.space.ab_slab.at(id);
    let old_p = node.parent;
    let old_c = node.parent_child;
    if old_p == 0 {
        let root = tree.space.oct_slab.at(ROOT);
        if !root.aabb.contains(&aabb) && !intersects_loose(&root.aabb, &root.loose, &aabb) {
            tree.stay(id, aabb, layer);
            return ;
        }
        tree.lift(id, aabb, layer);
        proof {
            tree.lemma_lifted_top(&pre, id, aabb, layer, 0, ROOT);
        }
        tree.climb(id, ROOT, &aabb, layer, Ghost(&pre));
        return ;
    }
    proof {
        lemma_cell_ok(st, 0, 0, old_p);
        lemma_cell_in_root(st, 0, 0, old_p);
    }
    let parent = tree.space.oct_slab.at(old_p);
    let bounds = parent.aabb;
    let loose = parent.loose;
    let parent_layer = parent.layer;
    if layer > parent_layer {
        let child = check_contain(&bounds, &loose, &aabb, old_c);
        proof {
            lemma_contain_slot(bounds, loose, aabb, old_c as int);
        }
        let sure = child != 3 || octant(&bounds, &loose, 3).contains(&aabb);
        if child == old_c && (old_c >= 8 || sure) {
            tree.stay(id, aabb, layer);
            return ;
        }
        if child < 8 {
            if sure {
                tree.lift(id, aabb, layer);
                proof {
                    lemma_landing_slot_same(
                        st,
                        tree.space.state(),
                        old_p,
                        child as int,
                        aabb,
                        layer,
                        fuel_of(st, old_p),
                    );
                }
                tree.sink_slot(id, old_p, child, Ghost(&pre), Ghost(aabb), Ghost(layer));
                return ;
            }
            // The cell encloses the box but no octant does.
            if old_c >= 8 {
                tree.stay(id, aabb, layer);
                return ;
            }
            tree.lift(id, aabb, layer);
            tree.land(id, old_p, OWN, Ghost(&pre), Ghost(aabb), Ghost(layer));
            return ;
        }
    } else if layer == parent_layer {
        if bounds.contains(&aabb) {
            if old_c >= 8 {
                tree.stay(id, aabb, layer);
                return ;
            }
            tree.lift(id, aabb, layer);
            tree.land(id, old_p, OWN, Ghost(&pre), Ghost(aabb), Ghost(layer));
            return ;
        }
    }
    if old_p == ROOT && old_c >= 8 && !bounds.contains(&aabb) && intersects_loose(
        &bounds,
        &loose,
        &aabb,
    ) {
        tree.stay(id, aabb, layer);
        return ;
    }
    tree.lift(id, aabb, layer);
    tree.climb(id, old_p, &aabb, layer, Ghost(&pre));
}

impl<T> Tree<T> {
    /// Gives the entry `id` the box `aabb` and moves it to the list that
    /// suits the box. Returns whether there is such an entry; without one
    /// nothing changes. No cell is created or destroyed.
    pub fn update(&mut self, id: usize, aabb: Aabb3) -> (r: bool)
        requires
            old(self).wf(),
        ensures
            r == old(self).entries().contains_key(id),
            r ==> relocated(
                old(self),
                final(self),
                id,
                aabb,
                layer_of(old(self).slack(), aabb.extent()) as usize,
            ) && moved_counts(old(self), final(self), id) && moved_lists(
                old(self),
                final(self),
                id,
                aabb,
                layer_of(old(self).slack(), aabb.extent()) as usize,
            ),
            !r ==> *final(self) == *old(self),
            final(self).wf(),
    {
        if !self.space.ab_slab.contains(id) {
            return false;
        }
        proof {
            lemma_root(self.space.state(), 0, 0);
        }
        let layer = calc_layer(&self.space.loose, &aabb.dim());
        update(self, id, aabb, layer);
        true
    }

    /// Moves the box of the entry `id` by `distance` and moves the entry to
    /// the list that suits the box. The layer of the entry stays as it is.
    /// Returns whether there is such an entry; without one nothing changes.
    pub fn shift(&mut self, id: usize, distance: Vector3) -> (r: bool)
        requires
            old(self).wf(),
            old(self).entries().contains_key(id) ==> old(self).entries()[id].0.can_shift(distance),
        ensures
            r == old(self).entries().contains_key(id),
            r ==> relocated(
                old(self),
                final(self),
                id,
                old(self).entries()[id].0.shifted(distance),
                layer_of(old(self).slack(), old(self).entries()[id].0.extent()) as usize,
            ) && moved_counts(old(self), final(self), id) && moved_lists(
                old(self),
                final(self),
                id,
                old(self).entries()[id].0.shifted(distance),
                layer_of(old(self).slack(), old(self).entries()[id].0.extent()) as usize,
            ),
            !r ==> *final(self) == *old(self),
            final(self).wf(),
    {
        if !self.space.ab_slab.contains(id) {
            return false;
        }
        proof {
            lemma_root(self.space.state(), 0, 0);
            lemma_home_ok(self.space.state(), 0, 0, id);
        }
        let node = self.space.ab_slab.at(id);
        let aabb = node.aabb.moved_by(&distance);
        let layer = node.layer;
        update(self, id, aabb, layer);
        true
    }
}

} // verus!
