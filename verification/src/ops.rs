//! Insertion, lookup and removal.

use vstd::prelude::*;
use crate::dirty::{lemma_dirty_ok_extend, set_tree_dirty};
use crate::geometry::{Aabb3, calc_layer, intersects_loose, layer_of};
use crate::links::{
    entries_of, lemma_cell_ok, lemma_entries_same, lemma_home_ok, lemma_root, lemma_insert_entry,
    lemma_remove_entry, lemma_same_frame_trans, same_cells, same_frame,
};
use crate::node::{AbNode, OctNode, OWN};
use crate::octree::{State, Tree, outside, ROOT};

verus! {

/// What adding an entry with the box `aabb` and the payload `bind` makes of
/// the tree `pre`: the new entry has a handle that was free; it is at the
/// head of the list that `place_for` names, which is the outer list exactly
/// if its box is outside the root, and counts for the population of the tree
/// if it is not; no cell is created or destroyed. The slot of the list is
/// marked as pending if the list is now longer than the split threshold in
/// a cell above the deepest layer, and the cell is counted as waiting if
/// that is its first pending slot. The count of every slot on the way from
/// the root down to the list is one more than before, and no other count
/// has changed.
pub open spec fn added<T>(pre: &Tree<T>, post: &Tree<T>, aabb: Aabb3, bind: T, id: usize) -> bool {
    &&& post.wf()
    &&& id != 0
    &&& !pre.entries().contains_key(id)
    &&& post.entries() == pre.entries().insert(id, (aabb, bind))
    &&& post.is_outer(id) == outside(pre.root_bounds(), pre.slack(), aabb)
    &&& post.home(id) == pre.place_for(aabb)
    &&& forall|c: usize, s: usize|
        (c == 0 && s == OWN) || (pre.cells().contains_key(c) && s <= 8) ==> #[trigger] post.list(
            c,
            s,
        ) == (if (c, s) == post.home(id) {
            seq![id] + pre.list(c, s)
        } else {
            pre.list(c, s)
        })
    &&& post.outer_list() == if outside(pre.root_bounds(), pre.slack(), aabb) {
        seq![id] + pre.outer_list()
    } else {
        pre.outer_list()
    }
    &&& post.population() == pre.population() + if outside(pre.root_bounds(), pre.slack(), aabb) {
        0int
    } else {
        1int
    }
    &&& post.same_setup(pre)
    &&& same_cells(pre.cells(), post.cells())
    &&& pre.marked_by(post, id)
    &&& if post.is_outer(id) {
        post.cells() == pre.cells()
    } else {
        pre.counted_by(post, id)
    }
    &&& post.dirty_count() == (if pre.queued_by(post, id).1 != 0 {
        crate::dirty::final_count(pre.dirty_count())
    } else {
        pre.dirty_count()
    })
}

/// What removing the entry `id` makes of the tree `pre`: the entry is gone
/// from the entries and from its list, every list is otherwise as it was,
/// and the entry no longer counts for the population if it was inside the
/// tree; no cell is created or destroyed. The count of every slot on the
/// way from the list up to the root is one less than before, such a slot is
/// marked as pending if its count has fallen below the shrink threshold, and
/// no other count or mark has changed.
pub open spec fn removed<T>(pre: &Tree<T>, post: &Tree<T>, id: usize, r: (Aabb3, T)) -> bool {
    &&& post.wf()
    &&& r == pre.entries()[id]
    &&& post.entries() == pre.entries().remove(id)
    &&& forall|c: usize, s: usize|
        (c == 0 && s == OWN) || (pre.cells().contains_key(c) && s <= 8) ==> #[trigger] post.list(
            c,
            s,
        ) == (if (c, s) == pre.home(id) {
            pre.list(c, s).remove(pre.list(c, s).index_of(id))
        } else {
            pre.list(c, s)
        })
    &&& post.outer_list() == if pre.is_outer(id) {
        pre.outer_list().remove(pre.outer_list().index_of(id))
    } else {
        pre.outer_list()
    }
    &&& post.population() == pre.population() - if pre.is_outer(id) {
        0int
    } else {
        1int
    }
    &&& post.same_setup(pre)
    &&& same_cells(pre.cells(), post.cells())
    &&& if pre.is_outer(id) {
        post.cells() == pre.cells()
    } else {
        pre.uncounted_by(post, id)
    }
}

/// The cell `k` is the cell `from` or lies above it on its way up.
pub open spec fn left_way<T>(a: State<T>, from: usize, k: usize) -> bool {
    crate::census::cell_above(a, from, a.cells[k].layer) == k
}

/// Slot `t` of the cell `c` after an entry has left the cell `from`: a slot
/// with a child cell counts one less than before if the child cell is `from`
/// or lies above it, and its bit is set if the count has fallen below
/// `shrink`; no other count has changed, no other bit, and no slot has
/// changed its kind.
pub open spec fn slot_uncounted<T>(
    a: State<T>,
    b: State<T>,
    from: usize,
    shrink: usize,
    c: usize,
    t: int,
) -> bool {
    match a.cells[c].childs[t] {
        crate::node::ChildNode::Oct(k, n) => if left_way(a, from, k) {
            &&& n > 0
            &&& b.cells[c].childs[t] == crate::node::ChildNode::Oct(k, (n - 1) as usize)
            &&& crate::dirty::has_bit(b.cells[c].dirty, t as usize) == (crate::dirty::has_bit(
                a.cells[c].dirty,
                t as usize,
            ) || n - 1 < shrink)
        } else {
            &&& b.cells[c].childs[t] == a.cells[c].childs[t]
            &&& crate::dirty::has_bit(b.cells[c].dirty, t as usize) == crate::dirty::has_bit(
                a.cells[c].dirty,
                t as usize,
            )
        },
        crate::node::ChildNode::Ab(_) => {
            &&& b.cells[c].childs[t] is Ab
            &&& crate::dirty::has_bit(b.cells[c].dirty, t as usize) == crate::dirty::has_bit(
                a.cells[c].dirty,
                t as usize,
            )
        },
    }
}

/// The counts and the marks after an entry has left the cell `from`: see
/// `slot_uncounted`.
pub open spec fn uncounted<T>(a: State<T>, b: State<T>, from: usize, shrink: usize) -> bool {
    forall|c: usize, t: int|
        a.cells.contains_key(c) && 0 <= t < 8 ==> #[trigger] slot_uncounted(a, b, from, shrink, c, t)
}

/// The counts after a step from the cell `k` up to its parent `p` and what
/// follows from there.
pub(crate) proof fn lemma_uncounted_step<T>(
    st: State<T>,
    mid: State<T>,
    now: State<T>,
    skip: usize,
    k: usize,
    shrink: usize,
)
    requires
        crate::octree::inv(st, skip, k),
        same_frame(st, mid),
        st.cells.contains_key(k),
        k != ROOT,
        ({
            let p = st.cells[k].parent;
            let s = st.cells[k].parent_child;
            &&& s < 8
            &&& st.cells[p].childs[s as int] matches crate::node::ChildNode::Oct(k2, n) && k2 == k && n > 0
                && mid.cells[p].childs[s as int] == crate::node::ChildNode::Oct(k, (n - 1) as usize)
                && mid.cells[p].dirty == (if n - 1 < shrink {
                crate::dirty::with_bit(st.cells[p].dirty, s)
            } else {
                st.cells[p].dirty
            })
            &&& forall|t: int| 0 <= t < 8 && t != s ==> #[trigger] mid.cells[p].childs[t] == st.cells[p].childs[t]
            &&& forall|x: usize| x != p ==> mid.cells[x] == st.cells[x]
            &&& uncounted(mid, now, p, shrink)
        }),
    ensures
        uncounted(st, now, k, shrink),
{
    let p = st.cells[k].parent;
    let s = st.cells[k].parent_child;
    lemma_root(st, skip, k);
    lemma_cell_ok(st, skip, k, k);
    assert(crate::octree::parent_ok(st, k, k));
    lemma_cell_ok(st, skip, k, p);
    assert forall|x: usize, t: int| st.cells.contains_key(x) && 0 <= t < 8 implies #[trigger] slot_uncounted(
        st,
        now,
        k,
        shrink,
        x,
        t,
    ) by {
        assert(mid.cells.contains_key(x));
        assert(slot_uncounted(mid, now, p, shrink, x, t));
        if x == p {
            crate::dirty::lemma_with_bit(st.cells[p].dirty, s, t as usize);
        }
        if let crate::node::ChildNode::Oct(y, n) = st.cells[x].childs[t] {
            crate::links::lemma_child_cell(st, skip, k, x, t as usize);
            assert(crate::links::same_cell(st.cells[y], mid.cells[y]));
            let l = st.cells[y].layer;
            crate::census::lemma_cell_above_same(st, mid, skip, k, p, l);
            if x == p && t == s {
                assert(y == k);
                assert(crate::census::cell_above(st, k, l) == k);
                assert(crate::census::cell_above(mid, p, l) == p);
            } else {
                assert(y != k);
                assert(mid.cells[x].childs[t] == st.cells[x].childs[t]);
                if l >= st.cells[k].layer {
                    assert(crate::census::cell_above(st, k, l) == k);
                    assert(crate::census::cell_above(mid, p, l) == p);
                    assert(st.cells[p].layer < l);
                } else {
                    assert(crate::census::cell_above(st, k, l) == crate::census::cell_above(st, p, l));
                }
            }
        }
    }
}

impl<T> Tree<T> {
    /// The dirty bits of `post` are those of this tree and the mark that
    /// placing the entry `id` has set (see `place::marked`).
    pub open(crate) spec fn marked_by(&self, post: &Self, id: usize) -> bool {
        crate::place::marked(self.space.state(), post.space.state(), id, self.adjust.1)
    }

    /// The counts of `post` are those of this tree with the entry `id`
    /// counted on its way down from the root (see `place::counted_in`).
    pub open(crate) spec fn counted_by(&self, post: &Self, id: usize) -> bool {
        crate::place::counted_in(self.space.state(), post.space.state(), ROOT, id)
    }

    /// The counts and the marks of `post` are those of this tree with the
    /// entry `id` taken off on its way up to the root (see `uncounted`).
    pub open(crate) spec fn uncounted_by(&self, post: &Self, id: usize) -> bool {
        uncounted(self.space.state(), post.space.state(), self.home(id).0, self.adjust.0)
    }

    /// The cell that placing the entry `id` has put on the worklist, with
    /// its layer; `(0, 0)` if none (see `place::queued`).
    pub open(crate) spec fn queued_by(&self, post: &Self, id: usize) -> (usize, usize) {
        crate::place::queued(self.space.state(), post.space.state(), id, self.adjust.1)
    }

    /// The list in which `add` places an entry with the box `aabb`: where
    /// the root encloses the box, the list that the entry lands in from the
    /// root (see `landing`); where only the loose box of the root overlaps
    /// it, the own list of the root; else the outer list.
    pub open(crate) spec fn place_for(&self, aabb: Aabb3) -> (usize, usize) {
        let st = self.space.state();
        if st.cells[ROOT].aabb.encloses(aabb) {
            crate::place::landing(
                st,
                ROOT,
                aabb,
                layer_of(st.loose, aabb.extent()) as usize,
                crate::query::fuel_of(st, ROOT),
            )
        } else if crate::geometry::spec_intersects_loose(st.cells[ROOT].aabb, st.cells[ROOT].loose, aabb) {
            (ROOT, OWN)
        } else {
            (0, OWN)
        }
    }

    /// The slack in parts per 10000 of the root extent.
    pub fn get_loose_ratio(&self) -> (r: usize)
        ensures
            r == self.ratio(),
    {
        self.loose_ratio
    }

    /// The shrink threshold and the split threshold.
    pub fn get_adjust(&self) -> (r: (usize, usize))
        ensures
            r == self.thresholds(),
    {
        (self.adjust.0, self.adjust.1)
    }

    /// The layer that an entry with the box `aabb` gets in this tree.
    pub fn get_layer(&self, aabb: &Aabb3) -> (layer: usize)
        requires
            self.wf(),
        ensures
            layer == layer_of(self.slack(), aabb.extent()),
    {
        proof {
            lemma_root(self.space.state(), 0, 0);
        }
        calc_layer(&self.space.loose, &aabb.dim())
    }

    /// Adds an entry with the box `aabb` and the payload `bind` and returns
    /// its handle. The entry goes into the tree if the root encloses its box
    /// or the loose box of the root overlaps it, and into the outer list if
    /// not. No cell is created.
    pub fn add(&mut self, aabb: Aabb3, bind: T) -> (id: usize)
        requires
            old(self).wf(),
        ensures
            added(old(self), final(self), aabb, bind, id),
    {
        let ghost st = self.space.state();
        proof {
            lemma_root(st, 0, 0);
        }
        let layer = calc_layer(&self.space.loose, &aabb.dim());
        let nid = self.space.ab_slab.insert(AbNode::new(aabb, bind, layer));
        let ghost st1 = self.space.state();
        let root = self.space.oct_slab.at(ROOT);
        if root.aabb.contains(&aabb) {
            proof {
                lemma_insert_entry(st, nid, st1.nodes[nid], ROOT);
                assert(st1 == State { nodes: st.nodes.insert(nid, st1.nodes[nid]), ..st });
                crate::place::lemma_landing_frame(
                    st,
                    st1,
                    0,
                    0,
                    ROOT,
                    aabb,
                    layer,
                    crate::query::fuel_of(st, ROOT),
                );
            }
            let pair = self.space.down(self.adjust.1, ROOT, nid);
            proof {
                let st2 = self.space.state();
                let land = st2.nodes[nid].parent;
                crate::census::lemma_cell_above_cells(st1, st, land, st.cells[ROOT].layer);
                assert forall|c: usize, t: int| st.cells.contains_key(c) && 0 <= t < 8 implies #[trigger] crate::place::slot_counted(
                    st,
                    st2,
                    ROOT,
                    land,
                    c,
                    t,
                ) by {
                    assert(crate::place::slot_counted(st1, st2, ROOT, land, c, t));
                    if let crate::node::ChildNode::Oct(k, _) = st.cells[c].childs[t] {
                        crate::census::lemma_cell_above_cells(st1, st, land, st.cells[k].layer);
                    }
                }
            }
            let ghost cells_before = self.space.oct_slab@;
            let ghost dirty_before = self.dirty;
            set_tree_dirty(&mut self.dirty, pair);
            proof {
                let st2 = self.space.state();
                assert(crate::octree::tidy(st2.cells, self.adjust, st2.deep, 0, 0));
                lemma_dirty_ok_extend(st.cells, st2.cells, old(self).dirty, self.dirty, pair.1);
                lemma_entries_same(st1, st2);
                assert(entries_of(st1.nodes) =~= entries_of(st.nodes).insert(nid, (aabb, bind)));
            }
        } else if intersects_loose(&root.aabb, &root.loose, &aabb) {
            proof {
                lemma_insert_entry(st, nid, st1.nodes[nid], ROOT);
                assert(st1 == State { nodes: st.nodes.insert(nid, st1.nodes[nid]), ..st });
            }
            self.space.link(nid, ROOT, OWN);
            proof {
                let st2 = self.space.state();
                crate::place::lemma_counted_here(st, st2, nid, ROOT);
                assert(crate::octree::tidy(st2.cells, self.adjust, st2.deep, ROOT, OWN));
                crate::links::lemma_tidy_close(st2.cells, self.adjust, st2.deep, ROOT, OWN);
                lemma_dirty_ok_extend(st.cells, st2.cells, old(self).dirty, self.dirty, 0);
                lemma_entries_same(st1, st2);
                assert(entries_of(st1.nodes) =~= entries_of(st.nodes).insert(nid, (aabb, bind)));
            }
        } else {
            proof {
                lemma_insert_entry(st, nid, st1.nodes[nid], 0);
                assert(st1 == State { nodes: st.nodes.insert(nid, st1.nodes[nid]), ..st });
            }
            self.space.link(nid, 0, OWN);
            proof {
                let st2 = self.space.state();
                assert(st2.cells =~= st.cells);
                assert(crate::octree::tidy(st2.cells, self.adjust, st2.deep, 0, OWN));
                crate::links::lemma_tidy_close(st2.cells, self.adjust, st2.deep, 0, OWN);
                lemma_dirty_ok_extend(st.cells, st2.cells, old(self).dirty, self.dirty, 0);
                lemma_entries_same(st1, st2);
                assert(entries_of(st1.nodes) =~= entries_of(st.nodes).insert(nid, (aabb, bind)));
            }
        }
        nid
    }

    /// The box and the payload of the entry `id`, if there is such an entry.
    pub fn get(&self, id: usize) -> (r: Option<(&Aabb3, &T)>)
        requires
            self.wf(),
        ensures
            r is Some == self.entries().contains_key(id),
            r matches Some(p) ==> (*p.0, *p.1) == self.entries()[id],
    {
        match self.space.ab_slab.get(id) {
            Some(node) => Some((&node.aabb, &node.bind)),
            _ => None,
        }
    }

    /// The cell with the handle `id`, if there is one. The root cell has the
    /// handle `ROOT`; the handles of child cells are found in the slots of
    /// their parents.
    pub fn get_cell(&self, id: usize) -> (r: Option<&OctNode>)
        requires
            self.wf(),
        ensures
            r is Some == self.cells().contains_key(id),
            r matches Some(cell) ==> *cell == self.cells()[id],
    {
        self.space.oct_slab.get(id)
    }

    /// The number of cells on the restructuring worklist, as far as counted.
    pub fn get_dirty_count(&self) -> (r: usize)
        ensures
            r == self.dirty_count(),
    {
        self.dirty.1
    }

    /// The deepest layer at which cells may exist.
    pub fn get_deep(&self) -> (r: usize)
        ensures
            r == self.max_depth(),
    {
        self.space.deep
    }

    /// The box and the payload of the entry `id`, which must exist.
    pub fn get_unchecked(&self, id: usize) -> (r: (&Aabb3, &T))
        requires
            self.wf(),
            self.entries().contains_key(id),
        ensures
            (*r.0, *r.1) == self.entries()[id],
    {
        let node = self.space.ab_slab.at(id);
        (&node.aabb, &node.bind)
    }

    /// Replaces the payload of the entry `id`. Returns whether there is such
    /// an entry.
    pub fn update_bind(&mut self, id: usize, bind: T) -> (r: bool)
        requires
            old(self).wf(),
        ensures
            final(self).wf(),
            r == old(self).entries().contains_key(id),
            r ==> final(self).entries() == old(self).entries().insert(
                id,
                (old(self).entries()[id].0, bind),
            ),
            !r ==> final(self).entries() == old(self).entries(),
            final(self).same_setup(old(self)),
            final(self).cells() == old(self).cells(),
            final(self).outer_list() == old(self).outer_list(),
    {
        if !self.space.ab_slab.contains(id) {
            return false;
        }
        let ghost st = self.space.state();
        let node = self.space.ab_slab.at_mut(id);
        node.bind = bind;
        proof {
            let st2 = self.space.state();
            lemma_root(st, 0, 0);
            lemma_home_ok(st, 0, 0, id);
            crate::links::lemma_edit_home(st, id, AbNode { bind, ..st.nodes[id] });
            assert(st2.nodes =~= st.nodes.insert(id, AbNode { bind, ..st.nodes[id] }));
            assert(entries_of(st2.nodes) =~= entries_of(st.nodes).insert(
                id,
                (st.nodes[id].aabb, bind),
            ));
        }
        true
    }

    /// Takes one entry off the population that the parent of the cell `k`
    /// caches for it, and marks the slot as pending, and lists the parent,
    /// if the count has fallen below the shrink threshold. Returns the parent.
    pub(crate) fn step_up(&mut self, k: usize, Ghost(skip): Ghost<usize>) -> (p: usize)
        requires
            old(self).ok(skip, k),
            old(self).neat(),
            old(self).space.oct_slab.has(k),
            k != ROOT,
        ensures
            final(self).ok(skip, p),
            final(self).neat(),
            final(self).space.oct_slab.has(p),
            p == old(self).space.oct_slab@[k].parent,
            final(self).space.oct_slab@[p].layer < old(self).space.oct_slab@[k].layer,
            same_frame(old(self).space.state(), final(self).space.state()),
            crate::links::same_orders(old(self).space.state(), final(self).space.state()),
            final(self).space.outer == old(self).space.outer,
            final(self).space.ab_slab@ == old(self).space.ab_slab@,
            final(self).adjust == old(self).adjust,
            final(self).loose_ratio == old(self).loose_ratio,
            final(self).population() == old(self).population() - if p == ROOT {
                1int
            } else {
                0int
            },
            ({
                let a = old(self).space.state();
                let b = final(self).space.state();
                let s = a.cells[k].parent_child;
                &&& s < 8
                &&& a.cells[p].childs[s as int] matches crate::node::ChildNode::Oct(k2, n) && k2 == k && n
                    > 0 && b.cells[p].childs[s as int] == crate::node::ChildNode::Oct(k, (n - 1) as usize)
                    && b.cells[p].dirty == (if n - 1 < old(self).adjust.0 {
                    crate::dirty::with_bit(a.cells[p].dirty, s)
                } else {
                    a.cells[p].dirty
                })
                &&& forall|t: int| 0 <= t < 8 && t != s ==> #[trigger] b.cells[p].childs[t] == a.cells[p].childs[t]
                &&& forall|x: usize| x != p ==> b.cells[x] == a.cells[x]
            }),
    {
        let ghost st = self.space.state();
        proof {
            lemma_cell_ok(st, skip, k, k);
            lemma_root(st, skip, k);
        }
        let (p, s, count) = self.space.count_down(k, Ghost(skip));
        let ghost st1 = self.space.state();
        proof {
            crate::links::lemma_dirty_kept(st, st1, self.dirty);
            assert(crate::octree::tidy(st1.cells, self.adjust, st1.deep, p, s));
        }
        if count < self.adjust.0 {
            let d = self.space.flag(p, s, Ghost(skip), Ghost(p));
            let ghost st2 = self.space.state();
            let ghost dirty1 = self.dirty;
            if d.1 > 0 {
                set_tree_dirty(&mut self.dirty, d);
            }
            proof {
                lemma_dirty_ok_extend(st1.cells, st2.cells, dirty1, self.dirty, d.1);
                lemma_same_frame_trans(st, st1, st2);
                assert(crate::octree::tidy(st2.cells, self.adjust, st2.deep, 0, 0));
                assert forall|c: usize, t: usize| st.cells.contains_key(c) && t <= 8 implies #[trigger] st2.cells[c].list_at(
                    t,
                ) == st.cells[c].list_at(t) by {
                    assert(st1.cells[c].list_at(t) == st.cells[c].list_at(t));
                    assert(st1.cells.contains_key(c));
                }
            }
        } else {
            proof {
                crate::links::lemma_tidy_close(st1.cells, self.adjust, st1.deep, p, s);
            }
        }
        proof {
            assert(self.space.oct_slab@[p].layer == st.cells[p].layer);
            let now = self.space.state();
            assert(st1.cells[p].dirty == st.cells[p].dirty);
            assert(now.cells[p].childs == st1.cells[p].childs);
            assert forall|x: usize| x != p implies now.cells[x] == st.cells[x] by {
                assert(st1.cells[x] == st.cells[x]);
            }
        }
        p
    }

    /// Takes one entry off the population cached for the cell `k` in its
    /// parent and in every cell above, and marks each slot whose count falls
    /// below the shrink threshold.
    pub(crate) fn remove_up(&mut self, k: usize, Ghost(skip): Ghost<usize>)
        requires
            old(self).ok(skip, k),
            old(self).neat(),
            old(self).space.oct_slab.has(k),
        ensures
            final(self).ok(skip, ROOT),
            final(self).neat(),
            same_frame(old(self).space.state(), final(self).space.state()),
            crate::links::same_orders(old(self).space.state(), final(self).space.state()),
            final(self).space.outer == old(self).space.outer,
            final(self).space.ab_slab@ == old(self).space.ab_slab@,
            final(self).adjust == old(self).adjust,
            final(self).loose_ratio == old(self).loose_ratio,
            k == ROOT ==> final(self).space.oct_slab@[ROOT] == old(self).space.oct_slab@[ROOT],
            k != ROOT ==> final(self).population() == old(self).population() - 1,
            uncounted(old(self).space.state(), final(self).space.state(), k, old(self).adjust.0),
        decreases old(self).space.oct_slab@[k].layer,
    {
        if k == ROOT {
            proof {
                let st = self.space.state();
                lemma_root(st, skip, k);
                assert forall|x: usize, t: int| st.cells.contains_key(x) && 0 <= t < 8 implies #[trigger] slot_uncounted(
                    st,
                    st,
                    k,
                    self.adjust.0,
                    x,
                    t,
                ) by {
                    if let crate::node::ChildNode::Oct(y, n) = st.cells[x].childs[t] {
                        crate::links::lemma_child_cell(st, skip, k, x, t as usize);
                        assert(crate::census::cell_above(st, ROOT, st.cells[y].layer) == ROOT);
                    }
                }
            }
            return ;
        }
        let ghost st = self.space.state();
        let p = self.step_up(k, Ghost(skip));
        let ghost st3 = self.space.state();
        self.remove_up(p, Ghost(skip));
        proof {
            let st4 = self.space.state();
            lemma_same_frame_trans(st, st3, st4);
            lemma_uncounted_step(st, st3, st4, skip, k, self.adjust.0);
            assert forall|c: usize, t: usize| st.cells.contains_key(c) && t <= 8 implies #[trigger] st4.cells[c].list_at(
                t,
            ) == st.cells[c].list_at(t) by {
                assert(st3.cells[c].list_at(t) == st.cells[c].list_at(t));
                assert(st3.cells.contains_key(c));
            }
        }
    }

    /// Removes the entry `id`, which must exist, and returns its box and its
    /// payload. The handle may be handed out again by a later `add`. No cell
    /// is destroyed.
    pub fn remove(&mut self, id: usize) -> (r: (Aabb3, T))
        requires
            old(self).wf(),
            old(self).entries().contains_key(id),
        ensures
            removed(old(self), final(self), id, r),
    {
        let ghost st = self.space.state();
        proof {
            lemma_root(st, 0, 0);
            lemma_home_ok(st, 0, 0, id);
        }
        let p = self.space.ab_slab.at(id).parent;
        self.space.unlink(id);
        let ghost st1 = self.space.state();
        proof {
            lemma_dirty_ok_extend(st.cells, st1.cells, self.dirty, self.dirty, 0);
            assert(crate::octree::tidy(st1.cells, self.adjust, st1.deep, 0, 0));
        }
        if p != 0 {
            self.remove_up(p, Ghost(id));
        }
        let ghost st2 = self.space.state();
        proof {
            if p != 0 {
                lemma_same_frame_trans(st, st1, st2);
            }
            lemma_remove_entry(st2, id, if p != 0 { ROOT } else { 0 });
            lemma_entries_same(st, st2);
        }
        let node = self.space.ab_slab.remove(id);
        proof {
            let st3 = self.space.state();
            assert(st3 == State { nodes: st2.nodes.remove(id), ..st2 });
            assert(entries_of(st3.nodes) =~= entries_of(st2.nodes).remove(id));
            let h = old(self).home(id);
            if p == 0 {
                assert(st3.cells =~= st.cells);
            } else {
                assert forall|c: usize, t: int| st.cells.contains_key(c) && 0 <= t < 8 implies #[trigger] slot_uncounted(
                    st,
                    st3,
                    p,
                    self.adjust.0,
                    c,
                    t,
                ) by {
                    assert(st1.cells.contains_key(c));
                    assert(slot_uncounted(st1, st2, p, self.adjust.0, c, t));
                    assert(st1.cells[c].dirty == st.cells[c].dirty);
                    if let crate::node::ChildNode::Oct(k, _) = st.cells[c].childs[t] {
                        crate::links::lemma_child_cell(st, 0, 0, c, t as usize);
                        assert(crate::links::same_cell(st.cells[k], st1.cells[k]));
                        crate::census::lemma_cell_above_same(st, st1, 0, 0, p, st.cells[k].layer);
                        assert(st1.cells[c].childs[t] == st.cells[c].childs[t]);
                    } else {
                        assert(crate::links::same_cell(st.cells[c], st1.cells[c]));
                        assert(crate::links::same_slot(st.cells[c].childs[t], st1.cells[c].childs[t]));
                    }
                }
            }
            assert forall|c: usize, s: usize|
                (c == 0 && s == OWN) || (st.cells.contains_key(c) && s <= 8) implies #[trigger] self.list(
                c,
                s,
            ) == (if (c, s) == h {
                old(self).list(c, s).remove(old(self).list(c, s).index_of(id))
            } else {
                old(self).list(c, s)
            }) by {
                if c == 0 {
                    assert(st3.outer == st1.outer);
                } else {
                    assert(st1.cells.contains_key(c));
                    assert(st2.cells[c].list_at(s) == st1.cells[c].list_at(s));
                    if c == h.0 {
                        if s != h.1 {
                            assert(st1.cells[c].list_at(s) == st.cells[c].list_at(s));
                        }
                    } else {
                        assert(st1.cells[c] == st.cells[c]);
                    }
                }
            }
        }
        (node.aabb, node.bind)
    }
}

} // verus!
