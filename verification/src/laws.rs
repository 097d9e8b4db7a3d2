//! What holds of every well-formed tree and of every sequence of operations:
//! the laws that the contracts of the operations imply, stated and proved.

use vstd::prelude::*;
use crate::collect::collected;
use crate::geometry::{
    Aabb3, intersects, layer_of, lemma_octant_inside, octant_box, spec_intersects,
};
use crate::links::{
    lemma_cell_in_root, lemma_cell_ok, lemma_child_cell, lemma_home_ok, lemma_list_linked,
    lemma_outer_iff_outside, lemma_root, same_cells,
};
use crate::node::{ChildNode, OWN};
use crate::dirty::{has_bit, lemma_with_bit};
use crate::octree::{State, Tree, inv, link_ok, list_of, listed, outside, slot_tidy, ROOT};
use crate::ops::{added, removed};
use crate::census::{lemma_slot_of, lemma_visit_members, lemma_visit_once};
use crate::query::{accepts, fuel_of, visit_cell, visit_slot, visit_slots};

verus! {

/// The number of entries found by walking the cell `c`: those of its own
/// list and, for each slot, those of its list or those found by walking its
/// child cell. Cached counts are not looked at. `fuel` bounds the depth.
pub open spec fn reachable<T>(st: State<T>, c: usize, fuel: nat) -> int
    decreases fuel, 10nat,
{
    if fuel == 0 {
        0
    } else {
        st.cells[c].nodes@.len() + reachable_slots(st, c, 0, fuel)
    }
}

/// The number of entries found by walking the slots `i` to 7 of the cell `c`.
pub open spec fn reachable_slots<T>(st: State<T>, c: usize, i: int, fuel: nat) -> int
    decreases fuel, 9 - i,
{
    if i < 0 || i >= 8 || fuel == 0 {
        0
    } else {
        (match st.cells[c].childs[i] {
            ChildNode::Oct(k, _) => reachable(st, k, (fuel - 1) as nat),
            ChildNode::Ab(l) => l@.len() as int,
        }) + reachable_slots(st, c, i + 1, fuel)
    }
}

/// Walking a cell finds as many entries as the cell counts.
proof fn lemma_reachable<T>(st: State<T>, c: usize)
    requires
        inv(st, 0, 0),
        st.cells.contains_key(c),
    ensures
        reachable(st, c, fuel_of(st, c)) == st.cells[c].population(),
    decreases st.deep - st.cells[c].layer,
{
    lemma_root(st, 0, 0);
    lemma_cell_ok(st, 0, 0, c);
    let cell = st.cells[c];
    let fuel = fuel_of(st, c);
    lemma_list_linked(st, 0, 0, c, OWN);
    assert forall|i: int| 0 <= i < 8 implies (match cell.childs[i] {
        ChildNode::Oct(k, _) => reachable(st, k, (fuel - 1) as nat),
        ChildNode::Ab(l) => l@.len() as int,
    }) == #[trigger] cell.childs[i].count() by {
        match cell.childs[i] {
            ChildNode::Oct(k, n) => {
                lemma_child_cell(st, 0, 0, c, i as usize);
                lemma_reachable(st, k);
            },
            ChildNode::Ab(l) => {
                lemma_list_linked(st, 0, 0, c, i as usize);
            },
        }
    }
    assert(reachable_slots(st, c, 8, fuel) == 0);
    assert(reachable_slots(st, c, 7, fuel) == cell.childs[7].count());
    assert(reachable_slots(st, c, 6, fuel) == cell.childs[6].count() + reachable_slots(
        st,
        c,
        7,
        fuel,
    ));
    assert(reachable_slots(st, c, 5, fuel) == cell.childs[5].count() + reachable_slots(
        st,
        c,
        6,
        fuel,
    ));
    assert(reachable_slots(st, c, 4, fuel) == cell.childs[4].count() + reachable_slots(
        st,
        c,
        5,
        fuel,
    ));
    assert(reachable_slots(st, c, 3, fuel) == cell.childs[3].count() + reachable_slots(
        st,
        c,
        4,
        fuel,
    ));
    assert(reachable_slots(st, c, 2, fuel) == cell.childs[2].count() + reachable_slots(
        st,
        c,
        3,
        fuel,
    ));
    assert(reachable_slots(st, c, 1, fuel) == cell.childs[1].count() + reachable_slots(
        st,
        c,
        2,
        fuel,
    ));
    assert(reachable_slots(st, c, 0, fuel) == cell.childs[0].count() + reachable_slots(
        st,
        c,
        1,
        fuel,
    ));
}

/// An entry visited in slot `j` is visited in the slots from any `i <= j` on.
proof fn lemma_in_slots<T>(
    st: State<T>,
    pred: spec_fn(Aabb3) -> bool,
    c: usize,
    i: int,
    j: int,
    fuel: nat,
    e: usize,
)
    requires
        0 <= i <= j < 8,
        visit_slot(st, pred, c, j, fuel).contains(e),
    ensures
        visit_slots(st, pred, c, i, fuel).contains(e),
    decreases j - i,
{
    let a = visit_slot(st, pred, c, i, fuel);
    let b = visit_slots(st, pred, c, i + 1, fuel);
    if i == j {
        let k = a.index_of(e);
        assert((a + b)[k] == e);
    } else {
        lemma_in_slots(st, pred, c, i + 1, j, fuel, e);
        let k = b.index_of(e);
        assert((a + b)[a.len() + k] == e);
    }
}

/// A cell in which the visit finds an entry counts at least one entry.
proof fn lemma_visited_counts<T>(
    st: State<T>,
    pred: spec_fn(Aabb3) -> bool,
    c: usize,
    fuel: nat,
    e: usize,
)
    requires
        inv(st, 0, 0),
        st.cells.contains_key(c),
        visit_cell(st, pred, c, fuel).contains(e),
    ensures
        st.cells[c].population() > 0,
{
    lemma_root(st, 0, 0);
    let own = st.cells[c].nodes@;
    let rest = visit_slots(st, pred, c, 0, fuel);
    let k = (own + rest).index_of(e);
    lemma_list_linked(st, 0, 0, c, OWN);
    if k >= own.len() {
        assert(rest[k - own.len()] == e);
        let j = lemma_slot_of(st, pred, c, 0, fuel, e);
        lemma_list_linked(st, 0, 0, c, j as usize);
        assert(st.cells[c].childs[j].count() > 0);
    }
}

/// An entry of the tree is visited in its own cell if the region test
/// accepts every box that encloses the box of the entry.
proof fn lemma_visited_home<T>(st: State<T>, pred: spec_fn(Aabb3) -> bool, e: usize)
    requires
        inv(st, 0, 0),
        st.nodes.contains_key(e),
        st.nodes[e].parent != 0,
        forall|b: Aabb3| b.encloses(st.nodes[e].aabb) ==> #[trigger] pred(b),
    ensures
        st.cells.contains_key(st.nodes[e].parent),
        visit_cell(st, pred, st.nodes[e].parent, fuel_of(st, st.nodes[e].parent)).contains(e),
        st.nodes[e].parent != ROOT ==> st.cells[st.nodes[e].parent].aabb.encloses(st.nodes[e].aabb),
{
    lemma_root(st, 0, 0);
    lemma_home_ok(st, 0, 0, e);
    let n = st.nodes[e];
    let c = n.parent;
    let s = n.parent_child;
    lemma_cell_ok(st, 0, 0, c);
    let fuel = fuel_of(st, c);
    let own = st.cells[c].nodes@;
    let rest = visit_slots(st, pred, c, 0, fuel);
    if s < 8 {
        lemma_list_linked(st, 0, 0, c, s);
        lemma_octant_inside(st.cells[c].aabb, st.cells[c].loose, s as int);
        let l = list_of(st, c, s);
        assert(pred(octant_box(st.cells[c].aabb, st.cells[c].loose, s as int)));
        assert(visit_slot(st, pred, c, s as int, fuel) == l@);
        lemma_in_slots(st, pred, c, 0, s as int, fuel, e);
        let k = rest.index_of(e);
        assert((own + rest)[own.len() + k] == e);
    } else {
        let k = own.index_of(e);
        assert((own + rest)[k] == e);
    }
}

/// An entry that is visited in a cell, and every box around whose box the
/// region test accepts, is visited from the root.
proof fn lemma_visited_up<T>(st: State<T>, pred: spec_fn(Aabb3) -> bool, e: usize, c: usize)
    requires
        inv(st, 0, 0),
        st.cells.contains_key(c),
        st.nodes.contains_key(e),
        visit_cell(st, pred, c, fuel_of(st, c)).contains(e),
        forall|b: Aabb3| b.encloses(st.nodes[e].aabb) ==> #[trigger] pred(b),
        c != ROOT ==> st.cells[c].aabb.encloses(st.nodes[e].aabb),
    ensures
        visit_cell(st, pred, ROOT, fuel_of(st, ROOT)).contains(e),
    decreases st.cells[c].layer,
{
    if c != ROOT {
        lemma_root(st, 0, 0);
        lemma_cell_ok(st, 0, 0, c);
        let p = st.cells[c].parent;
        let s = st.cells[c].parent_child;
        lemma_cell_ok(st, 0, 0, p);
        lemma_visited_counts(st, pred, c, fuel_of(st, c), e);
        lemma_octant_inside(st.cells[p].aabb, st.cells[p].loose, s as int);
        let fuel = fuel_of(st, p);
        assert(pred(st.cells[c].aabb));
        assert(visit_slot(st, pred, p, s as int, fuel) == visit_cell(st, pred, c, fuel_of(st, c)));
        lemma_in_slots(st, pred, p, 0, s as int, fuel, e);
        let own = st.cells[p].nodes@;
        let rest = visit_slots(st, pred, p, 0, fuel);
        let k = rest.index_of(e);
        assert((own + rest)[own.len() + k] == e);
        lemma_visited_up(st, pred, e, p);
    }
}

/// Every cell but the root hangs below a child cell of the root.
proof fn lemma_under_root<T>(st: State<T>, c: usize)
    requires
        inv(st, 0, 0),
        st.cells.contains_key(c),
        c != ROOT,
    ensures
        exists|s: int| 0 <= s < 8 && (#[trigger] st.cells[ROOT].childs[s]) is Oct,
    decreases st.cells[c].layer,
{
    lemma_cell_ok(st, 0, 0, c);
    let p = st.cells[c].parent;
    let s = st.cells[c].parent_child;
    assert(crate::octree::parent_ok(st, c, 0));
    if p == ROOT {
        assert(st.cells[ROOT].childs[s as int] is Oct);
    } else {
        lemma_under_root(st, p);
    }
}

impl<T> Tree<T> {
    /// The number of entries found by walking the cell `c` and everything
    /// beneath it, list by list, without looking at cached counts.
    pub open(crate) spec fn walked(&self, c: usize) -> int {
        reachable(self.space.state(), c, fuel_of(self.space.state(), c))
    }

    /// Containment partition: every entry is in exactly one list of the
    /// tree, the one it names as its home, and at exactly one position of it.
    pub proof fn lemma_partition(&self, id: usize, c: usize, s: usize)
        requires
            self.wf(),
            self.entries().contains_key(id),
            self.is_list(c, s),
        ensures
            self.is_list(self.home(id).0, self.home(id).1),
            self.list(c, s).contains(id) <==> (c, s) == self.home(id),
            self.list(c, s).no_duplicates(),
    {
        let st = self.space.state();
        lemma_root(st, 0, 0);
        lemma_home_ok(st, 0, 0, id);
        lemma_list_linked(st, 0, 0, c, if c == 0 { OWN } else { s });
        let l = list_of(st, c, s);
        if l@.contains(id) {
            let i = l@.index_of(id);
            assert(link_ok(st.nodes, l@, i, c, s, 0));
        }
    }

    /// Count consistency: the count cached in a slot that holds a child cell
    /// is the number of entries found by walking that child cell.
    pub proof fn lemma_counts(&self, c: usize, s: usize)
        requires
            self.wf(),
            self.cells().contains_key(c),
            s < 8,
            self.cells()[c].childs[s as int] is Oct,
        ensures
            self.cells()[c].childs[s as int]->Oct_1 == self.walked(
                self.cells()[c].childs[s as int]->Oct_0,
            ),
    {
        let st = self.space.state();
        lemma_child_cell(st, 0, 0, c, s);
        lemma_reachable(st, self.cells()[c].childs[s as int]->Oct_0);
    }

    /// The population of the tree is the number of entries found by walking
    /// it from the root.
    pub proof fn lemma_population(&self)
        requires
            self.wf(),
        ensures
            self.population() == self.walked(ROOT),
    {
        lemma_root(self.space.state(), 0, 0);
        lemma_reachable(self.space.state(), ROOT);
    }

    /// An entry is in the outer list exactly if its box neither lies inside
    /// the root nor overlaps the loose box of the root.
    pub proof fn lemma_outer(&self, id: usize)
        requires
            self.wf(),
            self.entries().contains_key(id),
        ensures
            self.is_outer(id) == outside(self.root_bounds(), self.slack(), self.entries()[id].0),
            self.is_outer(id) == self.outer_list().contains(id),
    {
        let st = self.space.state();
        lemma_root(st, 0, 0);
        lemma_outer_iff_outside(st, 0, 0, id);
        lemma_home_ok(st, 0, 0, id);
        lemma_list_linked(st, 0, 0, 0, OWN);
        if st.outer@.contains(id) {
            let i = st.outer@.index_of(id);
            assert(link_ok(st.nodes, st.outer@, i, 0, OWN, 0));
        }
    }

    /// Round trip: adding an entry and removing it at once gives back the
    /// box and the payload and leaves the entries, every list, the
    /// population and the cells of the tree as they were.
    pub proof fn lemma_add_remove(
        pre: &Tree<T>,
        mid: &Tree<T>,
        post: &Tree<T>,
        aabb: Aabb3,
        bind: T,
        id: usize,
        r: (Aabb3, T),
    )
        requires
            pre.wf(),
            added(pre, mid, aabb, bind, id),
            removed(mid, post, id, r),
        ensures
            r == (aabb, bind),
            post.entries() == pre.entries(),
            post.outer_list() == pre.outer_list(),
            post.population() == pre.population(),
            post.same_setup(pre),
            same_cells(pre.cells(), post.cells()),
            forall|c: usize, s: usize|
                (c == 0 && s == OWN) || (pre.cells().contains_key(c) && s <= 8) ==> #[trigger] post.list(
                    c,
                    s,
                ) == pre.list(c, s),
    {
        assert(post.entries() =~= pre.entries());
        crate::moving::lemma_same_cells_trans(pre.cells(), mid.cells(), post.cells());
        assert forall|c: usize, s: usize|
            (c == 0 && s == OWN) || (pre.cells().contains_key(c) && s <= 8) implies #[trigger] post.list(
            c,
            s,
        ) == pre.list(c, s) by {
            let st = pre.space.state();
            lemma_root(st, 0, 0);
            assert(mid.cells().contains_key(c) == pre.cells().contains_key(c));
            assert(mid.list(c, s) == if (c, s) == mid.home(id) {
                seq![id] + pre.list(c, s)
            } else {
                pre.list(c, s)
            });
            if (c, s) == mid.home(id) {
                lemma_list_linked(st, 0, 0, c, s);
                let l = seq![id] + pre.list(c, s);
                let i = l.index_of(id);
                assert(l[0] == id);
                if i > 0 {
                    assert(pre.list(c, s)[i - 1] == id);
                    assert(st.nodes.contains_key(list_of(st, c, s)@[i - 1]));
                }
                assert(l.remove(0) =~= pre.list(c, s));
            }
        }
        if outside(pre.root_bounds(), pre.slack(), aabb) {
            let st = pre.space.state();
            lemma_list_linked(st, 0, 0, 0, OWN);
            let l = seq![id] + pre.outer_list();
            let i = l.index_of(id);
            assert(l[0] == id);
            if i > 0 {
                assert(pre.outer_list()[i - 1] == id);
                assert(st.nodes.contains_key(st.outer@[i - 1]));
            }
            assert(l.remove(0) =~= pre.outer_list());
        }
    }

    /// Restructuring converges: a second pass right after a pass changes
    /// nothing, and after any pass no cell has a pending slot.
    pub proof fn lemma_collect_twice(pre: &Tree<T>, mid: &Tree<T>, post: &Tree<T>)
        requires
            collected(pre, mid),
            collected(mid, post),
        ensures
            *post == *mid,
            mid.all_clean(),
            mid.dirty_count() == 0,
    {
    }

    /// Query soundness: whatever the region test, a query visits only
    /// entries of the tree, none of the outer list.
    pub proof fn lemma_query_sound(&self, pred: spec_fn(Aabb3) -> bool, id: usize)
        requires
            self.wf(),
            self.visit_order(pred).contains(id),
        ensures
            self.entries().contains_key(id),
            !self.is_outer(id),
    {
        let st = self.space.state();
        lemma_root(st, 0, 0);
        lemma_visit_members(st, 0, 0, pred, ROOT, fuel_of(st, ROOT), id);
    }

    /// Query completeness: a query visits every entry inside the tree that
    /// its region test cannot cut off, that is, every entry such that the
    /// test accepts each box that encloses the box of the entry.
    pub proof fn lemma_query_complete(&self, pred: spec_fn(Aabb3) -> bool, id: usize)
        requires
            self.wf(),
            self.entries().contains_key(id),
            !self.is_outer(id),
            forall|b: Aabb3| b.encloses(self.entries()[id].0) ==> #[trigger] pred(b),
        ensures
            self.visit_order(pred).contains(id),
    {
        let st = self.space.state();
        lemma_visited_home(st, pred, id);
        lemma_visited_up(st, pred, id, st.nodes[id].parent);
    }

    /// The box query: among the entries that a query with the overlap test
    /// for the box `q` visits, those whose box overlaps `q` are exactly the
    /// entries inside the tree whose box overlaps `q`, whatever was inserted,
    /// moved, removed or restructured before.
    pub proof fn lemma_box_query(&self, q: &Aabb3, id: usize)
        requires
            self.wf(),
            self.entries().contains_key(id),
        ensures
            (self.visit_order(|b: Aabb3| accepts(intersects, q, b)).contains(id) && spec_intersects(
                *q,
                self.entries()[id].0,
            )) <==> (!self.is_outer(id) && spec_intersects(*q, self.entries()[id].0)),
    {
        let pred = |b: Aabb3| accepts(intersects, q, b);
        if self.visit_order(pred).contains(id) {
            self.lemma_query_sound(pred, id);
        }
        if !self.is_outer(id) && spec_intersects(*q, self.entries()[id].0) {
            assert forall|b: Aabb3| b.encloses(self.entries()[id].0) implies #[trigger] pred(b) by {
                crate::geometry::lemma_intersects_grows(*q, self.entries()[id].0, b);
                crate::query::lemma_intersects_test(q, b);
            }
            self.lemma_query_complete(pred, id);
        }
    }

    /// Placement: the layer of an entry is that of its box; an entry inside
    /// the tree is in a cell whose layer is not above its own; in a child
    /// slot only if its layer is below the cell's and the octant of the slot
    /// encloses its box; and in the own list of a cell other than the root
    /// only if the cell encloses its box.
    pub proof fn lemma_placement(&self, id: usize)
        requires
            self.wf(),
            self.entries().contains_key(id),
        ensures
            self.layer(id) == layer_of(self.slack(), self.entries()[id].0.extent()),
            !self.is_outer(id) ==> {
                let (c, s) = self.home(id);
                let cell = self.cells()[c];
                &&& self.cells().contains_key(c)
                &&& self.layer(id) >= cell.layer
                &&& s < 8 ==> self.layer(id) > cell.layer && octant_box(
                    cell.aabb,
                    cell.loose,
                    s as int,
                ).encloses(self.entries()[id].0)
                &&& s >= 8 && c != ROOT ==> cell.aabb.encloses(self.entries()[id].0)
            },
    {
        let st = self.space.state();
        lemma_root(st, 0, 0);
        lemma_home_ok(st, 0, 0, id);
    }

    /// The cells form a tree: the root is at layer 0 over the root region;
    /// a child cell is one layer below its parent, which holds it in the
    /// slot the child names, its region is the octant of that slot, and its
    /// slack is half the slack of its parent. No cell is deeper than the
    /// deepest layer, and every cell lies inside the root.
    pub proof fn lemma_cells(&self, c: usize)
        requires
            self.wf(),
            self.cells().contains_key(c),
        ensures
            self.cells().contains_key(ROOT),
            self.cells()[ROOT].layer == 0,
            self.cells()[ROOT].loose == self.slack(),
            self.cells()[c].layer <= self.max_depth(),
            self.root_bounds().encloses(self.cells()[c].aabb),
            c != ROOT ==> {
                let cell = self.cells()[c];
                let p = self.cells()[cell.parent];
                &&& self.cells().contains_key(cell.parent)
                &&& cell.parent_child < 8
                &&& p.childs[cell.parent_child as int] matches ChildNode::Oct(k, _) && k == c
                &&& cell.layer == p.layer + 1
                &&& cell.aabb == octant_box(p.aabb, p.loose, cell.parent_child as int)
                &&& cell.loose == p.loose.halved()
            },
    {
        let st = self.space.state();
        lemma_root(st, 0, 0);
        lemma_cell_ok(st, 0, 0, c);
        lemma_cell_in_root(st, 0, 0, c);
    }

    /// A slot that needs restructuring is marked as pending, and a cell is
    /// counted as waiting: a list longer than the split threshold in a cell
    /// above the deepest layer, and a child cell with fewer entries than the
    /// shrink threshold.
    pub proof fn lemma_pending(&self, c: usize, s: usize)
        requires
            self.wf(),
            self.cells().contains_key(c),
            s < 8,
            match self.cells()[c].childs[s as int] {
                ChildNode::Ab(l) => l.len > self.thresholds().1 && self.cells()[c].layer
                    < self.max_depth(),
                ChildNode::Oct(_, n) => n < self.thresholds().0,
            },
        ensures
            has_bit(self.cells()[c].dirty, s),
            self.dirty_count() > 0,
    {
        let cell = self.cells()[c];
        lemma_root(self.space.state(), 0, 0);
        assert(slot_tidy(cell, s as int, self.adjust, self.space.deep));
        let d = cell.dirty;
        assert(d & (1usize << s) != 0 ==> d != 0) by (bit_vector);
        assert(listed(self.dirty.0@, c));
        let (l, j) = choose|l: int, j: int|
            0 <= l < self.dirty.0@.len() && 0 <= j < self.dirty.0@[l]@.len()
                && #[trigger] self.dirty.0@[l]@[j] == c;
        if self.dirty.1 == 0 {
            assert(self.dirty.0@[l]@.len() == 0);
        }
    }

    /// After a restructuring pass no slot needs restructuring: no list is
    /// longer than the split threshold but in a cell at the deepest layer,
    /// and no child cell has fewer entries than the shrink threshold.
    pub proof fn lemma_settled(pre: &Tree<T>, post: &Tree<T>, c: usize, s: usize)
        requires
            collected(pre, post),
            post.cells().contains_key(c),
            s < 8,
        ensures
            match post.cells()[c].childs[s as int] {
                ChildNode::Ab(l) => l.len <= post.thresholds().1 || post.cells()[c].layer
                    >= post.max_depth(),
                ChildNode::Oct(_, n) => n >= post.thresholds().0,
            },
    {
        let cell = post.cells()[c];
        lemma_root(post.space.state(), 0, 0);
        assert(slot_tidy(cell, s as int, post.adjust, post.space.deep));
        lemma_with_bit(0, s, s);
    }

    /// What a restructuring pass makes of the slots of the root: a list
    /// longer than the split threshold has become a child cell that counts
    /// as many entries, if the tree may be deeper than its root; a child cell
    /// with fewer entries than the shrink threshold has become a list of as
    /// many entries; and the own list of the root is as it was.
    pub proof fn lemma_root_slots(pre: &Tree<T>, post: &Tree<T>, s: usize)
        requires
            pre.wf(),
            collected(pre, post),
            s < 8,
        ensures
            post.cells()[ROOT].nodes == pre.cells()[ROOT].nodes,
            match pre.cells()[ROOT].childs[s as int] {
                ChildNode::Ab(l) => if l.len > pre.thresholds().1 && pre.max_depth() > 0 {
                    post.cells()[ROOT].childs[s as int] matches ChildNode::Oct(_, n) && n == l.len
                } else {
                    post.cells()[ROOT].childs[s as int] == pre.cells()[ROOT].childs[s as int]
                },
                ChildNode::Oct(_, n) => if n < pre.thresholds().0 {
                    post.cells()[ROOT].childs[s as int] matches ChildNode::Ab(l) && l.len == n
                } else {
                    post.cells()[ROOT].childs[s as int] == pre.cells()[ROOT].childs[s as int]
                },
            },
    {
        let st = pre.space.state();
        lemma_root(st, 0, 0);
        let a = pre.cells()[ROOT];
        let b = post.cells()[ROOT];
        assert(crate::collect::slot_outcome(a, b, s as int, pre.thresholds(), pre.max_depth()));
        assert(a.layer == 0);
        match a.childs[s as int] {
            ChildNode::Ab(l) => {
                if l.len > pre.thresholds().1 && pre.max_depth() > 0 {
                    pre.lemma_pending(ROOT, s);
                }
            },
            ChildNode::Oct(_, n) => {
                if n < pre.thresholds().0 {
                    pre.lemma_pending(ROOT, s);
                }
            },
        }
    }

    /// A tree whose root holds no child cell has no cell but the root.
    pub proof fn lemma_root_only(&self, c: usize)
        requires
            self.wf(),
            forall|s: int| 0 <= s < 8 ==> (#[trigger] self.cells()[ROOT].childs[s]) is Ab,
        ensures
            self.cells().contains_key(c) <==> c == ROOT,
    {
        let st = self.space.state();
        lemma_root(st, 0, 0);
        if self.cells().contains_key(c) && c != ROOT {
            lemma_under_root(st, c);
        }
    }

    /// A query visits no entry twice.
    pub proof fn lemma_query_once(&self, pred: spec_fn(Aabb3) -> bool)
        requires
            self.wf(),
        ensures
            self.visit_order(pred).no_duplicates(),
    {
        let st = self.space.state();
        lemma_root(st, 0, 0);
        lemma_visit_once(st, 0, 0, pred, ROOT, fuel_of(st, ROOT));
    }
}

} // verus!
