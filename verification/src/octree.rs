//! The loose octree: its state, its invariant and its construction.
//!
//! Entries are classified by size into layers and attached to the deepest
//! cell that their layer and their position allow. Insertion, update and
//! removal only move entries between lists and adjust counters; cells are
//! created and destroyed by the restructuring pass alone.

use vstd::prelude::*;
use crate::arena::Arena;
use crate::geometry::{Aabb3, Vector3, layer_of, octant_box, shape_ok, spec_intersects_loose};
use crate::node::{AbNode, ChildNode, NodeList, OctNode, OWN};

verus! {

/// The slack used when none is asked for, in parts per 10000 of the root extent.
pub const LOOSE: usize = 3000;

/// The largest slack accepted.
pub const LOOSE_MAX: usize = 5000;

/// The deepest layer a tree can be given.
pub const DEEP_MAX: usize = 24;

/// The shrink threshold used when none is asked for.
pub const ADJUST_MIN: usize = 4;

/// The split threshold used when none is asked for.
pub const ADJUST_MAX: usize = 5;

/// The handle of the root cell.
pub const ROOT: usize = 1;

/// The cells and entries of a tree with the lists that connect them.
pub struct Space<T> {
    pub(crate) oct_slab: Arena<OctNode>,
    pub(crate) ab_slab: Arena<AbNode<T>>,
    /// The entries outside the root, which have parent 0.
    pub(crate) outer: NodeList,
    /// The deepest layer at which cells may exist.
    pub(crate) deep: usize,
    /// The slack of the root cell.
    pub(crate) loose: Vector3,
}

/// The loose octree.
pub struct Tree<T> {
    pub(crate) space: Space<T>,
    /// The slack in parts per 10000 of the root extent.
    pub(crate) loose_ratio: usize,
    /// Below the first, a child cell shrinks; above the second, a slot splits.
    pub(crate) adjust: (usize, usize),
    /// The cells that wait for restructuring by layer, their number, and the
    /// lowest layer among them.
    pub(crate) dirty: (Vec<Vec<usize>>, usize, usize),
}

/// The part of a tree that its structural invariant speaks of.
pub struct State<T> {
    pub cells: Map<usize, OctNode>,
    pub nodes: Map<usize, AbNode<T>>,
    pub outer: NodeList,
    pub deep: usize,
    pub loose: Vector3,
}

/// Whether `(c, s)` names a list: the outer list, the own list of a cell, or
/// a child slot of a cell that holds no child cell.
pub open spec fn key_ok<T>(st: State<T>, c: usize, s: usize) -> bool {
    if c == 0 {
        s == OWN
    } else {
        st.cells.contains_key(c) && (s == OWN || (s < 8 && st.cells[c].childs[s as int] is Ab))
    }
}

/// The list named by `(c, s)`.
pub open spec fn list_of<T>(st: State<T>, c: usize, s: usize) -> NodeList {
    if c == 0 {
        st.outer
    } else {
        st.cells[c].list_at(s)
    }
}

/// The entry at position `i` of the list `(c, s)` is live, records that list
/// as its home and is linked to its neighbours in the list.
pub open spec fn link_ok<T>(
    nodes: Map<usize, AbNode<T>>,
    order: Seq<usize>,
    i: int,
    c: usize,
    s: usize,
    skip: usize,
) -> bool {
    let e = order[i];
    &&& e != 0
    &&& e != skip
    &&& nodes.contains_key(e)
    &&& nodes[e].parent == c
    &&& nodes[e].parent_child == s
    &&& nodes[e].prev == (if i == 0 {
        0
    } else {
        order[i - 1]
    })
    &&& nodes[e].next == (if i + 1 == order.len() {
        0
    } else {
        order[i + 1]
    })
}

/// The list `l`, which is the list `(c, s)`, is a well-formed doubly-linked
/// list of distinct live entries.
pub open spec fn linked<T>(
    nodes: Map<usize, AbNode<T>>,
    l: NodeList,
    c: usize,
    s: usize,
    skip: usize,
) -> bool {
    &&& l.wf()
    &&& l@.no_duplicates()
    &&& forall|i: int| 0 <= i < l@.len() ==> #[trigger] link_ok(nodes, l@, i, c, s, skip)
}

/// A box that neither lies inside the root nor overlaps the loose box of
/// the root, which is the root enlarged by the slack `loose` on every side.
pub open spec fn outside(root: Aabb3, loose: Vector3, b: Aabb3) -> bool {
    !root.encloses(b) && !spec_intersects_loose(root, loose, b)
}

/// The entry `e` may stay where it is: its layer is that of its box and not
/// above its cell's; it is in the outer list exactly if its box is outside
/// the root; in a child slot its box lies in that octant and its layer is
/// below the cell's; in the own list of a cell other than the root its box
/// lies in the cell.
pub open spec fn placed_ok<T>(st: State<T>, e: usize) -> bool {
    let n = st.nodes[e];
    &&& n.layer == layer_of(st.loose, n.aabb.extent())
    &&& if n.parent == 0 {
        outside(st.cells[ROOT].aabb, st.cells[ROOT].loose, n.aabb)
    } else {
        let cell = st.cells[n.parent];
        &&& n.layer >= cell.layer
        &&& n.parent_child < 8 ==> n.layer > cell.layer && octant_box(
            cell.aabb,
            cell.loose,
            n.parent_child as int,
        ).encloses(n.aabb)
        &&& n.parent_child >= 8 ==> if n.parent == ROOT {
            !outside(cell.aabb, cell.loose, n.aabb)
        } else {
            cell.aabb.encloses(n.aabb)
        }
    }
}

/// The entry `e` names a list as its home, is in that list, and may stay there.
pub open spec fn home_ok<T>(st: State<T>, e: usize) -> bool {
    let n = st.nodes[e];
    &&& key_ok(st, n.parent, n.parent_child)
    &&& list_of(st, n.parent, n.parent_child)@.contains(e)
    &&& placed_ok(st, e)
}

/// A child cell in slot `s` of cell `c` is live and names `(c, s)` as its place.
pub open spec fn child_ok<T>(st: State<T>, c: usize, s: int) -> bool {
    match st.cells[c].childs[s] {
        ChildNode::Oct(k, _) => k != 0 && k != ROOT && st.cells.contains_key(k)
            && st.cells[k].parent == c && st.cells[k].parent_child == s,
        ChildNode::Ab(_) => true,
    }
}

/// The cell `c` is consistent with its parent: the parent's slot points back
/// at it and caches its population (one more while `c` is the cell that an
/// entry in transit has just left or is about to enter), and its region, slack
/// and layer are those of that octant of the parent.
pub open spec fn parent_ok<T>(st: State<T>, c: usize, excess: usize) -> bool {
    let cell = st.cells[c];
    let p = st.cells[cell.parent];
    &&& st.cells.contains_key(cell.parent)
    &&& cell.parent_child < 8
    &&& p.childs[cell.parent_child as int] == ChildNode::Oct(
        c,
        (cell.population() + if c == excess { 1int } else { 0int }) as usize,
    )
    &&& cell.population() + (if c == excess { 1int } else { 0int }) <= usize::MAX
    &&& cell.aabb == octant_box(p.aabb, p.loose, cell.parent_child as int)
    &&& cell.loose == p.loose.halved()
    &&& cell.layer == p.layer + 1
}

/// The cell `c` is well formed.
pub open spec fn cell_ok<T>(st: State<T>, c: usize, excess: usize) -> bool {
    let cell = st.cells[c];
    &&& c != 0
    &&& cell.layer <= st.deep
    &&& shape_ok(cell.aabb, cell.loose)
    &&& if c == ROOT {
        cell.parent == 0 && cell.layer == 0
    } else {
        parent_ok(st, c, excess)
    }
    &&& forall|s: int| 0 <= s < 8 ==> #[trigger] child_ok(st, c, s)
}

/// The structural invariant of the tree. `skip` names an entry in transit,
/// which is live but in no list; `excess` names the cell whose population is
/// one less than its parent's slot says. Both are 0 between operations.
#[verifier::opaque]
pub open spec fn inv<T>(st: State<T>, skip: usize, excess: usize) -> bool {
    &&& st.cells.contains_key(ROOT)
    &&& !st.cells.contains_key(0)
    &&& !st.nodes.contains_key(0)
    &&& st.cells[ROOT].loose == st.loose
    &&& st.deep <= DEEP_MAX
    &&& skip != 0 ==> st.nodes.contains_key(skip)
    &&& forall|c: usize| st.cells.contains_key(c) ==> #[trigger] cell_ok(st, c, excess)
    &&& linked(st.nodes, st.outer, 0, OWN, skip)
    &&& forall|c: usize, s: usize|
        st.cells.contains_key(c) && s <= 8 ==> #[trigger] linked(
            st.nodes,
            st.cells[c].list_at(s),
            c,
            s,
            skip,
        )
    &&& forall|e: usize| st.nodes.contains_key(e) && e != skip ==> #[trigger] home_ok(st, e)
}

/// Slot `i` of the cell needs no restructuring, or it is marked as pending:
/// its list is not longer than the split threshold unless the cell is at the
/// deepest layer, or its child cell has no fewer entries than the shrink
/// threshold.
pub open spec fn slot_tidy(cell: OctNode, i: int, adjust: (usize, usize), deep: usize) -> bool {
    crate::dirty::has_bit(cell.dirty, i as usize) || match cell.childs[i] {
        ChildNode::Ab(l) => l.len <= adjust.1 || cell.layer >= deep,
        ChildNode::Oct(_, n) => n >= adjust.0,
    }
}

/// Every slot of every cell, but slot `es` of the cell `ec`, needs no
/// restructuring or is marked as pending.
pub open spec fn tidy(
    cells: Map<usize, OctNode>,
    adjust: (usize, usize),
    deep: usize,
    ec: usize,
    es: usize,
) -> bool {
    forall|c: usize, i: int|
        cells.contains_key(c) && 0 <= i < 8 && !(c == ec && i == es) ==> #[trigger] slot_tidy(
            cells[c],
            i,
            adjust,
            deep,
        )
}

/// Every slot of the cell but slot `s` needs no restructuring or is marked as
/// pending; every slot, if `s` is no child slot.
pub open spec fn cell_tidy_but(cell: OctNode, adjust: (usize, usize), deep: usize, s: usize) -> bool {
    forall|i: int| 0 <= i < 8 && i != s ==> #[trigger] slot_tidy(cell, i, adjust, deep)
}

/// Every slot of every cell that is not among `ex` needs no restructuring or
/// is marked as pending.
pub open spec fn tidy_ex(
    cells: Map<usize, OctNode>,
    adjust: (usize, usize),
    deep: usize,
    ex: Set<usize>,
) -> bool {
    forall|c: usize, i: int|
        cells.contains_key(c) && 0 <= i < 8 && !ex.contains(c) ==> #[trigger] slot_tidy(
            cells[c],
            i,
            adjust,
            deep,
        )
}

/// Whether the cell `c` is on the restructuring worklist.
pub open spec fn listed(work: Seq<Vec<usize>>, c: usize) -> bool {
    exists|l: int, j: int| 0 <= l < work.len() && 0 <= j < work[l]@.len() && #[trigger] work[l]@[j] == c
}

/// The worklist covers every cell with a pending slot: such a cell is listed,
/// the count is positive whenever anything is listed, and nothing is listed
/// below the recorded minimum layer.
pub open spec fn dirty_ok(cells: Map<usize, OctNode>, dirty: (Vec<Vec<usize>>, usize, usize)) -> bool {
    &&& dirty.0@.len() <= DEEP_MAX + 1
    &&& forall|c: usize| #[trigger] cells.contains_key(c) && cells[c].dirty != 0 ==> listed(dirty.0@, c)
    &&& forall|l: int| 0 <= l < dirty.0@.len() && (dirty.1 == 0 || l < dirty.2) ==> (#[trigger] dirty.0@[l])@.len() == 0
}

impl<T> Space<T> {
    /// The state that the structural invariant speaks of.
    pub open(crate) spec fn state(&self) -> State<T> {
        State {
            cells: self.oct_slab@,
            nodes: self.ab_slab@,
            outer: self.outer,
            deep: self.deep,
            loose: self.loose,
        }
    }

    /// Both arenas are well formed.
    pub open(crate) spec fn arenas_ok(&self) -> bool {
        self.oct_slab.wf() && self.ab_slab.wf()
    }

    /// The structural invariant holds with the entry `skip` in transit and
    /// the cell `excess` one short.
    pub open(crate) spec fn ok(&self, skip: usize, excess: usize) -> bool {
        self.arenas_ok() && inv(self.state(), skip, excess)
    }
}

impl<T> Tree<T> {

    /// The configuration is in range: the slack is at most half of the root,
    /// and the shrink threshold does not exceed the split threshold.
    pub open(crate) spec fn config_ok(&self) -> bool {
        &&& 0 < self.loose_ratio <= LOOSE_MAX
        &&& 0 < self.adjust.0 <= self.adjust.1
    }

    /// The invariant with the entry `skip` in transit and the cell `excess`
    /// one short.
    pub open(crate) spec fn ok(&self, skip: usize, excess: usize) -> bool {
        &&& self.config_ok()
        &&& self.space.ok(skip, excess)
        &&& dirty_ok(self.space.oct_slab@, self.dirty)
    }

    /// Every slot that needs restructuring is marked as pending.
    pub open(crate) spec fn neat(&self) -> bool {
        tidy(self.space.oct_slab@, self.adjust, self.space.deep, 0, 0)
    }

    /// The invariant that every operation expects and keeps.
    pub open(crate) spec fn wf(&self) -> bool {
        self.ok(0, 0) && self.neat()
    }
}


/// The slack that a tree uses when asked for `ratio`: the default for 0, and
/// never more than the maximum.
pub open spec fn clamp_ratio(ratio: usize) -> usize {
    if ratio == 0 {
        LOOSE
    } else if ratio > LOOSE_MAX {
        LOOSE_MAX
    } else {
        ratio
    }
}

/// The thresholds that a tree uses when asked for `(min, max)`: the defaults
/// for zeros, and a split threshold raised to the shrink threshold if it was
/// below it.
pub open spec fn clamp_adjust(min: usize, max: usize) -> (usize, usize) {
    let lo = if min == 0 {
        ADJUST_MIN
    } else {
        min
    };
    let hi = if max == 0 {
        ADJUST_MAX
    } else {
        max
    };
    (
        lo,
        if lo > hi {
            lo
        } else {
            hi
        },
    )
}

/// The top-level slack of a tree over `root`: `ratio` parts per 10000 of the
/// root's extent on each axis.
pub open spec fn loose_unit(root: Aabb3, ratio: usize) -> Vector3 {
    let d = root.extent();
    Vector3 {
        x: (d.x * ratio / 10000) as i64,
        y: (d.y * ratio / 10000) as i64,
        z: (d.z * ratio / 10000) as i64,
    }
}

/// How many times `l` can be halved, at most `deep` times, before one of its
/// components reaches zero, counting only halvings that start from a vector
/// with all components positive.
pub open spec fn depth_cap(l: Vector3, deep: nat) -> nat
    decreases deep,
{
    if deep == 0 || !(l.x > 0 && l.y > 0 && l.z > 0) {
        0
    } else {
        1 + depth_cap(l.halved(), (deep - 1) as nat)
    }
}

/// The depth that a tree with top-level slack `loose` uses when asked for
/// `deep`: the maximum for 0 or too large a value, and no deeper than the
/// layer at which half the slack would reach zero.
pub open spec fn clamp_deep(loose: Vector3, deep: usize) -> nat {
    depth_cap(
        loose.halved(),
        if deep == 0 || deep > DEEP_MAX {
            DEEP_MAX as nat
        } else {
            deep as nat
        },
    )
}

fn scale(d: i64, ratio: usize) -> (r: i64)
    requires
        0 <= d <= 0x1_0000_0000,
        ratio <= LOOSE_MAX,
    ensures
        r == d * ratio / 10000,
        0 <= r <= d,
{
    assert(0 <= d * ratio <= d * 5000 <= 0x1_0000_0000 * 5000) by (nonlinear_arith)
        requires
            0 <= d <= 0x1_0000_0000,
            ratio <= 5000,
    ;
    assert(d * ratio / 10000 <= d) by (nonlinear_arith)
        requires
            0 <= d,
            0 <= d * ratio <= d * 5000,
    ;
    d * (ratio as i64) / 10000
}

fn cap_depth(loose: &Vector3, deep: usize) -> (r: usize)
    requires
        deep <= DEEP_MAX,
    ensures
        r == depth_cap(*loose, deep as nat),
        r <= deep,
{
    let mut i: usize = 0;
    let mut l = *loose;
    while i < deep && l.x > 0 && l.y > 0 && l.z > 0
        invariant
            i <= deep,
            i + depth_cap(l, (deep - i) as nat) == depth_cap(*loose, deep as nat),
        decreases deep - i,
    {
        l = l.half();
        i += 1;
    }
    i
}

impl<T> Tree<T> {
    /// The entries of the index: box and payload by handle.
    pub open(crate) spec fn entries(&self) -> Map<usize, (Aabb3, T)> {
        crate::links::entries_of(self.space.ab_slab@)
    }

    /// The strict region of the root cell.
    pub open(crate) spec fn root_bounds(&self) -> Aabb3 {
        self.space.oct_slab@[ROOT].aabb
    }

    /// The slack in parts per 10000 of the root extent.
    pub open(crate) spec fn ratio(&self) -> usize {
        self.loose_ratio
    }

    /// The shrink and the split threshold.
    pub open(crate) spec fn thresholds(&self) -> (usize, usize) {
        self.adjust
    }

    /// The deepest layer at which cells may exist.
    pub open(crate) spec fn max_depth(&self) -> usize {
        self.space.deep
    }

    /// The slack of the root cell.
    pub open(crate) spec fn slack(&self) -> Vector3 {
        self.space.loose
    }

    /// The cells, by handle.
    pub open(crate) spec fn cells(&self) -> Map<usize, OctNode> {
        self.space.oct_slab@
    }

    /// The handles in the outer list, head first.
    pub open(crate) spec fn outer_list(&self) -> Seq<usize> {
        self.space.outer@
    }

    /// Whether the entry `id` is in the outer list.
    pub open(crate) spec fn is_outer(&self, id: usize) -> bool {
        self.space.ab_slab@[id].parent == 0
    }

    /// The cell and the slot whose list holds the entry `id`: cell 0 for the
    /// outer list, slot `OWN` for the outer list and for a cell's own list.
    pub open(crate) spec fn home(&self, id: usize) -> (usize, usize) {
        (self.space.ab_slab@[id].parent, self.space.ab_slab@[id].parent_child)
    }

    /// Whether `(c, s)` names a list of the tree: the outer list `(0, OWN)`,
    /// the own list `(c, OWN)` of a cell, or the list of a child slot that
    /// holds no child cell.
    pub open(crate) spec fn is_list(&self, c: usize, s: usize) -> bool {
        key_ok(self.space.state(), c, s)
    }

    /// The handles in the list `(c, s)`, head first.
    pub open(crate) spec fn list(&self, c: usize, s: usize) -> Seq<usize> {
        list_of(self.space.state(), c, s)@
    }

    /// The layer of the entry `id`.
    pub open(crate) spec fn layer(&self, id: usize) -> usize {
        self.space.ab_slab@[id].layer
    }

    /// Every entry of `self` but `id` is in the same list in `other`.
    pub open spec fn others_stay(&self, other: &Self, id: usize) -> bool {
        forall|e: usize|
            self.entries().contains_key(e) && e != id ==> #[trigger] other.home(e) == self.home(e)
    }

    /// The number of entries inside the tree: in the lists of the root cell
    /// and in or beneath its child slots.
    pub open(crate) spec fn population(&self) -> int {
        self.space.oct_slab@[ROOT].population()
    }

    /// Whether `other` has the same configuration and the same root region.
    pub open spec fn same_setup(&self, other: &Self) -> bool {
        &&& self.root_bounds() == other.root_bounds()
        &&& self.ratio() == other.ratio()
        &&& self.thresholds() == other.thresholds()
        &&& self.max_depth() == other.max_depth()
        &&& self.slack() == other.slack()
    }

    /// No cell has a pending slot.
    pub open(crate) spec fn all_clean(&self) -> bool {
        forall|c: usize|
            (#[trigger] self.space.oct_slab@.contains_key(c)) ==> self.space.oct_slab@[c].dirty == 0
    }

    /// The number of cells on the restructuring worklist, as far as counted.
    pub open(crate) spec fn dirty_count(&self) -> usize {
        self.dirty.1
    }

    /// A tree over the region `root` (given by two corners in any order) with
    /// only the root cell and no entries. Parameters out of range are replaced:
    /// see `clamp_ratio`, `clamp_adjust` and `clamp_deep`.
    pub fn new(
        root: Aabb3,
        loose_ratio: usize,
        adjust_min: usize,
        adjust_max: usize,
        deep: usize,
    ) -> (t: Tree<T>)
        ensures
            t.wf(),
            t.entries() == Map::<usize, (Aabb3, T)>::empty(),
            t.root_bounds() == Aabb3::spanning(root.min, root.max),
            t.ratio() == clamp_ratio(loose_ratio),
            t.thresholds() == clamp_adjust(adjust_min, adjust_max),
            t.slack() == loose_unit(t.root_bounds(), t.ratio()),
            t.max_depth() == clamp_deep(t.slack(), deep),
            t.cells().dom() == set![ROOT],
            t.cells()[ROOT] == OctNode::fresh(t.root_bounds(), t.slack(), 0, 0, 0),
            t.outer_list() == Seq::<usize>::empty(),
            t.dirty_count() == 0,
    {
        let root = Aabb3::new(root.min, root.max);
        let d = root.dim();
        let loose_ratio = if loose_ratio == 0 {
            LOOSE
        } else {
            loose_ratio
        };
        let loose_ratio = if loose_ratio > LOOSE_MAX {
            LOOSE_MAX
        } else {
            loose_ratio
        };
        let loose = Vector3::new(
            scale(d.x, loose_ratio),
            scale(d.y, loose_ratio),
            scale(d.z, loose_ratio),
        );
        let mut s: Arena<OctNode> = Arena::new();
        let root_id = s.insert(OctNode::new(root, loose, 0, 0, 0));
        let deep = if deep == 0 || deep > DEEP_MAX {
            DEEP_MAX
        } else {
            deep
        };
        // Coordinates are integers: below the layer at which half the slack
        // reaches zero no entry could be told apart by size.
        let deep = cap_depth(&loose.half(), deep);
        let adjust_min = if adjust_min == 0 {
            ADJUST_MIN
        } else {
            adjust_min
        };
        let adjust_max = if adjust_max == 0 {
            ADJUST_MAX
        } else {
            adjust_max
        };
        let adjust_max = if adjust_min > adjust_max {
            adjust_min
        } else {
            adjust_max
        };
        let t = Tree {
            space: Space { oct_slab: s, ab_slab: Arena::new(), outer: NodeList::new(), deep, loose },
            loose_ratio,
            adjust: (adjust_min, adjust_max),
            dirty: (Vec::new(), 0, usize::MAX),
        };
        proof {
            reveal(inv);
            assert(t.entries() =~= Map::<usize, (Aabb3, T)>::empty());
            assert(t.cells().dom() =~= set![ROOT]);
            let st = t.space.state();
            assert forall|c: usize| st.cells.contains_key(c) implies #[trigger] cell_ok(
                st,
                c,
                0,
            ) by {
                assert forall|k: int| 0 <= k < 8 implies #[trigger] child_ok(st, c, k) by {}
            }
            assert forall|c: usize, i: int|
                st.cells.contains_key(c) && 0 <= i < 8 implies #[trigger] slot_tidy(
                st.cells[c],
                i,
                t.adjust,
                t.space.deep,
            ) by {
                assert(st.cells[c].childs[i] == ChildNode::Ab(NodeList::empty()));
            }
            assert forall|c: usize, k: usize|
                st.cells.contains_key(c) && k <= 8 implies #[trigger] linked(
                st.nodes,
                st.cells[c].list_at(k),
                c,
                k,
                0,
            ) by {
                assert(st.cells[c].list_at(k) == NodeList::empty());
            }
        }
        t
    }
}

} // verus!
