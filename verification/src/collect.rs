//! The restructuring pass: the only place where cells are created and
//! destroyed. A child slot whose list has grown beyond the split threshold is
//! promoted to a child cell; a child cell whose population has fallen below
//! the shrink threshold is folded back into a list.

use vstd::prelude::*;
use crate::geometry::{
    Aabb3, Vector3, find_octant, lemma_octant_inside, octant, octant_box, shape_ok,
};
use crate::links::{
    entries_of, lemma_cell_ok, lemma_child_cell, lemma_entries_same, lemma_home_ok,
    lemma_list_linked, lemma_root, lemma_set_slot, same_cell, same_entry, same_frame, same_homes,
    set_slot, unlinked,
};
use crate::node::{AbNode, ChildNode, NodeList, OctNode, OWN};
use crate::octree::{Space, State, Tree, inv, link_ok, list_of, ROOT};
use crate::rekey::{
    absorbed, child_of, flat, lemma_absorb, lemma_promote, promoted, rehome, rekeyed,
};

verus! {

/// What a restructuring step at the cell `p` leaves of the state `a`: the
/// same entries with the same boxes, payloads and layers, each still inside
/// or outside the tree as before; the same outer list; the cell `p` in its
/// place; every other cell that is not deeper than `p` unchanged; and no cell
/// with a pending slot that had none before, except perhaps `fresh`.
pub open spec fn rebuilt<T>(a: State<T>, b: State<T>, p: usize, fresh: usize) -> bool {
    &&& entries_of(a.nodes) == entries_of(b.nodes)
    &&& a.outer == b.outer
    &&& a.deep == b.deep
    &&& a.loose == b.loose
    &&& forall|e: usize|
        a.nodes.contains_key(e) ==> ((#[trigger] b.nodes[e]).parent == 0) == (a.nodes[e].parent
            == 0) && b.nodes[e].layer == a.nodes[e].layer
    &&& b.cells.contains_key(p)
    &&& b.cells[p].aabb == a.cells[p].aabb
    &&& b.cells[p].loose == a.cells[p].loose
    &&& b.cells[p].layer == a.cells[p].layer
    &&& b.cells[p].parent == a.cells[p].parent
    &&& b.cells[p].parent_child == a.cells[p].parent_child
    &&& forall|c: usize|
        a.cells.contains_key(c) && a.cells[c].layer <= a.cells[p].layer && c != p
            ==> (#[trigger] b.cells.contains_key(c)) && b.cells[c] == a.cells[c]
    &&& forall|c: usize|
        (#[trigger] b.cells.contains_key(c)) && b.cells[c].dirty != 0 && c != fresh
            ==> a.cells.contains_key(c) && a.cells[c].dirty != 0
}

/// `rebuilt` is reflexive.
pub(crate) proof fn lemma_rebuilt_refl<T>(a: State<T>, p: usize)
    requires
        a.cells.contains_key(p),
    ensures
        rebuilt(a, a, p, 0),
{
}

/// `rebuilt` is transitive.
pub(crate) proof fn lemma_rebuilt_trans<T>(a: State<T>, b: State<T>, c: State<T>, p: usize, fresh: usize)
    requires
        a.cells.contains_key(p),
        rebuilt(a, b, p, fresh),
        rebuilt(b, c, p, fresh),
        forall|e: usize| a.nodes.contains_key(e) == b.nodes.contains_key(e),
    ensures
        rebuilt(a, c, p, fresh),
{
    assert forall|e: usize| a.nodes.contains_key(e) implies ((#[trigger] c.nodes[e]).parent == 0)
        == (a.nodes[e].parent == 0) && c.nodes[e].layer == a.nodes[e].layer by {
        assert(b.nodes[e].layer == a.nodes[e].layer);
    }
    assert forall|k: usize|
        a.cells.contains_key(k) && a.cells[k].layer <= a.cells[p].layer && k != p implies (#[trigger] c.cells.contains_key(
        k,
    )) && c.cells[k] == a.cells[k] by {
        assert(b.cells.contains_key(k) && b.cells[k] == a.cells[k]);
    }
    assert forall|k: usize|
        (#[trigger] c.cells.contains_key(k)) && c.cells[k].dirty != 0 && k != fresh implies a.cells.contains_key(
        k,
    ) && a.cells[k].dirty != 0 by {
        assert(b.cells.contains_key(k) && b.cells[k].dirty != 0);
    }
}

/// A step that moves entries between the lists of one cell `k`, or that
/// changes the dirty bits of `k`, is a restructuring step at `k`.
pub(crate) proof fn lemma_rebuilt_local<T>(a: State<T>, b: State<T>, k: usize, moved: usize, fresh: usize)
    requires
        a.cells.contains_key(k),
        !a.nodes.contains_key(0),
        same_frame(a, b),
        same_homes(a, b, moved),
        moved != 0 ==> (a.nodes[moved].parent == 0) == (b.nodes[moved].parent == 0),
        a.outer == b.outer,
        forall|c: usize| c != k ==> b.cells[c] == a.cells[c],
        fresh == k || b.cells[k].dirty == a.cells[k].dirty,
    ensures
        rebuilt(a, b, k, fresh),
{
    lemma_entries_same(a, b);
    assert forall|e: usize| a.nodes.contains_key(e) implies ((#[trigger] b.nodes[e]).parent == 0)
        == (a.nodes[e].parent == 0) && b.nodes[e].layer == a.nodes[e].layer by {
        assert(same_entry(a.nodes[e], b.nodes[e]));
    }
    assert(same_cell(a.cells[k], b.cells[k]));
    assert forall|c: usize|
        a.cells.contains_key(c) && a.cells[c].layer <= a.cells[k].layer && c != k implies (#[trigger] b.cells.contains_key(
        c,
    )) && b.cells[c] == a.cells[c] by {
        assert(a.cells.contains_key(c) == b.cells.contains_key(c));
    }
    assert forall|c: usize|
        (#[trigger] b.cells.contains_key(c)) && b.cells[c].dirty != 0 && c != fresh implies a.cells.contains_key(
        c,
    ) && a.cells[c].dirty != 0 by {
        assert(a.cells.contains_key(c) == b.cells.contains_key(c));
    }
}

/// A restructuring step at a cell below `p` is one at `p` that leaves `p`
/// itself unchanged.
pub(crate) proof fn lemma_rebuilt_up<T>(a: State<T>, b: State<T>, k: usize, p: usize, fresh: usize)
    requires
        rebuilt(a, b, k, fresh),
        a.cells.contains_key(p),
        a.cells.contains_key(k),
        a.cells[p].layer < a.cells[k].layer,
    ensures
        rebuilt(a, b, p, fresh),
        b.cells[p] == a.cells[p],
{
    assert(a.cells[p].layer <= a.cells[k].layer && p != k);
    assert(b.cells.contains_key(p));
    assert(b.cells[p] == a.cells[p]);
    assert forall|c: usize|
        a.cells.contains_key(c) && a.cells[c].layer <= a.cells[p].layer && c != p implies (#[trigger] b.cells.contains_key(
        c,
    )) && b.cells[c] == a.cells[c] by {}
}

/// Recording a new home for the entries of a list changes no box, payload
/// or layer.
pub(crate) proof fn lemma_rekeyed_entries<T>(nodes: Map<usize, AbNode<T>>, order: Seq<usize>, c: usize, s: usize)
    ensures
        entries_of(rekeyed(nodes, order, c, s)) == entries_of(nodes),
{
    assert(entries_of(rekeyed(nodes, order, c, s)) =~= entries_of(nodes));
}

/// Absorbing a flat child cell is a restructuring step at its parent.
pub(crate) proof fn lemma_absorb_rebuilt<T>(st: State<T>, p: usize, i: usize)
    requires
        inv(st, 0, 0),
        st.cells.contains_key(p),
        i < 8,
        st.cells[p].childs[i as int] is Oct,
    ensures
        rebuilt(st, absorbed(st, p, i), p, 0),
        absorbed(st, p, i).cells[p].childs[i as int] == ChildNode::Ab(
            st.cells[st.cells[p].childs[i as int]->Oct_0].nodes,
        ),
        forall|t: int|
            0 <= t < 8 && t != i ==> #[trigger] absorbed(st, p, i).cells[p].childs[t]
                == st.cells[p].childs[t],
        absorbed(st, p, i).cells[p].nodes == st.cells[p].nodes,
        absorbed(st, p, i).cells[p].dirty == st.cells[p].dirty,
        flat(st.cells[st.cells[p].childs[i as int]->Oct_0]) ==> absorbed(st, p, i).cells[p].population()
            == st.cells[p].population(),
        forall|e: usize| st.nodes.contains_key(e) == absorbed(st, p, i).nodes.contains_key(e),
{
    let st2 = absorbed(st, p, i);
    let k = st.cells[p].childs[i as int]->Oct_0;
    let l = st.cells[k].nodes;
    lemma_root(st, 0, 0);
    lemma_child_cell(st, 0, 0, p, i);
    lemma_set_slot(st.cells[p], i, ChildNode::Ab(l));
    lemma_rekeyed_entries(st.nodes, l@, p, i);
    lemma_list_linked(st, 0, 0, k, OWN);
    if flat(st.cells[k]) {
        let kid = st.cells[k];
        assert(kid.childs[0].count() == 0 && kid.childs[1].count() == 0 && kid.childs[2].count()
            == 0 && kid.childs[3].count() == 0 && kid.childs[4].count() == 0
            && kid.childs[5].count() == 0 && kid.childs[6].count() == 0 && kid.childs[7].count()
            == 0);
        assert(kid.population() == l.len);
    }
    assert forall|e: usize| st.nodes.contains_key(e) implies ((#[trigger] st2.nodes[e]).parent == 0)
        == (st.nodes[e].parent == 0) && st2.nodes[e].layer == st.nodes[e].layer by {
        if l@.contains(e) {
            let j = l@.index_of(e);
            assert(link_ok(st.nodes, l@, j, k, OWN, 0));
        }
    }
}

/// Promoting a slot to a child cell is a restructuring step at the cell.
pub(crate) proof fn lemma_promote_rebuilt<T>(st: State<T>, p: usize, i: usize, k: usize)
    requires
        inv(st, 0, 0),
        st.cells.contains_key(p),
        i < 8,
        st.cells[p].childs[i as int] is Ab,
        k != 0,
        !st.cells.contains_key(k),
    ensures
        rebuilt(st, promoted(st, p, i, k), p, 0),
        promoted(st, p, i, k).cells.contains_key(k),
        promoted(st, p, i, k).cells[k] == child_of(st.cells[p], p, i),
        forall|t: int|
            0 <= t < 8 && t != i ==> #[trigger] promoted(st, p, i, k).cells[p].childs[t]
                == st.cells[p].childs[t],
        promoted(st, p, i, k).cells[p].childs[i as int] == ChildNode::Oct(
            k,
            st.cells[p].list_at(i).len,
        ),
        promoted(st, p, i, k).cells[p].nodes == st.cells[p].nodes,
        promoted(st, p, i, k).cells[p].dirty == st.cells[p].dirty,
        promoted(st, p, i, k).cells[p].population() == st.cells[p].population(),
        forall|e: usize| st.nodes.contains_key(e) == promoted(st, p, i, k).nodes.contains_key(e),
{
    let st2 = promoted(st, p, i, k);
    let l = st.cells[p].list_at(i);
    lemma_root(st, 0, 0);
    lemma_set_slot(st.cells[p], i, ChildNode::Oct(k, l.len));
    lemma_rekeyed_entries(st.nodes, l@, k, OWN);
    lemma_list_linked(st, 0, 0, p, i);
    assert forall|e: usize| st.nodes.contains_key(e) implies ((#[trigger] st2.nodes[e]).parent == 0)
        == (st.nodes[e].parent == 0) && st2.nodes[e].layer == st.nodes[e].layer by {
        if l@.contains(e) {
            let j = l@.index_of(e);
            assert(link_ok(st.nodes, l@, j, p, i, 0));
        }
    }
    assert forall|c: usize|
        st.cells.contains_key(c) && st.cells[c].layer <= st.cells[p].layer && c != p implies (#[trigger] st2.cells.contains_key(
        c,
    )) && st2.cells[c] == st.cells[c] by {}
    assert forall|c: usize|
        (#[trigger] st2.cells.contains_key(c)) && st2.cells[c].dirty != 0 implies st.cells.contains_key(
        c,
    ) && st.cells[c].dirty != 0 by {}
}

/// The cell for octant `child` of the cell `parent_id`, whose region, slack
/// and layer are given: the region of the octant, half the slack, the next
/// layer, and no entries.
pub fn create_child(
    aabb: &Aabb3,
    loose: &Vector3,
    layer: usize,
    parent_id: usize,
    child: usize,
) -> (r: OctNode)
    requires
        shape_ok(*aabb, *loose),
        layer < usize::MAX,
    ensures
        r == OctNode::fresh(
            octant_box(*aabb, *loose, child as int),
            loose.halved(),
            parent_id,
            child,
            (layer + 1) as usize,
        ),
{
    let a = octant(aabb, loose, child);
    OctNode::new(a, loose.half(), parent_id, child, layer + 1)
}

/// Whatever set of cells that includes the cell `p` is left out, the cells
/// `b` are tidy outside the set if the cells `a` are.
pub open spec fn tidy_kept(
    a: Map<usize, OctNode>,
    b: Map<usize, OctNode>,
    adj: (usize, usize),
    deep: usize,
    p: usize,
) -> bool {
    forall|ex: Set<usize>|
        ex.contains(p) && crate::octree::tidy_ex(a, adj, deep, ex) ==> #[trigger] crate::octree::tidy_ex(
            b,
            adj,
            deep,
            ex,
        )
}

/// `tidy_kept` is transitive.
pub(crate) proof fn lemma_kept_trans(
    a: Map<usize, OctNode>,
    b: Map<usize, OctNode>,
    c: Map<usize, OctNode>,
    adj: (usize, usize),
    deep: usize,
    p: usize,
)
    requires
        tidy_kept(a, b, adj, deep, p),
        tidy_kept(b, c, adj, deep, p),
    ensures
        tidy_kept(a, c, adj, deep, p),
{
    assert forall|ex: Set<usize>|
        ex.contains(p) && crate::octree::tidy_ex(a, adj, deep, ex) implies #[trigger] crate::octree::tidy_ex(
        c,
        adj,
        deep,
        ex,
    ) by {
        assert(crate::octree::tidy_ex(b, adj, deep, ex));
    }
}

/// A step that changes the cell `k` only keeps the cells tidy outside any set
/// that includes `k`.
pub(crate) proof fn lemma_kept_local(
    a: Map<usize, OctNode>,
    b: Map<usize, OctNode>,
    adj: (usize, usize),
    deep: usize,
    k: usize,
)
    requires
        forall|c: usize| c != k && #[trigger] b.contains_key(c) ==> a.contains_key(c) && b[c] == a[c],
    ensures
        tidy_kept(a, b, adj, deep, k),
{
    assert forall|ex: Set<usize>|
        ex.contains(k) && crate::octree::tidy_ex(a, adj, deep, ex) implies #[trigger] crate::octree::tidy_ex(
        b,
        adj,
        deep,
        ex,
    ) by {
        crate::links::lemma_tidy_ex_step(a, b, adj, deep, ex);
    }
}

/// What keeps the cells tidy outside the sets that include the cell `k`
/// keeps them tidy outside the sets that include another cell `p`, if `k` is
/// gone or tidy itself afterwards.
pub(crate) proof fn lemma_kept_up(
    a: Map<usize, OctNode>,
    b: Map<usize, OctNode>,
    adj: (usize, usize),
    deep: usize,
    k: usize,
    p: usize,
)
    requires
        tidy_kept(a, b, adj, deep, k),
        b.contains_key(k) ==> crate::octree::cell_tidy_but(b[k], adj, deep, OWN),
    ensures
        tidy_kept(a, b, adj, deep, p),
{
    assert forall|ex: Set<usize>|
        ex.contains(p) && crate::octree::tidy_ex(a, adj, deep, ex) implies #[trigger] crate::octree::tidy_ex(
        b,
        adj,
        deep,
        ex,
    ) by {
        crate::links::lemma_tidy_ex_more(a, adj, deep, ex, k);
        assert(crate::octree::tidy_ex(b, adj, deep, ex.insert(k)));
        crate::links::lemma_tidy_ex_less(b, adj, deep, ex, k);
    }
}

/// A step that changes the cell `p` and makes the cell `k`, which is tidy,
/// keeps the cells tidy outside any set that includes `p`.
pub(crate) proof fn lemma_kept_new(
    a: Map<usize, OctNode>,
    b: Map<usize, OctNode>,
    adj: (usize, usize),
    deep: usize,
    p: usize,
    k: usize,
)
    requires
        forall|c: usize|
            c != p && c != k && #[trigger] b.contains_key(c) ==> a.contains_key(c) && b[c] == a[c],
        b.contains_key(k) ==> crate::octree::cell_tidy_but(b[k], adj, deep, OWN),
    ensures
        tidy_kept(a, b, adj, deep, p),
{
    assert forall|ex: Set<usize>|
        ex.contains(p) && crate::octree::tidy_ex(a, adj, deep, ex) implies #[trigger] crate::octree::tidy_ex(
        b,
        adj,
        deep,
        ex,
    ) by {
        crate::links::lemma_tidy_ex_more(a, adj, deep, ex, k);
        crate::links::lemma_tidy_ex_step(a, b, adj, deep, ex.insert(k));
        crate::links::lemma_tidy_ex_less(b, adj, deep, ex, k);
    }
}

/// Every slot of the cell below `upto`, and every slot whose bit is not set
/// in `dirty`, needs no restructuring.
pub open spec fn done_upto(
    cell: OctNode,
    dirty: usize,
    upto: int,
    adj: (usize, usize),
    deep: usize,
) -> bool {
    forall|i: int|
        0 <= i < 8 && (i < upto || !crate::dirty::has_bit(dirty, i as usize)) ==> #[trigger] crate::octree::slot_tidy(
            cell,
            i,
            adj,
            deep,
        )
}

/// A cell without child cells whose slots are empty is tidy.
pub(crate) proof fn lemma_flat_tidy(cell: OctNode, adj: (usize, usize), deep: usize)
    requires
        flat(cell),
    ensures
        crate::octree::cell_tidy_but(cell, adj, deep, OWN),
{
    assert forall|i: int| 0 <= i < 8 implies #[trigger] crate::octree::slot_tidy(cell, i, adj, deep) by {
        assert(cell.childs[i] is Ab && cell.childs[i].count() == 0);
    }
}

/// A restructuring step that leaves no new pending slot is also one that
/// may leave some at `fresh`.
pub(crate) proof fn lemma_rebuilt_weaken<T>(a: State<T>, b: State<T>, p: usize, fresh: usize)
    requires
        rebuilt(a, b, p, 0),
        !b.cells.contains_key(0),
    ensures
        rebuilt(a, b, p, fresh),
{
}

/// A restructuring step that left pending slots at `fresh` at most is one
/// that left none once `fresh` has none.
pub(crate) proof fn lemma_rebuilt_clean<T>(a: State<T>, b: State<T>, p: usize, fresh: usize)
    requires
        rebuilt(a, b, p, fresh),
        b.cells.contains_key(fresh) ==> b.cells[fresh].dirty == 0,
    ensures
        rebuilt(a, b, p, 0),
{
}

/// What the restructuring of a cell makes of slot `t`, from the cell `a`
/// to the cell `b`: a pending list longer than the split threshold, in a
/// cell above the deepest layer, has become a child cell with that many
/// entries; a pending child cell with fewer entries than the shrink threshold
/// has become a list of that many entries; any other slot is as it was.
pub open spec fn slot_outcome(
    a: OctNode,
    b: OctNode,
    t: int,
    adjust: (usize, usize),
    deep: usize,
) -> bool {
    let pending = crate::dirty::has_bit(a.dirty, t as usize);
    match a.childs[t] {
        ChildNode::Ab(l) => if pending && l.len > adjust.1 && a.layer < deep {
            b.childs[t] matches ChildNode::Oct(_, n) && n == l.len
        } else {
            b.childs[t] == a.childs[t]
        },
        ChildNode::Oct(_, n) => if pending && n < adjust.0 {
            b.childs[t] matches ChildNode::Ab(l) && l.len == n
        } else {
            b.childs[t] == a.childs[t]
        },
    }
}

/// What the restructuring of a cell makes of it: each slot as `slot_outcome`
/// says, the own list as it was, and no slot pending.
pub open spec fn cell_outcome(a: OctNode, b: OctNode, adjust: (usize, usize), deep: usize) -> bool {
    &&& forall|t: int| 0 <= t < 8 ==> #[trigger] slot_outcome(a, b, t, adjust, deep)
    &&& b.nodes == a.nodes
    &&& b.dirty == 0
}

/// Every entry of the list `(c1, s1)` is in the list `(c2, s2)` in the state
/// `b`, and every other entry where it was in the state `a`.
pub open spec fn list_moved<T>(
    a: State<T>,
    b: State<T>,
    c1: usize,
    s1: usize,
    c2: usize,
    s2: usize,
) -> bool {
    forall|e: usize|
        a.nodes.contains_key(e) ==> #[trigger] home_of(b, e) == (if home_of(a, e) == (c1, s1) {
            (c2, s2)
        } else {
            home_of(a, e)
        })
}

/// Every cell of `b` but `p` is a cell of `a` and as it was there.
pub open spec fn cells_kept(a: Map<usize, OctNode>, b: Map<usize, OctNode>, p: usize) -> bool {
    forall|c: usize| c != p && #[trigger] b.contains_key(c) ==> a.contains_key(c) && b[c] == a[c]
}

/// Every entry is where it was or in the list `(c, s)`; and it is where it
/// was if it was in the outer list, or in a cell other than `but` that still
/// exists.
pub open spec fn homes_kept<T>(a: State<T>, b: State<T>, c: usize, s: usize, but: usize) -> bool {
    forall|e: usize|
        a.nodes.contains_key(e) ==> {
            &&& (#[trigger] home_of(b, e)) == home_of(a, e) || home_of(b, e) == (c, s)
            &&& (a.nodes[e].parent == 0 || (b.cells.contains_key(a.nodes[e].parent)
                && a.nodes[e].parent != but)) ==> home_of(b, e) == home_of(a, e)
        }
}

/// Where the entry `e` is while the entries `left` are still in the list of
/// slot `j` of the cell `k`, which is being moved to the own list of `k`.
pub open spec fn drain_home<T>(a: State<T>, k: usize, j: usize, left: Seq<usize>, e: usize) -> (
    usize,
    usize,
) {
    if home_of(a, e) == (k, j) && !left.contains(e) {
        (k, OWN)
    } else {
        home_of(a, e)
    }
}

/// One step of moving a list to the own list of its cell.
pub(crate) proof fn lemma_drain_step<T>(
    a: State<T>,
    st: State<T>,
    now: State<T>,
    k: usize,
    j: usize,
    left: Seq<usize>,
)
    requires
        forall|e: usize| a.nodes.contains_key(e) ==> home_of(st, e) == #[trigger] drain_home(a, k, j, left, e),
        left.len() > 0,
        left.no_duplicates(),
        a.nodes.contains_key(left[0]),
        home_of(st, left[0]) == (k, j),
        home_of(now, left[0]) == (k, OWN),
        j < 8,
        forall|e: usize| e != left[0] && a.nodes.contains_key(e) ==> #[trigger] home_of(now, e) == home_of(st, e),
    ensures
        forall|e: usize|
            a.nodes.contains_key(e) ==> home_of(now, e) == #[trigger] drain_home(
                a,
                k,
                j,
                left.drop_first(),
                e,
            ),
{
    let id = left[0];
    let left2 = left.drop_first();
    assert forall|e: usize| left2.contains(e) implies left.contains(e) && e != id by {
        let x = choose|x: int| 0 <= x < left2.len() && left2[x] == e;
        assert(left[x + 1] == e);
    }
    assert forall|e: usize| left.contains(e) && e != id implies left2.contains(e) by {
        let x = choose|x: int| 0 <= x < left.len() && left[x] == e;
        assert(left2[x - 1] == e);
    }
    assert(left.contains(id));
    assert forall|e: usize| a.nodes.contains_key(e) implies home_of(now, e) == #[trigger] drain_home(
        a,
        k,
        j,
        left2,
        e,
    ) by {
        assert(home_of(st, e) == drain_home(a, k, j, left, e));
        if e != id {
            assert(home_of(now, e) == home_of(st, e));
        }
    }
}

/// Flattening the child cell `k2` in slot `j` of the cell `k`, absorbing it
/// and draining the slot moves entries to the own list of `k` only, and only
/// entries whose cell is `k` or is gone.
pub(crate) proof fn lemma_flatten_step<T>(
    a: State<T>,
    st: State<T>,
    s1: State<T>,
    s2: State<T>,
    s3: State<T>,
    k: usize,
    j: usize,
    k2: usize,
)
    requires
        homes_kept(a, st, k, OWN, k),
        homes_kept(st, s1, k2, OWN, k2),
        list_moved(s1, s2, k2, OWN, k, j),
        list_moved(s2, s3, k, j, k, OWN),
        forall|e: usize| a.nodes.contains_key(e) ==> st.nodes.contains_key(e) && s1.nodes.contains_key(e) && s2.nodes.contains_key(e),
        forall|c: usize| s1.cells.contains_key(c) ==> st.cells.contains_key(c),
        forall|c: usize| s2.cells.contains_key(c) == (s1.cells.contains_key(c) && c != k2),
        forall|c: usize| s3.cells.contains_key(c) == s2.cells.contains_key(c),
        k2 != k,
        k2 != 0,
        k != 0,
        j < 8,
    ensures
        homes_kept(a, s3, k, OWN, k),
{
    assert forall|e: usize| a.nodes.contains_key(e) implies ({
        &&& (#[trigger] home_of(s3, e)) == home_of(a, e) || home_of(s3, e) == (k, OWN)
        &&& (a.nodes[e].parent == 0 || (s3.cells.contains_key(a.nodes[e].parent) && a.nodes[e].parent
            != k)) ==> home_of(s3, e) == home_of(a, e)
    }) by {
        let h0 = home_of(a, e);
        let hs = home_of(st, e);
        let h1 = home_of(s1, e);
        let h2 = home_of(s2, e);
        let h3 = home_of(s3, e);
        assert(hs == h0 || hs == (k, OWN));
        assert(h1 == hs || h1 == (k2, OWN));
        assert(h2 == (if h1 == (k2, OWN) {
            (k, j)
        } else {
            h1
        }));
        assert(h3 == (if h2 == (k, j) {
            (k, OWN)
        } else {
            h2
        }));
        if h0.0 == 0 || (s3.cells.contains_key(h0.0) && h0.0 != k) {
            assert(hs == h0);
            assert(st.nodes[e].parent == h0.0);
            assert(h1 == hs);
        }
    }
}

/// Draining a slot of the cell `k` moves entries to the own list of `k`
/// only, and only entries of `k`.
pub(crate) proof fn lemma_flatten_drain<T>(a: State<T>, st: State<T>, s3: State<T>, k: usize, j: usize)
    requires
        homes_kept(a, st, k, OWN, k),
        list_moved(st, s3, k, j, k, OWN),
        forall|e: usize| a.nodes.contains_key(e) ==> st.nodes.contains_key(e),
        forall|c: usize| s3.cells.contains_key(c) == st.cells.contains_key(c),
        k != 0,
    ensures
        homes_kept(a, s3, k, OWN, k),
{
    assert forall|e: usize| a.nodes.contains_key(e) implies ({
        &&& (#[trigger] home_of(s3, e)) == home_of(a, e) || home_of(s3, e) == (k, OWN)
        &&& (a.nodes[e].parent == 0 || (s3.cells.contains_key(a.nodes[e].parent) && a.nodes[e].parent
            != k)) ==> home_of(s3, e) == home_of(a, e)
    }) by {
        let hs = home_of(st, e);
        assert(hs == home_of(a, e) || hs == (k, OWN));
        assert(home_of(s3, e) == (if hs == (k, j) {
            (k, OWN)
        } else {
            hs
        }));
    }
}

/// Flattening the child cell `k` and absorbing it into slot `i` of the cell
/// `p` moves entries to the list of that slot only, and only entries whose
/// cell is gone.
pub(crate) proof fn lemma_shrink_homes<T>(
    st: State<T>,
    s1: State<T>,
    s2: State<T>,
    p: usize,
    i: usize,
    k: usize,
)
    requires
        homes_kept(st, s1, k, OWN, k),
        list_moved(s1, s2, k, OWN, p, i),
        forall|e: usize| st.nodes.contains_key(e) ==> s1.nodes.contains_key(e),
        forall|c: usize| s2.cells.contains_key(c) == (s1.cells.contains_key(c) && c != k),
        k != 0,
    ensures
        homes_kept(st, s2, p, i, 0),
{
    assert forall|e: usize| st.nodes.contains_key(e) implies ({
        &&& (#[trigger] home_of(s2, e)) == home_of(st, e) || home_of(s2, e) == (p, i)
        &&& (st.nodes[e].parent == 0 || (s2.cells.contains_key(st.nodes[e].parent)
            && st.nodes[e].parent != 0)) ==> home_of(s2, e) == home_of(st, e)
    }) by {
        let h1 = home_of(s1, e);
        assert(h1 == home_of(st, e) || h1 == (k, OWN));
        assert(home_of(s2, e) == (if h1 == (k, OWN) {
            (p, i)
        } else {
            h1
        }));
    }
}

/// Slot `t` held a list in the cell `a` and holds a child cell in `b`.
pub open spec fn was_split(a: OctNode, b: OctNode, t: usize) -> bool {
    t < 8 && a.childs[t as int] is Ab && b.childs[t as int] is Oct
}

/// Slot `t` held a child cell in the cell `a` and holds a list in `b`.
pub open spec fn was_shrunk(a: OctNode, b: OctNode, t: usize) -> bool {
    t < 8 && a.childs[t as int] is Oct && b.childs[t as int] is Ab
}

/// Where the restructuring of the slots below `upto` of the cell `q` has left
/// the entry `e`: where it was, unless it is now in the list of a slot that
/// was shrunk or was in the list of a slot that was split; and where it was
/// if it was in a list of `q` that was not split.
pub open spec fn collect_home_ok<T>(a: State<T>, b: State<T>, q: usize, upto: usize, e: usize) -> bool {
    let h0 = home_of(a, e);
    let h1 = home_of(b, e);
    &&& h1 == h0 || (h1.0 == q && h1.1 < upto && was_shrunk(a.cells[q], b.cells[q], h1.1)) || (h0.0
        == q && h0.1 < upto && was_split(a.cells[q], b.cells[q], h0.1))
    &&& (h0.0 == q && !(h0.1 < upto && was_split(a.cells[q], b.cells[q], h0.1))) ==> h1 == h0
}

/// `collect_home_ok` for every entry.
pub open spec fn collect_homes<T>(a: State<T>, b: State<T>, q: usize, upto: usize) -> bool {
    forall|e: usize| a.nodes.contains_key(e) ==> #[trigger] collect_home_ok(a, b, q, upto, e)
}

/// Where the promotion of slot `i` of the cell `p` to the child cell `k` has
/// left the entry `e`: where it was if it was not in the list of the slot;
/// else where the redistribution of that list in `k` puts it, unless that
/// is a slot of `k` that has been promoted in turn.
pub open spec fn split_home_ok<T>(a: State<T>, b: State<T>, p: usize, i: usize, k: usize, e: usize) -> bool {
    if home_of(a, e) != (p, i) {
        home_of(b, e) == home_of(a, e)
    } else {
        let h = split_home(promoted(a, p, i, k), k, e);
        (h.1 == OWN || b.cells[k].childs[h.1 as int] is Ab) ==> home_of(b, e) == h
    }
}

/// `split_home_ok` for every entry.
pub open spec fn split_homes<T>(a: State<T>, b: State<T>, p: usize, i: usize, k: usize) -> bool {
    forall|e: usize| a.nodes.contains_key(e) ==> #[trigger] split_home_ok(a, b, p, i, k, e)
}

/// One slot more of a cell has been restructured: nothing was to do for it
/// (`kind` 0), it was shrunk (1), or it was split into the child cell `k` (2).
pub(crate) proof fn lemma_collect_step<T>(
    a: State<T>,
    st: State<T>,
    now: State<T>,
    q: usize,
    i: usize,
    kind: int,
    k: usize,
)
    requires
        collect_homes(a, st, q, i),
        i < 8,
        q != 0,
        now.cells.contains_key(q),
        forall|e: usize| a.nodes.contains_key(e) ==> st.nodes.contains_key(e),
        forall|t: int| 0 <= t < 8 && t != i ==> #[trigger] now.cells[q].childs[t] == st.cells[q].childs[t],
        (st.cells[q].childs[i as int] is Ab) == (a.cells[q].childs[i as int] is Ab),
        kind == 0 ==> now.cells[q].childs[i as int] == st.cells[q].childs[i as int] && forall|e: usize|
            a.nodes.contains_key(e) ==> #[trigger] home_of(now, e) == home_of(st, e),
        kind == 1 ==> homes_kept(st, now, q, i, 0) && st.cells[q].childs[i as int] is Oct
            && now.cells[q].childs[i as int] is Ab,
        kind == 2 ==> split_homes(st, now, q, i, k) && st.cells[q].childs[i as int] is Ab
            && now.cells[q].childs[i as int] is Oct,
        0 <= kind <= 2,
    ensures
        collect_homes(a, now, q, (i + 1) as usize),
{
    assert forall|e: usize| a.nodes.contains_key(e) implies #[trigger] collect_home_ok(
        a,
        now,
        q,
        (i + 1) as usize,
        e,
    ) by {
        assert(collect_home_ok(a, st, q, i, e));
        let h0 = home_of(a, e);
        let hs = home_of(st, e);
        let h1 = home_of(now, e);
        assert forall|t: usize| t < i implies was_shrunk(a.cells[q], now.cells[q], t) == was_shrunk(
            a.cells[q],
            st.cells[q],
            t,
        ) && was_split(a.cells[q], now.cells[q], t) == was_split(a.cells[q], st.cells[q], t) by {
            assert(now.cells[q].childs[t as int] == st.cells[q].childs[t as int]);
        }
        if kind == 0 {
            assert(h1 == hs);
        } else if kind == 1 {
            assert(h1 == hs || h1 == (q, i));
            assert(was_shrunk(a.cells[q], now.cells[q], i));
            if hs.0 == q {
                assert(st.nodes[e].parent == q);
                assert(h1 == hs);
            }
        } else {
            assert(split_home_ok(st, now, q, i, k, e));
            assert(was_split(a.cells[q], now.cells[q], i));
            if hs != (q, i) {
                assert(h1 == hs);
            }
        }
    }
}

/// The cell and the slot that the entry `e` names as its home.
pub open spec fn home_of<T>(st: State<T>, e: usize) -> (usize, usize) {
    (st.nodes[e].parent, st.nodes[e].parent_child)
}

/// The list in which the redistribution of the own list of the cell `p`
/// places the entry `e` of that list: the list of the first octant that
/// encloses its box, if the layer of the entry is below the cell's and the
/// slot holds no child cell; else the own list again.
pub open spec fn split_home<T>(st: State<T>, p: usize, e: usize) -> (usize, usize) {
    let cell = st.cells[p];
    let n = st.nodes[e];
    let i = crate::geometry::first_octant(cell.aabb, cell.loose, n.aabb, 0);
    if n.layer > cell.layer && i < 8 && cell.childs[i] is Ab {
        (p, i as usize)
    } else {
        (p, OWN)
    }
}

/// Where the entry `e` is while the entries `rest` of the own list of the
/// cell `p` are still to be redistributed.
pub open spec fn progress_home<T>(a: State<T>, p: usize, rest: Seq<usize>, e: usize) -> (
    usize,
    usize,
) {
    if home_of(a, e) == (p, OWN) && !rest.contains(e) {
        split_home(a, p, e)
    } else {
        home_of(a, e)
    }
}

/// The list of slot `t` has grown from the cell `a` to the cell `b` and is
/// now longer than `adjust`, in a cell above the deepest layer.
pub open spec fn slot_due(a: OctNode, b: OctNode, t: int, adjust: usize, deep: usize) -> bool {
    b.childs[t].count() > a.childs[t].count() && b.childs[t].count() > adjust && b.layer < deep
}

/// The bit of slot `t` is set in the cell `b` exactly if it is set in the
/// cell `a` or the slot is due.
pub open spec fn mark_ok(a: OctNode, b: OctNode, t: int, adjust: usize, deep: usize) -> bool {
    crate::dirty::has_bit(b.dirty, t as usize) == (crate::dirty::has_bit(a.dirty, t as usize)
        || slot_due(a, b, t, adjust, deep))
}

/// The dirty bits of the cell `b` are those of the cell `a` and the bits of
/// the slots that are due; none is set exactly if none was and no slot is due.
pub open spec fn marks_after(a: OctNode, b: OctNode, adjust: usize, deep: usize) -> bool {
    &&& forall|t: int| 0 <= t < 8 ==> #[trigger] mark_ok(a, b, t, adjust, deep)
    &&& (b.dirty == 0) == (a.dirty == 0 && forall|t: int|
        0 <= t < 8 ==> !#[trigger] slot_due(a, b, t, adjust, deep))
}

/// How far the redistribution of the own list of the cell `p` has come from
/// the state `a` when the entries `rest` are still to do.
pub open spec fn split_progress<T>(
    a: State<T>,
    b: State<T>,
    p: usize,
    rest: Seq<usize>,
    adjust: usize,
) -> bool {
    &&& forall|e: usize|
        a.nodes.contains_key(e) ==> home_of(b, e) == #[trigger] progress_home(a, p, rest, e)
    &&& forall|t: int|
        0 <= t < 8 ==> ((#[trigger] b.cells[p].childs[t]) is Ab) == (a.cells[p].childs[t] is Ab)
            && b.cells[p].childs[t].count() >= a.cells[p].childs[t].count()
    &&& marks_after(a.cells[p], b.cells[p], adjust, a.deep)
    &&& b.cells[p].layer == a.cells[p].layer
}

/// The redistribution of the own list of the cell `p` from the state `a`
/// has given the state `b`: every entry of that list is where `split_home`
/// puts it, every other entry where it was, and the slots whose list has
/// grown beyond `adjust` are marked, in a cell above the deepest layer.
pub open spec fn redistributed<T>(a: State<T>, b: State<T>, p: usize, adjust: usize) -> bool {
    &&& forall|e: usize|
        a.nodes.contains_key(e) ==> #[trigger] home_of(b, e) == (if home_of(a, e) == (p, OWN) {
            split_home(a, p, e)
        } else {
            home_of(a, e)
        })
    &&& forall|t: int|
        0 <= t < 8 ==> ((#[trigger] b.cells[p].childs[t]) is Ab) == (a.cells[p].childs[t] is Ab)
    &&& marks_after(a.cells[p], b.cells[p], adjust, a.deep)
}

/// One step of the redistribution: the first of the entries still to do has
/// gone to slot `i`, or has stayed if `i` is 8.
pub(crate) proof fn lemma_split_step<T>(
    a: State<T>,
    st: State<T>,
    now: State<T>,
    p: usize,
    rest: Seq<usize>,
    adjust: usize,
    i: int,
    marked: bool,
)
    requires
        split_progress(a, st, p, rest, adjust),
        rest.len() > 0,
        rest.no_duplicates(),
        a.nodes.contains_key(rest[0]),
        home_of(st, rest[0]) == (p, OWN),
        st.cells[p].aabb == a.cells[p].aabb,
        st.cells[p].loose == a.cells[p].loose,
        now.cells[p].layer == st.cells[p].layer,
        st.nodes[rest[0]].aabb == a.nodes[rest[0]].aabb,
        st.nodes[rest[0]].layer == a.nodes[rest[0]].layer,
        forall|e: usize| e != rest[0] && a.nodes.contains_key(e) ==> #[trigger] home_of(now, e) == home_of(st, e),
        0 <= i <= 8,
        i == 8 ==> home_of(now, rest[0]) == (p, OWN) && now.cells[p].childs == st.cells[p].childs
            && now.cells[p].dirty == st.cells[p].dirty && split_home(a, p, rest[0]) == (p, OWN),
        i < 8 ==> split_home(a, p, rest[0]) == (p, i as usize) && home_of(now, rest[0]) == (p, i as usize)
            && st.cells[p].childs[i] is Ab && now.cells[p].childs[i] is Ab
            && now.cells[p].childs[i].count() == st.cells[p].childs[i].count() + 1 && (forall|t: int|
            0 <= t < 8 && t != i ==> #[trigger] now.cells[p].childs[t] == st.cells[p].childs[t])
            && marked == (st.cells[p].childs[i].count() >= adjust && st.cells[p].layer < a.deep)
            && now.cells[p].dirty == (if marked {
            crate::dirty::with_bit(st.cells[p].dirty, i as usize)
        } else {
            st.cells[p].dirty
        }),
    ensures
        split_progress(a, now, p, rest.drop_first(), adjust),
{
    let id = rest[0];
    let rest2 = rest.drop_first();
    assert forall|e: usize| rest2.contains(e) implies rest.contains(e) && e != id by {
        let j = choose|j: int| 0 <= j < rest2.len() && rest2[j] == e;
        assert(rest[j + 1] == e);
    }
    assert forall|e: usize| rest.contains(e) && e != id implies rest2.contains(e) by {
        let j = choose|j: int| 0 <= j < rest.len() && rest[j] == e;
        assert(rest2[j - 1] == e);
    }
    assert(rest.contains(id));
    assert forall|e: usize| a.nodes.contains_key(e) implies home_of(now, e) == #[trigger] progress_home(
        a,
        p,
        rest2,
        e,
    ) by {
        assert(home_of(st, e) == progress_home(a, p, rest, e));
        if e != id {
            assert(home_of(now, e) == home_of(st, e));
        }
    }
    let ca = a.cells[p];
    let cs = st.cells[p];
    let cn = now.cells[p];
    assert(marks_after(ca, cs, adjust, a.deep));
    assert(cs.layer == ca.layer);
    assert forall|t: int| 0 <= t < 8 implies ((#[trigger] cn.childs[t]) is Ab) == (ca.childs[t] is Ab)
        && cn.childs[t].count() >= ca.childs[t].count() by {
        assert((cs.childs[t] is Ab) == (ca.childs[t] is Ab));
    }
    assert forall|t: int| 0 <= t < 8 implies (slot_due(ca, cn, t, adjust, a.deep) == (slot_due(
        ca,
        cs,
        t,
        adjust,
        a.deep,
    ) || (t == i && marked))) by {
        assert((cs.childs[t] is Ab) == (ca.childs[t] is Ab));
    }
    if i < 8 {
        crate::dirty::lemma_with_bit_not_zero(cs.dirty, i as usize);
    }
    assert forall|t: int| 0 <= t < 8 implies #[trigger] mark_ok(ca, cn, t, adjust, a.deep) by {
        assert(mark_ok(ca, cs, t, adjust, a.deep));
        if i < 8 {
            crate::dirty::lemma_with_bit(cs.dirty, i as usize, t as usize);
        }
    }
    if cn.dirty == 0 {
        assert(!(i < 8 && marked));
        assert forall|t: int| 0 <= t < 8 implies !#[trigger] slot_due(ca, cn, t, adjust, a.deep) by {
            assert(!slot_due(ca, cs, t, adjust, a.deep));
        }
    } else if ca.dirty == 0 {
        if i < 8 && marked {
            assert(slot_due(ca, cn, i, adjust, a.deep));
        } else {
            let t = choose|t: int| 0 <= t < 8 && #[trigger] slot_due(ca, cs, t, adjust, a.deep);
            assert(slot_due(ca, cn, t, adjust, a.deep));
        }
    }
    assert(marks_after(ca, cn, adjust, a.deep));
}

impl<T> Space<T> {
    /// Moves every entry of the list in slot `j` of the cell `k` to the own
    /// list of the cell.
    /// Slots of other cells that were tidy for the thresholds `adj` stay so.
    pub(crate) fn drain(&mut self, k: usize, j: usize, Ghost(adj): Ghost<(usize, usize)>)
        requires
            old(self).ok(0, 0),
            old(self).oct_slab.has(k),
            k != ROOT,
            j < 8,
            old(self).oct_slab@[k].childs[j as int] is Ab,
        ensures
            final(self).ok(0, 0),
            rebuilt(old(self).state(), final(self).state(), k, 0),
            tidy_kept(old(self).oct_slab@, final(self).oct_slab@, adj, old(self).deep, k),
            final(self).oct_slab@[k].childs[j as int] is Ab,
            final(self).oct_slab@[k].childs[j as int].count() == 0,
            forall|t: int|
                0 <= t < 8 && t != j ==> #[trigger] final(self).oct_slab@[k].childs[t] == old(self).oct_slab@[k].childs[t],
            list_moved(old(self).state(), final(self).state(), k, j, k, OWN),
            cells_kept(old(self).oct_slab@, final(self).oct_slab@, k),
            forall|c: usize| final(self).oct_slab@.contains_key(c) == old(self).oct_slab@.contains_key(c),
    {
        let ghost st0 = self.state();
        proof {
            lemma_rebuilt_refl(st0, k);
            lemma_kept_local(st0.cells, st0.cells, adj, st0.deep, k);
            assert forall|e: usize| st0.nodes.contains_key(e) implies home_of(st0, e) == #[trigger] drain_home(
                st0,
                k,
                j,
                list_of(st0, k, j)@,
                e,
            ) by {
                lemma_root(st0, 0, 0);
                lemma_home_ok(st0, 0, 0, e);
            }
        }
        loop
            invariant
                forall|e: usize|
                    st0.nodes.contains_key(e) ==> home_of(self.state(), e) == #[trigger] drain_home(
                        st0,
                        k,
                        j,
                        list_of(self.state(), k, j)@,
                        e,
                    ),
                cells_kept(st0.cells, self.oct_slab@, k),
                forall|c: usize| self.oct_slab@.contains_key(c) == st0.cells.contains_key(c),
                self.ok(0, 0),
                self.oct_slab.has(k),
                k != ROOT,
                j < 8,
                self.oct_slab@[k].childs[j as int] is Ab,
                st0.cells.contains_key(k),
                rebuilt(st0, self.state(), k, 0),
                tidy_kept(st0.cells, self.oct_slab@, adj, st0.deep, k),
                forall|e: usize| st0.nodes.contains_key(e) == self.state().nodes.contains_key(e),
                forall|t: int|
                    0 <= t < 8 && t != j ==> #[trigger] self.oct_slab@[k].childs[t]
                        == st0.cells[k].childs[t],
            ensures
                self.ok(0, 0),
                rebuilt(st0, self.state(), k, 0),
                tidy_kept(st0.cells, self.oct_slab@, adj, st0.deep, k),
                list_moved(st0, self.state(), k, j, k, OWN),
                cells_kept(st0.cells, self.oct_slab@, k),
                forall|c: usize| self.oct_slab@.contains_key(c) == st0.cells.contains_key(c),
                self.oct_slab@[k].childs[j as int] is Ab,
                self.oct_slab@[k].childs[j as int].count() == 0,
                forall|t: int|
                    0 <= t < 8 && t != j ==> #[trigger] self.oct_slab@[k].childs[t]
                        == st0.cells[k].childs[t],
            decreases self.oct_slab@[k].childs[j as int].count(),
        {
            let ghost st = self.state();
            proof {
                lemma_root(st, 0, 0);
                lemma_list_linked(st, 0, 0, k, j);
                lemma_cell_ok(st, 0, 0, k);
            }
            let e = self.head_of(k, j);
            if e == 0 {
                proof {
                    assert(list_of(st, k, j)@.len() == 0);
                    assert forall|x: usize| st0.nodes.contains_key(x) implies #[trigger] home_of(st, x) == (if home_of(
                        st0,
                        x,
                    ) == (k, j) {
                        (k, OWN)
                    } else {
                        home_of(st0, x)
                    }) by {
                        assert(home_of(st, x) == drain_home(st0, k, j, list_of(st, k, j)@, x));
                    }
                }
                break ;
            }
            proof {
                let l = list_of(st, k, j);
                assert(link_ok(st.nodes, l@, 0, k, j, 0));
                lemma_home_ok(st, 0, 0, e);
                lemma_octant_inside(st.cells[k].aabb, st.cells[k].loose, j as int);
            }
            self.unlink(e);
            let ghost st1 = self.state();
            proof {
                lemma_rebuilt_local(st, st1, k, e, 0);
                lemma_rebuilt_trans(st0, st, st1, k, 0);
                assert(same_cell(st.cells[k], st1.cells[k]));
                assert(same_entry(st.nodes[e], st1.nodes[e]));
                lemma_kept_local(st.cells, st1.cells, adj, st.deep, k);
                lemma_kept_trans(st0.cells, st.cells, st1.cells, adj, st.deep, k);
            }
            self.link(e, k, OWN);
            proof {
                let st2 = self.state();
                assert(st1.nodes.contains_key(e));
                lemma_root(st1, e, k);
                lemma_rebuilt_local(st1, st2, k, e, 0);
                lemma_rebuilt_trans(st0, st1, st2, k, 0);
                lemma_list_linked(st2, 0, 0, k, j);
                lemma_kept_local(st1.cells, st2.cells, adj, st.deep, k);
                lemma_kept_trans(st0.cells, st1.cells, st2.cells, adj, st.deep, k);
                let left = list_of(st, k, j)@;
                assert(list_of(st2, k, j)@ =~= left.drop_first()) by {
                    assert(crate::links::position(st, e) == 0) by {
                        assert(left[0] == e);
                        let x = left.index_of(e);
                        assert(left[x] == e);
                    }
                    assert(list_of(st1, k, j)@ == left.remove(0));
                    assert(st2.cells[k].list_at(j) == st1.cells[k].list_at(j));
                }
                assert forall|x: usize| x != e && st0.nodes.contains_key(x) implies #[trigger] home_of(st2, x)
                    == home_of(st, x) by {
                    assert(st.nodes.contains_key(x));
                    assert(st1.nodes[x].parent == st.nodes[x].parent);
                    assert(st1.nodes.contains_key(x));
                }
                lemma_drain_step(st0, st, st2, k, j, left);
                assert forall|c: usize| c != k && #[trigger] st2.cells.contains_key(c) implies st0.cells.contains_key(
                    c,
                ) && st2.cells[c] == st0.cells[c] by {
                    assert(st1.cells.contains_key(c));
                    assert(st.cells.contains_key(c));
                }
            }
        }
    }

    /// Folds the child cell in slot `i` of the cell `p`, which holds entries
    /// in its own list only, back into the slot: the own list of the child
    /// cell becomes the list of the slot, and the child cell is freed.
    /// Slots of other cells that were tidy for the thresholds `adj` stay so.
    pub(crate) fn absorb(&mut self, p: usize, i: usize, Ghost(adj): Ghost<(usize, usize)>)
        requires
            old(self).ok(0, 0),
            old(self).oct_slab.has(p),
            i < 8,
            old(self).oct_slab@[p].childs[i as int] is Oct,
            flat(old(self).oct_slab@[old(self).oct_slab@[p].childs[i as int]->Oct_0]),
        ensures
            final(self).ok(0, 0),
            rebuilt(old(self).state(), final(self).state(), p, 0),
            tidy_kept(old(self).oct_slab@, final(self).oct_slab@, adj, old(self).deep, p),
            !final(self).oct_slab.has(old(self).oct_slab@[p].childs[i as int]->Oct_0),
            final(self).oct_slab@[p].childs[i as int] matches ChildNode::Ab(l) && l.len == old(
                self,
            ).oct_slab@[p].childs[i as int]->Oct_1,
            final(self).oct_slab@[p].childs[i as int] is Ab,
            forall|t: int|
                0 <= t < 8 && t != i ==> #[trigger] final(self).oct_slab@[p].childs[t] == old(self).oct_slab@[p].childs[t],
            final(self).oct_slab@[p].dirty == old(self).oct_slab@[p].dirty,
            final(self).oct_slab@[p].nodes == old(self).oct_slab@[p].nodes,
            final(self).oct_slab@[p].population() == old(self).oct_slab@[p].population(),
            forall|e: usize| old(self).ab_slab@.contains_key(e) == final(self).ab_slab@.contains_key(e),
            list_moved(
                old(self).state(),
                final(self).state(),
                old(self).oct_slab@[p].childs[i as int]->Oct_0,
                OWN,
                p,
                i,
            ),
            cells_kept(old(self).oct_slab@, final(self).oct_slab@, p),
            forall|c: usize|
                final(self).oct_slab@.contains_key(c) == (old(self).oct_slab@.contains_key(c) && c
                    != old(self).oct_slab@[p].childs[i as int]->Oct_0),
    {
        let ghost st = self.state();
        proof {
            lemma_root(st, 0, 0);
            lemma_child_cell(st, 0, 0, p, i);
        }
        let k = match self.oct_slab.at(p).childs[i] {
            ChildNode::Oct(k, _) => k,
            ChildNode::Ab(_) => 0,
        };
        proof {
            lemma_list_linked(st, 0, 0, k, OWN);
        }
        let list = self.oct_slab.at(k).nodes;
        rehome(&mut self.ab_slab, list.head, p, i, Ghost(list), Ghost(k), Ghost(OWN));
        let _ = self.oct_slab.remove(k);
        let cell = self.oct_slab.at_mut(p);
        cell.childs[i] = ChildNode::Ab(list);
        proof {
            let st2 = self.state();
            assert(st2.cells =~= st.cells.remove(k).insert(
                p,
                set_slot(st.cells[p], i, ChildNode::Ab(list)),
            ));
            assert(st2 == absorbed(st, p, i));
            assert forall|e: usize| st.nodes.contains_key(e) implies #[trigger] home_of(st2, e) == (if home_of(
                st,
                e,
            ) == (k, OWN) {
                (p, i)
            } else {
                home_of(st, e)
            }) by {
                lemma_home_ok(st, 0, 0, e);
                if list@.contains(e) {
                    let x = list@.index_of(e);
                    assert(link_ok(st.nodes, list@, x, k, OWN, 0));
                }
            }
            lemma_absorb(st, p, i);
            lemma_absorb_rebuilt(st, p, i);
            lemma_kept_local(st.cells, st2.cells, adj, st.deep, p);
            crate::links::lemma_cell_ok(st, 0, 0, k);
            let kid = st.cells[k];
            assert(kid.childs[0].count() == 0 && kid.childs[1].count() == 0 && kid.childs[2].count()
                == 0 && kid.childs[3].count() == 0 && kid.childs[4].count() == 0
                && kid.childs[5].count() == 0 && kid.childs[6].count() == 0 && kid.childs[7].count()
                == 0);
        }
    }

    /// Gathers every entry beneath the cell `k` in the own list of `k` and
    /// frees every cell beneath `k`.
    /// Slots of other cells that were tidy for the thresholds `adj` stay so.
    pub(crate) fn flatten(&mut self, k: usize, Ghost(adj): Ghost<(usize, usize)>)
        requires
            old(self).ok(0, 0),
            old(self).oct_slab.has(k),
            k != ROOT,
        ensures
            final(self).ok(0, 0),
            rebuilt(old(self).state(), final(self).state(), k, 0),
            tidy_kept(old(self).oct_slab@, final(self).oct_slab@, adj, old(self).deep, k),
            flat(final(self).oct_slab@[k]),
            forall|e: usize| old(self).ab_slab@.contains_key(e) == final(self).ab_slab@.contains_key(e),
            homes_kept(old(self).state(), final(self).state(), k, OWN, k),
            cells_kept(old(self).oct_slab@, final(self).oct_slab@, k),
            forall|c: usize| final(self).oct_slab@.contains_key(c) ==> old(self).oct_slab@.contains_key(c),
        decreases old(self).deep - old(self).oct_slab@[k].layer,
    {
        let ghost st0 = self.state();
        proof {
            lemma_rebuilt_refl(st0, k);
            lemma_kept_local(st0.cells, st0.cells, adj, st0.deep, k);
        }
        let mut j: usize = 0;
        while j < 8
            invariant
                j <= 8,
                self.ok(0, 0),
                self.oct_slab.has(k),
                k != ROOT,
                st0.cells.contains_key(k),
                st0 == old(self).state(),
                rebuilt(st0, self.state(), k, 0),
                tidy_kept(st0.cells, self.oct_slab@, adj, st0.deep, k),
                forall|e: usize| st0.nodes.contains_key(e) == self.ab_slab@.contains_key(e),
                forall|t: int|
                    0 <= t < j ==> (#[trigger] self.oct_slab@[k].childs[t]) is Ab
                        && self.oct_slab@[k].childs[t].count() == 0,
                homes_kept(st0, self.state(), k, OWN, k),
                cells_kept(st0.cells, self.oct_slab@, k),
                forall|c: usize| self.oct_slab@.contains_key(c) ==> st0.cells.contains_key(c),
            decreases 8 - j,
        {
            let ghost st = self.state();
            let ghost mut with_child = false;
            let ghost mut kid: usize = 0;
            let ghost mut s1 = st;
            proof {
                lemma_root(st, 0, 0);
                lemma_cell_ok(st, 0, 0, k);
            }
            if let ChildNode::Oct(k2, _) = self.oct_slab.at(k).childs[j] {
                proof {
                    lemma_child_cell(st, 0, 0, k, j);
                }
                self.flatten(k2, Ghost(adj));
                let ghost st1 = self.state();
                proof {
                    lemma_rebuilt_up(st, st1, k2, k, 0);
                    lemma_rebuilt_trans(st0, st, st1, k, 0);
                    lemma_flat_tidy(st1.cells[k2], adj, st.deep);
                    lemma_kept_up(st.cells, st1.cells, adj, st.deep, k2, k);
                    lemma_kept_trans(st0.cells, st.cells, st1.cells, adj, st.deep, k);
                    with_child = true;
                    kid = k2;
                    s1 = st1;
                    assert(st1.cells[k] == st.cells[k]);
                }
                self.absorb(k, j, Ghost(adj));
                proof {
                    lemma_rebuilt_trans(st0, st1, self.state(), k, 0);
                    lemma_kept_trans(st0.cells, st1.cells, self.oct_slab@, adj, st.deep, k);
                }
            }
            let ghost st2 = self.state();
            self.drain(k, j, Ghost(adj));
            proof {
                lemma_rebuilt_trans(st0, st2, self.state(), k, 0);
                lemma_kept_trans(st0.cells, st2.cells, self.oct_slab@, adj, st.deep, k);
                assert(entries_of(st2.nodes).dom() == entries_of(self.state().nodes).dom());
                assert forall|e: usize| st0.nodes.contains_key(e) == self.ab_slab@.contains_key(e) by {
                    assert(entries_of(st2.nodes).contains_key(e) == st2.nodes.contains_key(e));
                    assert(entries_of(self.state().nodes).contains_key(e)
                        == self.state().nodes.contains_key(e));
                }
                let s3 = self.state();
                if with_child {
                    lemma_flatten_step(st0, st, s1, st2, s3, k, j, kid);
                } else {
                    lemma_flatten_drain(st0, st, s3, k, j);
                }
                assert forall|c: usize| c != k && #[trigger] s3.cells.contains_key(c) implies st0.cells.contains_key(
                    c,
                ) && s3.cells[c] == st0.cells[c] by {
                    assert(st2.cells.contains_key(c));
                    if with_child {
                        assert(s1.cells.contains_key(c));
                        assert(st.cells.contains_key(c));
                    }
                }
            }
            j += 1;
        }
    }

    /// Folds the child cell in slot `parent_child` of the cell `parent`, with
    /// everything beneath it, back into the slot: all entries beneath the
    /// child cell form the list of the slot, and the child cell and every cell
    /// beneath it are freed. No other cell changes, and no entry moves whose
    /// cell is not freed.
    /// Slots of other cells that were tidy for the thresholds `adj` stay so.
    pub(crate) fn shrink(
        &mut self,
        parent: usize,
        parent_child: usize,
        Ghost(adj): Ghost<(usize, usize)>,
    )
        requires
            old(self).ok(0, 0),
            old(self).oct_slab.has(parent),
            parent_child < 8,
            old(self).oct_slab@[parent].childs[parent_child as int] is Oct,
        ensures
            final(self).ok(0, 0),
            rebuilt(old(self).state(), final(self).state(), parent, 0),
            tidy_kept(old(self).oct_slab@, final(self).oct_slab@, adj, old(self).deep, parent),
            final(self).oct_slab@[parent].childs[parent_child as int] matches ChildNode::Ab(l)
                && l.len == old(self).oct_slab@[parent].childs[parent_child as int]->Oct_1,
            final(self).oct_slab@[parent].childs[parent_child as int] is Ab,
            forall|t: int|
                0 <= t < 8 && t != parent_child ==> #[trigger] final(self).oct_slab@[parent].childs[t] == old(self).oct_slab@[parent].childs[t],
            final(self).oct_slab@[parent].dirty == old(self).oct_slab@[parent].dirty,
            final(self).oct_slab@[parent].nodes == old(self).oct_slab@[parent].nodes,
            homes_kept(old(self).state(), final(self).state(), parent, parent_child, 0),
            cells_kept(old(self).oct_slab@, final(self).oct_slab@, parent),
            forall|c: usize| final(self).oct_slab@.contains_key(c) ==> old(self).oct_slab@.contains_key(c),
            !final(self).oct_slab.has(old(self).oct_slab@[parent].childs[parent_child as int]->Oct_0),
            final(self).oct_slab@[parent].population() == old(self).oct_slab@[parent].population(),
            forall|e: usize| old(self).ab_slab@.contains_key(e) == final(self).ab_slab@.contains_key(e),
    {
        let ghost st = self.state();
        proof {
            lemma_root(st, 0, 0);
            lemma_child_cell(st, 0, 0, parent, parent_child);
            lemma_cell_ok(st, 0, 0, parent);
        }
        let oct_id = match self.oct_slab.at(parent).childs[parent_child] {
            ChildNode::Oct(k, _) => k,
            ChildNode::Ab(_) => 0,
        };
        self.flatten(oct_id, Ghost(adj));
        let ghost st1 = self.state();
        proof {
            lemma_rebuilt_up(st, st1, oct_id, parent, 0);
            lemma_flat_tidy(st1.cells[oct_id], adj, st.deep);
            lemma_kept_up(st.cells, st1.cells, adj, st.deep, oct_id, parent);
        }
        proof {
            assert(st1.cells[parent] == st.cells[parent]);
        }
        self.absorb(parent, parent_child, Ghost(adj));
        proof {
            lemma_rebuilt_trans(st, st1, self.state(), parent, 0);
            lemma_kept_trans(st.cells, st1.cells, self.oct_slab@, adj, st.deep, parent);
            let s2 = self.state();
            lemma_shrink_homes(st, st1, s2, parent, parent_child, oct_id);
            assert forall|c: usize| c != parent && #[trigger] s2.cells.contains_key(c) implies st.cells.contains_key(
                c,
            ) && s2.cells[c] == st.cells[c] by {
                assert(st1.cells.contains_key(c));
            }
        }
    }

    /// Distributes the own list of the cell `parent_id` over its child
    /// slots: every entry whose layer is below the cell's goes to the list of
    /// the first octant that encloses its box, if there is one and the slot
    /// holds no child cell; every other entry stays. A slot whose list grows
    /// beyond `adjust` is marked as pending while the cell is above the
    /// deepest layer. Returns the dirty bits of the cell.
    /// Slots of other cells that were tidy for the thresholds `adj` stay so.
    pub(crate) fn split_down(
        &mut self,
        adjust: usize,
        parent_id: usize,
        Ghost(adj): Ghost<(usize, usize)>,
    ) -> (dirty: usize)
        requires
            old(self).ok(0, 0),
            old(self).oct_slab.has(parent_id),
            parent_id != ROOT,
            adj.1 == adjust,
        ensures
            final(self).ok(0, 0),
            rebuilt(old(self).state(), final(self).state(), parent_id, parent_id),
            tidy_kept(old(self).oct_slab@, final(self).oct_slab@, adj, old(self).deep, parent_id),
            crate::octree::cell_tidy_but(old(self).oct_slab@[parent_id], adj, old(self).deep, OWN)
                ==> crate::octree::cell_tidy_but(
                final(self).oct_slab@[parent_id],
                adj,
                final(self).deep,
                OWN,
            ),
            dirty == final(self).oct_slab@[parent_id].dirty,
            redistributed(old(self).state(), final(self).state(), parent_id, adjust),
            forall|e: usize| old(self).ab_slab@.contains_key(e) == final(self).ab_slab@.contains_key(e),
    {
        let ghost st0 = self.state();
        let ghost mut kept: Seq<usize> = Seq::empty();
        let ghost mut rest: Seq<usize> = st0.cells[parent_id].nodes@;
        proof {
            lemma_rebuilt_refl(st0, parent_id);
            lemma_root(st0, 0, 0);
            lemma_list_linked(st0, 0, 0, parent_id, OWN);
            assert(list_of(st0, parent_id, OWN) == st0.cells[parent_id].nodes);
            assert(kept + rest =~= rest);
            lemma_kept_local(st0.cells, st0.cells, adj, st0.deep, parent_id);
            assert forall|e: usize| st0.nodes.contains_key(e) implies home_of(st0, e) == #[trigger] progress_home(
                st0,
                parent_id,
                rest,
                e,
            ) by {
                if home_of(st0, e) == (parent_id, OWN) {
                    lemma_home_ok(st0, 0, 0, e);
                }
            }
        }
        let mut id = self.head_of(parent_id, OWN);
        while id != 0
            invariant
                self.ok(0, 0),
                self.oct_slab.has(parent_id),
                parent_id != ROOT,
                adj.1 == adjust,
                st0.cells.contains_key(parent_id),
                st0.deep == self.deep,
                rebuilt(st0, self.state(), parent_id, parent_id),
                tidy_kept(st0.cells, self.oct_slab@, adj, st0.deep, parent_id),
                crate::octree::cell_tidy_but(st0.cells[parent_id], adj, st0.deep, OWN)
                    ==> crate::octree::cell_tidy_but(self.oct_slab@[parent_id], adj, self.deep, OWN),
                forall|e: usize| st0.nodes.contains_key(e) == self.ab_slab@.contains_key(e),
                self.oct_slab@[parent_id].nodes@ == kept + rest,
                split_progress(st0, self.state(), parent_id, rest, adjust),
                id == (if rest.len() > 0 {
                    rest[0]
                } else {
                    0
                }),
            decreases rest.len(),
        {
            let ghost st = self.state();
            let ghost own = st.cells[parent_id].nodes;
            proof {
                lemma_root(st, 0, 0);
                lemma_list_linked(st, 0, 0, parent_id, OWN);
                lemma_cell_ok(st, 0, 0, parent_id);
                assert(own@[kept.len() as int] == id);
                assert(link_ok(st.nodes, own@, kept.len() as int, parent_id, OWN, 0));
                if rest.len() > 1 {
                    assert(own@[kept.len() as int + 1] == rest[1]);
                }
                lemma_home_ok(st, 0, 0, id);
                let k = own@.index_of(id);
                assert(own@[k] == id);
                assert(k == kept.len());
            }
            let node = self.ab_slab.at(id);
            let next = node.next;
            let cell = self.oct_slab.at(parent_id);
            let layer = cell.layer;
            let mut moved = false;
            let ghost mut slot: int = 8;
            let ghost mut marked: bool = false;
            if layer < node.layer {
                let i = find_octant(&cell.aabb, &cell.loose, &node.aabb);
                if i < 8 {
                    if let ChildNode::Ab(list) = cell.childs[i] {
                        let len = list.len;
                        self.unlink(id);
                        let ghost st1 = self.state();
                        proof {
                            lemma_kept_local(st.cells, st1.cells, adj, st.deep, parent_id);
                            lemma_kept_trans(st0.cells, st.cells, st1.cells, adj, st.deep, parent_id);
                            if crate::octree::cell_tidy_but(st.cells[parent_id], adj, st.deep, OWN) {
                                assert(st.nodes[id].parent == parent_id);
                                assert(crate::octree::cell_tidy_but(
                                    st.cells[st.nodes[id].parent],
                                    adj,
                                    st.deep,
                                    OWN,
                                ));
                                assert(crate::octree::cell_tidy_but(
                                    st1.cells[st.nodes[id].parent],
                                    adj,
                                    st1.deep,
                                    OWN,
                                ));
                            }
                            lemma_rebuilt_local(st, st1, parent_id, id, parent_id);
                            lemma_rebuilt_trans(st0, st, st1, parent_id, parent_id);
                            assert(same_cell(st.cells[parent_id], st1.cells[parent_id]));
                            assert(same_entry(st.nodes[id], st1.nodes[id]));
                            assert(st1.cells[parent_id].childs[i as int] == st.cells[parent_id].childs[i as int]);
                            lemma_root(st1, id, parent_id);
                        }
                        self.link(id, parent_id, i);
                        let ghost st2 = self.state();
                        proof {
                            lemma_kept_local(st1.cells, st2.cells, adj, st.deep, parent_id);
                            lemma_kept_trans(st0.cells, st1.cells, st2.cells, adj, st.deep, parent_id);
                            if crate::octree::cell_tidy_but(st1.cells[parent_id], adj, st.deep, OWN) {
                                assert forall|t: int| 0 <= t < 8 && t != i implies #[trigger] crate::octree::slot_tidy(
                                    st1.cells[parent_id],
                                    t,
                                    adj,
                                    st.deep,
                                ) by {}
                                assert(crate::octree::cell_tidy_but(st1.cells[parent_id], adj, st.deep, i));
                                assert(crate::octree::cell_tidy_but(st2.cells[parent_id], adj, st2.deep, i));
                            }
                            lemma_rebuilt_local(st1, st2, parent_id, id, parent_id);
                            lemma_rebuilt_trans(st0, st1, st2, parent_id, parent_id);
                            lemma_root(st2, 0, 0);
                            assert(st2.cells[parent_id].list_at(OWN) == st1.cells[parent_id].list_at(
                                OWN,
                            ));
                        }
                        proof {
                            slot = i as int;
                            marked = len >= adjust && layer < self.deep;
                            lemma_list_linked(st, 0, 0, parent_id, i);
                            lemma_list_linked(st2, 0, 0, parent_id, i);
                            assert(st2.cells[parent_id].childs[i as int] is Ab);
                            assert(st2.cells[parent_id].childs[i as int].count() == len + 1);
                        }
                        if len >= adjust && layer < self.deep {
                            let _ = self.flag(parent_id, i, Ghost(0), Ghost(0));
                            proof {
                                lemma_kept_local(st2.cells, self.oct_slab@, adj, st.deep, parent_id);
                                lemma_kept_trans(st0.cells, st2.cells, self.oct_slab@, adj, st.deep, parent_id);
                                if crate::octree::cell_tidy_but(st2.cells[parent_id], adj, st.deep, i) {
                                    assert(crate::octree::cell_tidy_but(
                                        self.oct_slab@[parent_id],
                                        adj,
                                        self.deep,
                                        OWN,
                                    ));
                                }
                                lemma_rebuilt_local(st2, self.state(), parent_id, 0, parent_id);
                                lemma_rebuilt_trans(st0, st2, self.state(), parent_id, parent_id);
                            }
                        } else {
                            proof {
                                if crate::octree::cell_tidy_but(st2.cells[parent_id], adj, st.deep, i) {
                                    crate::links::lemma_set_list(
                                        st1.cells[parent_id],
                                        i,
                                        crate::links::list_with(seq![id] + list@),
                                    );
                                    assert forall|t: int| 0 <= t < 8 implies #[trigger] crate::octree::slot_tidy(
                                        st2.cells[parent_id],
                                        t,
                                        adj,
                                        st.deep,
                                    ) by {}
                                }
                            }
                        }
                        moved = true;
                    }
                }
            }
            proof {
                let now = self.state();
                assert(rest.no_duplicates()) by {
                    assert forall|x: int, y: int| 0 <= x < rest.len() && 0 <= y < rest.len() && x != y implies rest[x]
                        != rest[y] by {
                        assert(own@[kept.len() + x] == rest[x]);
                        assert(own@[kept.len() + y] == rest[y]);
                    }
                }
                assert(home_of(st, id) == (parent_id, OWN));
                assert(same_entry(st0.nodes[id], st.nodes[id])) by {
                    assert(entries_of(st0.nodes)[id] == entries_of(st.nodes)[id]);
                    assert(entries_of(st0.nodes).contains_key(id));
                }
                assert forall|e: usize| e != id && st0.nodes.contains_key(e) implies #[trigger] home_of(now, e)
                    == home_of(st, e) by {
                    assert(st.nodes.contains_key(e));
                    if moved {
                        let m1 = unlinked(st, id);
                        assert(m1.nodes[e].parent == st.nodes[e].parent);
                    }
                }
                if !moved {
                    assert(now == st);
                }
                lemma_split_step(st0, st, now, parent_id, rest, adjust, slot, marked);
                if moved {
                    assert(own@.remove(kept.len() as int) =~= kept + rest.drop_first());
                    rest = rest.drop_first();
                } else {
                    assert(kept.push(id) + rest.drop_first() =~= kept + rest);
                    kept = kept.push(id);
                    rest = rest.drop_first();
                }
            }
            id = next;
        }
        proof {
            let now = self.state();
            if rest.len() > 0 {
                lemma_list_linked(now, 0, 0, parent_id, OWN);
                let own = now.cells[parent_id].nodes@;
                assert(own[kept.len() as int] == rest[0]);
                assert(link_ok(now.nodes, own, kept.len() as int, parent_id, OWN, 0));
            }
            assert(rest.len() == 0);
            assert forall|e: usize| st0.nodes.contains_key(e) implies #[trigger] home_of(now, e) == (if home_of(
                st0,
                e,
            ) == (parent_id, OWN) {
                split_home(st0, parent_id, e)
            } else {
                home_of(st0, e)
            }) by {
                assert(home_of(now, e) == progress_home(st0, parent_id, rest, e));
            }
        }
        self.oct_slab.at(parent_id).dirty
    }

    /// Promotes slot `child` of the cell `parent_id` to a child cell: the
    /// new cell takes the list of the slot as its own list and distributes it
    /// over its own slots; where that leaves a slot of the new cell pending,
    /// the new cell is restructured in turn. Returns the new cell. No entry
    /// moves but those of the list, and each of them is where the
    /// redistribution puts it unless its new slot is promoted in turn.
    pub(crate) fn split(&mut self, adjust: (usize, usize), parent_id: usize, child: usize) -> (oct_id:
        usize)
        requires
            old(self).ok(0, 0),
            old(self).oct_slab.has(parent_id),
            child < 8,
            old(self).oct_slab@[parent_id].childs[child as int] is Ab,
            old(self).oct_slab@[parent_id].layer < old(self).deep,
            adjust.0 <= adjust.1,
        ensures
            final(self).ok(0, 0),
            rebuilt(old(self).state(), final(self).state(), parent_id, 0),
            tidy_kept(old(self).oct_slab@, final(self).oct_slab@, adjust, old(self).deep, parent_id),
            final(self).oct_slab@[parent_id].childs[child as int] == ChildNode::Oct(
                oct_id,
                old(self).oct_slab@[parent_id].childs[child as int]->Ab_0.len,
            ),
            !old(self).oct_slab.has(oct_id),
            final(self).oct_slab.has(oct_id),
            final(self).oct_slab@[parent_id].nodes == old(self).oct_slab@[parent_id].nodes,
            split_homes(old(self).state(), final(self).state(), parent_id, child, oct_id),
            forall|t: int|
                0 <= t < 8 && t != child ==> #[trigger] final(self).oct_slab@[parent_id].childs[t] == old(self).oct_slab@[parent_id].childs[t],
            final(self).oct_slab@[parent_id].dirty == old(self).oct_slab@[parent_id].dirty,
            final(self).oct_slab@[parent_id].population() == old(self).oct_slab@[parent_id].population(),
            forall|e: usize| old(self).ab_slab@.contains_key(e) == final(self).ab_slab@.contains_key(e),
        decreases old(self).deep - old(self).oct_slab@[parent_id].layer, 0int,
    {
        let ghost st = self.state();
        proof {
            lemma_root(st, 0, 0);
            lemma_cell_ok(st, 0, 0, parent_id);
            lemma_list_linked(st, 0, 0, parent_id, child);
        }
        let cell = self.oct_slab.at(parent_id);
        let list = match cell.childs[child] {
            ChildNode::Ab(l) => l,
            ChildNode::Oct(_, _) => NodeList::new(),
        };
        let mut oct = create_child(&cell.aabb, &cell.loose, cell.layer, parent_id, child);
        oct.nodes = list;
        let oct_id = self.oct_slab.insert(oct);
        rehome(&mut self.ab_slab, list.head, oct_id, OWN, Ghost(list), Ghost(parent_id), Ghost(child));
        let cell = self.oct_slab.at_mut(parent_id);
        cell.childs[child] = ChildNode::Oct(oct_id, list.len);
        let ghost st1 = self.state();
        proof {
            assert(st1.cells =~= st.cells.insert(oct_id, child_of(st.cells[parent_id], parent_id, child)).insert(
                parent_id,
                set_slot(st.cells[parent_id], child, ChildNode::Oct(oct_id, list.len)),
            ));
            assert(st1 == promoted(st, parent_id, child, oct_id));
            lemma_promote(st, parent_id, child, oct_id);
            lemma_promote_rebuilt(st, parent_id, child, oct_id);
            lemma_root(st1, 0, 0);
            lemma_rebuilt_weaken(st, st1, parent_id, oct_id);
            assert(crate::octree::cell_tidy_but(st1.cells[oct_id], adjust, st.deep, OWN)) by {
                assert forall|s: int| 0 <= s < 8 implies #[trigger] crate::octree::slot_tidy(
                    st1.cells[oct_id],
                    s,
                    adjust,
                    st.deep,
                ) by {
                    assert(st1.cells[oct_id].childs[s] is Ab && st1.cells[oct_id].childs[s].count() == 0);
                }
            }
            lemma_kept_new(st.cells, st1.cells, adjust, st.deep, parent_id, oct_id);
        }
        let dirty = self.split_down(adjust.1, oct_id, Ghost(adjust));
        let ghost st2 = self.state();
        proof {
            lemma_rebuilt_up(st1, st2, oct_id, parent_id, oct_id);
            lemma_rebuilt_trans(st, st1, st2, parent_id, oct_id);
            lemma_kept_up(st1.cells, st2.cells, adjust, st.deep, oct_id, parent_id);
            lemma_kept_trans(st.cells, st1.cells, st2.cells, adjust, st.deep, parent_id);
        }
        if dirty > 0 {
            self.collect(adjust, oct_id);
            proof {
                let st3 = self.state();
                lemma_root(st3, 0, 0);
                lemma_kept_up(st2.cells, st3.cells, adjust, st.deep, oct_id, parent_id);
                lemma_kept_trans(st.cells, st2.cells, st3.cells, adjust, st.deep, parent_id);
                lemma_rebuilt_up(st2, st3, oct_id, parent_id, 0);
                lemma_rebuilt_weaken(st2, st3, parent_id, oct_id);
                lemma_rebuilt_trans(st, st2, st3, parent_id, oct_id);
                assert forall|e: usize| st.nodes.contains_key(e) == st3.nodes.contains_key(e) by {
                    assert(st.nodes.contains_key(e) == st2.nodes.contains_key(e));
                }
            }
        }
        proof {
            lemma_rebuilt_clean(st, self.state(), parent_id, oct_id);
            let st3 = self.state();
            assert forall|e: usize| st.nodes.contains_key(e) implies #[trigger] split_home_ok(
                st,
                st3,
                parent_id,
                child,
                oct_id,
                e,
            ) by {
                lemma_home_ok(st, 0, 0, e);
                if list@.contains(e) {
                    let x = list@.index_of(e);
                    assert(link_ok(st.nodes, list@, x, parent_id, child, 0));
                }
                assert(home_of(st1, e) == (if home_of(st, e) == (parent_id, child) {
                    (oct_id, OWN)
                } else {
                    home_of(st, e)
                }));
                assert(st1.nodes.contains_key(e));
                assert(home_of(st2, e) == (if home_of(st1, e) == (oct_id, OWN) {
                    split_home(st1, oct_id, e)
                } else {
                    home_of(st1, e)
                }));
                assert(st.nodes[e].parent != oct_id);
                if dirty > 0 {
                    assert(st2.nodes.contains_key(e));
                    assert(collect_home_ok(st2, st3, oct_id, 8, e));
                    assert forall|s: int| 0 <= s < 8 implies (#[trigger] st2.cells[oct_id].childs[s]) is Ab by {
                        assert(st1.cells[oct_id].childs[s] is Ab);
                    }
                }
            }
        }
        oct_id
    }

    /// Resolves the pending slots of the cell `parent_id`: a slot that holds
    /// a child cell with fewer entries than the shrink threshold is folded
    /// back into a list, and a slot whose list is longer than the split
    /// threshold is promoted to a child cell, unless the cell is at the
    /// deepest layer. The dirty bits of the cell are cleared. No entry moves
    /// but into the list of a slot that is folded back or out of a list that
    /// is promoted.
    pub(crate) fn collect(&mut self, adjust: (usize, usize), parent_id: usize)
        requires
            old(self).ok(0, 0),
            old(self).oct_slab.has(parent_id),
            adjust.0 <= adjust.1,
        ensures
            final(self).ok(0, 0),
            rebuilt(old(self).state(), final(self).state(), parent_id, 0),
            tidy_kept(old(self).oct_slab@, final(self).oct_slab@, adjust, old(self).deep, parent_id),
            crate::octree::cell_tidy_but(old(self).oct_slab@[parent_id], adjust, old(self).deep, OWN)
                ==> crate::octree::cell_tidy_but(
                final(self).oct_slab@[parent_id],
                adjust,
                final(self).deep,
                OWN,
            ),
            final(self).oct_slab@[parent_id].dirty == 0,
            cell_outcome(
                old(self).oct_slab@[parent_id],
                final(self).oct_slab@[parent_id],
                adjust,
                old(self).deep,
            ),
            collect_homes(old(self).state(), final(self).state(), parent_id, 8),
            final(self).oct_slab@[parent_id].population() == old(self).oct_slab@[parent_id].population(),
            forall|e: usize| old(self).ab_slab@.contains_key(e) == final(self).ab_slab@.contains_key(e),
        decreases old(self).deep - old(self).oct_slab@[parent_id].layer, 1int,
    {
        let ghost st0 = self.state();
        proof {
            lemma_root(st0, 0, 0);
            lemma_rebuilt_refl(st0, parent_id);
            lemma_kept_local(st0.cells, st0.cells, adjust, st0.deep, parent_id);
        }
        let dirty = self.oct_slab.at(parent_id).dirty;
        proof {
            assert forall|e: usize| st0.nodes.contains_key(e) implies #[trigger] collect_home_ok(
                st0,
                st0,
                parent_id,
                8,
                e,
            ) by {}
            assert forall|e: usize| st0.nodes.contains_key(e) implies #[trigger] collect_home_ok(
                st0,
                st0,
                parent_id,
                0,
                e,
            ) by {}
        }
        if dirty == 0 {
            proof {
                assert forall|t: int| 0 <= t < 8 implies #[trigger] slot_outcome(
                    st0.cells[parent_id],
                    st0.cells[parent_id],
                    t,
                    adjust,
                    st0.deep,
                ) by {
                    crate::dirty::lemma_with_bit(0, t as usize, t as usize);
                }
            }
            return ;
        }
        let cell = self.oct_slab.at_mut(parent_id);
        cell.dirty = 0;
        proof {
            let st1 = self.state();
            assert(st1.cells =~= st0.cells.insert(parent_id, OctNode { dirty: 0, ..st0.cells[parent_id] }));
            assert(st1 == crate::links::flagged(st0, parent_id, 0));
            crate::links::lemma_flag(st0, parent_id, 0, 0, 0);
            lemma_entries_same(st0, st1);
            assert forall|e: usize| st0.nodes.contains_key(e) implies ((#[trigger] st1.nodes[e]).parent
                == 0) == (st0.nodes[e].parent == 0) && st1.nodes[e].layer == st0.nodes[e].layer by {}
            lemma_kept_local(st0.cells, st1.cells, adjust, st0.deep, parent_id);
            assert forall|e: usize| st0.nodes.contains_key(e) implies #[trigger] collect_home_ok(
                st0,
                st1,
                parent_id,
                0,
                e,
            ) by {
                assert(st1.nodes[e] == st0.nodes[e]);
            }
            if crate::octree::cell_tidy_but(st0.cells[parent_id], adjust, st0.deep, OWN) {
                assert forall|s: int|
                    0 <= s < 8 && !crate::dirty::has_bit(dirty, s as usize) implies #[trigger] crate::octree::slot_tidy(
                    st1.cells[parent_id],
                    s,
                    adjust,
                    st0.deep,
                ) by {
                    assert(crate::octree::slot_tidy(st0.cells[parent_id], s, adjust, st0.deep));
                }
            }
        }
        let mut i: usize = 0;
        while i < 8
            invariant
                i <= 8,
                self.ok(0, 0),
                self.oct_slab.has(parent_id),
                adjust.0 <= adjust.1,
                dirty == st0.cells[parent_id].dirty,
                st0 == old(self).state(),
                st0.cells.contains_key(parent_id),
                rebuilt(st0, self.state(), parent_id, 0),
                tidy_kept(st0.cells, self.oct_slab@, adjust, st0.deep, parent_id),
                self.deep == st0.deep,
                collect_homes(st0, self.state(), parent_id, i),
                parent_id != 0,
                self.oct_slab@[parent_id].nodes == st0.cells[parent_id].nodes,
                self.oct_slab@[parent_id].layer == st0.cells[parent_id].layer,
                forall|t: int|
                    0 <= t < i ==> #[trigger] slot_outcome(
                        st0.cells[parent_id],
                        self.oct_slab@[parent_id],
                        t,
                        adjust,
                        st0.deep,
                    ),
                forall|t: int|
                    i <= t < 8 ==> #[trigger] self.oct_slab@[parent_id].childs[t] == st0.cells[parent_id].childs[t],
                crate::octree::cell_tidy_but(st0.cells[parent_id], adjust, st0.deep, OWN) ==> done_upto(
                    self.oct_slab@[parent_id],
                    dirty,
                    i as int,
                    adjust,
                    st0.deep,
                ),
                self.oct_slab@[parent_id].dirty == 0,
                self.oct_slab@[parent_id].population() == st0.cells[parent_id].population(),
                forall|e: usize| st0.nodes.contains_key(e) == self.ab_slab@.contains_key(e),
            decreases 8 - i,
        {
            let ghost st = self.state();
            let ghost mut kind: int = 0;
            let ghost mut kid: usize = 0;
            if dirty & (1usize << i) != 0 {
                let cell = self.oct_slab.at(parent_id);
                match cell.childs[i] {
                    ChildNode::Oct(_, num) => {
                        if num < adjust.0 {
                            self.shrink(parent_id, i, Ghost(adjust));
                            proof {
                                kind = 1;
                                lemma_rebuilt_trans(st0, st, self.state(), parent_id, 0);
                                lemma_kept_trans(st0.cells, st.cells, self.oct_slab@, adjust, st0.deep, parent_id);
                            }
                        }
                    },
                    ChildNode::Ab(list) => {
                        if list.len > adjust.1 && cell.layer < self.deep {
                            let k = self.split(adjust, parent_id, i);
                            proof {
                                kind = 2;
                                kid = k;
                                lemma_rebuilt_trans(st0, st, self.state(), parent_id, 0);
                                lemma_kept_trans(st0.cells, st.cells, self.oct_slab@, adjust, st0.deep, parent_id);
                            }
                        }
                    },
                }
            }
            proof {
                let st2 = self.state();
                assert((st.cells[parent_id].childs[i as int] is Ab) == (st0.cells[parent_id].childs[i as int] is Ab))
                    by {
                    assert(st.cells[parent_id].childs[i as int] == st0.cells[parent_id].childs[i as int]);
                }
                lemma_collect_step(st0, st, st2, parent_id, i, kind, kid);
                assert forall|t: int| 0 <= t < i + 1 implies #[trigger] slot_outcome(
                    st0.cells[parent_id],
                    st2.cells[parent_id],
                    t,
                    adjust,
                    st0.deep,
                ) by {
                    if t < i {
                        assert(slot_outcome(st0.cells[parent_id], st.cells[parent_id], t, adjust, st0.deep));
                        assert(st2.cells[parent_id].childs[t] == st.cells[parent_id].childs[t]);
                    } else {
                        assert(st.cells[parent_id].childs[t] == st0.cells[parent_id].childs[t]);
                    }
                }
                assert forall|t: int| i + 1 <= t < 8 implies #[trigger] st2.cells[parent_id].childs[t]
                    == st0.cells[parent_id].childs[t] by {
                    assert(st.cells[parent_id].childs[t] == st0.cells[parent_id].childs[t]);
                    assert(st2.cells[parent_id].childs[t] == st.cells[parent_id].childs[t]);
                }
                if crate::octree::cell_tidy_but(st0.cells[parent_id], adjust, st0.deep, OWN) {
                    assert forall|s: int|
                        0 <= s < 8 && (s < i + 1 || !crate::dirty::has_bit(
                            dirty,
                            s as usize,
                        )) implies #[trigger] crate::octree::slot_tidy(
                        st2.cells[parent_id],
                        s,
                        adjust,
                        st0.deep,
                    ) by {
                        if s != i {
                            assert(crate::octree::slot_tidy(st.cells[parent_id], s, adjust, st0.deep));
                            assert(st2.cells[parent_id].childs[s] == st.cells[parent_id].childs[s]);
                        } else if !crate::dirty::has_bit(dirty, i) {
                            assert(crate::octree::slot_tidy(st.cells[parent_id], s, adjust, st0.deep));
                        }
                    }
                }
            }
            i += 1;
        }
        proof {
            let st2 = self.state();
            if crate::octree::cell_tidy_but(st0.cells[parent_id], adjust, st0.deep, OWN) {
                assert forall|s: int| 0 <= s < 8 && s != OWN implies #[trigger] crate::octree::slot_tidy(
                    st2.cells[parent_id],
                    s,
                    adjust,
                    st0.deep,
                ) by {}
            }
        }
    }
}

/// Every cell with a pending slot is on the worklist at or after position
/// `j` of layer `i`.
pub open spec fn pending_from(
    cells: Map<usize, OctNode>,
    work: Seq<Vec<usize>>,
    i: int,
    j: int,
) -> bool {
    forall|c: usize|
        (#[trigger] cells.contains_key(c)) && cells[c].dirty != 0 ==> exists|l: int, k: int|
            0 <= l < work.len() && 0 <= k < work[l]@.len() && (l > i || (l == i && k >= j))
                && #[trigger] work[l]@[k] == c
}

/// What a restructuring pass leaves of a tree: nothing changes where no cell
/// was waiting; else the entries, the outer list and the configuration are
/// the same, every entry is still inside or outside the tree as before, and
/// no cell is waiting any more. As the tree is well formed and no slot is
/// marked as pending, no slot needs restructuring afterwards. Of the root
/// it says what has become of each slot (see `cell_outcome`).
/// The restructuring of a cell without a pending slot leaves it as it is.
pub(crate) proof fn lemma_outcome_refl(a: OctNode, adjust: (usize, usize), deep: usize)
    requires
        a.dirty == 0,
    ensures
        cell_outcome(a, a, adjust, deep),
{
    assert forall|t: int| 0 <= t < 8 implies #[trigger] slot_outcome(a, a, t, adjust, deep) by {
        crate::dirty::lemma_with_bit(0, t as usize, t as usize);
    }
}

/// Restructuring a restructured cell again leaves what the first time left.
pub(crate) proof fn lemma_outcome_again(
    a: OctNode,
    b: OctNode,
    c: OctNode,
    adjust: (usize, usize),
    deep: usize,
)
    requires
        cell_outcome(a, b, adjust, deep),
        cell_outcome(b, c, adjust, deep),
    ensures
        cell_outcome(a, c, adjust, deep),
{
    assert forall|t: int| 0 <= t < 8 implies #[trigger] slot_outcome(a, c, t, adjust, deep) by {
        crate::dirty::lemma_with_bit(0, t as usize, t as usize);
        assert(slot_outcome(a, b, t, adjust, deep));
        assert(slot_outcome(b, c, t, adjust, deep));
        assert(c.childs[t] == b.childs[t]);
    }
}

pub open spec fn collected<T>(pre: &Tree<T>, post: &Tree<T>) -> bool {
    &&& post.wf()
    &&& post.dirty_count() == 0
    &&& post.all_clean()
    &&& cell_outcome(pre.cells()[ROOT], post.cells()[ROOT], pre.thresholds(), pre.max_depth())
    &&& if pre.dirty_count() == 0 {
        *post == *pre
    } else {
        &&& post.entries() == pre.entries()
        &&& post.outer_list() == pre.outer_list()
        &&& post.population() == pre.population()
        &&& post.same_setup(pre)
        &&& forall|e: usize|
            pre.entries().contains_key(e) ==> #[trigger] post.is_outer(e) == pre.is_outer(e)
    }
}

impl<T> Tree<T> {
    /// While no cell is counted as waiting, no cell has a pending slot.
    pub proof fn lemma_clean_when_idle(&self)
        requires
            self.wf(),
            self.dirty_count() == 0,
        ensures
            self.all_clean(),
    {
        assert forall|c: usize| (#[trigger] self.space.oct_slab@.contains_key(c)) implies self.space.oct_slab@[c].dirty
            == 0 by {
            if self.space.oct_slab@[c].dirty != 0 {
                assert(crate::octree::listed(self.dirty.0@, c));
                let (l, j) = choose|l: int, j: int|
                    0 <= l < self.dirty.0@.len() && 0 <= j < self.dirty.0@[l]@.len()
                        && #[trigger] self.dirty.0@[l]@[j] == c;
                assert(self.dirty.0@[l]@.len() == 0);
            }
        }
    }

    /// The restructuring pass. Resolves the pending slots of every cell on
    /// the worklist, layer by layer from the lowest layer recorded, and
    /// empties the worklist. This alone creates and destroys cells. Without
    /// a waiting cell it does nothing.
    pub fn collect(&mut self)
        requires
            old(self).wf(),
        ensures
            collected(old(self), final(self)),
    {
        if self.dirty.1 == 0 {
            proof {
                self.lemma_clean_when_idle();
                lemma_root(self.space.state(), 0, 0);
                lemma_outcome_refl(self.space.oct_slab@[ROOT], self.adjust, self.space.deep);
            }
            return ;
        }
        let ghost mut root_done = false;
        let ghost st0 = self.space.state();
        let n = self.dirty.0.len();
        let mut i = self.dirty.2;
        proof {
            lemma_root(st0, 0, 0);
            lemma_rebuilt_refl(st0, ROOT);
            assert(pending_from(st0.cells, self.dirty.0@, i as int, 0)) by {
                assert forall|c: usize|
                    (#[trigger] st0.cells.contains_key(c)) && st0.cells[c].dirty != 0 implies exists|
                    l: int,
                    k: int,
                |
                    0 <= l < self.dirty.0@.len() && 0 <= k < self.dirty.0@[l]@.len() && (l > i || (l
                        == i && k >= 0)) && #[trigger] self.dirty.0@[l]@[k] == c by {
                    assert(crate::octree::listed(self.dirty.0@, c));
                    let (l, j) = choose|l: int, j: int|
                        0 <= l < self.dirty.0@.len() && 0 <= j < self.dirty.0@[l]@.len()
                            && #[trigger] self.dirty.0@[l]@[j] == c;
                    if l < i {
                        assert(self.dirty.0@[l]@.len() == 0);
                    }
                }
            }
        }
        while i < n
            invariant
                n == self.dirty.0@.len(),
                n <= crate::octree::DEEP_MAX + 1,
                self.config_ok(),
                self.space.ok(0, 0),
                self.adjust == old(self).adjust,
                self.loose_ratio == old(self).loose_ratio,
                st0 == old(self).space.state(),
                st0.cells.contains_key(ROOT),
                rebuilt(st0, self.space.state(), ROOT, 0),
                self.neat(),
                !root_done ==> self.space.oct_slab@[ROOT] == st0.cells[ROOT],
                root_done ==> cell_outcome(st0.cells[ROOT], self.space.oct_slab@[ROOT], self.adjust, st0.deep),
                self.population() == st0.cells[ROOT].population(),
                forall|e: usize| st0.nodes.contains_key(e) == self.space.ab_slab@.contains_key(e),
                forall|l: int| 0 <= l < n && l < i ==> (#[trigger] self.dirty.0@[l])@.len() == 0,
                pending_from(self.space.oct_slab@, self.dirty.0@, i as int, 0),
            decreases n - i,
        {
            let len = self.dirty.0[i].len();
            let mut j: usize = 0;
            while j < len
                invariant
                    i < n,
                    j <= len,
                    len == self.dirty.0@[i as int]@.len(),
                    n == self.dirty.0@.len(),
                    self.config_ok(),
                    self.space.ok(0, 0),
                    self.adjust == old(self).adjust,
                    self.loose_ratio == old(self).loose_ratio,
                    st0 == old(self).space.state(),
                    st0.cells.contains_key(ROOT),
                    rebuilt(st0, self.space.state(), ROOT, 0),
                    self.neat(),
                    !root_done ==> self.space.oct_slab@[ROOT] == st0.cells[ROOT],
                    root_done ==> cell_outcome(st0.cells[ROOT], self.space.oct_slab@[ROOT], self.adjust, st0.deep),
                    self.population() == st0.cells[ROOT].population(),
                    forall|e: usize| st0.nodes.contains_key(e) == self.space.ab_slab@.contains_key(e),
                    forall|l: int| 0 <= l < n && l < i ==> (#[trigger] self.dirty.0@[l])@.len() == 0,
                    pending_from(self.space.oct_slab@, self.dirty.0@, i as int, j as int),
                decreases len - j,
            {
                let oct_id = self.dirty.0[i][j];
                let ghost st = self.space.state();
                let ghost work = self.dirty.0@;
                if self.space.oct_slab.contains(oct_id) {
                    proof {
                        lemma_root(st, 0, 0);
                        lemma_cell_ok(st, 0, 0, oct_id);
                    }
                    self.space.collect(self.adjust, oct_id);
                    proof {
                        let st2 = self.space.state();
                        if oct_id == ROOT {
                            if root_done {
                                lemma_outcome_again(
                                    st0.cells[ROOT],
                                    st.cells[ROOT],
                                    st2.cells[ROOT],
                                    self.adjust,
                                    st0.deep,
                                );
                            }
                            root_done = true;
                        } else {
                            lemma_root(st, 0, 0);
                            lemma_root(st2, 0, 0);
                            assert(st.cells[ROOT].layer == 0);
                            assert(st2.cells.contains_key(ROOT));
                            assert(st2.cells[ROOT] == st.cells[ROOT]);
                        }
                        let none = Set::<usize>::empty();
                        lemma_root(st2, 0, 0);
                        crate::links::lemma_tidy_ex_none(st.cells, self.adjust, st.deep);
                        crate::links::lemma_tidy_ex_more(st.cells, self.adjust, st.deep, none, oct_id);
                        assert(crate::octree::tidy_ex(st2.cells, self.adjust, st.deep, none.insert(oct_id)));
                        assert(crate::octree::cell_tidy_but(st.cells[oct_id], self.adjust, st.deep, OWN)) by {
                            assert forall|s: int| 0 <= s < 8 implies #[trigger] crate::octree::slot_tidy(
                                st.cells[oct_id],
                                s,
                                self.adjust,
                                st.deep,
                            ) by {}
                        }
                        crate::links::lemma_tidy_ex_less(st2.cells, self.adjust, st.deep, none, oct_id);
                        crate::links::lemma_tidy_ex_none(st2.cells, self.adjust, st.deep);
                        if oct_id != ROOT {
                            lemma_rebuilt_up(st, st2, oct_id, ROOT, 0);
                        }
                        lemma_rebuilt_trans(st0, st, st2, ROOT, 0);
                        lemma_root(st2, 0, 0);
                        assert forall|c: usize|
                            (#[trigger] st2.cells.contains_key(c)) && st2.cells[c].dirty != 0 implies st.cells.contains_key(
                            c,
                        ) && st.cells[c].dirty != 0 && c != oct_id by {}
                    }
                }
                proof {
                    let st2 = self.space.state();
                    assert forall|c: usize|
                        (#[trigger] st2.cells.contains_key(c)) && st2.cells[c].dirty != 0 implies exists|
                        l: int,
                        k: int,
                    |
                        0 <= l < work.len() && 0 <= k < work[l]@.len() && (l > i || (l == i && k >= j
                            + 1)) && #[trigger] work[l]@[k] == c by {
                        assert(st.cells.contains_key(c) && st.cells[c].dirty != 0);
                        assert(c != oct_id);
                        let (l, k) = choose|l: int, k: int|
                            0 <= l < work.len() && 0 <= k < work[l]@.len() && (l > i || (l == i && k
                                >= j)) && #[trigger] work[l]@[k] == c;
                        assert(work[l]@[k] == c);
                    }
                }
                j += 1;
            }
            let ghost work = self.dirty.0@;
            self.dirty.0[i].clear();
            proof {
                let work2 = self.dirty.0@;
                let cells = self.space.oct_slab@;
                assert forall|c: usize|
                    (#[trigger] cells.contains_key(c)) && cells[c].dirty != 0 implies exists|
                    l: int,
                    k: int,
                |
                    0 <= l < work2.len() && 0 <= k < work2[l]@.len() && (l > i + 1 || (l == i + 1
                        && k >= 0)) && #[trigger] work2[l]@[k] == c by {
                    let (l, k) = choose|l: int, k: int|
                        0 <= l < work.len() && 0 <= k < work[l]@.len() && (l > i || (l == i && k
                            >= len)) && #[trigger] work[l]@[k] == c;
                    assert(work2[l] == work[l]);
                    assert(work2[l]@[k] == c);
                }
            }
            i += 1;
        }
        self.dirty.1 = 0;
        self.dirty.2 = usize::MAX;
        proof {
            let st = self.space.state();
            lemma_root(st, 0, 0);
            if !root_done {
                assert(st.cells[ROOT].dirty == 0) by {
                    if st.cells[ROOT].dirty != 0 {
                        let (l, k) = choose|l: int, k: int|
                            0 <= l < self.dirty.0@.len() && 0 <= k < self.dirty.0@[l]@.len() && (l
                                > i || (l == i && k >= 0)) && #[trigger] self.dirty.0@[l]@[k] == ROOT;
                        if l < i {
                            assert(self.dirty.0@[l]@.len() == 0);
                        }
                    }
                }
                lemma_outcome_refl(st0.cells[ROOT], self.adjust, st0.deep);
            }
            assert forall|c: usize| (#[trigger] st.cells.contains_key(c)) implies st.cells[c].dirty
                == 0 by {
                if st.cells[c].dirty != 0 {
                    let (l, k) = choose|l: int, k: int|
                        0 <= l < self.dirty.0@.len() && 0 <= k < self.dirty.0@[l]@.len() && (l > i
                            || (l == i && k >= 0)) && #[trigger] self.dirty.0@[l]@[k] == c;
                    if l < i {
                        assert(self.dirty.0@[l]@.len() == 0);
                    }
                }
            }
            assert forall|e: usize| old(self).entries().contains_key(e) implies #[trigger] self.is_outer(
                e,
            ) == old(self).is_outer(e) by {
                assert((st.nodes[e].parent == 0) == (st0.nodes[e].parent == 0));
            }
        }
    }
}

} // verus!
