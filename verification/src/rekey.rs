//! Moving a whole list between a child slot and a child cell: the two steps
//! by which the restructuring pass creates and destroys cells.

use vstd::prelude::*;
use crate::geometry::{lemma_octant_inside, octant_box};
use crate::links::{
    lemma_cell_ok, lemma_child_cell, lemma_home_ok, lemma_linked_frame, lemma_list_linked,
    lemma_root, lemma_set_slot, set_slot,
};
use crate::node::{AbNode, ChildNode, NodeList, OctNode, OWN};
use crate::octree::{State, cell_ok, child_ok, home_ok, inv, link_ok, linked, parent_ok, ROOT};

verus! {

/// The entries with every entry of `order` recorded as held by the list
/// `(c, s)`.
pub open spec fn rekeyed<T>(nodes: Map<usize, AbNode<T>>, order: Seq<usize>, c: usize, s: usize) -> Map<
    usize,
    AbNode<T>,
> {
    Map::new(
        |e: usize| nodes.contains_key(e),
        |e: usize|
            if order.contains(e) {
                AbNode { parent: c, parent_child: s, ..nodes[e] }
            } else {
                nodes[e]
            },
    )
}

/// A list that is well linked under one name is well linked under another
/// once its entries record the new name.
pub(crate) proof fn lemma_rekey_linked<T>(
    nodes: Map<usize, AbNode<T>>,
    l: NodeList,
    c: usize,
    s: usize,
    c2: usize,
    s2: usize,
)
    requires
        linked(nodes, l, c, s, 0),
    ensures
        linked(rekeyed(nodes, l@, c2, s2), l, c2, s2, 0),
{
    let nodes2 = rekeyed(nodes, l@, c2, s2);
    assert forall|j: int| 0 <= j < l@.len() implies #[trigger] link_ok(nodes2, l@, j, c2, s2, 0) by {
        assert(link_ok(nodes, l@, j, c, s, 0));
        assert(l@.contains(l@[j]));
    }
}

/// The child cell that a split of slot `i` of the cell `p` creates, holding
/// the list of the slot as its own list.
pub open spec fn child_of(p: OctNode, parent_id: usize, i: usize) -> OctNode {
    OctNode {
        nodes: p.list_at(i),
        ..OctNode::fresh(
            octant_box(p.aabb, p.loose, i as int),
            p.loose.halved(),
            parent_id,
            i,
            (p.layer + 1) as usize,
        )
    }
}

/// The state after slot `i` of the cell `p` has been promoted to the child
/// cell `k`: the list of the slot is the own list of the new cell.
pub open spec fn promoted<T>(st: State<T>, p: usize, i: usize, k: usize) -> State<T> {
    let l = st.cells[p].list_at(i);
    State {
        cells: st.cells.insert(k, child_of(st.cells[p], p, i)).insert(
            p,
            set_slot(st.cells[p], i, ChildNode::Oct(k, l.len)),
        ),
        nodes: rekeyed(st.nodes, l@, k, OWN),
        ..st
    }
}

/// Promoting a slot to a child cell keeps the invariant.
pub(crate) proof fn lemma_promote<T>(st: State<T>, p: usize, i: usize, k: usize)
    requires
        inv(st, 0, 0),
        st.cells.contains_key(p),
        i < 8,
        st.cells[p].childs[i as int] is Ab,
        st.cells[p].layer < st.deep,
        k != 0,
        !st.cells.contains_key(k),
    ensures
        inv(promoted(st, p, i, k), 0, 0),
{
    let st2 = promoted(st, p, i, k);
    let cell = st.cells[p];
    let l = cell.list_at(i);
    let kid = child_of(cell, p, i);
    let np = set_slot(cell, i, ChildNode::Oct(k, l.len));
    lemma_root(st, 0, 0);
    lemma_cell_ok(st, 0, 0, p);
    lemma_set_slot(cell, i, ChildNode::Oct(k, l.len));
    lemma_octant_inside(cell.aabb, cell.loose, i as int);
    lemma_list_linked(st, 0, 0, p, i);
    assert(kid.population() == l.len);
    assert(np.population() == cell.population());
    assert(k != ROOT && k != p);
    assert forall|c: usize| st2.cells.contains_key(c) implies #[trigger] cell_ok(st2, c, 0) by {
        if c == k {
            assert forall|s: int| 0 <= s < 8 implies #[trigger] child_ok(st2, c, s) by {}
            assert(parent_ok(st2, k, 0));
        } else {
            lemma_cell_ok(st, 0, 0, c);
            assert forall|s: int| 0 <= s < 8 implies #[trigger] child_ok(st2, c, s) by {
                assert(child_ok(st, c, s));
                if c == p && s != i {
                    assert(np.childs[s] == cell.childs[s]);
                }
            }
            if c != ROOT {
                let q = st.cells[c].parent;
                let qs = st.cells[c].parent_child;
                assert(parent_ok(st, c, 0));
                if q == p {
                    assert(np.childs[qs as int] == cell.childs[qs as int]);
                }
                assert(parent_ok(st2, c, 0));
            }
        }
    }
    assert forall|c: usize, s: usize| st2.cells.contains_key(c) && s <= 8 implies #[trigger] linked(
        st2.nodes,
        st2.cells[c].list_at(s),
        c,
        s,
        0,
    ) by {
        if c == k {
            if s == OWN {
                lemma_rekey_linked(st.nodes, l, p, i, k, OWN);
            }
        } else if c == p && s == i {
        } else {
            lemma_list_linked(st, 0, 0, c, s);
            let l2 = st.cells[c].list_at(s);
            if c == p && s < 8 {
                assert(np.childs[s as int] == cell.childs[s as int]);
            }
            assert(st2.cells[c].list_at(s) == l2);
            assert forall|j: int| 0 <= j < l2@.len() implies (#[trigger] l2@[j]) != 0
                && st2.nodes.contains_key(l2@[j]) && st2.nodes[l2@[j]] == st.nodes[l2@[j]] by {
                assert(link_ok(st.nodes, l2@, j, c, s, 0));
                if l@.contains(l2@[j]) {
                    let m = l@.index_of(l2@[j]);
                    assert(link_ok(st.nodes, l@, m, p, i, 0));
                }
            }
            lemma_linked_frame(st.nodes, st2.nodes, l2, c, s, 0, 0);
        }
    }
    assert(linked(st2.nodes, st2.outer, 0, OWN, 0)) by {
        lemma_list_linked(st, 0, 0, 0, OWN);
        let l2 = st.outer;
        assert forall|j: int| 0 <= j < l2@.len() implies (#[trigger] l2@[j]) != 0
            && st2.nodes.contains_key(l2@[j]) && st2.nodes[l2@[j]] == st.nodes[l2@[j]] by {
            assert(link_ok(st.nodes, l2@, j, 0, OWN, 0));
            if l@.contains(l2@[j]) {
                let m = l@.index_of(l2@[j]);
                assert(link_ok(st.nodes, l@, m, p, i, 0));
            }
        }
        lemma_linked_frame(st.nodes, st2.nodes, l2, 0, OWN, 0, 0);
    }
    assert forall|e: usize| st2.nodes.contains_key(e) implies #[trigger] home_ok(st2, e) by {
        lemma_home_ok(st, 0, 0, e);
        let n = st.nodes[e];
        if l@.contains(e) {
            let m = l@.index_of(e);
            assert(link_ok(st.nodes, l@, m, p, i, 0));
            assert(st2.cells[k].list_at(OWN) == l);
        } else {
            if n.parent == p && n.parent_child < 8 {
                assert(n.parent_child != i);
                assert(np.childs[n.parent_child as int] == cell.childs[n.parent_child as int]);
            }
            if n.parent != 0 {
                assert(st2.cells[n.parent].list_at(n.parent_child) == st.cells[n.parent].list_at(
                    n.parent_child,
                ));
            }
        }
    }
    reveal(inv);
}

/// The cell holds no child cell, and the lists of its child slots are empty.
pub open spec fn flat(cell: OctNode) -> bool {
    forall|s: int| 0 <= s < 8 ==> (#[trigger] cell.childs[s]) is Ab && cell.childs[s].count() == 0
}

/// The state after the child cell in slot `i` of the cell `p`, which holds
/// entries in its own list only, has been absorbed: its own list is the list
/// of the slot, and the child cell is gone.
pub open spec fn absorbed<T>(st: State<T>, p: usize, i: usize) -> State<T> {
    let k = st.cells[p].childs[i as int]->Oct_0;
    let l = st.cells[k].nodes;
    State {
        cells: st.cells.remove(k).insert(p, set_slot(st.cells[p], i, ChildNode::Ab(l))),
        nodes: rekeyed(st.nodes, l@, p, i),
        ..st
    }
}

/// Absorbing a flat child cell keeps the invariant.
pub(crate) proof fn lemma_absorb<T>(st: State<T>, p: usize, i: usize)
    requires
        inv(st, 0, 0),
        st.cells.contains_key(p),
        i < 8,
        st.cells[p].childs[i as int] is Oct,
        flat(st.cells[st.cells[p].childs[i as int]->Oct_0]),
    ensures
        inv(absorbed(st, p, i), 0, 0),
{
    let st2 = absorbed(st, p, i);
    let cell = st.cells[p];
    let k = cell.childs[i as int]->Oct_0;
    let kid = st.cells[k];
    let l = kid.nodes;
    let np = set_slot(cell, i, ChildNode::Ab(l));
    lemma_root(st, 0, 0);
    lemma_cell_ok(st, 0, 0, p);
    lemma_child_cell(st, 0, 0, p, i);
    lemma_set_slot(cell, i, ChildNode::Ab(l));
    lemma_list_linked(st, 0, 0, k, OWN);
    assert(kid.childs[0].count() == 0 && kid.childs[1].count() == 0 && kid.childs[2].count() == 0
        && kid.childs[3].count() == 0 && kid.childs[4].count() == 0 && kid.childs[5].count() == 0
        && kid.childs[6].count() == 0 && kid.childs[7].count() == 0);
    assert(kid.population() == l.len);
    assert(np.population() == cell.population());
    assert forall|c: usize| st2.cells.contains_key(c) implies #[trigger] cell_ok(st2, c, 0) by {
        lemma_cell_ok(st, 0, 0, c);
        assert forall|s: int| 0 <= s < 8 implies #[trigger] child_ok(st2, c, s) by {
            assert(child_ok(st, c, s));
            if c == p && s != i {
                assert(np.childs[s] == cell.childs[s]);
            }
            if let ChildNode::Oct(kk, _) = st.cells[c].childs[s] {
                if kk == k {
                    assert(parent_ok(st, k, 0));
                }
            }
        }
        if c != ROOT {
            let q = st.cells[c].parent;
            let qs = st.cells[c].parent_child;
            assert(parent_ok(st, c, 0));
            if q == k {
                assert(kid.childs[qs as int] is Ab);
            }
            if q == p {
                assert(np.childs[qs as int] == cell.childs[qs as int]);
            }
            assert(parent_ok(st2, c, 0));
        }
    }
    assert forall|c: usize, s: usize| st2.cells.contains_key(c) && s <= 8 implies #[trigger] linked(
        st2.nodes,
        st2.cells[c].list_at(s),
        c,
        s,
        0,
    ) by {
        if c == p && s == i {
            lemma_rekey_linked(st.nodes, l, k, OWN, p, i);
        } else {
            lemma_list_linked(st, 0, 0, c, s);
            let l2 = st.cells[c].list_at(s);
            if c == p && s < 8 {
                assert(np.childs[s as int] == cell.childs[s as int]);
            }
            assert(st2.cells[c].list_at(s) == l2);
            assert forall|j: int| 0 <= j < l2@.len() implies (#[trigger] l2@[j]) != 0
                && st2.nodes.contains_key(l2@[j]) && st2.nodes[l2@[j]] == st.nodes[l2@[j]] by {
                assert(link_ok(st.nodes, l2@, j, c, s, 0));
                if l@.contains(l2@[j]) {
                    let m = l@.index_of(l2@[j]);
                    assert(link_ok(st.nodes, l@, m, k, OWN, 0));
                }
            }
            lemma_linked_frame(st.nodes, st2.nodes, l2, c, s, 0, 0);
        }
    }
    assert(linked(st2.nodes, st2.outer, 0, OWN, 0)) by {
        lemma_list_linked(st, 0, 0, 0, OWN);
        let l2 = st.outer;
        assert forall|j: int| 0 <= j < l2@.len() implies (#[trigger] l2@[j]) != 0
            && st2.nodes.contains_key(l2@[j]) && st2.nodes[l2@[j]] == st.nodes[l2@[j]] by {
            assert(link_ok(st.nodes, l2@, j, 0, OWN, 0));
            if l@.contains(l2@[j]) {
                let m = l@.index_of(l2@[j]);
                assert(link_ok(st.nodes, l@, m, k, OWN, 0));
            }
        }
        lemma_linked_frame(st.nodes, st2.nodes, l2, 0, OWN, 0, 0);
    }
    assert forall|e: usize| st2.nodes.contains_key(e) implies #[trigger] home_ok(st2, e) by {
        lemma_home_ok(st, 0, 0, e);
        let n = st.nodes[e];
        if l@.contains(e) {
            let m = l@.index_of(e);
            assert(link_ok(st.nodes, l@, m, k, OWN, 0));
            assert(st2.cells[p].list_at(i) == l);
            assert(parent_ok(st, k, 0));
        } else {
            if n.parent == k {
                if n.parent_child < 8 {
                    assert(kid.childs[n.parent_child as int].count() == 0);
                    assert(kid.list_at(n.parent_child)@.len() == 0) by {
                        lemma_list_linked(st, 0, 0, k, n.parent_child);
                    }
                }
                assert(false);
            }
            if n.parent == p && n.parent_child < 8 {
                assert(n.parent_child != i);
                assert(np.childs[n.parent_child as int] == cell.childs[n.parent_child as int]);
            }
            if n.parent != 0 {
                assert(st2.cells[n.parent].list_at(n.parent_child) == st.cells[n.parent].list_at(
                    n.parent_child,
                ));
            }
        }
    }
    reveal(inv);
}

/// Records the list `(c, s)` as the home of every entry of the list `l`,
/// which starts at `head`. The links between the entries stay as they are.
pub(crate) fn rehome<T>(
    slab: &mut crate::arena::Arena<AbNode<T>>,
    head: usize,
    c: usize,
    s: usize,
    Ghost(l): Ghost<NodeList>,
    Ghost(c0): Ghost<usize>,
    Ghost(s0): Ghost<usize>,
)
    requires
        old(slab).wf(),
        linked(old(slab)@, l, c0, s0, 0),
        head == l.head,
    ensures
        final(slab).wf(),
        final(slab)@ == rekeyed(old(slab)@, l@, c, s),
{
    let ghost nodes0 = slab@;
    let ghost mut idx: int = 0;
    let mut cur = head;
    proof {
        assert(slab@ =~= rekeyed(nodes0, l@.take(0), c, s));
        if l@.len() > 0 {
            assert(link_ok(nodes0, l@, 0, c0, s0, 0));
        }
    }
    while cur != 0
        invariant
            slab.wf(),
            linked(nodes0, l, c0, s0, 0),
            0 <= idx <= l@.len(),
            cur == (if idx < l@.len() {
                l@[idx]
            } else {
                0
            }),
            slab@ == rekeyed(nodes0, l@.take(idx), c, s),
        decreases l@.len() - idx,
    {
        proof {
            assert(link_ok(nodes0, l@, idx, c0, s0, 0));
            if idx + 1 < l@.len() {
                assert(link_ok(nodes0, l@, idx + 1, c0, s0, 0));
            }
            if l@.take(idx).contains(cur) {
                let j = l@.take(idx).index_of(cur);
                assert(l@[j] == cur);
            }
        }
        let ghost before = slab@;
        let node = slab.at_mut(cur);
        node.parent = c;
        node.parent_child = s;
        let next = node.next;
        proof {
            let t1 = l@.take(idx);
            let t2 = l@.take(idx + 1);
            assert forall|e: usize| t2.contains(e) == (t1.contains(e) || e == cur) by {
                if t2.contains(e) {
                    let j = t2.index_of(e);
                    if j < idx {
                        assert(t1[j] == e);
                    }
                }
                if t1.contains(e) {
                    let j = t1.index_of(e);
                    assert(t2[j] == e);
                }
                if e == cur {
                    assert(t2[idx] == e);
                }
            }
            assert(slab@ =~= rekeyed(nodes0, t2, c, s));
        }
        cur = next;
        proof {
            idx = idx + 1;
        }
    }
    proof {
        if idx < l@.len() {
            assert(link_ok(nodes0, l@, idx, c0, s0, 0));
        }
        assert(l@.take(idx) =~= l@);
    }
}

} // verus!
