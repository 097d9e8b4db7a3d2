//! The elementary moves on the lists of a tree: taking an entry out of its
//! list, putting an entry at the head of a list, and adjusting the cached
//! population of a child slot. Each keeps the structural invariant, up to the
//! entry in transit and the cell that is one short.

use vstd::prelude::*;
use crate::geometry::shape_ok;
use crate::node::{AbNode, ChildNode, NodeList, OctNode, OWN};
use crate::octree::{
    Space, State, cell_ok, child_ok, home_ok, inv, key_ok, link_ok, linked, list_of, parent_ok,
    placed_ok, ROOT,
};

verus! {

/// Two slots are of the same kind and, if they hold a child cell, the same one.
pub open spec fn same_slot(a: ChildNode, b: ChildNode) -> bool {
    match a {
        ChildNode::Oct(k, _) => b matches ChildNode::Oct(k2, _) && k2 == k,
        ChildNode::Ab(_) => b is Ab,
    }
}

/// Two versions of a cell that differ at most in their lists, counters and
/// dirty bits.
pub open spec fn same_cell(a: OctNode, b: OctNode) -> bool {
    &&& a.aabb == b.aabb
    &&& a.loose == b.loose
    &&& a.parent == b.parent
    &&& a.parent_child == b.parent_child
    &&& a.layer == b.layer
    &&& forall|s: int| 0 <= s < 8 ==> same_slot(a.childs[s], #[trigger] b.childs[s])
}

/// Two versions of an entry that differ at most in where they are linked.
pub open spec fn same_entry<T>(a: AbNode<T>, b: AbNode<T>) -> bool {
    a.aabb == b.aabb && a.bind == b.bind && a.layer == b.layer
}

/// Two states with the same cells and entries, which differ at most in how
/// the entries are distributed over the lists.
pub open spec fn same_frame<T>(a: State<T>, b: State<T>) -> bool {
    &&& a.deep == b.deep
    &&& a.loose == b.loose
    &&& forall|c: usize| a.cells.contains_key(c) == #[trigger] b.cells.contains_key(c)
    &&& forall|e: usize| a.nodes.contains_key(e) == #[trigger] b.nodes.contains_key(e)
    &&& forall|c: usize| a.cells.contains_key(c) ==> same_cell(a.cells[c], #[trigger] b.cells[c])
    &&& forall|e: usize| a.nodes.contains_key(e) ==> same_entry(a.nodes[e], #[trigger] b.nodes[e])
}

/// The list with the given order.
pub open spec fn list_with(order: Seq<usize>) -> NodeList {
    NodeList {
        head: if order.len() == 0 {
            0
        } else {
            order[0]
        },
        len: order.len() as usize,
        order: Ghost(order),
    }
}

/// The cell with the list in slot `s` replaced.
pub open spec fn set_list(cell: OctNode, s: usize, l: NodeList) -> OctNode {
    if s < 8 {
        OctNode {
            childs: vstd::array::spec_array_update(cell.childs, s as int, ChildNode::Ab(l)),
            ..cell
        }
    } else {
        OctNode { nodes: l, ..cell }
    }
}

/// The state with the list `(c, s)` replaced.
pub open spec fn with_list<T>(st: State<T>, c: usize, s: usize, l: NodeList) -> State<T> {
    if c == 0 {
        State { outer: l, ..st }
    } else {
        State { cells: st.cells.insert(c, set_list(st.cells[c], s, l)), ..st }
    }
}

/// The position of the entry `id` in its list.
pub open spec fn position<T>(st: State<T>, id: usize) -> int {
    list_of(st, st.nodes[id].parent, st.nodes[id].parent_child)@.index_of(id)
}

/// The state after the entry `id` has been taken out of its list.
pub open spec fn unlinked<T>(st: State<T>, id: usize) -> State<T> {
    let n = st.nodes[id];
    let l = list_of(st, n.parent, n.parent_child);
    let rest = list_with(l@.remove(position(st, id)));
    State {
        nodes: crate::node::relinked(st.nodes, n.prev, n.next),
        ..with_list(st, n.parent, n.parent_child, rest)
    }
}

/// A well-formed list is determined by its order.
pub(crate) proof fn lemma_list_with(l: NodeList)
    requires
        l.wf(),
    ensures
        l == list_with(l@),
{
}

/// Where a live entry is: it names a list, is at one position of it, and its
/// links are its neighbours there.
pub(crate) proof fn lemma_locate<T>(st: State<T>, id: usize)
    requires
        inv(st, 0, 0),
        st.nodes.contains_key(id),
    ensures
        ({
            let n = st.nodes[id];
            let l = list_of(st, n.parent, n.parent_child);
            let i = position(st, id);
            &&& key_ok(st, n.parent, n.parent_child)
            &&& l.wf()
            &&& l@.no_duplicates()
            &&& 0 <= i < l@.len()
            &&& l@[i] == id
            &&& l.neighbours(i) == (n.prev, n.next)
            &&& l.position_after(n.prev) == i
            &&& n.prev != 0 ==> st.nodes.contains_key(n.prev)
            &&& n.next != 0 ==> st.nodes.contains_key(n.next)
        }),
{
    reveal(inv);
    let n = st.nodes[id];
    let p = n.parent;
    let c = n.parent_child;
    let l = list_of(st, p, c);
    let i = position(st, id);
    assert(home_ok(st, id));
    assert(l@.contains(id));
    if p != 0 {
        assert(l == st.cells[p].list_at(c));
    }
    assert(linked(st.nodes, l, p, c, 0));
    assert(link_ok(st.nodes, l@, i, p, c, 0));
    if i > 0 {
        assert(link_ok(st.nodes, l@, i - 1, p, c, 0));
        let k = l@.index_of(n.prev);
        assert(l@.contains(n.prev));
        assert(l@[k] == n.prev);
    }
    if i + 1 < l@.len() {
        assert(link_ok(st.nodes, l@, i + 1, p, c, 0));
    }
}

/// Removing one element from a list of distinct elements keeps all others.
pub(crate) proof fn lemma_remove_keeps(s: Seq<usize>, i: int, e: usize)
    requires
        0 <= i < s.len(),
        s.contains(e),
        s[i] != e,
    ensures
        s.remove(i).contains(e),
{
    let k = s.index_of(e);
    if k < i {
        assert(s.remove(i)[k] == e);
    } else {
        assert(s.remove(i)[k - 1] == e);
    }
}

/// Removing one element from a list of distinct elements leaves distinct
/// elements, none of them the removed one.
pub(crate) proof fn lemma_remove_distinct(s: Seq<usize>, i: int)
    requires
        0 <= i < s.len(),
        s.no_duplicates(),
    ensures
        s.remove(i).no_duplicates(),
        !s.remove(i).contains(s[i]),
{
    let t = s.remove(i);
    assert forall|a: int, b: int| 0 <= a < t.len() && 0 <= b < t.len() && a != b implies t[a]
        != t[b] by {
        let a2 = if a < i { a } else { a + 1 };
        let b2 = if b < i { b } else { b + 1 };
        assert(t[a] == s[a2] && t[b] == s[b2]);
    }
    if t.contains(s[i]) {
        let k = t.index_of(s[i]);
        let k2 = if k < i { k } else { k + 1 };
        assert(t[k] == s[k2]);
    }
}

/// The list that an entry has left is still well linked.
proof fn lemma_unlink_list<T>(st: State<T>, id: usize)
    requires
        inv(st, 0, 0),
        st.nodes.contains_key(id),
    ensures
        ({
            let n = st.nodes[id];
            let l = list_of(st, n.parent, n.parent_child);
            linked(
                unlinked(st, id).nodes,
                list_with(l@.remove(position(st, id))),
                n.parent,
                n.parent_child,
                id,
            )
        }),
{
    lemma_locate(st, id);
    reveal(inv);
    let n = st.nodes[id];
    let p = n.parent;
    let c = n.parent_child;
    let l = list_of(st, p, c);
    let i = position(st, id);
    let s = l@;
    let t = s.remove(i);
    let nodes2 = unlinked(st, id).nodes;
    if p != 0 {
        assert(l == st.cells[p].list_at(c));
    }
    assert(linked(st.nodes, l, p, c, 0));
    lemma_remove_distinct(s, i);
    assert forall|j: int| 0 <= j < t.len() implies #[trigger] link_ok(nodes2, t, j, p, c, id) by {
        let j2 = if j < i { j } else { j + 1 };
        assert(t[j] == s[j2]);
        assert(link_ok(st.nodes, s, j2, p, c, 0));
        assert(link_ok(st.nodes, s, i, p, c, 0));
        if j > 0 {
            let k2 = if j - 1 < i { j - 1 } else { j };
            assert(t[j - 1] == s[k2]);
        }
        if j + 1 < t.len() {
            let k2 = if j + 1 < i { j + 1 } else { j + 2 };
            assert(t[j + 1] == s[k2]);
        }
        assert(t[j] != id);
    }
}

/// Every other list is untouched when an entry leaves its list.
proof fn lemma_unlink_others<T>(st: State<T>, id: usize, c: usize, s: usize)
    requires
        inv(st, 0, 0),
        st.nodes.contains_key(id),
        if c == 0 { s == OWN } else { st.cells.contains_key(c) && s <= 8 },
        !(c == st.nodes[id].parent && s == st.nodes[id].parent_child),
    ensures
        list_of(unlinked(st, id), c, s) == list_of(st, c, s),
        linked(unlinked(st, id).nodes, list_of(st, c, s), c, s, id),
{
    lemma_locate(st, id);
    reveal(inv);
    let n = st.nodes[id];
    let l = list_of(st, c, s);
    let st2 = unlinked(st, id);
    if c != 0 {
        assert(l == st.cells[c].list_at(s));
        if c == n.parent {
            lemma_set_list(
                st.cells[c],
                n.parent_child,
                list_with(list_of(st, n.parent, n.parent_child)@.remove(position(st, id))),
            );
        }
    }
    assert(linked(st.nodes, l, c, s, 0));
    let home = list_of(st, n.parent, n.parent_child);
    if n.parent != 0 {
        assert(home == st.cells[n.parent].list_at(n.parent_child));
    }
    assert(linked(st.nodes, home, n.parent, n.parent_child, 0));
    assert forall|j: int| 0 <= j < l@.len() implies #[trigger] link_ok(st2.nodes, l@, j, c, s, id) by {
        assert(link_ok(st.nodes, l@, j, c, s, 0));
        let i = position(st, id);
        assert(link_ok(st.nodes, home@, i, n.parent, n.parent_child, 0));
        if i > 0 {
            assert(link_ok(st.nodes, home@, i - 1, n.parent, n.parent_child, 0));
        }
        if i + 1 < home@.len() {
            assert(link_ok(st.nodes, home@, i + 1, n.parent, n.parent_child, 0));
        }
    }
}

/// What replacing a list changes in a cell: that list and the population,
/// nothing else.
pub(crate) proof fn lemma_set_list(cell: OctNode, s: usize, l: NodeList)
    requires
        s <= 8,
        s < 8 ==> cell.childs[s as int] is Ab,
    ensures
        set_list(cell, s, l).list_at(s) == l,
        forall|t: usize| t <= 8 && t != s ==> #[trigger] set_list(cell, s, l).list_at(t) == cell.list_at(t),
        forall|t: int| 0 <= t < 8 && t != s ==> #[trigger] set_list(cell, s, l).childs[t] == cell.childs[t],
        s < 8 ==> set_list(cell, s, l).childs[s as int] == ChildNode::Ab(l),
        same_cell(cell, set_list(cell, s, l)),
        set_list(cell, s, l).dirty == cell.dirty,
        set_list(cell, s, l).population() == cell.population() - cell.list_at(s).len + l.len,
{
    if s < 8 {
        vstd::array::axiom_spec_array_update(cell.childs, s as int, ChildNode::Ab(l));
        let n = set_list(cell, s, l);
        assert(n.childs@ == cell.childs@.update(s as int, ChildNode::Ab(l)));
        assert forall|t: int| 0 <= t < 8 && t != s implies #[trigger] n.childs[t] == cell.childs[t] by {
            assert(n.childs@[t] == cell.childs@[t]);
        }
        assert(n.childs[s as int] == ChildNode::Ab(l));
        assert(n.childs[0] == if s == 0 { ChildNode::Ab(l) } else { cell.childs[0] });
        assert(n.childs[1] == if s == 1 { ChildNode::Ab(l) } else { cell.childs[1] });
        assert(n.childs[2] == if s == 2 { ChildNode::Ab(l) } else { cell.childs[2] });
        assert(n.childs[3] == if s == 3 { ChildNode::Ab(l) } else { cell.childs[3] });
        assert(n.childs[4] == if s == 4 { ChildNode::Ab(l) } else { cell.childs[4] });
        assert(n.childs[5] == if s == 5 { ChildNode::Ab(l) } else { cell.childs[5] });
        assert(n.childs[6] == if s == 6 { ChildNode::Ab(l) } else { cell.childs[6] });
        assert(n.childs[7] == if s == 7 { ChildNode::Ab(l) } else { cell.childs[7] });
    }
}

/// Every cell is still well formed when an entry has left its list; the
/// cell that it left is one short.
proof fn lemma_unlink_cell<T>(st: State<T>, id: usize, k: usize)
    requires
        inv(st, 0, 0),
        st.nodes.contains_key(id),
        st.cells.contains_key(k),
    ensures
        cell_ok(unlinked(st, id), k, st.nodes[id].parent),
        same_cell(st.cells[k], unlinked(st, id).cells[k]),
        k != st.nodes[id].parent ==> unlinked(st, id).cells[k] == st.cells[k],
{
    lemma_locate(st, id);
    let n = st.nodes[id];
    let p = n.parent;
    let c = n.parent_child;
    let st2 = unlinked(st, id);
    let l = list_of(st, p, c);
    let rest = list_with(l@.remove(position(st, id)));
    assert(cell_ok(st, k, 0)) by {
        reveal(inv);
    }
    if p != 0 {
        assert(cell_ok(st, p, 0)) by {
            reveal(inv);
        }
        lemma_set_list(st.cells[p], c, rest);
        assert(st2.cells[p] == set_list(st.cells[p], c, rest));
    }
    assert forall|s: int| 0 <= s < 8 implies #[trigger] child_ok(st2, k, s) by {
        assert(child_ok(st, k, s));
        if let ChildNode::Oct(kk, _) = st.cells[k].childs[s] {
            assert(st2.cells[kk].parent == st.cells[kk].parent);
        }
    }
    if k != ROOT {
        let q = st.cells[k].parent;
        let qs = st.cells[k].parent_child;
        assert(cell_ok(st, q, 0)) by {
            reveal(inv);
        }
        assert(parent_ok(st, k, 0));
        if q == p {
            assert(st2.cells[q].childs[qs as int] == st.cells[q].childs[qs as int]);
        }
        assert(parent_ok(st2, k, p));
    }
}

/// Every other entry is still at home when an entry has left its list.
proof fn lemma_unlink_home<T>(st: State<T>, id: usize, e: usize)
    requires
        inv(st, 0, 0),
        st.nodes.contains_key(id),
        st.nodes.contains_key(e),
        e != id,
    ensures
        home_ok(unlinked(st, id), e),
        same_entry(st.nodes[e], unlinked(st, id).nodes[e]),
        unlinked(st, id).nodes[e].parent == st.nodes[e].parent,
        unlinked(st, id).nodes[e].parent_child == st.nodes[e].parent_child,
{
    lemma_locate(st, id);
    let n = st.nodes[id];
    let p = n.parent;
    let c = n.parent_child;
    let st2 = unlinked(st, id);
    let m = st.nodes[e];
    let l = list_of(st, p, c);
    let rest = list_with(l@.remove(position(st, id)));
    assert(home_ok(st, e) && st.cells.contains_key(ROOT)) by {
        reveal(inv);
    }
    if p != 0 {
        lemma_set_list(st.cells[p], c, rest);
    }
    lemma_unlink_cell(st, id, ROOT);
    if m.parent == p && m.parent_child == c {
        lemma_remove_keeps(l@, position(st, id), e);
        assert(list_of(st2, p, c)@ == l@.remove(position(st, id)));
    } else {
        lemma_unlink_others(st, id, m.parent, m.parent_child);
    }
    if m.parent != 0 {
        lemma_unlink_cell(st, id, m.parent);
    }
    assert(key_ok(st2, m.parent, m.parent_child));
    assert(placed_ok(st2, e));
}

/// Taking an entry out of its list keeps the invariant, with that entry in
/// transit and the cell it left one short, and changes no cell or entry
/// otherwise.
pub(crate) proof fn lemma_unlink<T>(st: State<T>, id: usize)
    requires
        inv(st, 0, 0),
        st.nodes.contains_key(id),
    ensures
        inv(unlinked(st, id), id, st.nodes[id].parent),
        same_frame(st, unlinked(st, id)),
        same_homes(st, unlinked(st, id), id),
{
    lemma_locate(st, id);
    let n = st.nodes[id];
    let p = n.parent;
    let c = n.parent_child;
    let st2 = unlinked(st, id);
    assert(st2.cells.contains_key(ROOT) && !st2.cells.contains_key(0) && !st2.nodes.contains_key(
        0,
    ) && st2.cells[ROOT].loose == st2.loose && st2.deep <= crate::octree::DEEP_MAX) by {
        reveal(inv);
        lemma_unlink_cell(st, id, ROOT);
    }
    assert forall|k: usize| st2.cells.contains_key(k) implies #[trigger] cell_ok(st2, k, p) by {
        lemma_unlink_cell(st, id, k);
    }
    assert forall|k: usize| st.cells.contains_key(k) implies same_cell(
        st.cells[k],
        #[trigger] st2.cells[k],
    ) by {
        lemma_unlink_cell(st, id, k);
    }
    assert forall|e: usize| st2.nodes.contains_key(e) && e != id implies #[trigger] home_ok(
        st2,
        e,
    ) by {
        lemma_unlink_home(st, id, e);
    }
    assert forall|e: usize| st.nodes.contains_key(e) implies same_entry(
        st.nodes[e],
        #[trigger] st2.nodes[e],
    ) by {
        if e != id {
            lemma_unlink_home(st, id, e);
        }
    }
    assert forall|e: usize| st.nodes.contains_key(e) && e != id implies (#[trigger] st2.nodes[e]).parent
        == st.nodes[e].parent && st2.nodes[e].parent_child == st.nodes[e].parent_child by {
        lemma_unlink_home(st, id, e);
    }
    assert forall|k: usize, s: usize| st2.cells.contains_key(k) && s <= 8 implies #[trigger] linked(
        st2.nodes,
        st2.cells[k].list_at(s),
        k,
        s,
        id,
    ) by {
        if k == p && s == c {
            lemma_unlink_list(st, id);
        } else {
            lemma_unlink_others(st, id, k, s);
        }
    }
    assert(linked(st2.nodes, st2.outer, 0, OWN, id)) by {
        if p == 0 {
            lemma_unlink_list(st, id);
        } else {
            lemma_unlink_others(st, id, 0, OWN);
        }
    }
    reveal(inv);
}

/// The entry `id` would be well placed in the list `(c, s)`.
pub open spec fn fits<T>(st: State<T>, id: usize, c: usize, s: usize) -> bool {
    placed_ok(
        State {
            nodes: st.nodes.insert(id, AbNode { parent: c, parent_child: s, ..st.nodes[id] }),
            ..st
        },
        id,
    )
}

/// The state after the entry `id`, which was in transit, has been put at the
/// head of the list `(c, s)`.
pub open spec fn linked_in<T>(st: State<T>, id: usize, c: usize, s: usize) -> State<T> {
    let l = list_of(st, c, s);
    let n1 = st.nodes.insert(
        id,
        AbNode { parent: c, parent_child: s, prev: 0, next: l.head, ..st.nodes[id] },
    );
    let n2 = if l.head != 0 {
        n1.insert(l.head, AbNode { prev: id, ..n1[l.head] })
    } else {
        n1
    };
    State { nodes: n2, ..with_list(st, c, s, list_with(seq![id] + l@)) }
}

/// A list stays well linked when none of its entries changes.
pub(crate) proof fn lemma_linked_frame<T>(
    nodes: Map<usize, AbNode<T>>,
    nodes2: Map<usize, AbNode<T>>,
    l: NodeList,
    c: usize,
    s: usize,
    skip: usize,
    skip2: usize,
)
    requires
        linked(nodes, l, c, s, skip),
        forall|j: int|
            0 <= j < l@.len() ==> (#[trigger] l@[j]) != skip2 && nodes2.contains_key(l@[j])
                && nodes2[l@[j]] == nodes[l@[j]],
    ensures
        linked(nodes2, l, c, s, skip2),
{
    assert forall|j: int| 0 <= j < l@.len() implies #[trigger] link_ok(nodes2, l@, j, c, s, skip2) by {
        assert(link_ok(nodes, l@, j, c, s, skip));
        assert(nodes2[l@[j]] == nodes[l@[j]]);
    }
}

/// The list that an entry has entered is well linked.
proof fn lemma_link_list<T>(st: State<T>, id: usize, c: usize, s: usize)
    requires
        id != 0,
        st.nodes.contains_key(id),
        linked(st.nodes, list_of(st, c, s), c, s, id),
        list_of(st, c, s)@.len() < usize::MAX,
    ensures
        linked(linked_in(st, id, c, s).nodes, list_with(seq![id] + list_of(st, c, s)@), c, s, 0),
{
    let l = list_of(st, c, s);
    let t = seq![id] + l@;
    let nodes2 = linked_in(st, id, c, s).nodes;
    assert forall|a: int, b: int| 0 <= a < t.len() && 0 <= b < t.len() && a != b implies t[a]
        != t[b] by {
        if a > 0 {
            assert(link_ok(st.nodes, l@, a - 1, c, s, id));
        }
        if b > 0 {
            assert(link_ok(st.nodes, l@, b - 1, c, s, id));
        }
    }
    assert forall|j: int| 0 <= j < t.len() implies #[trigger] link_ok(nodes2, t, j, c, s, 0) by {
        if j > 0 {
            assert(t[j] == l@[j - 1]);
            assert(link_ok(st.nodes, l@, j - 1, c, s, id));
            if j + 1 < t.len() {
                assert(t[j + 1] == l@[j]);
            }
            if j > 1 {
                assert(t[j - 1] == l@[j - 2]);
                assert(link_ok(st.nodes, l@, 0, c, s, id));
            }
        } else {
            if l@.len() > 0 {
                assert(link_ok(st.nodes, l@, 0, c, s, id));
                assert(t[1] == l@[0]);
            }
        }
    }
}

/// Every other list is untouched when an entry enters a list.
proof fn lemma_link_others<T>(st: State<T>, id: usize, c: usize, s: usize, c2: usize, s2: usize)
    requires
        inv(st, id, c),
        id != 0,
        key_ok(st, c, s),
        if c2 == 0 { s2 == OWN } else { st.cells.contains_key(c2) && s2 <= 8 },
        !(c2 == c && s2 == s),
    ensures
        list_of(linked_in(st, id, c, s), c2, s2) == list_of(st, c2, s2),
        linked(linked_in(st, id, c, s).nodes, list_of(st, c2, s2), c2, s2, 0),
{
    let st2 = linked_in(st, id, c, s);
    let l = list_of(st, c, s);
    let l2 = list_of(st, c2, s2);
    if c != 0 {
        lemma_set_list(st.cells[c], s, list_with(seq![id] + l@));
    }
    assert(linked(st.nodes, l2, c2, s2, id) && linked(st.nodes, l, c, s, id)) by {
        reveal(inv);
    }
    assert forall|j: int| 0 <= j < l2@.len() implies (#[trigger] l2@[j]) != 0
        && st2.nodes.contains_key(l2@[j]) && st2.nodes[l2@[j]] == st.nodes[l2@[j]] by {
        assert(link_ok(st.nodes, l2@, j, c2, s2, id));
        if l@.len() > 0 {
            assert(link_ok(st.nodes, l@, 0, c, s, id));
        }
    }
    lemma_linked_frame(st.nodes, st2.nodes, l2, c2, s2, id, 0);
}

/// Every cell is well formed again when the entry in transit has entered a
/// list of the cell that was one short.
proof fn lemma_link_cell<T>(st: State<T>, id: usize, c: usize, s: usize, k: usize)
    requires
        inv(st, id, c),
        key_ok(st, c, s),
        list_of(st, c, s)@.len() < usize::MAX,
        st.cells.contains_key(k),
    ensures
        cell_ok(linked_in(st, id, c, s), k, 0),
        same_cell(st.cells[k], linked_in(st, id, c, s).cells[k]),
        k != c ==> linked_in(st, id, c, s).cells[k] == st.cells[k],
{
    let st2 = linked_in(st, id, c, s);
    let l = list_of(st, c, s);
    let more = list_with(seq![id] + l@);
    assert(cell_ok(st, k, c)) by {
        reveal(inv);
    }
    if c != 0 {
        assert(cell_ok(st, c, c) && linked(st.nodes, l, c, s, id)) by {
            reveal(inv);
        }
        lemma_set_list(st.cells[c], s, more);
        assert(st2.cells[c] == set_list(st.cells[c], s, more));
    }
    assert forall|t: int| 0 <= t < 8 implies #[trigger] child_ok(st2, k, t) by {
        assert(child_ok(st, k, t));
        if let ChildNode::Oct(kk, _) = st.cells[k].childs[t] {
            assert(st2.cells[kk].parent == st.cells[kk].parent);
        }
    }
    if k != ROOT {
        let q = st.cells[k].parent;
        let qs = st.cells[k].parent_child;
        assert(cell_ok(st, q, c)) by {
            reveal(inv);
        }
        assert(parent_ok(st, k, c));
        if q == c {
            assert(st2.cells[q].childs[qs as int] == st.cells[q].childs[qs as int]);
        }
        assert(parent_ok(st2, k, 0));
    }
}

/// Every entry is at home when the entry in transit has entered a list where
/// it fits.
proof fn lemma_link_home<T>(st: State<T>, id: usize, c: usize, s: usize, e: usize)
    requires
        inv(st, id, c),
        id != 0,
        key_ok(st, c, s),
        fits(st, id, c, s),
        list_of(st, c, s)@.len() < usize::MAX,
        st.nodes.contains_key(e),
    ensures
        home_ok(linked_in(st, id, c, s), e),
        same_entry(st.nodes[e], linked_in(st, id, c, s).nodes[e]),
        e != id ==> linked_in(st, id, c, s).nodes[e].parent == st.nodes[e].parent && linked_in(
            st,
            id,
            c,
            s,
        ).nodes[e].parent_child == st.nodes[e].parent_child,
{
    let st2 = linked_in(st, id, c, s);
    let l = list_of(st, c, s);
    let t = seq![id] + l@;
    let more = list_with(t);
    assert(linked(st.nodes, l, c, s, id) && st.nodes.contains_key(id) && st.cells.contains_key(
        ROOT,
    )) by {
        reveal(inv);
    }
    if l@.len() > 0 {
        assert(link_ok(st.nodes, l@, 0, c, s, id));
    }
    if c != 0 {
        lemma_set_list(st.cells[c], s, more);
    }
    lemma_link_cell(st, id, c, s, ROOT);
    if e == id {
        assert(t[0] == id);
        assert(list_of(st2, c, s)@ == t);
        if c != 0 {
            lemma_link_cell(st, id, c, s, c);
        }
    } else {
        let m = st.nodes[e];
        assert(home_ok(st, e)) by {
            reveal(inv);
        }
        if m.parent == c && m.parent_child == s {
            let k = l@.index_of(e);
            assert(t[k + 1] == e);
            assert(list_of(st2, c, s)@ == t);
        } else {
            lemma_link_others(st, id, c, s, m.parent, m.parent_child);
        }
        if m.parent != 0 {
            lemma_link_cell(st, id, c, s, m.parent);
        }
    }
}

/// Putting the entry in transit at the head of a list where it fits restores
/// the invariant and changes no cell or entry otherwise.
pub(crate) proof fn lemma_link<T>(st: State<T>, id: usize, c: usize, s: usize)
    requires
        inv(st, id, c),
        id != 0,
        key_ok(st, c, s),
        fits(st, id, c, s),
        list_of(st, c, s)@.len() < usize::MAX,
    ensures
        inv(linked_in(st, id, c, s), 0, 0),
        same_frame(st, linked_in(st, id, c, s)),
        same_homes(st, linked_in(st, id, c, s), id),
{
    let st2 = linked_in(st, id, c, s);
    let l = list_of(st, c, s);
    assert(st.cells.contains_key(ROOT) && !st.cells.contains_key(0) && !st.nodes.contains_key(0)
        && st.cells[ROOT].loose == st.loose && st.deep <= crate::octree::DEEP_MAX
        && st.nodes.contains_key(id) && linked(st.nodes, l, c, s, id)) by {
        reveal(inv);
    }
    lemma_link_cell(st, id, c, s, ROOT);
    if l@.len() > 0 {
        assert(link_ok(st.nodes, l@, 0, c, s, id));
    }
    assert forall|e: usize| st.nodes.contains_key(e) == #[trigger] st2.nodes.contains_key(e) by {}
    assert forall|k: usize| st.cells.contains_key(k) == #[trigger] st2.cells.contains_key(k) by {}
    assert forall|k: usize| st2.cells.contains_key(k) implies #[trigger] cell_ok(st2, k, 0) by {
        lemma_link_cell(st, id, c, s, k);
    }
    assert forall|k: usize| st.cells.contains_key(k) implies same_cell(
        st.cells[k],
        #[trigger] st2.cells[k],
    ) by {
        lemma_link_cell(st, id, c, s, k);
    }
    assert forall|e: usize| st2.nodes.contains_key(e) implies #[trigger] home_ok(st2, e) by {
        lemma_link_home(st, id, c, s, e);
    }
    assert forall|e: usize| st.nodes.contains_key(e) implies same_entry(
        st.nodes[e],
        #[trigger] st2.nodes[e],
    ) by {
        lemma_link_home(st, id, c, s, e);
    }
    assert forall|e: usize| st.nodes.contains_key(e) && e != id implies (#[trigger] st2.nodes[e]).parent
        == st.nodes[e].parent && st2.nodes[e].parent_child == st.nodes[e].parent_child by {
        lemma_link_home(st, id, c, s, e);
    }
    assert forall|k: usize, t: usize| st2.cells.contains_key(k) && t <= 8 implies #[trigger] linked(
        st2.nodes,
        st2.cells[k].list_at(t),
        k,
        t,
        0,
    ) by {
        if k == c && t == s {
            lemma_link_list(st, id, c, s);
            lemma_set_list(st.cells[c], s, list_with(seq![id] + l@));
        } else {
            lemma_link_others(st, id, c, s, k, t);
        }
    }
    assert(linked(st2.nodes, st2.outer, 0, OWN, 0)) by {
        if c == 0 {
            lemma_link_list(st, id, c, s);
        } else {
            lemma_link_others(st, id, c, s, 0, OWN);
        }
    }
    reveal(inv);
}

/// Under the invariant every list is well linked.
pub(crate) proof fn lemma_list_linked<T>(st: State<T>, skip: usize, excess: usize, c: usize, s: usize)
    requires
        inv(st, skip, excess),
        if c == 0 { s == OWN } else { st.cells.contains_key(c) && s <= 8 },
    ensures
        linked(st.nodes, list_of(st, c, s), c, s, skip),
        list_of(st, c, s).wf(),
        forall|i: int|
            0 <= i < list_of(st, c, s)@.len() ==> st.nodes.contains_key(
                #[trigger] list_of(st, c, s)@[i],
            ),
        list_of(st, c, s).head != 0 ==> st.nodes.contains_key(list_of(st, c, s).head),
{
    reveal(inv);
    let l = list_of(st, c, s);
    assert(linked(st.nodes, l, c, s, skip));
    assert forall|i: int| 0 <= i < l@.len() implies st.nodes.contains_key(#[trigger] l@[i]) by {
        assert(link_ok(st.nodes, l@, i, c, s, skip));
    }
    if l@.len() > 0 {
        assert(link_ok(st.nodes, l@, 0, c, s, skip));
    }
}

/// The state with the cell `p` replaced.
pub open spec fn with_cell<T>(st: State<T>, p: usize, cell: OctNode) -> State<T> {
    State { cells: st.cells.insert(p, cell), ..st }
}

/// Two versions of a cell with the same lists, the same child cells and the
/// same place in the tree; counters and dirty bits may differ.
pub open spec fn same_lists(a: OctNode, b: OctNode) -> bool {
    &&& a.aabb == b.aabb
    &&& a.loose == b.loose
    &&& a.parent == b.parent
    &&& a.parent_child == b.parent_child
    &&& a.layer == b.layer
    &&& a.nodes == b.nodes
    &&& forall|s: int|
        0 <= s < 8 ==> same_slot(a.childs[s], #[trigger] b.childs[s]) && (a.childs[s] is Ab
            ==> b.childs[s] == a.childs[s])
}

/// Replacing a cell by a version with other counters or dirty bits keeps the
/// invariant, provided the counters of the new version agree with the
/// populations again: the cell with its parent, and its child cells with it.
pub(crate) proof fn lemma_swap_cell<T>(
    st: State<T>,
    p: usize,
    cell: OctNode,
    skip: usize,
    ex: usize,
    ex2: usize,
)
    requires
        inv(st, skip, ex),
        st.cells.contains_key(p),
        same_lists(st.cells[p], cell),
        p != ROOT ==> parent_ok(with_cell(st, p, cell), p, ex2),
        forall|s: int|
            0 <= s < 8 ==> (#[trigger] st.cells[p].childs[s] matches ChildNode::Oct(k, _)
                ==> parent_ok(with_cell(st, p, cell), k, ex2)),
        forall|k: usize|
            st.cells.contains_key(k) && k != p && st.cells[k].parent != p ==> ((k == ex) == (k
                == ex2)),
    ensures
        inv(with_cell(st, p, cell), skip, ex2),
{
    let st2 = with_cell(st, p, cell);
    let old = st.cells[p];
    assert(st.cells.contains_key(ROOT) && !st.cells.contains_key(0) && !st.nodes.contains_key(0)
        && st.cells[ROOT].loose == st.loose && st.deep <= crate::octree::DEEP_MAX && (skip != 0
        ==> st.nodes.contains_key(skip)) && linked(st.nodes, st.outer, 0, OWN, skip)) by {
        reveal(inv);
    }
    assert forall|t: usize| t <= 8 implies cell.list_at(t) == old.list_at(t) by {
        if t < 8 {
            assert(same_slot(old.childs[t as int], cell.childs[t as int]));
        }
    }
    assert forall|k: usize| st2.cells.contains_key(k) implies #[trigger] cell_ok(st2, k, ex2) by {
        assert(cell_ok(st, k, ex)) by {
            reveal(inv);
        }
        assert forall|s: int| 0 <= s < 8 implies #[trigger] child_ok(st2, k, s) by {
            assert(child_ok(st, k, s));
            if k == p {
                assert(same_slot(old.childs[s], cell.childs[s]));
            }
        }
        if k != ROOT && k != p {
            let q = st.cells[k].parent;
            let qs = st.cells[k].parent_child;
            assert(parent_ok(st, k, ex));
            if q == p {
                assert(old.childs[qs as int] matches ChildNode::Oct(kk, _) && kk == k);
            } else {
                assert(parent_ok(st2, k, ex2));
            }
        }
    }
    assert forall|k: usize, s: usize| st2.cells.contains_key(k) && s <= 8 implies #[trigger] linked(
        st2.nodes,
        st2.cells[k].list_at(s),
        k,
        s,
        skip,
    ) by {
        assert(linked(st.nodes, st.cells[k].list_at(s), k, s, skip)) by {
            reveal(inv);
        }
    }
    assert forall|e: usize| st2.nodes.contains_key(e) && e != skip implies #[trigger] home_ok(
        st2,
        e,
    ) by {
        assert(home_ok(st, e)) by {
            reveal(inv);
        }
        let m = st.nodes[e];
        if m.parent == p && m.parent_child < 8 {
            assert(same_slot(old.childs[m.parent_child as int], cell.childs[m.parent_child as int]));
        }
    }
    reveal(inv);
}

/// The cell with the child slot `s` replaced.
pub open spec fn set_slot(cell: OctNode, s: usize, slot: ChildNode) -> OctNode {
    OctNode { childs: vstd::array::spec_array_update(cell.childs, s as int, slot), ..cell }
}

/// What replacing a child slot changes in a cell: that slot and the
/// population, nothing else.
pub(crate) proof fn lemma_set_slot(cell: OctNode, s: usize, slot: ChildNode)
    requires
        s < 8,
    ensures
        set_slot(cell, s, slot).childs[s as int] == slot,
        forall|t: int| 0 <= t < 8 && t != s ==> #[trigger] set_slot(cell, s, slot).childs[t] == cell.childs[t],
        set_slot(cell, s, slot).population() == cell.population() - cell.childs[s as int].count()
            + slot.count(),
{
    vstd::array::axiom_spec_array_update(cell.childs, s as int, slot);
    let n = set_slot(cell, s, slot);
    assert(n.childs@ == cell.childs@.update(s as int, slot));
    assert forall|t: int| 0 <= t < 8 && t != s implies #[trigger] n.childs[t] == cell.childs[t] by {
        assert(n.childs@[t] == cell.childs@[t]);
    }
    assert(n.childs[s as int] == slot);
    assert(n.childs[0] == if s == 0 { slot } else { cell.childs[0] });
    assert(n.childs[1] == if s == 1 { slot } else { cell.childs[1] });
    assert(n.childs[2] == if s == 2 { slot } else { cell.childs[2] });
    assert(n.childs[3] == if s == 3 { slot } else { cell.childs[3] });
    assert(n.childs[4] == if s == 4 { slot } else { cell.childs[4] });
    assert(n.childs[5] == if s == 5 { slot } else { cell.childs[5] });
    assert(n.childs[6] == if s == 6 { slot } else { cell.childs[6] });
    assert(n.childs[7] == if s == 7 { slot } else { cell.childs[7] });
}

/// Counting the entry in transit into the child cell in slot `s` of the cell
/// that was one short makes that child cell the one that is one short.
pub(crate) proof fn lemma_count_up<T>(st: State<T>, skip: usize, p: usize, s: usize)
    requires
        inv(st, skip, p),
        st.cells.contains_key(p),
        s < 8,
        st.cells[p].childs[s as int] matches ChildNode::Oct(_, n) && n < usize::MAX,
    ensures
        ({
            let cell = st.cells[p];
            let k = cell.childs[s as int]->Oct_0;
            let n = cell.childs[s as int]->Oct_1;
            let st2 = with_cell(st, p, set_slot(cell, s, ChildNode::Oct(k, (n + 1) as usize)));
            inv(st2, skip, k) && st2.cells.contains_key(k) && same_lists(cell, st2.cells[p])
        }),
{
    let cell = st.cells[p];
    let k = cell.childs[s as int]->Oct_0;
    let n = cell.childs[s as int]->Oct_1;
    let nc = set_slot(cell, s, ChildNode::Oct(k, (n + 1) as usize));
    let st2 = with_cell(st, p, nc);
    lemma_set_slot(cell, s, ChildNode::Oct(k, (n + 1) as usize));
    lemma_cell_ok(st, skip, p, p);
    lemma_child_cell(st, skip, p, p, s);
    assert(same_lists(cell, nc)) by {
        assert forall|t: int| 0 <= t < 8 implies same_slot(#[trigger] cell.childs[t], nc.childs[t]) by {}
    }
    if p != ROOT {
        assert(parent_ok(st, p, p));
        assert(parent_ok(st2, p, k));
    }
    assert forall|t: int| 0 <= t < 8 implies (#[trigger] cell.childs[t] matches ChildNode::Oct(
        kk,
        _,
    ) ==> parent_ok(st2, kk, k)) by {
        if let ChildNode::Oct(kk, _) = cell.childs[t] {
            lemma_child_cell(st, skip, p, p, t as usize);
            assert(parent_ok(st, kk, p));
            assert(st2.cells[kk] == st.cells[kk]);
            assert(st2.cells[p] == nc);
            if t != s {
                assert(kk != k);
                assert(nc.childs[t] == cell.childs[t]);
            }
        }
    }
    lemma_swap_cell(st, p, nc, skip, p, k);
}

/// Counting the entry in transit out of the cell `k`, which was one short,
/// makes its parent the one that is one short.
pub(crate) proof fn lemma_count_down<T>(st: State<T>, skip: usize, k: usize)
    requires
        inv(st, skip, k),
        st.cells.contains_key(k),
        k != ROOT,
    ensures
        ({
            let p = st.cells[k].parent;
            let s = st.cells[k].parent_child;
            let cell = st.cells[p];
            let n = cell.childs[s as int]->Oct_1;
            let st2 = with_cell(st, p, set_slot(cell, s, ChildNode::Oct(k, (n - 1) as usize)));
            &&& st.cells.contains_key(p)
            &&& s < 8
            &&& cell.childs[s as int] matches ChildNode::Oct(k2, n2) && k2 == k && n2 > 0
            &&& inv(st2, skip, p)
            &&& same_lists(cell, st2.cells[p])
        }),
{
    let p = st.cells[k].parent;
    let s = st.cells[k].parent_child;
    let cell = st.cells[p];
    lemma_cell_ok(st, skip, k, k);
    assert(parent_ok(st, k, k));
    let n = cell.childs[s as int]->Oct_1;
    let nc = set_slot(cell, s, ChildNode::Oct(k, (n - 1) as usize));
    let st2 = with_cell(st, p, nc);
    lemma_set_slot(cell, s, ChildNode::Oct(k, (n - 1) as usize));
    lemma_cell_ok(st, skip, k, p);
    assert(same_lists(cell, nc)) by {
        assert forall|t: int| 0 <= t < 8 implies same_slot(#[trigger] cell.childs[t], nc.childs[t]) by {}
    }
    if p != ROOT {
        assert(parent_ok(st, p, k));
        assert(parent_ok(st2, p, p));
    }
    assert forall|t: int| 0 <= t < 8 implies (#[trigger] cell.childs[t] matches ChildNode::Oct(
        kk,
        _,
    ) ==> parent_ok(st2, kk, p)) by {
        if let ChildNode::Oct(kk, _) = cell.childs[t] {
            lemma_child_cell(st, skip, k, p, t as usize);
            assert(parent_ok(st, kk, k));
            assert(st2.cells[kk] == st.cells[kk]);
            assert(st2.cells[p] == nc);
            if t != s {
                assert(kk != k);
                assert(nc.childs[t] == cell.childs[t]);
            }
        }
    }
    lemma_swap_cell(st, p, nc, skip, k, p);
}

/// Box and payload of every entry, by handle.
pub open spec fn entries_of<T>(nodes: Map<usize, AbNode<T>>) -> Map<usize, (crate::geometry::Aabb3, T)> {
    Map::new(|id: usize| nodes.contains_key(id), |id: usize| (nodes[id].aabb, nodes[id].bind))
}

/// States with the same entries give the same boxes and payloads.
pub(crate) proof fn lemma_entries_same<T>(a: State<T>, b: State<T>)
    requires
        same_frame(a, b),
    ensures
        entries_of(a.nodes) == entries_of(b.nodes),
        same_cells(a.cells, b.cells),
{
    assert forall|e: usize| a.nodes.contains_key(e) implies b.nodes.contains_key(e) && b.nodes[e].aabb
        == a.nodes[e].aabb && b.nodes[e].bind == a.nodes[e].bind by {
        assert(a.nodes.contains_key(e) == b.nodes.contains_key(e));
        assert(same_entry(a.nodes[e], b.nodes[e]));
    }
    assert forall|e: usize| b.nodes.contains_key(e) implies a.nodes.contains_key(e) by {
        assert(a.nodes.contains_key(e) == b.nodes.contains_key(e));
    }
    assert(entries_of(a.nodes) =~= entries_of(b.nodes));
}

/// The same cells exist in both maps, each with the same region, place and
/// child cells; lists, counters and dirty bits may differ.
pub open spec fn same_cells(a: Map<usize, OctNode>, b: Map<usize, OctNode>) -> bool {
    &&& forall|c: usize| a.contains_key(c) == #[trigger] b.contains_key(c)
    &&& forall|c: usize| a.contains_key(c) ==> same_cell(a[c], #[trigger] b[c])
}

/// Every entry but `moved` is in the same list in both states.
pub open spec fn same_homes<T>(a: State<T>, b: State<T>, moved: usize) -> bool {
    forall|e: usize|
        a.nodes.contains_key(e) && e != moved ==> (#[trigger] b.nodes[e]).parent
            == a.nodes[e].parent && b.nodes[e].parent_child == a.nodes[e].parent_child
}

/// `same_homes` is transitive.
pub(crate) proof fn lemma_same_homes_trans<T>(a: State<T>, b: State<T>, c: State<T>, moved: usize)
    requires
        same_homes(a, b, moved),
        same_homes(b, c, moved),
        forall|e: usize| a.nodes.contains_key(e) ==> b.nodes.contains_key(e),
    ensures
        same_homes(a, c, moved),
{
    assert forall|e: usize| a.nodes.contains_key(e) && e != moved implies (#[trigger] c.nodes[e]).parent
        == a.nodes[e].parent && c.nodes[e].parent_child == a.nodes[e].parent_child by {
        assert(b.nodes[e].parent == a.nodes[e].parent);
    }
}

/// Every list holds the same entries in the same order in both states.
pub open spec fn same_orders<T>(a: State<T>, b: State<T>) -> bool {
    &&& a.outer == b.outer
    &&& forall|c: usize, s: usize|
        a.cells.contains_key(c) && s <= 8 ==> #[trigger] b.cells[c].list_at(s) == a.cells[c].list_at(
            s,
        )
}

/// Whether `(c, s)` can name a list: the outer list or a slot of a live cell.
pub open spec fn names_list<T>(st: State<T>, c: usize, s: usize) -> bool {
    (c == 0 && s == OWN) || (st.cells.contains_key(c) && s <= 8)
}

/// The entry `id` has entered the list that it names as its home in `b`, at
/// the head; every list is otherwise as in `a`.
pub open spec fn entered<T>(a: State<T>, b: State<T>, id: usize) -> bool {
    forall|c: usize, s: usize|
        names_list(a, c, s) ==> (#[trigger] list_of(b, c, s))@ == (if c == b.nodes[id].parent && s
            == b.nodes[id].parent_child {
            seq![id] + list_of(a, c, s)@
        } else {
            list_of(a, c, s)@
        })
}

/// Entering a list after steps that left every list as it was.
pub(crate) proof fn lemma_entered_after<T>(a: State<T>, b: State<T>, c: State<T>, id: usize)
    requires
        same_orders(a, b),
        entered(b, c, id),
        forall|k: usize| a.cells.contains_key(k) == b.cells.contains_key(k),
    ensures
        entered(a, c, id),
{
    assert forall|k: usize, s: usize| names_list(a, k, s) implies (#[trigger] list_of(c, k, s))@ == (if k
        == c.nodes[id].parent && s == c.nodes[id].parent_child {
        seq![id] + list_of(a, k, s)@
    } else {
        list_of(a, k, s)@
    }) by {
        assert(names_list(b, k, s));
        if k != 0 {
            assert(b.cells[k].list_at(s) == a.cells[k].list_at(s));
        }
    }
}

/// Steps that leave every list as it was, after entering a list.
pub(crate) proof fn lemma_entered_before<T>(a: State<T>, b: State<T>, c: State<T>, id: usize)
    requires
        entered(a, b, id),
        same_orders(b, c),
        forall|k: usize| a.cells.contains_key(k) == b.cells.contains_key(k),
        c.nodes[id].parent == b.nodes[id].parent,
        c.nodes[id].parent_child == b.nodes[id].parent_child,
    ensures
        entered(a, c, id),
{
    assert forall|k: usize, s: usize| names_list(a, k, s) implies (#[trigger] list_of(c, k, s))@ == (if k
        == c.nodes[id].parent && s == c.nodes[id].parent_child {
        seq![id] + list_of(a, k, s)@
    } else {
        list_of(a, k, s)@
    }) by {
        assert(names_list(b, k, s));
        assert(list_of(b, k, s)@ == (if k == b.nodes[id].parent && s == b.nodes[id].parent_child {
            seq![id] + list_of(a, k, s)@
        } else {
            list_of(a, k, s)@
        }));
        if k != 0 {
            assert(c.cells[k].list_at(s) == b.cells[k].list_at(s));
        }
    }
}

/// Tidiness carries over from one map of cells to another in which at most
/// the cell `c` differs, where every slot of `c` that has to be tidy is.
pub(crate) proof fn lemma_tidy_step(
    a: Map<usize, OctNode>,
    b: Map<usize, OctNode>,
    c: usize,
    adjust: (usize, usize),
    deep: usize,
    ec: usize,
    es: usize,
    ec2: usize,
    es2: usize,
)
    requires
        crate::octree::tidy(a, adjust, deep, ec, es),
        !b.contains_key(0),
        forall|k: usize| k != c && #[trigger] b.contains_key(k) ==> a.contains_key(k) && b[k] == a[k],
        ec != 0 ==> ec == c,
        ec2 != 0 ==> ec2 == c,
        b.contains_key(c) ==> forall|i: int|
            0 <= i < 8 && !(c == ec2 && i == es2) ==> #[trigger] crate::octree::slot_tidy(
                b[c],
                i,
                adjust,
                deep,
            ),
    ensures
        crate::octree::tidy(b, adjust, deep, ec2, es2),
{
    assert forall|k: usize, i: int|
        b.contains_key(k) && 0 <= i < 8 && !(k == ec2 && i == es2) implies #[trigger] crate::octree::slot_tidy(
        b[k],
        i,
        adjust,
        deep,
    ) by {
        if k != c {
            assert(crate::octree::slot_tidy(a[k], i, adjust, deep));
        }
    }
}

/// Tidiness outside a set of cells carries over from one map of cells to
/// another that differs only in cells of the set and in cells that are gone.
pub(crate) proof fn lemma_tidy_ex_step(
    a: Map<usize, OctNode>,
    b: Map<usize, OctNode>,
    adjust: (usize, usize),
    deep: usize,
    ex: Set<usize>,
)
    requires
        crate::octree::tidy_ex(a, adjust, deep, ex),
        forall|k: usize|
            !ex.contains(k) && #[trigger] b.contains_key(k) ==> a.contains_key(k) && b[k] == a[k],
    ensures
        crate::octree::tidy_ex(b, adjust, deep, ex),
{
    assert forall|k: usize, i: int|
        b.contains_key(k) && 0 <= i < 8 && !ex.contains(k) implies #[trigger] crate::octree::slot_tidy(
        b[k],
        i,
        adjust,
        deep,
    ) by {
        assert(crate::octree::slot_tidy(a[k], i, adjust, deep));
    }
}

/// Tidiness outside a set of cells is tidiness outside any larger set.
pub(crate) proof fn lemma_tidy_ex_more(
    a: Map<usize, OctNode>,
    adjust: (usize, usize),
    deep: usize,
    ex: Set<usize>,
    k: usize,
)
    requires
        crate::octree::tidy_ex(a, adjust, deep, ex),
    ensures
        crate::octree::tidy_ex(a, adjust, deep, ex.insert(k)),
{
    assert forall|c: usize, i: int|
        a.contains_key(c) && 0 <= i < 8 && !ex.insert(k).contains(c) implies #[trigger] crate::octree::slot_tidy(
        a[c],
        i,
        adjust,
        deep,
    ) by {
        assert(crate::octree::slot_tidy(a[c], i, adjust, deep));
    }
}

/// A cell need not be left out of tidiness if it is gone or tidy itself.
pub(crate) proof fn lemma_tidy_ex_less(
    a: Map<usize, OctNode>,
    adjust: (usize, usize),
    deep: usize,
    ex: Set<usize>,
    k: usize,
)
    requires
        crate::octree::tidy_ex(a, adjust, deep, ex.insert(k)),
        a.contains_key(k) ==> forall|i: int|
            0 <= i < 8 ==> #[trigger] crate::octree::slot_tidy(a[k], i, adjust, deep),
    ensures
        crate::octree::tidy_ex(a, adjust, deep, ex),
{
    assert forall|c: usize, i: int|
        a.contains_key(c) && 0 <= i < 8 && !ex.contains(c) implies #[trigger] crate::octree::slot_tidy(
        a[c],
        i,
        adjust,
        deep,
    ) by {
        if c != k {
            assert(!ex.insert(k).contains(c));
            assert(crate::octree::slot_tidy(a[c], i, adjust, deep));
        }
    }
}

/// Tidiness with no slot left out is tidiness outside the empty set of
/// cells, and the other way round.
pub(crate) proof fn lemma_tidy_ex_none(a: Map<usize, OctNode>, adjust: (usize, usize), deep: usize)
    requires
        !a.contains_key(0),
    ensures
        crate::octree::tidy_ex(a, adjust, deep, Set::<usize>::empty()) == crate::octree::tidy(
            a,
            adjust,
            deep,
            0,
            0,
        ),
{
    if crate::octree::tidy_ex(a, adjust, deep, Set::<usize>::empty()) {
        assert forall|c: usize, i: int|
            a.contains_key(c) && 0 <= i < 8 && !(c == 0 && i == 0) implies #[trigger] crate::octree::slot_tidy(
            a[c],
            i,
            adjust,
            deep,
        ) by {}
    }
    if crate::octree::tidy(a, adjust, deep, 0, 0) {
        assert forall|c: usize, i: int|
            a.contains_key(c) && 0 <= i < 8 && !Set::<usize>::empty().contains(c) implies #[trigger] crate::octree::slot_tidy(
            a[c],
            i,
            adjust,
            deep,
        ) by {}
    }
}

/// The cells are tidy throughout once the one slot left out is tidy too, or
/// is no child slot.
pub(crate) proof fn lemma_tidy_close(
    cells: Map<usize, OctNode>,
    adjust: (usize, usize),
    deep: usize,
    ec: usize,
    es: usize,
)
    requires
        crate::octree::tidy(cells, adjust, deep, ec, es),
        cells.contains_key(ec) && es < 8 ==> crate::octree::slot_tidy(
            cells[ec],
            es as int,
            adjust,
            deep,
        ),
    ensures
        crate::octree::tidy(cells, adjust, deep, 0, 0),
{
    assert forall|c: usize, i: int| cells.contains_key(c) && 0 <= i < 8 implies #[trigger] crate::octree::slot_tidy(
        cells[c],
        i,
        adjust,
        deep,
    ) by {
        if c == ec && i == es {
        } else {
            assert(crate::octree::slot_tidy(cells[c], i, adjust, deep));
        }
    }
}

/// Every cell has the same dirty bits in both states.
pub open spec fn same_dirty<T>(a: State<T>, b: State<T>) -> bool {
    forall|c: usize| a.cells.contains_key(c) ==> (#[trigger] b.cells[c]).dirty == a.cells[c].dirty
}

/// The worklist stays valid while no dirty bit changes.
pub(crate) proof fn lemma_dirty_kept<T>(a: State<T>, b: State<T>, dirty: (Vec<Vec<usize>>, usize, usize))
    requires
        crate::octree::dirty_ok(a.cells, dirty),
        same_frame(a, b),
        same_dirty(a, b),
    ensures
        crate::octree::dirty_ok(b.cells, dirty),
{
    assert forall|c: usize| #[trigger] b.cells.contains_key(c) && b.cells[c].dirty != 0 implies crate::octree::listed(
        dirty.0@,
        c,
    ) by {
        assert(a.cells.contains_key(c));
        assert(b.cells[c].dirty == a.cells[c].dirty);
    }
}

/// The worklist stays valid when it is extended by the one cell that may
/// have got its first pending slot.
pub(crate) proof fn lemma_dirty_after<T>(
    a: State<T>,
    b: State<T>,
    dirty: (Vec<Vec<usize>>, usize, usize),
    dirty2: (Vec<Vec<usize>>, usize, usize),
    rid: usize,
)
    requires
        crate::octree::dirty_ok(a.cells, dirty),
        same_frame(a, b),
        clean_alike(a, b, rid),
        !a.cells.contains_key(0),
        crate::dirty::work_ok(dirty2),
        forall|c: usize| crate::octree::listed(dirty.0@, c) ==> crate::octree::listed(dirty2.0@, c),
        rid != 0 ==> crate::octree::listed(dirty2.0@, rid),
    ensures
        crate::octree::dirty_ok(b.cells, dirty2),
{
    assert forall|c: usize| #[trigger] b.cells.contains_key(c) && b.cells[c].dirty != 0 implies crate::octree::listed(
        dirty2.0@,
        c,
    ) by {
        assert(a.cells.contains_key(c));
        if c != rid {
            assert((b.cells[c].dirty == 0) == (a.cells[c].dirty == 0));
        }
    }
}

/// Apart from the cell `rid`, the same cells have pending slots in both states.
pub open spec fn clean_alike<T>(a: State<T>, b: State<T>, rid: usize) -> bool {
    forall|c: usize|
        a.cells.contains_key(c) && c != rid ==> ((#[trigger] b.cells[c]).dirty == 0) == (
        a.cells[c].dirty == 0)
}

/// `same_frame` is transitive.
pub(crate) proof fn lemma_same_frame_trans<T>(a: State<T>, b: State<T>, c: State<T>)
    requires
        same_frame(a, b),
        same_frame(b, c),
    ensures
        same_frame(a, c),
{
    assert forall|k: usize| a.cells.contains_key(k) == #[trigger] c.cells.contains_key(k) by {
        assert(a.cells.contains_key(k) == b.cells.contains_key(k));
    }
    assert forall|e: usize| a.nodes.contains_key(e) == #[trigger] c.nodes.contains_key(e) by {
        assert(a.nodes.contains_key(e) == b.nodes.contains_key(e));
    }
    assert forall|k: usize| a.cells.contains_key(k) implies same_cell(
        a.cells[k],
        #[trigger] c.cells[k],
    ) by {
        assert(b.cells.contains_key(k));
        assert(same_cell(a.cells[k], b.cells[k]));
        assert(same_cell(b.cells[k], c.cells[k]));
        assert forall|s: int| 0 <= s < 8 implies same_slot(
            a.cells[k].childs[s],
            #[trigger] c.cells[k].childs[s],
        ) by {
            assert(same_slot(a.cells[k].childs[s], b.cells[k].childs[s]));
            assert(same_slot(b.cells[k].childs[s], c.cells[k].childs[s]));
        }
    }
    assert forall|e: usize| a.nodes.contains_key(e) implies same_entry(
        a.nodes[e],
        #[trigger] c.nodes[e],
    ) by {
        assert(b.nodes.contains_key(e));
        assert(same_entry(a.nodes[e], b.nodes[e]));
        assert(same_entry(b.nodes[e], c.nodes[e]));
    }
}

/// Replacing a cell by a version with the same lists and child cells changes
/// no cell or entry otherwise.
pub(crate) proof fn lemma_swap_frame<T>(st: State<T>, p: usize, cell: OctNode)
    requires
        st.cells.contains_key(p),
        same_lists(st.cells[p], cell),
    ensures
        same_frame(st, with_cell(st, p, cell)),
        forall|c: usize, s: usize|
            c != 0 && st.cells.contains_key(c) && s <= 8 ==> #[trigger] list_of(with_cell(st, p, cell), c, s)
                == list_of(st, c, s),
        same_orders(st, with_cell(st, p, cell)),
{
    let st2 = with_cell(st, p, cell);
    assert forall|c: usize, s: usize| st.cells.contains_key(c) && s <= 8 implies #[trigger] st2.cells[c].list_at(
        s,
    ) == st.cells[c].list_at(s) by {
        if c == p && s < 8 {
            assert(same_slot(st.cells[p].childs[s as int], cell.childs[s as int]));
        }
    }
    assert forall|k: usize| st.cells.contains_key(k) implies same_cell(
        st.cells[k],
        #[trigger] st2.cells[k],
    ) by {
        if k == p {
            assert forall|s: int| 0 <= s < 8 implies same_slot(
                st.cells[k].childs[s],
                #[trigger] st2.cells[k].childs[s],
            ) by {}
        }
    }
    assert forall|c: usize, s: usize| c != 0 && st.cells.contains_key(c) && s <= 8 implies #[trigger] list_of(
        st2,
        c,
        s,
    ) == list_of(st, c, s) by {
        if c == p && s < 8 {
            assert(same_slot(st.cells[p].childs[s as int], cell.childs[s as int]));
        }
    }
}

/// The state with the dirty bits of the cell `c` replaced.
pub open spec fn flagged<T>(st: State<T>, c: usize, dirty: usize) -> State<T> {
    with_cell(st, c, OctNode { dirty, ..st.cells[c] })
}

/// Changing the dirty bits of a cell keeps the invariant and changes no cell
/// or entry otherwise.
pub(crate) proof fn lemma_flag<T>(st: State<T>, c: usize, dirty: usize, skip: usize, ex: usize)
    requires
        inv(st, skip, ex),
        st.cells.contains_key(c),
    ensures
        inv(flagged(st, c, dirty), skip, ex),
        same_frame(st, flagged(st, c, dirty)),
{
    let cell = st.cells[c];
    let nc = OctNode { dirty, ..cell };
    let st2 = with_cell(st, c, nc);
    assert(cell_ok(st, c, ex)) by {
        reveal(inv);
    }
    if c != ROOT {
        assert(parent_ok(st, c, ex));
        assert(cell_ok(st, cell.parent, ex)) by {
            reveal(inv);
        }
        assert(parent_ok(st2, c, ex));
    }
    assert forall|t: int| 0 <= t < 8 implies (#[trigger] cell.childs[t] matches ChildNode::Oct(
        kk,
        _,
    ) ==> parent_ok(st2, kk, ex)) by {
        if let ChildNode::Oct(kk, _) = cell.childs[t] {
            assert(child_ok(st, c, t));
            assert(cell_ok(st, kk, ex)) by {
                reveal(inv);
            }
            assert(parent_ok(st, kk, ex));
        }
    }
    lemma_swap_cell(st, c, nc, skip, ex, ex);
    lemma_swap_frame(st, c, nc);
}

/// Under the invariant the root cell is live and well formed.
pub(crate) proof fn lemma_root<T>(st: State<T>, skip: usize, ex: usize)
    requires
        inv(st, skip, ex),
    ensures
        st.cells.contains_key(ROOT),
        cell_ok(st, ROOT, ex),
        st.cells[ROOT].loose == st.loose,
        st.loose.non_negative(),
        st.deep <= crate::octree::DEEP_MAX,
        skip != 0 ==> st.nodes.contains_key(skip),
        !st.cells.contains_key(0),
        !st.nodes.contains_key(0),
{
    reveal(inv);
    assert(cell_ok(st, ROOT, ex));
}

/// Under the invariant every cell is well formed.
pub(crate) proof fn lemma_cell_ok<T>(st: State<T>, skip: usize, ex: usize, c: usize)
    requires
        inv(st, skip, ex),
        st.cells.contains_key(c),
    ensures
        cell_ok(st, c, ex),
        st.cells.contains_key(ROOT),
        st.cells[ROOT].loose == st.loose,
        st.deep <= crate::octree::DEEP_MAX,
        skip != 0 ==> st.nodes.contains_key(skip),
        !st.cells.contains_key(0),
        !st.nodes.contains_key(0),
{
    reveal(inv);
}

/// Under the invariant a child cell is live and covers its octant of its
/// parent.
pub(crate) proof fn lemma_child_cell<T>(st: State<T>, skip: usize, ex: usize, p: usize, s: usize)
    requires
        inv(st, skip, ex),
        st.cells.contains_key(p),
        s < 8,
        st.cells[p].childs[s as int] is Oct,
    ensures
        ({
            let k = st.cells[p].childs[s as int]->Oct_0;
            &&& st.cells.contains_key(k)
            &&& k != ROOT
            &&& k != 0
            &&& cell_ok(st, k, ex)
            &&& parent_ok(st, k, ex)
            &&& st.cells[k].parent == p
            &&& st.cells[k].parent_child == s
        }),
{
    reveal(inv);
    assert(cell_ok(st, p, ex));
    assert(child_ok(st, p, s as int));
    let k = st.cells[p].childs[s as int]->Oct_0;
    assert(cell_ok(st, k, ex));
}

/// Under the invariant every entry that is not in transit is at home.
pub(crate) proof fn lemma_home_ok<T>(st: State<T>, skip: usize, ex: usize, e: usize)
    requires
        inv(st, skip, ex),
        st.nodes.contains_key(e),
        e != skip,
    ensures
        home_ok(st, e),
{
    reveal(inv);
}

/// A new entry that is not linked anywhere is an entry in transit.
pub(crate) proof fn lemma_insert_entry<T>(st: State<T>, id: usize, n: AbNode<T>, ex: usize)
    requires
        inv(st, 0, 0),
        id != 0,
        !st.nodes.contains_key(id),
        ex == 0 || ex == ROOT,
    ensures
        inv(State { nodes: st.nodes.insert(id, n), ..st }, id, ex),
{
    let st2 = State { nodes: st.nodes.insert(id, n), ..st };
    assert(st.cells.contains_key(ROOT) && !st.cells.contains_key(0) && !st.nodes.contains_key(0)
        && st.cells[ROOT].loose == st.loose && st.deep <= crate::octree::DEEP_MAX) by {
        reveal(inv);
    }
    assert forall|k: usize| st2.cells.contains_key(k) implies #[trigger] cell_ok(st2, k, ex) by {
        assert(cell_ok(st, k, 0)) by {
            reveal(inv);
        }
        assert forall|s: int| 0 <= s < 8 implies #[trigger] child_ok(st2, k, s) by {
            assert(child_ok(st, k, s));
        }
        if k != ROOT {
            assert(parent_ok(st, k, 0));
            assert(parent_ok(st2, k, ex));
        }
    }
    assert forall|k: usize, s: usize| st2.cells.contains_key(k) && s <= 8 implies #[trigger] linked(
        st2.nodes,
        st2.cells[k].list_at(s),
        k,
        s,
        id,
    ) by {
        let l = st.cells[k].list_at(s);
        assert(linked(st.nodes, l, k, s, 0)) by {
            reveal(inv);
        }
        assert forall|j: int| 0 <= j < l@.len() implies (#[trigger] l@[j]) != id
            && st2.nodes.contains_key(l@[j]) && st2.nodes[l@[j]] == st.nodes[l@[j]] by {
            assert(link_ok(st.nodes, l@, j, k, s, 0));
        }
        lemma_linked_frame(st.nodes, st2.nodes, l, k, s, 0, id);
    }
    assert(linked(st2.nodes, st2.outer, 0, OWN, id)) by {
        let l = st.outer;
        assert(linked(st.nodes, l, 0, OWN, 0)) by {
            reveal(inv);
        }
        assert forall|j: int| 0 <= j < l@.len() implies (#[trigger] l@[j]) != id
            && st2.nodes.contains_key(l@[j]) && st2.nodes[l@[j]] == st.nodes[l@[j]] by {
            assert(link_ok(st.nodes, l@, j, 0, OWN, 0));
        }
        lemma_linked_frame(st.nodes, st2.nodes, l, 0, OWN, 0, id);
    }
    assert forall|e: usize| st2.nodes.contains_key(e) && e != id implies #[trigger] home_ok(
        st2,
        e,
    ) by {
        assert(home_ok(st, e)) by {
            reveal(inv);
        }
    }
    reveal(inv);
}

/// An entry in transit can be dropped once no cell below the root is short.
pub(crate) proof fn lemma_remove_entry<T>(st: State<T>, id: usize, ex: usize)
    requires
        inv(st, id, ex),
        id != 0,
        ex == 0 || ex == ROOT,
    ensures
        inv(State { nodes: st.nodes.remove(id), ..st }, 0, 0),
{
    let st2 = State { nodes: st.nodes.remove(id), ..st };
    assert(st.cells.contains_key(ROOT) && !st.cells.contains_key(0) && !st.nodes.contains_key(0)
        && st.cells[ROOT].loose == st.loose && st.deep <= crate::octree::DEEP_MAX) by {
        reveal(inv);
    }
    assert forall|k: usize| st2.cells.contains_key(k) implies #[trigger] cell_ok(st2, k, 0) by {
        assert(cell_ok(st, k, ex)) by {
            reveal(inv);
        }
        assert forall|s: int| 0 <= s < 8 implies #[trigger] child_ok(st2, k, s) by {
            assert(child_ok(st, k, s));
        }
        if k != ROOT {
            assert(parent_ok(st, k, ex));
            assert(parent_ok(st2, k, 0));
        }
    }
    assert forall|k: usize, s: usize| st2.cells.contains_key(k) && s <= 8 implies #[trigger] linked(
        st2.nodes,
        st2.cells[k].list_at(s),
        k,
        s,
        0,
    ) by {
        let l = st.cells[k].list_at(s);
        assert(linked(st.nodes, l, k, s, id)) by {
            reveal(inv);
        }
        assert forall|j: int| 0 <= j < l@.len() implies (#[trigger] l@[j]) != 0
            && st2.nodes.contains_key(l@[j]) && st2.nodes[l@[j]] == st.nodes[l@[j]] by {
            assert(link_ok(st.nodes, l@, j, k, s, id));
        }
        lemma_linked_frame(st.nodes, st2.nodes, l, k, s, id, 0);
    }
    assert(linked(st2.nodes, st2.outer, 0, OWN, 0)) by {
        let l = st.outer;
        assert(linked(st.nodes, l, 0, OWN, id)) by {
            reveal(inv);
        }
        assert forall|j: int| 0 <= j < l@.len() implies (#[trigger] l@[j]) != 0
            && st2.nodes.contains_key(l@[j]) && st2.nodes[l@[j]] == st.nodes[l@[j]] by {
            assert(link_ok(st.nodes, l@, j, 0, OWN, id));
        }
        lemma_linked_frame(st.nodes, st2.nodes, l, 0, OWN, id, 0);
    }
    assert forall|e: usize| st2.nodes.contains_key(e) implies #[trigger] home_ok(st2, e) by {
        assert(home_ok(st, e)) by {
            reveal(inv);
        }
    }
    reveal(inv);
}

/// No cell below the root is short if the root is the cell named as short.
pub(crate) proof fn lemma_root_excess<T>(st: State<T>, skip: usize, ex: usize, ex2: usize)
    requires
        inv(st, skip, ex),
        ex == 0 || ex == ROOT,
        ex2 == 0 || ex2 == ROOT,
    ensures
        inv(st, skip, ex2),
{
    assert(!st.cells.contains_key(0)) by {
        reveal(inv);
    }
    assert forall|k: usize| st.cells.contains_key(k) implies #[trigger] cell_ok(st, k, ex2) by {
        assert(cell_ok(st, k, ex)) by {
            reveal(inv);
        }
        if k != ROOT {
            assert(parent_ok(st, k, ex));
            assert(parent_ok(st, k, ex2));
        }
    }
    reveal(inv);
}

/// Changing the box, the layer or the payload of an entry that stays well
/// placed where it is keeps the invariant.
pub(crate) proof fn lemma_edit_home<T>(st: State<T>, id: usize, n: AbNode<T>)
    requires
        inv(st, 0, 0),
        st.nodes.contains_key(id),
        n.parent == st.nodes[id].parent,
        n.parent_child == st.nodes[id].parent_child,
        n.prev == st.nodes[id].prev,
        n.next == st.nodes[id].next,
        placed_ok(State { nodes: st.nodes.insert(id, n), ..st }, id),
    ensures
        inv(State { nodes: st.nodes.insert(id, n), ..st }, 0, 0),
{
    let st2 = State { nodes: st.nodes.insert(id, n), ..st };
    assert(st.cells.contains_key(ROOT) && !st.cells.contains_key(0) && !st.nodes.contains_key(0)
        && st.cells[ROOT].loose == st.loose && st.deep <= crate::octree::DEEP_MAX) by {
        reveal(inv);
    }
    assert forall|k: usize| st2.cells.contains_key(k) implies #[trigger] cell_ok(st2, k, 0) by {
        assert(cell_ok(st, k, 0)) by {
            reveal(inv);
        }
        assert forall|s: int| 0 <= s < 8 implies #[trigger] child_ok(st2, k, s) by {
            assert(child_ok(st, k, s));
        }
        if k != ROOT {
            assert(parent_ok(st, k, 0));
            assert(parent_ok(st2, k, 0));
        }
    }
    assert forall|k: usize, s: usize| st2.cells.contains_key(k) && s <= 8 implies #[trigger] linked(
        st2.nodes,
        st2.cells[k].list_at(s),
        k,
        s,
        0,
    ) by {
        let l = st.cells[k].list_at(s);
        assert(linked(st.nodes, l, k, s, 0)) by {
            reveal(inv);
        }
        assert forall|j: int| 0 <= j < l@.len() implies #[trigger] link_ok(st2.nodes, l@, j, k, s, 0) by {
            assert(link_ok(st.nodes, l@, j, k, s, 0));
        }
    }
    assert(linked(st2.nodes, st2.outer, 0, OWN, 0)) by {
        let l = st.outer;
        assert(linked(st.nodes, l, 0, OWN, 0)) by {
            reveal(inv);
        }
        assert forall|j: int| 0 <= j < l@.len() implies #[trigger] link_ok(st2.nodes, l@, j, 0, OWN, 0) by {
            assert(link_ok(st.nodes, l@, j, 0, OWN, 0));
        }
    }
    assert forall|e: usize| st2.nodes.contains_key(e) implies #[trigger] home_ok(st2, e) by {
        assert(home_ok(st, e)) by {
            reveal(inv);
        }
    }
    reveal(inv);
}

/// Changing the box, the layer or the payload of the entry in transit keeps
/// the invariant.
pub(crate) proof fn lemma_edit_transit<T>(st: State<T>, id: usize, n: AbNode<T>, ex: usize)
    requires
        inv(st, id, ex),
        id != 0,
    ensures
        inv(State { nodes: st.nodes.insert(id, n), ..st }, id, ex),
{
    let st2 = State { nodes: st.nodes.insert(id, n), ..st };
    assert(st.cells.contains_key(ROOT) && !st.cells.contains_key(0) && !st.nodes.contains_key(0)
        && st.cells[ROOT].loose == st.loose && st.deep <= crate::octree::DEEP_MAX) by {
        reveal(inv);
    }
    assert forall|k: usize| st2.cells.contains_key(k) implies #[trigger] cell_ok(st2, k, ex) by {
        assert(cell_ok(st, k, ex)) by {
            reveal(inv);
        }
        assert forall|s: int| 0 <= s < 8 implies #[trigger] child_ok(st2, k, s) by {
            assert(child_ok(st, k, s));
        }
        if k != ROOT {
            assert(parent_ok(st, k, ex));
            assert(parent_ok(st2, k, ex));
        }
    }
    assert forall|k: usize, s: usize| st2.cells.contains_key(k) && s <= 8 implies #[trigger] linked(
        st2.nodes,
        st2.cells[k].list_at(s),
        k,
        s,
        id,
    ) by {
        let l = st.cells[k].list_at(s);
        assert(linked(st.nodes, l, k, s, id)) by {
            reveal(inv);
        }
        assert forall|j: int| 0 <= j < l@.len() implies (#[trigger] l@[j]) != id
            && st2.nodes.contains_key(l@[j]) && st2.nodes[l@[j]] == st.nodes[l@[j]] by {
            assert(link_ok(st.nodes, l@, j, k, s, id));
        }
        lemma_linked_frame(st.nodes, st2.nodes, l, k, s, id, id);
    }
    assert(linked(st2.nodes, st2.outer, 0, OWN, id)) by {
        let l = st.outer;
        assert(linked(st.nodes, l, 0, OWN, id)) by {
            reveal(inv);
        }
        assert forall|j: int| 0 <= j < l@.len() implies (#[trigger] l@[j]) != id
            && st2.nodes.contains_key(l@[j]) && st2.nodes[l@[j]] == st.nodes[l@[j]] by {
            assert(link_ok(st.nodes, l@, j, 0, OWN, id));
        }
        lemma_linked_frame(st.nodes, st2.nodes, l, 0, OWN, id, id);
    }
    assert forall|e: usize| st2.nodes.contains_key(e) && e != id implies #[trigger] home_ok(
        st2,
        e,
    ) by {
        assert(home_ok(st, e)) by {
            reveal(inv);
        }
    }
    reveal(inv);
}

/// Under the invariant every cell lies inside the root cell.
pub(crate) proof fn lemma_cell_in_root<T>(st: State<T>, skip: usize, ex: usize, c: usize)
    requires
        inv(st, skip, ex),
        st.cells.contains_key(c),
    ensures
        st.cells[ROOT].aabb.encloses(st.cells[c].aabb),
        shape_ok(st.cells[c].aabb, st.cells[c].loose),
    decreases st.cells[c].layer,
{
    lemma_cell_ok(st, skip, ex, c);
    if c != ROOT {
        let p = st.cells[c].parent;
        lemma_cell_in_root(st, skip, ex, p);
        crate::geometry::lemma_octant_inside(
            st.cells[p].aabb,
            st.cells[p].loose,
            st.cells[c].parent_child as int,
        );
    }
}

/// Under the invariant an entry is in the outer list exactly if its box is
/// outside the root.
pub(crate) proof fn lemma_outer_iff_outside<T>(st: State<T>, skip: usize, ex: usize, e: usize)
    requires
        inv(st, skip, ex),
        st.nodes.contains_key(e),
        e != skip,
    ensures
        (st.nodes[e].parent == 0) == crate::octree::outside(st.cells[ROOT].aabb, st.loose, st.nodes[e].aabb),
{
    lemma_home_ok(st, skip, ex, e);
    lemma_root(st, skip, ex);
    let n = st.nodes[e];
    if n.parent != 0 {
        lemma_cell_in_root(st, skip, ex, n.parent);
        if n.parent_child < 8 {
            crate::geometry::lemma_octant_inside(
                st.cells[n.parent].aabb,
                st.cells[n.parent].loose,
                n.parent_child as int,
            );
        }
    }
}

impl<T> Space<T> {
    /// Takes the entry `id` out of its list. The entry stays live; it is in
    /// transit until it is linked again.
    pub(crate) fn unlink(&mut self, id: usize)
        requires
            old(self).ok(0, 0),
            old(self).ab_slab.has(id),
        ensures
            final(self).ok(id, old(self).ab_slab@[id].parent),
            final(self).state() == unlinked(old(self).state(), id),
            same_frame(old(self).state(), final(self).state()),
            forall|a: (usize, usize), ex: Set<usize>|
                (ex.contains(old(self).ab_slab@[id].parent) || old(self).ab_slab@[id].parent == 0)
                    && crate::octree::tidy_ex(old(self).oct_slab@, a, old(self).deep, ex)
                    ==> #[trigger] crate::octree::tidy_ex(final(self).oct_slab@, a, final(self).deep, ex),
            forall|a: (usize, usize), t: usize|
                old(self).ab_slab@[id].parent != 0 && crate::octree::cell_tidy_but(
                    old(self).oct_slab@[old(self).ab_slab@[id].parent],
                    a,
                    old(self).deep,
                    t,
                ) ==> #[trigger] crate::octree::cell_tidy_but(
                    final(self).oct_slab@[old(self).ab_slab@[id].parent],
                    a,
                    final(self).deep,
                    t,
                ),
            forall|a: (usize, usize)|
                crate::octree::tidy(old(self).oct_slab@, a, old(self).deep, 0, 0)
                    ==> #[trigger] crate::octree::tidy(final(self).oct_slab@, a, final(self).deep, 0, 0),
            same_homes(old(self).state(), final(self).state(), id),
            same_dirty(old(self).state(), final(self).state()),
            list_of(
                final(self).state(),
                old(self).ab_slab@[id].parent,
                old(self).ab_slab@[id].parent_child,
            )@ == list_of(
                old(self).state(),
                old(self).ab_slab@[id].parent,
                old(self).ab_slab@[id].parent_child,
            )@.remove(position(old(self).state(), id)),
            old(self).ab_slab@[id].parent != 0 ==> forall|t: usize|
                t <= 8 && t != old(self).ab_slab@[id].parent_child ==> #[trigger] final(self).oct_slab@[old(self).ab_slab@[id].parent].list_at(t) == old(self).oct_slab@[old(self).ab_slab@[id].parent].list_at(t),
            old(self).ab_slab@[id].parent != 0 ==> forall|t: int|
                0 <= t < 8 && t != old(self).ab_slab@[id].parent_child ==> #[trigger] final(self).oct_slab@[old(self).ab_slab@[id].parent].childs[t] == old(self).oct_slab@[old(self).ab_slab@[id].parent].childs[t],
            ({
                let p = old(self).ab_slab@[id].parent;
                &&& p != 0 ==> final(self).outer == old(self).outer
                    && final(self).oct_slab@[p].population() == old(self).oct_slab@[p].population() - 1
                &&& p == 0 ==> final(self).outer@ == old(self).outer@.remove(
                    position(old(self).state(), id),
                )
                &&& forall|k: usize| k != p ==> final(self).oct_slab@[k] == old(self).oct_slab@[k]
            }),
    {
        let ghost st = self.state();
        let node = self.ab_slab.at(id);
        let p = node.parent;
        let c = node.parent_child;
        let prev = node.prev;
        let next = node.next;
        let ghost l = list_of(st, p, c);
        let ghost i = l@.index_of(id);
        proof {
            lemma_locate(st, id);
        }
        if p == 0 {
            self.outer.remove(&mut self.ab_slab, prev, next);
        } else {
            let cell = self.oct_slab.at_mut(p);
            if c < 8 {
                if let ChildNode::Ab(list) = cell.childs[c] {
                    let mut list = list;
                    list.remove(&mut self.ab_slab, prev, next);
                    cell.childs[c] = ChildNode::Ab(list);
                }
            } else {
                cell.nodes.remove(&mut self.ab_slab, prev, next);
            }
        }
        proof {
            let st2 = self.state();
            let l2 = list_of(st2, p, c);
            lemma_list_with(l2);
            if p != 0 {
                assert(st2.cells =~= st.cells.insert(p, set_list(st.cells[p], c, l2)));
            }
            assert(st2 == unlinked(st, id));
            lemma_unlink(st, id);
            if p != 0 {
                lemma_set_list(st.cells[p], c, l2);
            }
            assert forall|a: (usize, usize), t: usize|
                p != 0 && crate::octree::cell_tidy_but(st.cells[p], a, st.deep, t) implies #[trigger] crate::octree::cell_tidy_but(
                st2.cells[p],
                a,
                st2.deep,
                t,
            ) by {
                assert forall|i: int| 0 <= i < 8 && i != t implies #[trigger] crate::octree::slot_tidy(
                    st2.cells[p],
                    i,
                    a,
                    st.deep,
                ) by {
                    assert(crate::octree::slot_tidy(st.cells[p], i, a, st.deep));
                    if i != c {
                        assert(st2.cells[p].childs[i] == st.cells[p].childs[i]);
                    }
                }
            }
            assert forall|a: (usize, usize), ex: Set<usize>|
                (ex.contains(p) || p == 0) && crate::octree::tidy_ex(st.cells, a, st.deep, ex) implies #[trigger] crate::octree::tidy_ex(
                st2.cells,
                a,
                st2.deep,
                ex,
            ) by {
                lemma_tidy_ex_step(st.cells, st2.cells, a, st.deep, ex);
            }
            assert forall|a: (usize, usize)|
                crate::octree::tidy(st.cells, a, st.deep, 0, 0) implies #[trigger] crate::octree::tidy(
                st2.cells,
                a,
                st2.deep,
                0,
                0,
            ) by {
                lemma_root(st, 0, 0);
                if p != 0 {
                    assert forall|i: int| 0 <= i < 8 implies #[trigger] crate::octree::slot_tidy(
                        st2.cells[p],
                        i,
                        a,
                        st.deep,
                    ) by {
                        assert(crate::octree::slot_tidy(st.cells[p], i, a, st.deep));
                        if i != c {
                            assert(st2.cells[p].childs[i] == st.cells[p].childs[i]);
                        }
                    }
                }
                lemma_tidy_step(st.cells, st2.cells, p, a, st.deep, 0, 0, 0, 0);
            }
        }
    }

    /// The head of the list `(c, s)`; 0 for an empty list and for a slot that
    /// holds a child cell.
    pub(crate) fn head_of(&self, c: usize, s: usize) -> (head: usize)
        requires
            self.arenas_ok(),
            c != 0 ==> self.oct_slab.has(c),
            s <= 8,
        ensures
            head == list_of(self.state(), c, s).head,
    {
        if c == 0 {
            self.outer.head
        } else {
            let cell = self.oct_slab.at(c);
            if s < 8 {
                match cell.childs[s] {
                    ChildNode::Ab(list) => list.head,
                    ChildNode::Oct(_, _) => 0,
                }
            } else {
                cell.nodes.head
            }
        }
    }

    /// Puts the entry `id`, which is in transit, at the head of the list
    /// `(c, s)`.
    pub(crate) fn link(&mut self, id: usize, c: usize, s: usize)
        requires
            old(self).ok(id, c),
            id != 0,
            key_ok(old(self).state(), c, s),
            fits(old(self).state(), id, c, s),
        ensures
            final(self).ok(0, 0),
            final(self).state() == linked_in(old(self).state(), id, c, s),
            same_frame(old(self).state(), final(self).state()),
            same_homes(old(self).state(), final(self).state(), id),
            same_dirty(old(self).state(), final(self).state()),
            final(self).ab_slab@[id].parent == c,
            final(self).ab_slab@[id].parent_child == s,
            forall|a: (usize, usize)|
                crate::octree::tidy(old(self).oct_slab@, a, old(self).deep, 0, 0)
                    ==> #[trigger] crate::octree::tidy(final(self).oct_slab@, a, final(self).deep, c, s),
            forall|a: (usize, usize), ex: Set<usize>|
                (ex.contains(c) || c == 0) && crate::octree::tidy_ex(
                    old(self).oct_slab@,
                    a,
                    old(self).deep,
                    ex,
                ) ==> #[trigger] crate::octree::tidy_ex(final(self).oct_slab@, a, final(self).deep, ex),
            forall|a: (usize, usize)|
                c != 0 && crate::octree::cell_tidy_but(old(self).oct_slab@[c], a, old(self).deep, s)
                    ==> #[trigger] crate::octree::cell_tidy_but(
                    final(self).oct_slab@[c],
                    a,
                    final(self).deep,
                    s,
                ),
            c != 0 ==> final(self).outer == old(self).outer && final(self).oct_slab@[c].population()
                == old(self).oct_slab@[c].population() + 1,
            c == 0 ==> final(self).outer@ == seq![id] + old(self).outer@,
            forall|k: usize| k != c ==> final(self).oct_slab@[k] == old(self).oct_slab@[k],
            list_of(final(self).state(), c, s)@ == seq![id] + list_of(old(self).state(), c, s)@,
            entered(old(self).state(), final(self).state(), id),
            c != 0 ==> forall|t: usize|
                t <= 8 && t != s ==> #[trigger] final(self).oct_slab@[c].list_at(t) == old(self).oct_slab@[c].list_at(t),
            c != 0 ==> forall|t: int|
                0 <= t < 8 && t != s ==> #[trigger] final(self).oct_slab@[c].childs[t] == old(self).oct_slab@[c].childs[t],
    {
        let ghost st = self.state();
        let ghost l = list_of(st, c, s);
        proof {
            lemma_list_linked(st, id, c, c, s);
            self.ab_slab.lemma_distinct_handles_fit(l@);
            assert(st.nodes.contains_key(id)) by {
                reveal(inv);
            }
        }
        let head = self.head_of(c, s);
        let node = self.ab_slab.at_mut(id);
        node.parent = c;
        node.parent_child = s;
        node.prev = 0;
        node.next = head;
        if head != 0 {
            let first = self.ab_slab.at_mut(head);
            first.prev = id;
        }
        if c == 0 {
            self.outer.push(id);
        } else {
            let cell = self.oct_slab.at_mut(c);
            if s < 8 {
                if let ChildNode::Ab(list) = cell.childs[s] {
                    let mut list = list;
                    list.push(id);
                    cell.childs[s] = ChildNode::Ab(list);
                }
            } else {
                cell.nodes.push(id);
            }
        }
        proof {
            let st2 = self.state();
            let l2 = list_of(st2, c, s);
            lemma_list_with(l2);
            if c != 0 {
                assert(st2.cells =~= st.cells.insert(c, set_list(st.cells[c], s, l2)));
            }
            assert(st2.nodes =~= linked_in(st, id, c, s).nodes);
            assert(st2 == linked_in(st, id, c, s));
            lemma_link(st, id, c, s);
            if c != 0 {
                lemma_set_list(st.cells[c], s, l2);
            }
            assert forall|a: (usize, usize)|
                c != 0 && crate::octree::cell_tidy_but(st.cells[c], a, st.deep, s) implies #[trigger] crate::octree::cell_tidy_but(
                st2.cells[c],
                a,
                st2.deep,
                s,
            ) by {
                assert forall|i: int| 0 <= i < 8 && i != s implies #[trigger] crate::octree::slot_tidy(
                    st2.cells[c],
                    i,
                    a,
                    st.deep,
                ) by {
                    assert(crate::octree::slot_tidy(st.cells[c], i, a, st.deep));
                    assert(st2.cells[c].childs[i] == st.cells[c].childs[i]);
                }
            }
            assert forall|a: (usize, usize), ex: Set<usize>|
                (ex.contains(c) || c == 0) && crate::octree::tidy_ex(st.cells, a, st.deep, ex) implies #[trigger] crate::octree::tidy_ex(
                st2.cells,
                a,
                st2.deep,
                ex,
            ) by {
                lemma_tidy_ex_step(st.cells, st2.cells, a, st.deep, ex);
            }
            assert forall|a: (usize, usize)|
                crate::octree::tidy(st.cells, a, st.deep, 0, 0) implies #[trigger] crate::octree::tidy(
                st2.cells,
                a,
                st2.deep,
                c,
                s,
            ) by {
                lemma_root(st, id, c);
                if c != 0 {
                    assert forall|i: int|
                        0 <= i < 8 && i != s implies #[trigger] crate::octree::slot_tidy(
                        st2.cells[c],
                        i,
                        a,
                        st.deep,
                    ) by {
                        assert(crate::octree::slot_tidy(st.cells[c], i, a, st.deep));
                        assert(st2.cells[c].childs[i] == st.cells[c].childs[i]);
                    }
                }
                lemma_tidy_step(st.cells, st2.cells, c, a, st.deep, 0, 0, c, s);
            }
            assert forall|k: usize, t: usize| names_list(st, k, t) implies (#[trigger] list_of(
                st2,
                k,
                t,
            ))@ == (if k == c && t == s {
                seq![id] + list_of(st, k, t)@
            } else {
                list_of(st, k, t)@
            }) by {
                let now = list_of(st2, k, t)@;
                let was = list_of(st, k, t)@;
                lemma_root(st, id, c);
                if k == c && t == s {
                    if c != 0 {
                        assert(st2.cells[c].list_at(s) == l2);
                    }
                    assert(now == seq![id] + was);
                } else if k == 0 {
                    assert(c != 0);
                    assert(st2.outer == st.outer);
                    assert(now == was);
                } else if k == c {
                    assert(st2.cells[c].list_at(t) == st.cells[c].list_at(t));
                    assert(now == was);
                } else {
                    assert(st2.cells[k] == st.cells[k]);
                    assert(now == was);
                }
            }
        }
    }

    /// Counts the entry in transit into the child cell in slot `s` of the
    /// cell `p` and returns that child cell.
    pub(crate) fn count_up(&mut self, p: usize, s: usize, Ghost(skip): Ghost<usize>) -> (k: usize)
        requires
            old(self).ok(skip, p),
            old(self).oct_slab.has(p),
            s < 8,
            old(self).oct_slab@[p].childs[s as int] matches ChildNode::Oct(_, n) && n < usize::MAX,
        ensures
            final(self).ok(skip, k),
            final(self).oct_slab.has(k),
            old(self).oct_slab@[p].childs[s as int] matches ChildNode::Oct(k2, _) && k2 == k,
            same_frame(old(self).state(), final(self).state()),
            same_dirty(old(self).state(), final(self).state()),
            final(self).outer == old(self).outer,
            final(self).ab_slab@ == old(self).ab_slab@,
            final(self).oct_slab@[p].population() == old(self).oct_slab@[p].population() + 1,
            forall|c: usize| c != p ==> final(self).oct_slab@[c] == old(self).oct_slab@[c],
            final(self).oct_slab@[p].childs[s as int] == ChildNode::Oct(
                k,
                (old(self).oct_slab@[p].childs[s as int]->Oct_1 + 1) as usize,
            ),
            forall|t: int|
                0 <= t < 8 && t != s ==> #[trigger] final(self).oct_slab@[p].childs[t] == old(self).oct_slab@[p].childs[t],
            same_orders(old(self).state(), final(self).state()),
            forall|a: (usize, usize)|
                crate::octree::tidy(old(self).oct_slab@, a, old(self).deep, 0, 0)
                    ==> #[trigger] crate::octree::tidy(final(self).oct_slab@, a, final(self).deep, 0, 0),
    {
        let ghost st = self.state();
        let cell = self.oct_slab.at_mut(p);
        let mut child: usize = 0;
        if let ChildNode::Oct(k, n) = cell.childs[s] {
            cell.childs[s] = ChildNode::Oct(k, n + 1);
            child = k;
        }
        proof {
            let st2 = self.state();
            let n = st.cells[p].childs[s as int]->Oct_1;
            let nc = set_slot(st.cells[p], s, ChildNode::Oct(child, (n + 1) as usize));
            assert(st2.cells =~= st.cells.insert(p, nc));
            assert(st2 == with_cell(st, p, nc));
            lemma_count_up(st, skip, p, s);
            lemma_swap_frame(st, p, nc);
            lemma_set_slot(st.cells[p], s, ChildNode::Oct(child, (n + 1) as usize));
            assert forall|a: (usize, usize)|
                crate::octree::tidy(st.cells, a, st.deep, 0, 0) implies #[trigger] crate::octree::tidy(
                st2.cells,
                a,
                st2.deep,
                0,
                0,
            ) by {
                lemma_root(st, skip, p);
                assert forall|i: int| 0 <= i < 8 implies #[trigger] crate::octree::slot_tidy(
                    st2.cells[p],
                    i,
                    a,
                    st.deep,
                ) by {
                    assert(crate::octree::slot_tidy(st.cells[p], i, a, st.deep));
                    if i != s {
                        assert(st2.cells[p].childs[i] == st.cells[p].childs[i]);
                    }
                }
                lemma_tidy_step(st.cells, st2.cells, p, a, st.deep, 0, 0, 0, 0);
            }
        }
        child
    }

    /// Counts the entry in transit out of the cell `k` and returns the parent
    /// of `k`, the slot of `k` in it, and the new count of that slot.
    pub(crate) fn count_down(&mut self, k: usize, Ghost(skip): Ghost<usize>) -> (r: (
        usize,
        usize,
        usize,
    ))
        requires
            old(self).ok(skip, k),
            old(self).oct_slab.has(k),
            k != ROOT,
        ensures
            final(self).ok(skip, r.0),
            final(self).oct_slab.has(r.0),
            r.0 == old(self).oct_slab@[k].parent,
            r.1 == old(self).oct_slab@[k].parent_child,
            r.1 < 8,
            final(self).oct_slab@[r.0].childs[r.1 as int] == ChildNode::Oct(k, r.2),
            same_frame(old(self).state(), final(self).state()),
            same_dirty(old(self).state(), final(self).state()),
            final(self).outer == old(self).outer,
            final(self).ab_slab@ == old(self).ab_slab@,
            final(self).oct_slab@[r.0].population() == old(self).oct_slab@[r.0].population() - 1,
            forall|c: usize| c != r.0 ==> final(self).oct_slab@[c] == old(self).oct_slab@[c],
            old(self).oct_slab@[r.0].childs[r.1 as int] matches ChildNode::Oct(k2, n) && k2 == k && n > 0
                && r.2 == n - 1,
            forall|t: int|
                0 <= t < 8 && t != r.1 ==> #[trigger] final(self).oct_slab@[r.0].childs[t] == old(self).oct_slab@[r.0].childs[t],
            same_orders(old(self).state(), final(self).state()),
            forall|a: (usize, usize)|
                crate::octree::tidy(old(self).oct_slab@, a, old(self).deep, 0, 0)
                    ==> #[trigger] crate::octree::tidy(
                    final(self).oct_slab@,
                    a,
                    final(self).deep,
                    r.0,
                    r.1,
                ),
    {
        let ghost st = self.state();
        proof {
            lemma_count_down(st, skip, k);
        }
        let here = self.oct_slab.at(k);
        let p = here.parent;
        let s = here.parent_child;
        let cell = self.oct_slab.at_mut(p);
        let mut count: usize = 0;
        if let ChildNode::Oct(k2, n) = cell.childs[s] {
            cell.childs[s] = ChildNode::Oct(k2, n - 1);
            count = n - 1;
        }
        proof {
            let st2 = self.state();
            let nc = set_slot(st.cells[p], s, ChildNode::Oct(k, count));
            assert(st2.cells =~= st.cells.insert(p, nc));
            assert(st2 == with_cell(st, p, nc));
            lemma_swap_frame(st, p, nc);
            lemma_set_slot(st.cells[p], s, ChildNode::Oct(k, count));
            assert forall|a: (usize, usize)|
                crate::octree::tidy(st.cells, a, st.deep, 0, 0) implies #[trigger] crate::octree::tidy(
                st2.cells,
                a,
                st2.deep,
                p,
                s,
            ) by {
                lemma_root(st, skip, k);
                assert forall|i: int| 0 <= i < 8 && i != s implies #[trigger] crate::octree::slot_tidy(
                    st2.cells[p],
                    i,
                    a,
                    st.deep,
                ) by {
                    assert(crate::octree::slot_tidy(st.cells[p], i, a, st.deep));
                    assert(st2.cells[p].childs[i] == st.cells[p].childs[i]);
                }
                lemma_tidy_step(st.cells, st2.cells, p, a, st.deep, 0, 0, p, s);
            }
        }
        (p, s, count)
    }

    /// Marks slot `s` of the cell `c` as pending. Returns the layer and the
    /// handle of the cell if it had no pending slot before, `(0, 0)` else.
    pub(crate) fn flag(
        &mut self,
        c: usize,
        s: usize,
        Ghost(skip): Ghost<usize>,
        Ghost(ex): Ghost<usize>,
    ) -> (r: (usize, usize))
        requires
            old(self).ok(skip, ex),
            old(self).oct_slab.has(c),
            s < 8,
        ensures
            final(self).ok(skip, ex),
            final(self).state() == flagged(
                old(self).state(),
                c,
                crate::dirty::with_bit(old(self).oct_slab@[c].dirty, s),
            ),
            same_frame(old(self).state(), final(self).state()),
            final(self).ab_slab@ == old(self).ab_slab@,
            final(self).outer == old(self).outer,
            forall|k: usize| k != c ==> final(self).oct_slab@[k] == old(self).oct_slab@[k],
            final(self).oct_slab@[c].population() == old(self).oct_slab@[c].population(),
            final(self).oct_slab@[c].childs == old(self).oct_slab@[c].childs,
            final(self).oct_slab@[c].nodes == old(self).oct_slab@[c].nodes,
            same_orders(old(self).state(), final(self).state()),
            forall|a: (usize, usize)|
                crate::octree::tidy(old(self).oct_slab@, a, old(self).deep, c, s)
                    ==> #[trigger] crate::octree::tidy(final(self).oct_slab@, a, final(self).deep, 0, 0),
            forall|a: (usize, usize), ex: Set<usize>|
                ex.contains(c) && crate::octree::tidy_ex(old(self).oct_slab@, a, old(self).deep, ex)
                    ==> #[trigger] crate::octree::tidy_ex(final(self).oct_slab@, a, final(self).deep, ex),
            forall|a: (usize, usize)|
                crate::octree::cell_tidy_but(old(self).oct_slab@[c], a, old(self).deep, s)
                    ==> #[trigger] crate::octree::cell_tidy_but(
                    final(self).oct_slab@[c],
                    a,
                    final(self).deep,
                    OWN,
                ),
            final(self).oct_slab@[c].dirty != 0,
            r == if old(self).oct_slab@[c].dirty == 0 {
                (old(self).oct_slab@[c].layer, c)
            } else {
                (0usize, 0usize)
            },
            r.0 <= crate::octree::DEEP_MAX,
    {
        let ghost st = self.state();
        proof {
            lemma_cell_ok(st, skip, ex, c);
        }
        let cell = self.oct_slab.at_mut(c);
        let layer = cell.layer;
        let r = crate::dirty::set_dirty(&mut cell.dirty, s, layer, c);
        proof {
            let st2 = self.state();
            let d = crate::dirty::with_bit(st.cells[c].dirty, s);
            assert(st2.cells =~= st.cells.insert(c, OctNode { dirty: d, ..st.cells[c] }));
            assert(st2 == flagged(st, c, d));
            lemma_flag(st, c, d, skip, ex);
            assert forall|a: (usize, usize)|
                crate::octree::cell_tidy_but(st.cells[c], a, st.deep, s) implies #[trigger] crate::octree::cell_tidy_but(
                st2.cells[c],
                a,
                st2.deep,
                OWN,
            ) by {
                assert forall|i: int| 0 <= i < 8 implies #[trigger] crate::octree::slot_tidy(
                    st2.cells[c],
                    i,
                    a,
                    st.deep,
                ) by {
                    crate::dirty::lemma_with_bit(st.cells[c].dirty, s, i as usize);
                    if i != s {
                        assert(crate::octree::slot_tidy(st.cells[c], i, a, st.deep));
                    }
                }
            }
            assert forall|a: (usize, usize), ex: Set<usize>|
                ex.contains(c) && crate::octree::tidy_ex(st.cells, a, st.deep, ex) implies #[trigger] crate::octree::tidy_ex(
                st2.cells,
                a,
                st2.deep,
                ex,
            ) by {
                lemma_tidy_ex_step(st.cells, st2.cells, a, st.deep, ex);
            }
            assert forall|a: (usize, usize)|
                crate::octree::tidy(st.cells, a, st.deep, c, s) implies #[trigger] crate::octree::tidy(
                st2.cells,
                a,
                st2.deep,
                0,
                0,
            ) by {
                lemma_root(st, skip, ex);
                assert forall|i: int| 0 <= i < 8 implies #[trigger] crate::octree::slot_tidy(
                    st2.cells[c],
                    i,
                    a,
                    st.deep,
                ) by {
                    crate::dirty::lemma_with_bit(st.cells[c].dirty, s, i as usize);
                    if i != s {
                        assert(crate::octree::slot_tidy(st.cells[c], i, a, st.deep));
                    }
                }
                lemma_tidy_step(st.cells, st2.cells, c, a, st.deep, c, s, 0, 0);
            }
        }
        r
    }

    /// Gives the entry `id` a new box and layer. The entry is either in
    /// transit or stays well placed where it is.
    pub(crate) fn set_box(
        &mut self,
        id: usize,
        aabb: crate::geometry::Aabb3,
        layer: usize,
        Ghost(skip): Ghost<usize>,
        Ghost(ex): Ghost<usize>,
    )
        requires
            old(self).ok(skip, ex),
            old(self).ab_slab.has(id),
            skip == id || (skip == 0 && ex == 0 && placed_ok(
                State {
                    nodes: old(self).ab_slab@.insert(
                        id,
                        AbNode { aabb, layer, ..old(self).ab_slab@[id] },
                    ),
                    ..old(self).state()
                },
                id,
            )),
        ensures
            final(self).ok(skip, ex),
            final(self).ab_slab@ == old(self).ab_slab@.insert(
                id,
                AbNode { aabb, layer, ..old(self).ab_slab@[id] },
            ),
            final(self).oct_slab@ == old(self).oct_slab@,
            final(self).outer == old(self).outer,
            final(self).deep == old(self).deep,
            final(self).loose == old(self).loose,
            same_homes(old(self).state(), final(self).state(), 0),
            entries_of(final(self).ab_slab@) == entries_of(old(self).ab_slab@).insert(
                id,
                (aabb, old(self).ab_slab@[id].bind),
            ),
    {
        let ghost st = self.state();
        proof {
            lemma_root(st, skip, ex);
        }
        let node = self.ab_slab.at_mut(id);
        node.aabb = aabb;
        node.layer = layer;
        proof {
            let n = AbNode { aabb, layer, ..st.nodes[id] };
            let st2 = self.state();
            assert(st2.nodes =~= st.nodes.insert(id, n));
            assert(st2 == State { nodes: st.nodes.insert(id, n), ..st });
            if skip == id {
                lemma_edit_transit(st, id, n, ex);
            } else {
                lemma_edit_home(st, id, n);
            }
            assert(entries_of(st2.nodes) =~= entries_of(st.nodes).insert(
                id,
                (aabb, st.nodes[id].bind),
            ));
        }
    }
}

} // verus!
