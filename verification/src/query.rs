//! Traversals: the region query, the outer query and the collision list.
//!
//! A traversal returns the handles of the entries it visits, in the order of
//! the visit; the caller looks each of them up with `get`.

use vstd::prelude::*;
use crate::geometry::{Aabb3, Splits, intersects, octant_box, spec_intersects};
use crate::links::{lemma_cell_ok, lemma_child_cell, lemma_list_linked, lemma_root};
use crate::node::{ChildNode, NodeList, OWN};
use crate::octree::{Space, State, Tree, link_ok, linked, list_of, ROOT};

verus! {

/// Whether the region test `f` with argument `arg` accepts the box `b`: it
/// cannot answer `false` for it.
pub open spec fn accepts<A, F: Fn(&A, &Aabb3) -> bool>(f: F, arg: &A, b: Aabb3) -> bool {
    !call_ensures(f, (arg, &b), false)
}

/// The region test `f` can be called with `arg` on every box and gives one
/// answer for each box.
pub open spec fn region_test<A, F: Fn(&A, &Aabb3) -> bool>(f: F, arg: &A) -> bool {
    forall|b: Aabb3|
        #[trigger] call_requires(f, (arg, &b)) && !(call_ensures(f, (arg, &b), true)
            && call_ensures(f, (arg, &b), false))
}

/// The overlap test accepts every box that overlaps the query box.
pub proof fn lemma_intersects_test(q: &Aabb3, b: Aabb3)
    ensures
        region_test(intersects, q),
        spec_intersects(*q, b) ==> accepts(intersects, q, b),
{
}

/// The entries visited in slot `i` of the cell `c`: those beneath the child
/// cell if the slot holds one that is not empty, else those of the list of
/// the slot; none if the region test rejects the octant.
pub open spec fn visit_slot<T>(
    st: State<T>,
    pred: spec_fn(Aabb3) -> bool,
    c: usize,
    i: int,
    fuel: nat,
) -> Seq<usize>
    decreases fuel, 0nat,
{
    let cell = st.cells[c];
    if fuel == 0 || !pred(octant_box(cell.aabb, cell.loose, i)) {
        Seq::empty()
    } else {
        match cell.childs[i] {
            ChildNode::Oct(k, n) => if n > 0 {
                visit_cell(st, pred, k, (fuel - 1) as nat)
            } else {
                Seq::empty()
            },
            ChildNode::Ab(l) => if l.head != 0 {
                l@
            } else {
                Seq::empty()
            },
        }
    }
}

/// The entries visited in the slots `i` to 7 of the cell `c`, in that order.
pub open spec fn visit_slots<T>(
    st: State<T>,
    pred: spec_fn(Aabb3) -> bool,
    c: usize,
    i: int,
    fuel: nat,
) -> Seq<usize>
    decreases fuel, 9 - i,
{
    if i < 0 || i >= 8 {
        Seq::empty()
    } else {
        visit_slot(st, pred, c, i, fuel) + visit_slots(st, pred, c, i + 1, fuel)
    }
}

/// The entries visited in the cell `c` and beneath it: first those of its
/// own list, then those of its slots. `fuel` bounds the depth of the visit.
pub open spec fn visit_cell<T>(
    st: State<T>,
    pred: spec_fn(Aabb3) -> bool,
    c: usize,
    fuel: nat,
) -> Seq<usize>
    decreases fuel, 10nat,
{
    if fuel == 0 {
        Seq::empty()
    } else {
        st.cells[c].nodes@ + visit_slots(st, pred, c, 0, fuel)
    }
}

/// The depth left below the cell `c`, counting the cell itself.
pub open spec fn fuel_of<T>(st: State<T>, c: usize) -> nat {
    (st.deep + 1 - st.cells[c].layer) as nat
}

/// The argument of the box query: the query box and the payloads collected
/// so far.
pub struct AbQueryArgs<T> {
    pub aabb: Aabb3,
    pub result: Vec<T>,
}

impl<T: Clone> AbQueryArgs<T> {
    /// An argument for the query box `aabb` with nothing collected.
    pub fn new(aabb: Aabb3) -> (r: AbQueryArgs<T>)
        ensures
            r.aabb == aabb,
            r.result@ == Seq::<T>::empty(),
    {
        AbQueryArgs { aabb, result: Vec::new() }
    }

    /// Hands out what was collected and starts over with nothing.
    pub fn result(&mut self) -> (r: Vec<T>)
        ensures
            r@ == old(self).result@,
            final(self).result@ == Seq::<T>::empty(),
            final(self).aabb == old(self).aabb,
    {
        let mut out: Vec<T> = Vec::new();
        core::mem::swap(&mut self.result, &mut out);
        out
    }
}

/// The visitor of the box query: collects a copy of the payload `bind` if the
/// box `aabb` of the entry overlaps the query box.
pub fn ab_query_func<T: Clone>(arg: &mut AbQueryArgs<T>, _id: usize, aabb: &Aabb3, bind: &T)
    ensures
        final(arg).aabb == old(arg).aabb,
        !spec_intersects(old(arg).aabb, *aabb) ==> final(arg).result@ == old(arg).result@,
        spec_intersects(old(arg).aabb, *aabb) ==> final(arg).result@.len() == old(arg).result@.len()
            + 1 && final(arg).result@.drop_last() == old(arg).result@ && cloned(
            *bind,
            final(arg).result@.last(),
        ),
{
    if intersects(&arg.aabb, aabb) {
        let copy = bind.clone();
        arg.result.push(copy);
        assert(arg.result@.drop_last() =~= old(arg).result@);
    }
}

impl<T> Space<T> {
    /// Appends to `out` the handles of the list `l` from position `start`
    /// on, where `head` is the handle at that position, or 0 past the end.
    pub(crate) fn walk(
        &self,
        head: usize,
        out: &mut Vec<usize>,
        Ghost(l): Ghost<NodeList>,
        Ghost(c): Ghost<usize>,
        Ghost(s): Ghost<usize>,
        Ghost(start): Ghost<int>,
    )
        requires
            self.arenas_ok(),
            linked(self.ab_slab@, l, c, s, 0),
            0 <= start <= l@.len(),
            head == (if start < l@.len() {
                l@[start]
            } else {
                0
            }),
        ensures
            final(out)@ == old(out)@ + l@.skip(start),
    {
        let mut id = head;
        let ghost mut idx: int = start;
        proof {
            assert(l@.subrange(start, start) =~= Seq::<usize>::empty());
            assert(out@ + l@.subrange(start, start) =~= out@);
        }
        while id != 0
            invariant
                self.arenas_ok(),
                linked(self.ab_slab@, l, c, s, 0),
                0 <= start <= idx <= l@.len(),
                id == (if idx < l@.len() {
                    l@[idx]
                } else {
                    0
                }),
                out@ == old(out)@ + l@.subrange(start, idx),
            decreases l@.len() - idx,
        {
            proof {
                assert(link_ok(self.ab_slab@, l@, idx, c, s, 0));
                if idx + 1 < l@.len() {
                    assert(link_ok(self.ab_slab@, l@, idx + 1, c, s, 0));
                }
                assert(l@.subrange(start, idx + 1) =~= l@.subrange(start, idx).push(id));
            }
            out.push(id);
            id = self.ab_slab.at(id).next;
            proof {
                idx = idx + 1;
                assert(out@ =~= old(out)@ + l@.subrange(start, idx));
            }
        }
        proof {
            if idx < l@.len() {
                assert(link_ok(self.ab_slab@, l@, idx, c, s, 0));
            }
            assert(l@.subrange(start, idx) =~= l@.skip(start));
        }
    }

    /// Appends to `out` the handles of the list `l` before position `end`,
    /// last first, where `tail` is the handle before that position, or 0 at
    /// the head.
    pub(crate) fn walk_back(
        &self,
        tail: usize,
        out: &mut Vec<usize>,
        Ghost(l): Ghost<NodeList>,
        Ghost(c): Ghost<usize>,
        Ghost(s): Ghost<usize>,
        Ghost(end): Ghost<int>,
    )
        requires
            self.arenas_ok(),
            linked(self.ab_slab@, l, c, s, 0),
            0 <= end <= l@.len(),
            tail == (if end > 0 {
                l@[end - 1]
            } else {
                0
            }),
        ensures
            final(out)@ == old(out)@ + l@.take(end).reverse(),
    {
        let mut id = tail;
        let ghost mut idx: int = end;
        proof {
            assert(l@.subrange(end, end).reverse() =~= Seq::<usize>::empty());
            assert(out@ + l@.subrange(end, end).reverse() =~= out@);
        }
        while id != 0
            invariant
                self.arenas_ok(),
                linked(self.ab_slab@, l, c, s, 0),
                0 <= idx <= end <= l@.len(),
                id == (if idx > 0 {
                    l@[idx - 1]
                } else {
                    0
                }),
                out@ == old(out)@ + l@.subrange(idx, end).reverse(),
            decreases idx,
        {
            proof {
                assert(link_ok(self.ab_slab@, l@, idx - 1, c, s, 0));
                if idx - 1 > 0 {
                    assert(link_ok(self.ab_slab@, l@, idx - 2, c, s, 0));
                }
                assert(l@.subrange(idx - 1, end).reverse() =~= l@.subrange(idx, end).reverse().push(
                    id,
                ));
            }
            out.push(id);
            id = self.ab_slab.at(id).prev;
            proof {
                idx = idx - 1;
                assert(out@ =~= old(out)@ + l@.subrange(idx, end).reverse());
            }
        }
        proof {
            if idx > 0 {
                assert(link_ok(self.ab_slab@, l@, idx - 1, c, s, 0));
            }
            assert(l@.subrange(idx, end) =~= l@.take(end));
        }
    }

    /// Appends to `out` the handles of the entries in the cell `oct_id` and
    /// beneath it that the region test `oct_func` does not cut off: those of
    /// the own list of the cell, then, for each slot whose octant the test
    /// accepts, those of its list or those beneath its child cell. A child
    /// cell without entries is not entered.
    pub(crate) fn query<A, F: Fn(&A, &Aabb3) -> bool>(
        &self,
        oct_id: usize,
        oct_arg: &A,
        oct_func: &F,
        out: &mut Vec<usize>,
    )
        requires
            self.ok(0, 0),
            self.oct_slab.has(oct_id),
            region_test(*oct_func, oct_arg),
        ensures
            final(out)@ == old(out)@ + visit_cell(
                self.state(),
                |b: Aabb3| accepts(*oct_func, oct_arg, b),
                oct_id,
                fuel_of(self.state(), oct_id),
            ),
        decreases self.deep - self.oct_slab@[oct_id].layer,
    {
        let ghost st = self.state();
        let ghost pred = |b: Aabb3| accepts(*oct_func, oct_arg, b);
        let ghost fuel = fuel_of(st, oct_id);
        proof {
            lemma_root(st, 0, 0);
            lemma_cell_ok(st, 0, 0, oct_id);
            lemma_list_linked(st, 0, 0, oct_id, OWN);
        }
        let node = self.oct_slab.at(oct_id);
        self.walk(node.nodes.head, out, Ghost(node.nodes), Ghost(oct_id), Ghost(OWN), Ghost(0));
        proof {
            assert(node.nodes@.skip(0) =~= node.nodes@);
        }
        let splits = Splits::new(&node.aabb, &node.loose);
        let mut i: usize = 0;
        proof {
            assert(visit_slots(st, pred, oct_id, 8, fuel) =~= Seq::<usize>::empty());
        }
        let ghost base = out@;
        let ghost mut done: Seq<usize> = Seq::empty();
        proof {
            assert(base + done =~= base);
        }
        while i < 8
            invariant
                i <= 8,
                self.ok(0, 0),
                self.oct_slab.has(oct_id),
                oct_id != 0,
                st == self.state(),
                node == st.cells[oct_id],
                fuel == fuel_of(st, oct_id),
                fuel > 0,
                pred == (|b: Aabb3| accepts(*oct_func, oct_arg, b)),
                region_test(*oct_func, oct_arg),
                splits.of(node.aabb, node.loose),
                out@ == base + done,
                done + visit_slots(st, pred, oct_id, i as int, fuel) == visit_slots(
                    st,
                    pred,
                    oct_id,
                    0,
                    fuel,
                ),
            decreases 8 - i,
        {
            let ghost before = out@;
            let a = splits.octant(&node.aabb, i);
            proof {
                assert(a == octant_box(node.aabb, node.loose, i as int));
                lemma_list_linked(st, 0, 0, oct_id, i);
                assert(call_requires(*oct_func, (oct_arg, &a)));
            }
            match node.childs[i] {
                ChildNode::Oct(oct, num) => {
                    if num > 0 {
                        if oct_func(oct_arg, &a) {
                            proof {
                                lemma_child_cell(st, 0, 0, oct_id, i);
                            }
                            self.query(oct, oct_arg, oct_func, out);
                        }
                    }
                },
                ChildNode::Ab(list) => {
                    if list.head > 0 {
                        if oct_func(oct_arg, &a) {
                            self.walk(list.head, out, Ghost(list), Ghost(oct_id), Ghost(i), Ghost(0));
                            proof {
                                assert(list@.skip(0) =~= list@);
                            }
                        }
                    }
                },
            }
            proof {
                let part = visit_slot(st, pred, oct_id, i as int, fuel);
                assert(out@ == before + part);
                assert(visit_slots(st, pred, oct_id, i as int, fuel) == part + visit_slots(
                    st,
                    pred,
                    oct_id,
                    i as int + 1,
                    fuel,
                ));
                assert((done + part) + visit_slots(st, pred, oct_id, i as int + 1, fuel) =~= done + (
                part + visit_slots(st, pred, oct_id, i as int + 1, fuel)));
                assert(base + (done + part) =~= (base + done) + part);
                done = done + part;
            }
            i += 1;
        }
        proof {
            assert(visit_slots(st, pred, oct_id, 8, fuel) =~= Seq::<usize>::empty());
            assert(done =~= visit_slots(st, pred, oct_id, 0, fuel));
            assert(old(out)@ + (node.nodes@ + done) =~= (old(out)@ + node.nodes@) + done);
        }
    }
}

impl<T> Tree<T> {
    /// The handles that `query` returns for a region test that accepts the
    /// boxes of `pred`, in the order of the visit.
    pub open(crate) spec fn visit_order(&self, pred: spec_fn(Aabb3) -> bool) -> Seq<usize> {
        visit_cell(self.space.state(), pred, ROOT, fuel_of(self.space.state(), ROOT))
    }

    /// The entries of the tree that the region test `oct_func` does not cut
    /// off, as handles in the order of a depth-first visit from the root. The
    /// own list of a visited cell is always included; a slot is visited only
    /// if `oct_func` accepts the region of its octant. Entries of the outer
    /// list are never included.
    pub fn query<A, F: Fn(&A, &Aabb3) -> bool>(&self, oct_arg: &A, oct_func: F) -> (r: Vec<usize>)
        requires
            self.wf(),
            region_test(oct_func, oct_arg),
        ensures
            r@ == self.visit_order(|b: Aabb3| accepts(oct_func, oct_arg, b)),
    {
        let mut out: Vec<usize> = Vec::new();
        proof {
            lemma_root(self.space.state(), 0, 0);
        }
        self.space.query(ROOT, oct_arg, &oct_func, &mut out);
        proof {
            assert(Seq::<usize>::empty() + self.visit_order(
                |b: Aabb3| accepts(oct_func, oct_arg, b),
            ) =~= self.visit_order(|b: Aabb3| accepts(oct_func, oct_arg, b)));
        }
        out
    }

    /// The entries of the outer list, as handles from the head of the list.
    pub fn query_outer(&self) -> (r: Vec<usize>)
        requires
            self.wf(),
        ensures
            r@ == self.outer_list(),
    {
        let mut out: Vec<usize> = Vec::new();
        proof {
            lemma_list_linked(self.space.state(), 0, 0, 0, OWN);
        }
        self.space.walk(
            self.space.outer.head,
            &mut out,
            Ghost(self.space.outer),
            Ghost(0),
            Ghost(OWN),
            Ghost(0),
        );
        proof {
            assert(self.outer_list().skip(0) =~= self.outer_list());
            assert(Seq::<usize>::empty() + self.outer_list() =~= self.outer_list());
        }
        out
    }

    /// The list that holds the entry `id`, as handles from its head.
    pub open(crate) spec fn siblings(&self, id: usize) -> Seq<usize> {
        list_of(self.space.state(), self.home(id).0, self.home(id).1)@
    }

    /// The handles that `collision` returns for the entry `id`: the own list
    /// of the root, unless the entry is in that list itself; then the entries
    /// that follow `id` in its list; then those that precede it, nearest
    /// first. None for a handle without an entry.
    pub open spec fn collision_order(&self, id: usize) -> Seq<usize> {
        if self.entries().contains_key(id) {
            let l = self.siblings(id);
            let i = l.index_of(id);
            let others = l.skip(i + 1) + l.take(i).reverse();
            if self.home(id) == (ROOT, OWN) {
                others
            } else {
                self.cells()[ROOT].nodes@ + others
            }
        } else {
            Seq::empty()
        }
    }

    /// What `collision` returns holds entries of the tree only, never the
    /// entry `id` itself, and none twice.
    pub proof fn lemma_collision(&self, id: usize)
        requires
            self.wf(),
        ensures
            !self.collision_order(id).contains(id),
            self.collision_order(id).no_duplicates(),
            forall|j: int|
                0 <= j < self.collision_order(id).len() ==> self.entries().contains_key(
                    #[trigger] self.collision_order(id)[j],
                ),
    {
        if self.entries().contains_key(id) {
            let st = self.space.state();
            lemma_root(st, 0, 0);
            crate::links::lemma_locate(st, id);
            let h = self.home(id);
            let l = self.siblings(id);
            let i = l.index_of(id);
            let root = self.cells()[ROOT].nodes@;
            lemma_list_linked(st, 0, 0, ROOT, OWN);
            lemma_list_linked(st, 0, 0, h.0, h.1);
            let after = l.skip(i + 1);
            let before = l.take(i).reverse();
            let others = after + before;
            assert forall|e: usize| after.contains(e) implies l.contains(e) && e != id && !before.contains(
                e,
            ) by {
                let j = choose|j: int| 0 <= j < after.len() && after[j] == e;
                assert(l[i + 1 + j] == e);
                if before.contains(e) {
                    let k = choose|k: int| 0 <= k < before.len() && before[k] == e;
                    assert(l[i - 1 - k] == e);
                }
            }
            assert forall|e: usize| before.contains(e) implies l.contains(e) && e != id by {
                let k = choose|k: int| 0 <= k < before.len() && before[k] == e;
                assert(l[i - 1 - k] == e);
            }
            assert(after.no_duplicates()) by {
                assert forall|a: int, b: int| 0 <= a < after.len() && 0 <= b < after.len() && a != b implies after[a]
                    != after[b] by {
                    assert(l[i + 1 + a] != l[i + 1 + b]);
                }
            }
            assert(before.no_duplicates()) by {
                assert forall|a: int, b: int|
                    0 <= a < before.len() && 0 <= b < before.len() && a != b implies before[a]
                    != before[b] by {
                    assert(l[i - 1 - a] != l[i - 1 - b]);
                }
            }
            crate::census::lemma_distinct_concat(after, before);
            assert forall|e: usize| others.contains(e) implies l.contains(e) && e != id by {
                let j = choose|j: int| 0 <= j < others.len() && others[j] == e;
                if j < after.len() {
                    assert(after.contains(after[j]));
                } else {
                    assert(before.contains(before[j - after.len()]));
                }
            }
            assert forall|e: usize| l.contains(e) implies st.nodes.contains_key(e) && st.nodes[e].parent
                == h.0 && st.nodes[e].parent_child == h.1 by {
                let j = choose|j: int| 0 <= j < l.len() && l[j] == e;
                assert(link_ok(st.nodes, l, j, h.0, h.1, 0));
            }
            assert forall|e: usize| root.contains(e) implies st.nodes.contains_key(e) && st.nodes[e].parent
                == ROOT && st.nodes[e].parent_child == OWN by {
                let j = choose|j: int| 0 <= j < root.len() && root[j] == e;
                assert(link_ok(st.nodes, root, j, ROOT, OWN, 0));
            }
            let order = self.collision_order(id);
            if h != (ROOT, OWN) {
                crate::census::lemma_distinct_concat(root, others);
                assert(order == root + others);
                assert forall|e: usize| order.contains(e) implies st.nodes.contains_key(e) && e != id by {
                    let j = choose|j: int| 0 <= j < order.len() && order[j] == e;
                    if j < root.len() {
                        assert(root.contains(root[j]));
                    } else {
                        assert(others.contains(others[j - root.len()]));
                    }
                }
            } else {
                assert(order == others);
            }
            assert forall|j: int| 0 <= j < order.len() implies self.entries().contains_key(
                #[trigger] order[j],
            ) by {
                assert(order.contains(order[j]));
            }
        }
    }

    /// The entries to test against the entry `id` for overlap, as handles:
    /// first the own list of the root, from its head, unless the entry is in
    /// that list itself; then the entries that follow `id` in its list; then
    /// those that precede it, nearest first. The entry itself is not among
    /// them, and none is there twice. Nothing for a handle without an entry.
    /// Entries in other lists are for the caller to find with `query`.
    pub fn collision(&self, id: usize, _limit_layer: usize) -> (r: Vec<usize>)
        requires
            self.wf(),
        ensures
            r@ == self.collision_order(id),
    {
        let mut out: Vec<usize> = Vec::new();
        if !self.space.ab_slab.contains(id) {
            return out;
        }
        let ghost st = self.space.state();
        proof {
            lemma_root(st, 0, 0);
            lemma_list_linked(st, 0, 0, ROOT, OWN);
            crate::links::lemma_locate(st, id);
        }
        let a = self.space.ab_slab.at(id);
        let root = self.space.oct_slab.at(ROOT);
        let ghost l = list_of(st, a.parent, a.parent_child);
        let ghost i = l@.index_of(id);
        if !(a.parent == ROOT && a.parent_child >= 8) {
            self.space.walk(root.nodes.head, &mut out, Ghost(root.nodes), Ghost(ROOT), Ghost(OWN), Ghost(0));
        }
        proof {
            assert(root.nodes@.skip(0) =~= root.nodes@);
            assert(Seq::<usize>::empty() + root.nodes@ =~= root.nodes@);
            lemma_list_linked(st, 0, 0, a.parent, a.parent_child);
        }
        let ghost first = out@;
        self.space.walk(a.next, &mut out, Ghost(l), Ghost(a.parent), Ghost(a.parent_child), Ghost(i + 1));
        self.space.walk_back(a.prev, &mut out, Ghost(l), Ghost(a.parent), Ghost(a.parent_child), Ghost(i));
        proof {
            let others = l@.skip(i + 1) + l@.take(i).reverse();
            assert(out@ =~= first + others);
            assert(Seq::<usize>::empty() + others =~= others);
        }
        out
    }

    /// What `collision_until` returns of the handles `order` under the test
    /// `f`: the handles up to and with the first one at which the test says
    /// stop, all of them if it never does.
    pub open spec fn stopped<F: Fn(usize, &Aabb3, &T) -> bool>(
        &self,
        f: F,
        order: Seq<usize>,
        r: Seq<usize>,
    ) -> bool {
        &&& r.len() <= order.len()
        &&& r == order.take(r.len() as int)
        &&& forall|j: int| 0 <= j < r.len() - 1 ==> self.goes_on(f, #[trigger] r[j])
        &&& r.len() < order.len() ==> r.len() > 0 && !self.goes_on(f, r.last())
    }

    /// Whether the test `f` lets the enumeration go on after the entry `e`:
    /// it cannot answer `false` for it.
    pub open spec fn goes_on<F: Fn(usize, &Aabb3, &T) -> bool>(&self, f: F, e: usize) -> bool {
        !call_ensures(f, (e, &self.entries()[e].0, &self.entries()[e].1), false)
    }

    /// As `collision`, with a test that can end the enumeration: `f` is
    /// called with the handle, the box and the payload of each entry in turn,
    /// and after its first `false` nothing more is visited. Returns the
    /// handles visited, the one that ended the enumeration last.
    pub fn collision_until<F: Fn(usize, &Aabb3, &T) -> bool>(&self, id: usize, f: F) -> (r: Vec<usize>)
        requires
            self.wf(),
            pair_test::<T, F>(f),
        ensures
            self.stopped(f, self.collision_order(id), r@),
    {
        let order = self.collision(id, 0);
        let mut out: Vec<usize> = Vec::new();
        let mut k: usize = 0;
        proof {
            self.lemma_collision(id);
        }
        while k < order.len()
            invariant
                self.wf(),
                pair_test::<T, F>(f),
                order@ == self.collision_order(id),
                k <= order@.len(),
                out@ == order@.take(k as int),
                forall|j: int| 0 <= j < k ==> self.goes_on(f, #[trigger] order@[j]),
                forall|j: int| 0 <= j < order@.len() ==> self.entries().contains_key(#[trigger] order@[j]),
            decreases order@.len() - k,
        {
            let e = order[k];
            let (aabb, bind) = self.get_unchecked(e);
            out.push(e);
            proof {
                assert(out@ =~= order@.take(k + 1));
            }
            let go = f(e, aabb, bind);
            if !go {
                proof {
                    assert(out@.last() == e);
                    assert forall|j: int| 0 <= j < out@.len() - 1 implies self.goes_on(f, #[trigger] out@[j]) by {
                        assert(out@[j] == order@[j]);
                    }
                }
                return out;
            }
            proof {
                let ghost_b = self.entries()[e].0;
                let ghost_v = self.entries()[e].1;
                assert(call_requires(f, (e, &ghost_b, &ghost_v)));
                assert(call_ensures(f, (e, &ghost_b, &ghost_v), true));
                assert(self.goes_on(f, e));
            }
            k += 1;
        }
        proof {
            assert(order@.take(k as int) =~= order@);
            assert forall|j: int| 0 <= j < out@.len() - 1 implies self.goes_on(f, #[trigger] out@[j]) by {
                assert(out@[j] == order@[j]);
            }
        }
        out
    }
}

/// The test `f` can be called on every entry and gives one answer for each.
pub open spec fn pair_test<T, F: Fn(usize, &Aabb3, &T) -> bool>(f: F) -> bool {
    forall|e: usize, b: Aabb3, v: T|
        #[trigger] call_requires(f, (e, &b, &v)) && !(call_ensures(f, (e, &b, &v), true)
            && call_ensures(f, (e, &b, &v), false))
}

} // verus!
