//! A rectangle map: rectangles are packed into one large area, allocated and
//! freed at any time.
//!
//! The area is cut like a sheet: a free region that takes a rectangle is
//! split into the rectangle, the rest to its right and the rest below. Sizes
//! are rounded up to a multiple of the alignment before a region is cut. The
//! regions form a tree whose nodes live in a slab of the `slab` crate.

use vstd::prelude::*;
use slab::Slab;

verus! {

/// A size in the plane.
#[derive(Clone, Copy, Debug, PartialEq, Eq, Structural)]
pub struct Vector2 {
    pub x: usize,
    pub y: usize,
}

/// A position in the plane.
#[derive(Clone, Copy, Debug, PartialEq, Eq, Structural)]
pub struct Point2 {
    pub x: usize,
    pub y: usize,
}

/// What a region holds.
#[derive(Clone, Copy, Debug, PartialEq, Eq, Structural)]
pub enum ContentChild {
    /// Nothing: the region is free.
    Empty,
    /// A rectangle of the given size, at the position of the region.
    Content(Vector2),
    /// Sub-regions: the left one, the right one and the bottom one (0 where
    /// there is none), and the number of rectangles in them.
    Child(usize, usize, usize, usize),
}

/// A region of the map.
#[derive(Clone, Copy, Debug, PartialEq, Eq, Structural)]
pub struct Node {
    /// The size of the region.
    pub size: Vector2,
    /// The position of the region.
    pub pos: Point2,
    /// The region that this one is part of, 0 for the whole area.
    pub parent: usize,
    /// What the region holds.
    pub content: ContentChild,
}

impl Node {
    pub fn new(size: Vector2, pos: Point2, parent: usize, content: ContentChild) -> (r: Node)
        ensures
            r == (Node { size, pos, parent, content }),
    {
        Node { size, pos, parent, content }
    }
}

/// The slab of the `slab` crate, by which the nodes are stored.
#[verifier::external_type_specification]
#[verifier::external_body]
#[verifier::reject_recursive_types(T)]
pub struct ExSlab<T>(Slab<T>);

/// The nodes that a slab holds, by key.
pub uninterp spec fn slab_nodes(s: Slab<Node>) -> Map<usize, Node>;

/// The key that the next insertion into a slab returns.
pub uninterp spec fn slab_next(s: Slab<Node>) -> usize;

/// No nodes.
pub open spec fn no_nodes() -> Map<usize, Node> {
    Map::empty()
}

/// `Slab::new`: a slab that holds nothing and whose first key is 0. Not
/// verified: the contract states what the `slab` crate documents.
#[verifier::external_body]
fn slab_new() -> (made: Slab<Node>)
    ensures
        slab_nodes(made) == no_nodes(),
        slab_next(made) == 0,
{
    Slab::new()
}

/// `Slab::insert`: stores `val` under the next key, which held nothing, and
/// returns that key; every other key holds what it held. Not verified: the
/// contract states what the `slab` crate documents.
#[verifier::external_body]
fn slab_insert(s: &mut Slab<Node>, val: Node) -> (key: usize)
    ensures
        key == slab_next(*old(s)),
        !slab_nodes(*old(s)).contains_key(key),
        slab_nodes(*final(s)) == slab_nodes(*old(s)).insert(key, val),
{
    s.insert(val)
}

/// `Slab::remove`: takes out and returns the value under `key`, which must
/// hold one; every other key holds what it held. Not verified: the contract
/// states what the `slab` crate documents.
#[verifier::external_body]
fn slab_remove(s: &mut Slab<Node>, key: usize) -> (val: Node)
    requires
        slab_nodes(*old(s)).contains_key(key),
    ensures
        val == slab_nodes(*old(s))[key],
        slab_nodes(*final(s)) == slab_nodes(*old(s)).remove(key),
{
    s.remove(key)
}

/// `Slab::get`: the value under `key`, if the key holds one. Not verified:
/// the contract states what the `slab` crate documents.
#[verifier::external_body]
fn slab_get(s: &Slab<Node>, key: usize) -> (r: Option<&Node>)
    ensures
        r is Some == slab_nodes(*s).contains_key(key),
        r matches Some(n) ==> *n == slab_nodes(*s)[key],
{
    s.get(key)
}

/// Indexing a slab mutably: the value under `key`, which must hold one, for
/// reading and writing; every other key holds what it held. Not verified:
/// the contract states what the `slab` crate documents.
#[verifier::external_body]
fn slab_at_mut(s: &mut Slab<Node>, key: usize) -> (r: &mut Node)
    requires
        slab_nodes(*old(s)).contains_key(key),
    ensures
        *r == slab_nodes(*old(s))[key],
        slab_nodes(*final(s)) == slab_nodes(*old(s)).insert(key, *final(r)),
{
    &mut s[key]
}

/// The least multiple of `align` that is not below `v`.
pub open spec fn aligned(align: usize, v: usize) -> int {
    if v % align == 0 {
        v as int
    } else {
        v + align - v % align
    }
}

/// The number of rectangles that the node `id` accounts for: none for no
/// node and for a free region, one for a rectangle, and the cached number for
/// a region with sub-regions.
pub open spec fn cnt(nodes: Map<usize, Node>, id: usize) -> int {
    if id == 0 {
        0
    } else {
        match nodes[id].content {
            ContentChild::Empty => 0,
            ContentChild::Content(_) => 1,
            ContentChild::Child(_, _, _, c) => c as int,
        }
    }
}

/// The region `inner` lies in the region `outer`.
pub open spec fn within(inner: Node, outer: Node) -> bool {
    &&& inner.pos.x >= outer.pos.x
    &&& inner.pos.y >= outer.pos.y
    &&& inner.pos.x + inner.size.x <= outer.pos.x + outer.size.x
    &&& inner.pos.y + inner.size.y <= outer.pos.y + outer.size.y
}

/// What the invariant of a rectangle map speaks of.
pub struct Shape {
    pub nodes: Map<usize, Node>,
    pub depth: Map<usize, nat>,
    pub height: nat,
    pub align: usize,
    pub root: usize,
}

/// The node `k`, if it is one, is a sub-region of the node `p`: it is live,
/// names `p` as its parent, is one level deeper and lies in the region of `p`.
pub open spec fn kid_ok(sh: Shape, p: usize, k: usize) -> bool {
    k != 0 ==> sh.nodes.contains_key(k) && sh.nodes[k].parent == p && sh.depth[k] == sh.depth[p]
        + 1 && within(sh.nodes[k], sh.nodes[p])
}

/// The sub-regions `l`, `r` and `b` of one node lie apart: `r` to the right
/// of `l`, and `b` below both.
pub open spec fn apart(nodes: Map<usize, Node>, l: usize, r: usize, b: usize) -> bool {
    &&& r != 0 ==> nodes[r].pos.x >= nodes[l].pos.x + nodes[l].size.x
    &&& b != 0 ==> nodes[b].pos.y >= nodes[l].pos.y + nodes[l].size.y
    &&& b != 0 && r != 0 ==> nodes[b].pos.y >= nodes[r].pos.y + nodes[r].size.y
}

/// How far the count cached in a node is behind the counts of its
/// sub-regions `l`, `r` and `b`: by `delta` if the node `at`, whose own count
/// has just changed by `delta`, is one of them, and not at all otherwise.
pub open spec fn lag(at: usize, delta: int, l: usize, r: usize, b: usize) -> int {
    if at != 0 && (at == l || at == r || at == b) {
        delta
    } else {
        0
    }
}

/// The node `id` is well formed.
pub open spec fn node_ok(sh: Shape, id: usize, at: usize, delta: int) -> bool {
    let n = sh.nodes[id];
    &&& sh.depth[id] <= sh.height
    &&& n.size.x % sh.align == 0
    &&& n.size.y % sh.align == 0
    &&& n.pos.x + n.size.x <= usize::MAX
    &&& n.pos.y + n.size.y <= usize::MAX
    &&& if id == sh.root {
        n.parent == 0 && sh.depth[id] == 0 && n.pos == (Point2 { x: 0, y: 0 })
    } else {
        &&& n.parent != 0
        &&& sh.nodes.contains_key(n.parent)
        &&& sh.nodes[n.parent].content matches ContentChild::Child(l, r, b, _) && (id == l || id
            == r || id == b)
    }
    &&& match n.content {
        ContentChild::Child(l, r, b, c) => {
            &&& l != 0
            &&& kid_ok(sh, id, l)
            &&& kid_ok(sh, id, r)
            &&& kid_ok(sh, id, b)
            &&& l != r
            &&& l != b
            &&& (r != 0 ==> r != b)
            &&& apart(sh.nodes, l, r, b)
            &&& c >= 1
            &&& c as int == cnt(sh.nodes, l) + cnt(sh.nodes, r) + cnt(sh.nodes, b) - lag(
                at,
                delta,
                l,
                r,
                b,
            )
        },
        ContentChild::Content(size) => n.size.x == aligned(sh.align, size.x) && n.size.y
            == aligned(sh.align, size.y) && id != sh.root,
        ContentChild::Empty => true,
    }
}

/// The invariant of a rectangle map. `at` names the node whose own count
/// has changed by `delta` while its parent does not know yet; both are 0
/// between operations.
#[verifier::opaque]
pub open spec fn inv(sh: Shape, at: usize, delta: int) -> bool {
    &&& sh.align > 0
    &&& sh.root != 0
    &&& sh.nodes.contains_key(0)
    &&& sh.nodes.contains_key(sh.root)
    &&& at != 0 ==> sh.nodes.contains_key(at)
    &&& forall|id: usize| sh.nodes.contains_key(id) && id != 0 ==> #[trigger] node_ok(sh, id, at, delta)
}

/// Under the invariant every node is well formed.
pub(crate) proof fn lemma_node_ok(sh: Shape, at: usize, delta: int, id: usize)
    requires
        inv(sh, at, delta),
        sh.nodes.contains_key(id),
        id != 0,
    ensures
        node_ok(sh, id, at, delta),
        sh.align > 0,
        sh.root != 0,
        sh.nodes.contains_key(0),
        sh.nodes.contains_key(sh.root),
{
    reveal(inv);
}

/// Under the invariant the whole area is a live node.
pub(crate) proof fn lemma_root_ok(sh: Shape, at: usize, delta: int)
    requires
        inv(sh, at, delta),
    ensures
        node_ok(sh, sh.root, at, delta),
        sh.align > 0,
        sh.root != 0,
        sh.nodes.contains_key(0),
        sh.nodes.contains_key(sh.root),
        at != 0 ==> sh.nodes.contains_key(at),
{
    reveal(inv);
}

/// Once the change of a count has reached the whole area, no node is behind.
pub(crate) proof fn lemma_settled(sh: Shape, delta: int)
    requires
        inv(sh, sh.root, delta),
    ensures
        inv(sh, 0, 0),
{
    reveal(inv);
    assert forall|id: usize| sh.nodes.contains_key(id) && id != 0 implies #[trigger] node_ok(
        sh,
        id,
        0,
        0,
    ) by {
        assert(node_ok(sh, id, sh.root, delta));
        if let ContentChild::Child(l, r, b, c) = sh.nodes[id].content {
            if sh.root == l || sh.root == r || sh.root == b {
                assert(node_ok(sh, sh.root, sh.root, delta));
            }
        }
    }
}

/// Every region lies in the whole area.
pub(crate) proof fn lemma_in_area(sh: Shape, at: usize, delta: int, id: usize)
    requires
        inv(sh, at, delta),
        sh.nodes.contains_key(id),
        id != 0,
    ensures
        within(sh.nodes[id], sh.nodes[sh.root]),
    decreases sh.depth[id],
{
    lemma_node_ok(sh, at, delta, id);
    if id != sh.root {
        let p = sh.nodes[id].parent;
        lemma_node_ok(sh, at, delta, p);
        lemma_in_area(sh, at, delta, p);
    }
}

/// No node counts more rectangles than the whole area.
pub(crate) proof fn lemma_count_bound(sh: Shape, id: usize)
    requires
        inv(sh, 0, 0),
        sh.nodes.contains_key(id),
        id != 0,
    ensures
        0 <= cnt(sh.nodes, id) <= cnt(sh.nodes, sh.root),
        cnt(sh.nodes, sh.root) >= 0,
    decreases sh.depth[id],
{
    lemma_node_ok(sh, 0, 0, id);
    if id != sh.root {
        let p = sh.nodes[id].parent;
        lemma_node_ok(sh, 0, 0, p);
        lemma_count_bound(sh, p);
        if let ContentChild::Child(l, r, b, c) = sh.nodes[p].content {
            if r != 0 {
                lemma_node_ok(sh, 0, 0, r);
            }
            if b != 0 {
                lemma_node_ok(sh, 0, 0, b);
            }
            lemma_node_ok(sh, 0, 0, l);
        }
    }
}

/// A size rounded up to the alignment is a multiple of the alignment.
pub proof fn lemma_aligned_multiple(align: usize, v: usize)
    requires
        align > 0,
    ensures
        aligned(align, v) % (align as int) == 0,
        aligned(align, v) >= v,
{
    let a = align as int;
    let q = v as int / a;
    let r = v as int % a;
    vstd::arithmetic::div_mod::lemma_fundamental_div_mod(v as int, a);
    if r != 0 {
        assert(aligned(align, v) == a * (q + 1)) by (nonlinear_arith)
            requires
                aligned(align, v) == v + a - r,
                v == a * q + r,
        ;
        vstd::arithmetic::div_mod::lemma_mod_multiples_basic(q + 1, a);
        assert((a * (q + 1)) % a == 0) by {
            vstd::arithmetic::mul::lemma_mul_is_commutative(a, q + 1);
        }
    }
}

/// A size rounded up to the alignment does not exceed an aligned size that
/// it was not above before.
pub proof fn lemma_aligned_fits(align: usize, v: usize, area: usize)
    requires
        align > 0,
        v <= area,
        area % align == 0,
    ensures
        v <= aligned(align, v) <= area,
        aligned(align, v) % (align as int) == 0,
{
    let a = align as int;
    let q = v as int / a;
    let r = v as int % a;
    vstd::arithmetic::div_mod::lemma_fundamental_div_mod(v as int, a);
    let m = area as int / a;
    vstd::arithmetic::div_mod::lemma_fundamental_div_mod(area as int, a);
    if r != 0 {
        assert(aligned(align, v) == a * (q + 1)) by (nonlinear_arith)
            requires
                aligned(align, v) == v + a - r,
                v == a * q + r,
        ;
        vstd::arithmetic::div_mod::lemma_mod_multiples_basic(q + 1, a);
        assert((a * (q + 1)) % a == 0) by {
            vstd::arithmetic::mul::lemma_mul_is_commutative(a, q + 1);
        }
        assert(m >= q + 1) by (nonlinear_arith)
            requires
                area == a * m,
                v == a * q + r,
                0 < r < a,
                v <= area,
                a > 0,
        ;
        assert(a * (q + 1) <= a * m) by (nonlinear_arith)
            requires
                m >= q + 1,
                a > 0,
        ;
    }
}

/// The difference of two multiples of the alignment is one.
pub proof fn lemma_aligned_rest(align: usize, a: usize, b: usize)
    requires
        align > 0,
        a % align == 0,
        b % align == 0,
        b <= a,
    ensures
        (a - b) % (align as int) == 0,
{
    let m = align as int;
    vstd::arithmetic::div_mod::lemma_fundamental_div_mod(a as int, m);
    vstd::arithmetic::div_mod::lemma_fundamental_div_mod(b as int, m);
    let qa = a as int / m;
    let qb = b as int / m;
    assert(a - b == (qa - qb) * m) by (nonlinear_arith)
        requires
            a == m * qa,
            b == m * qb,
    ;
    vstd::arithmetic::div_mod::lemma_mod_multiples_basic(qa - qb, m);
}

/// The nodes after the free region `id` has taken a rectangle of the size
/// `size`, rounded up to `asize`: the region now has the sub-region `left`
/// for the rectangle and, where room is left, the free sub-regions `right`
/// of it and `bottom` below both.
pub open spec fn split_nodes(
    nodes: Map<usize, Node>,
    id: usize,
    size: Vector2,
    asize: Vector2,
    left: usize,
    right: usize,
    bottom: usize,
) -> Map<usize, Node> {
    let n = nodes[id];
    let m1 = if right != 0 {
        nodes.insert(
            right,
            Node {
                size: Vector2 { x: (n.size.x - asize.x) as usize, y: asize.y },
                pos: Point2 { x: (n.pos.x + asize.x) as usize, y: n.pos.y },
                parent: id,
                content: ContentChild::Empty,
            },
        )
    } else {
        nodes
    };
    let m2 = if bottom != 0 {
        m1.insert(
            bottom,
            Node {
                size: Vector2 { x: n.size.x, y: (n.size.y - asize.y) as usize },
                pos: Point2 { x: n.pos.x, y: (n.pos.y + asize.y) as usize },
                parent: id,
                content: ContentChild::Empty,
            },
        )
    } else {
        m1
    };
    m2.insert(
        left,
        Node { size: asize, pos: n.pos, parent: id, content: ContentChild::Content(size) },
    ).insert(id, Node { content: ContentChild::Child(left, right, bottom, 1), ..n })
}

/// The depths after a split: the new sub-regions are one level below `id`.
pub open spec fn split_depth(
    depth: Map<usize, nat>,
    id: usize,
    left: usize,
    right: usize,
    bottom: usize,
) -> Map<usize, nat> {
    depth.insert(right, depth[id] + 1).insert(bottom, depth[id] + 1).insert(left, depth[id] + 1)
}

/// Splitting a free region for a rectangle keeps the invariant, with the
/// region one rectangle ahead of its parent.
pub(crate) proof fn lemma_split(
    sh: Shape,
    id: usize,
    size: Vector2,
    asize: Vector2,
    left: usize,
    right: usize,
    bottom: usize,
)
    requires
        inv(sh, 0, 0),
        sh.nodes.contains_key(id),
        id != 0,
        sh.nodes[id].content is Empty,
        size.x <= asize.x <= sh.nodes[id].size.x,
        size.y <= asize.y <= sh.nodes[id].size.y,
        asize.x == aligned(sh.align, size.x),
        asize.y == aligned(sh.align, size.y),
        asize.x % sh.align == 0,
        asize.y % sh.align == 0,
        left != 0 && !sh.nodes.contains_key(left),
        right != 0 ==> !sh.nodes.contains_key(right) && right != left && sh.nodes[id].size.x
            > asize.x,
        bottom != 0 ==> !sh.nodes.contains_key(bottom) && bottom != left && bottom != right
            && sh.nodes[id].size.y > asize.y,
        right == 0 ==> sh.nodes[id].size.x == asize.x,
        bottom == 0 ==> sh.nodes[id].size.y == asize.y,
    ensures
        inv(
            Shape {
                nodes: split_nodes(sh.nodes, id, size, asize, left, right, bottom),
                depth: split_depth(sh.depth, id, left, right, bottom),
                height: if sh.height > sh.depth[id] {
                    sh.height
                } else {
                    sh.depth[id] + 1
                },
                ..sh
            },
            id,
            1,
        ),
{
    let sh2 = Shape {
        nodes: split_nodes(sh.nodes, id, size, asize, left, right, bottom),
        depth: split_depth(sh.depth, id, left, right, bottom),
        height: if sh.height > sh.depth[id] {
            sh.height
        } else {
            sh.depth[id] + 1
        },
        ..sh
    };
    let n = sh.nodes[id];
    lemma_node_ok(sh, 0, 0, id);
    lemma_aligned_rest(sh.align, n.size.x, asize.x);
    lemma_aligned_rest(sh.align, n.size.y, asize.y);
    assert forall|k: usize| sh2.nodes.contains_key(k) && k != 0 implies #[trigger] node_ok(
        sh2,
        k,
        id,
        1,
    ) by {
        if k == left || (k == right && right != 0) || (k == bottom && bottom != 0) {
        } else if k == id {
        } else {
            lemma_node_ok(sh, 0, 0, k);
            let kn = sh.nodes[k];
            assert(sh2.nodes[k] == kn);
            assert(sh2.depth[k] == sh.depth[k]);
            if let ContentChild::Child(l, r, b, c) = kn.content {
                lemma_node_ok(sh, 0, 0, l);
                if r != 0 {
                    lemma_node_ok(sh, 0, 0, r);
                }
                if b != 0 {
                    lemma_node_ok(sh, 0, 0, b);
                }
                assert(kid_ok(sh2, k, l));
                assert(kid_ok(sh2, k, r));
                assert(kid_ok(sh2, k, b));
            }
        }
    }
    reveal(inv);
}

/// The nodes after the free region `id` has become a rectangle of the size
/// `size`.
pub open spec fn filled_nodes(nodes: Map<usize, Node>, id: usize, size: Vector2) -> Map<
    usize,
    Node,
> {
    nodes.insert(id, Node { content: ContentChild::Content(size), ..nodes[id] })
}

/// Filling a free region with a rectangle keeps the invariant, with the
/// region one rectangle ahead of its parent.
pub(crate) proof fn lemma_fill(sh: Shape, id: usize, size: Vector2)
    requires
        inv(sh, 0, 0),
        sh.nodes.contains_key(id),
        id != 0,
        id != sh.root,
        sh.nodes[id].content is Empty,
        sh.nodes[id].size.x == aligned(sh.align, size.x),
        sh.nodes[id].size.y == aligned(sh.align, size.y),
    ensures
        inv(Shape { nodes: filled_nodes(sh.nodes, id, size), ..sh }, id, 1),
{
    let sh2 = Shape { nodes: filled_nodes(sh.nodes, id, size), ..sh };
    lemma_node_ok(sh, 0, 0, id);
    assert forall|k: usize| sh2.nodes.contains_key(k) && k != 0 implies #[trigger] node_ok(
        sh2,
        k,
        id,
        1,
    ) by {
        lemma_node_ok(sh, 0, 0, k);
        if k != id {
            let kn = sh.nodes[k];
            if let ContentChild::Child(l, r, b, c) = kn.content {
                lemma_node_ok(sh, 0, 0, l);
                if r != 0 {
                    lemma_node_ok(sh, 0, 0, r);
                }
                if b != 0 {
                    lemma_node_ok(sh, 0, 0, b);
                }
                assert(kid_ok(sh2, k, l));
                assert(kid_ok(sh2, k, r));
                assert(kid_ok(sh2, k, b));
            }
        }
    }
    reveal(inv);
}

/// The nodes after the count cached in the node `id` has changed by `delta`.
pub open spec fn counted_nodes(nodes: Map<usize, Node>, id: usize, delta: int) -> Map<usize, Node> {
    match nodes[id].content {
        ContentChild::Child(l, r, b, c) => nodes.insert(
            id,
            Node { content: ContentChild::Child(l, r, b, (c + delta) as usize), ..nodes[id] },
        ),
        _ => nodes,
    }
}

/// Passing a change of the count on to the parent of the node that was ahead
/// or behind keeps the invariant, with the parent ahead or behind now.
pub(crate) proof fn lemma_pass_on(sh: Shape, at: usize, delta: int)
    requires
        inv(sh, at, delta),
        at != 0,
        at != sh.root,
        delta == 1 || delta == -1,
        sh.nodes[sh.nodes[at].parent].content matches ContentChild::Child(_, _, _, c) && 0 < c
            + delta <= usize::MAX,
    ensures
        inv(
            Shape { nodes: counted_nodes(sh.nodes, sh.nodes[at].parent, delta), ..sh },
            sh.nodes[at].parent,
            delta,
        ),
{
    let p = sh.nodes[at].parent;
    let sh2 = Shape { nodes: counted_nodes(sh.nodes, p, delta), ..sh };
    lemma_root_ok(sh, at, delta);
    lemma_node_ok(sh, at, delta, at);
    lemma_node_ok(sh, at, delta, p);
    assert forall|k: usize| sh2.nodes.contains_key(k) && k != 0 implies #[trigger] node_ok(
        sh2,
        k,
        p,
        delta,
    ) by {
        lemma_node_ok(sh, at, delta, k);
        let kn = sh.nodes[k];
        if let ContentChild::Child(l, r, b, c) = kn.content {
            lemma_node_ok(sh, at, delta, l);
            if r != 0 {
                lemma_node_ok(sh, at, delta, r);
            }
            if b != 0 {
                lemma_node_ok(sh, at, delta, b);
            }
            assert(kid_ok(sh2, k, l));
            assert(kid_ok(sh2, k, r));
            assert(kid_ok(sh2, k, b));
            if k != p && (at == l || at == r || at == b) {
                assert(sh.nodes[at].parent == k);
            }
        }
    }
    reveal(inv);
}

/// The free region, found by looking at the node `id`, then at its left,
/// right and bottom sub-regions in that order, that takes a rectangle of the
/// size `size`: the first that is free and not smaller than the size. A
/// region smaller than the size is not looked into.
pub open spec fn first_fit(sh: Shape, size: Vector2, id: usize, fuel: nat) -> Option<usize>
    decreases fuel,
{
    let n = sh.nodes[id];
    if fuel == 0 || id == 0 || size.x > n.size.x || size.y > n.size.y {
        None
    } else {
        match n.content {
            ContentChild::Child(l, r, b, _) => {
                let f = (fuel - 1) as nat;
                if first_fit(sh, size, l, f) is Some {
                    first_fit(sh, size, l, f)
                } else if first_fit(sh, size, r, f) is Some {
                    first_fit(sh, size, r, f)
                } else {
                    first_fit(sh, size, b, f)
                }
            },
            ContentChild::Empty => Some(id),
            ContentChild::Content(_) => None,
        }
    }
}

/// The rectangle map.
pub struct RectMap {
    slab: Slab<Node>,
    /// Sizes are rounded up to a multiple of this.
    align: usize,
    /// The key of the node of the whole area.
    root: usize,
    /// How deep every node is below the whole area.
    depth: Ghost<Map<usize, nat>>,
    /// No node is deeper than this.
    height: Ghost<nat>,
}

impl RectMap {
    /// What the invariant speaks of.
    pub closed spec fn shape(&self) -> Shape {
        Shape {
            nodes: slab_nodes(self.slab),
            depth: self.depth@,
            height: self.height@,
            align: self.align,
            root: self.root,
        }
    }

    /// The invariant that every operation expects and keeps.
    pub closed spec fn wf(&self) -> bool {
        inv(self.shape(), 0, 0)
    }

    /// The rectangles of the map: size and position by handle.
    pub closed spec fn rects(&self) -> Map<usize, (Vector2, Point2)> {
        Map::new(
            |id: usize|
                id != 0 && self.shape().nodes.contains_key(id)
                    && self.shape().nodes[id].content is Content,
            |id: usize| (self.shape().nodes[id].content->Content_0, self.shape().nodes[id].pos),
        )
    }

    /// The size of the whole area.
    pub closed spec fn total(&self) -> Vector2 {
        self.shape().nodes[self.root].size
    }

    /// The alignment.
    pub closed spec fn alignment(&self) -> usize {
        self.align
    }

    /// The number of rectangles, as counted.
    pub closed spec fn counted(&self) -> int {
        cnt(self.shape().nodes, self.root)
    }

    /// The handle that `add` returns for a rectangle of the size `size`: the
    /// first free region that takes it if it is a sub-region that the
    /// rectangle fills; else a new sub-region of it. 0 if no region takes it.
    pub closed spec fn fit(&self, size: Vector2) -> Option<usize> {
        first_fit(self.shape(), size, self.root, (self.height@ + 1) as nat)
    }

    fn node(&self, id: usize) -> (n: Node)
        requires
            self.shape().nodes.contains_key(id),
        ensures
            n == self.shape().nodes[id],
    {
        match slab_get(&self.slab, id) {
            Some(n) => *n,
            None => Node::new(
                Vector2 { x: 0, y: 0 },
                Point2 { x: 0, y: 0 },
                0,
                ContentChild::Empty,
            ),
        }
    }

    /// A map over an area of the size `size`, rounded up to the alignment,
    /// without any rectangle.
    pub fn new(size: Vector2, align: usize) -> (r: RectMap)
        requires
            align > 0,
            aligned(align, size.x) <= usize::MAX,
            aligned(align, size.y) <= usize::MAX,
        ensures
            r.wf(),
            r.total().x == aligned(align, size.x),
            r.total().y == aligned(align, size.y),
            r.alignment() == align,
            r.rects() == Map::<usize, (Vector2, Point2)>::empty(),
            r.counted() == 0,
    {
        let ghost old_size = size;
        let mut size = size;
        align_size(align, &mut size);
        let mut s = slab_new();
        let none = Node::new(Vector2 { x: 0, y: 0 }, Point2 { x: 0, y: 0 }, 0, ContentChild::Empty);
        let zero = slab_insert(&mut s, none);
        let root = slab_insert(&mut s, Node::new(size, Point2 { x: 0, y: 0 }, 0, ContentChild::Empty));
        let r = RectMap {
            slab: s,
            align,
            root,
            depth: Ghost(Map::<usize, nat>::empty().insert(root, 0nat)),
            height: Ghost(0nat),
        };
        proof {
            reveal(inv);
            let sh = r.shape();
            lemma_aligned_multiple(align, old_size.x);
            lemma_aligned_multiple(align, old_size.y);
            assert forall|id: usize| sh.nodes.contains_key(id) && id != 0 implies #[trigger] node_ok(
                sh,
                id,
                0,
                0,
            ) by {
                assert(id == root);
            }
            assert(r.rects() =~= Map::<usize, (Vector2, Point2)>::empty());
        }
        r
    }

    /// The size of the whole area.
    pub fn get_size(&self) -> (r: Vector2)
        requires
            self.wf(),
        ensures
            r == self.total(),
    {
        proof {
            lemma_root_ok(self.shape(), 0, 0);
        }
        self.node(self.root).size
    }

    /// The alignment.
    pub fn get_align(&self) -> (r: usize)
        ensures
            r == self.alignment(),
    {
        self.align
    }

    /// The number of rectangles in the map.
    pub fn count(&self) -> (r: usize)
        requires
            self.wf(),
        ensures
            r == self.counted(),
    {
        proof {
            lemma_root_ok(self.shape(), 0, 0);
        }
        match self.node(self.root).content {
            ContentChild::Child(_, _, _, c) => c,
            _ => 0,
        }
    }

    /// The size and the position of the rectangle `id`, if there is one.
    pub fn get(&self, id: usize) -> (r: Option<(Vector2, Point2)>)
        requires
            self.wf(),
        ensures
            r is Some == self.rects().contains_key(id),
            r matches Some(p) ==> p == self.rects()[id],
    {
        proof {
            lemma_root_ok(self.shape(), 0, 0);
        }
        match slab_get(&self.slab, id) {
            Some(node) => match node.content {
                ContentChild::Content(size) => {
                    if id == 0 {
                        None
                    } else {
                        Some((size, node.pos))
                    }
                },
                _ => None,
            },
            _ => None,
        }
    }

    /// Finds the free region for a rectangle of the size `size` in the node
    /// `id` and its sub-regions: see `first_fit`. Returns the region with its
    /// size and its position.
    fn find_node(&self, size: &Vector2, id: usize) -> (r: Option<(usize, Vector2, Point2)>)
        requires
            self.wf(),
            self.shape().nodes.contains_key(id),
            id != 0,
        ensures
            r is Some == first_fit(
                self.shape(),
                *size,
                id,
                (self.height@ + 1 - self.depth@[id]) as nat,
            ) is Some,
            r matches Some(f) ==> {
                &&& Some(f.0) == first_fit(
                    self.shape(),
                    *size,
                    id,
                    (self.height@ + 1 - self.depth@[id]) as nat,
                )
                &&& f.0 != 0
                &&& self.shape().nodes.contains_key(f.0)
                &&& self.shape().nodes[f.0].content is Empty
                &&& f.1 == self.shape().nodes[f.0].size
                &&& f.2 == self.shape().nodes[f.0].pos
                &&& size.x <= f.1.x
                &&& size.y <= f.1.y
            },
        decreases self.height@ - self.depth@[id],
    {
        proof {
            lemma_node_ok(self.shape(), 0, 0, id);
        }
        let node = self.node(id);
        if size.x > node.size.x || size.y > node.size.y {
            return None;
        }
        match node.content {
            ContentChild::Child(left, right, bottom, _) => {
                proof {
                    lemma_node_ok(self.shape(), 0, 0, left);
                    let f = (self.height@ - self.depth@[id]) as nat;
                    if right != 0 {
                        lemma_node_ok(self.shape(), 0, 0, right);
                    } else {
                        assert(first_fit(self.shape(), *size, right, f) is None);
                    }
                    if bottom != 0 {
                        lemma_node_ok(self.shape(), 0, 0, bottom);
                    } else {
                        assert(first_fit(self.shape(), *size, bottom, f) is None);
                    }
                }
                let r = self.find_node(size, left);
                if r.is_some() {
                    return r;
                }
                if right > 0 {
                    let r = self.find_node(size, right);
                    if r.is_some() {
                        return r;
                    }
                }
                if bottom > 0 {
                    let r = self.find_node(size, bottom);
                    if r.is_some() {
                        return r;
                    }
                }
                None
            },
            ContentChild::Empty => Some((id, node.size, node.pos)),
            _ => None,
        }
    }
}

/// Two versions of the nodes with the same regions and rectangles; the
/// cached counts may differ.
pub open spec fn same_cut(a: Map<usize, Node>, b: Map<usize, Node>) -> bool {
    &&& forall|k: usize| a.contains_key(k) == #[trigger] b.contains_key(k)
    &&& forall|k: usize|
        a.contains_key(k) ==> (#[trigger] b[k]).size == a[k].size && b[k].pos == a[k].pos
            && b[k].parent == a[k].parent && (a[k].content is Content ==> b[k].content
            == a[k].content) && (b[k].content is Content ==> a[k].content is Content)
}

/// No node down to the level of `id` counts as many rectangles as a count
/// can hold.
pub open spec fn low_counts(sh: Shape, id: usize) -> bool {
    forall|a: usize|
        sh.nodes.contains_key(a) && a != 0 && sh.depth[a] <= sh.depth[id] ==> #[trigger] cnt(
            sh.nodes,
            a,
        ) < usize::MAX
}

impl RectMap {
    /// Counts one more rectangle in the node `id` and in every node above
    /// it. `at` is the node below `id` that has taken the rectangle.
    fn incr_count(&mut self, id: usize, Ghost(at): Ghost<usize>)
        requires
            inv(old(self).shape(), at, 1),
            at != 0,
            id == (if at == old(self).root {
                0
            } else {
                old(self).shape().nodes[at].parent
            }),
            id != 0 ==> low_counts(old(self).shape(), id),
        ensures
            final(self).wf(),
            same_cut(old(self).shape().nodes, final(self).shape().nodes),
            final(self).root == old(self).root,
            final(self).align == old(self).align,
            final(self).counted() == old(self).counted() + (if at != old(self).root {
                1int
            } else {
                0int
            }),
        decreases old(self).depth@[at],
    {
        let ghost sh = self.shape();
        proof {
            lemma_root_ok(sh, at, 1);
            lemma_node_ok(sh, at, 1, at);
        }
        if id == 0 {
            proof {
                lemma_settled(sh, 1);
            }
            return ;
        }
        proof {
            lemma_node_ok(sh, at, 1, at);
            lemma_node_ok(sh, at, 1, id);
            assert(cnt(sh.nodes, id) < usize::MAX);
        }
        let node = slab_at_mut(&mut self.slab, id);
        let p = node.parent;
        if let ContentChild::Child(l, r, b, c) = node.content {
            node.content = ContentChild::Child(l, r, b, c + 1);
        }
        proof {
            let sh2 = self.shape();
            assert(sh2.nodes =~= counted_nodes(sh.nodes, id, 1));
            lemma_pass_on(sh, at, 1);
            lemma_node_ok(sh2, id, 1, id);
            if id != self.root {
                assert forall|a: usize|
                    sh2.nodes.contains_key(a) && a != 0 && sh2.depth[a] <= sh2.depth[p] implies #[trigger] cnt(
                    sh2.nodes,
                    a,
                ) < usize::MAX by {
                    lemma_node_ok(sh, at, 1, p);
                    assert(sh.depth[a] <= sh.depth[id]);
                    assert(a != id);
                    assert(cnt(sh.nodes, a) < usize::MAX);
                }
            }
        }
        self.incr_count(p, Ghost(id));
    }

    /// The position that `add` gives a rectangle of the size `size`, if a
    /// free region takes it: the position of that region.
    pub closed spec fn fit_pos(&self, size: Vector2) -> Point2 {
        self.shape().nodes[self.fit(size)->0].pos
    }

    /// Whether the rectangle of the size `size` fills the free region that
    /// takes it, so that no new region is made for it: the region is not the
    /// whole area, and it is as large as the size rounded up.
    pub closed spec fn fills(&self, size: Vector2) -> bool {
        let f = self.fit(size)->0;
        f != self.root && self.shape().nodes[f].size.x == aligned(self.align, size.x)
            && self.shape().nodes[f].size.y == aligned(self.align, size.y)
    }

    /// Puts a rectangle of the size `size` into the first free region that
    /// takes it, at the position of the region, and returns its handle; 0 if
    /// no free region takes it. The region is cut into the rectangle, rounded
    /// up to the alignment, the rest to its right and the rest below.
    pub fn add(&mut self, size: Vector2) -> (id: usize)
        requires
            old(self).wf(),
        ensures
            final(self).wf(),
            final(self).total() == old(self).total(),
            final(self).alignment() == old(self).alignment(),
            id == 0 <==> old(self).fit(size) is None || old(self).counted() == usize::MAX,
            id == 0 ==> final(self).rects() == old(self).rects() && final(self).counted() == old(self).counted(),
            id != 0 ==> {
                &&& !old(self).rects().contains_key(id)
                &&& final(self).rects() == old(self).rects().insert(
                    id,
                    (size, old(self).fit_pos(size)),
                )
                &&& final(self).counted() == old(self).counted() + 1
                &&& old(self).fit_pos(size).x + aligned(old(self).alignment(), size.x) <= old(self).total().x
                &&& old(self).fit_pos(size).y + aligned(old(self).alignment(), size.y) <= old(self).total().y
                &&& old(self).fills(size) ==> Some(id) == old(self).fit(size)
            },
    {
        let ghost sh = self.shape();
        proof {
            lemma_root_ok(sh, 0, 0);
        }
        if self.count() == usize::MAX {
            return 0;
        }
        match self.find_node(&size, self.root) {
            Some((id, area, pos)) => {
                proof {
                    lemma_node_ok(sh, 0, 0, id);
                    lemma_in_area(sh, 0, 0, id);
                    lemma_aligned_fits(self.align, size.x, area.x);
                    lemma_aligned_fits(self.align, size.y, area.y);
                }
                let mut asize = size;
                align_size(self.align, &mut asize);
                let ghost d = self.depth@[id];
                let right = if area.x > asize.x {
                    slab_insert(
                        &mut self.slab,
                        Node::new(
                            Vector2 { x: area.x - asize.x, y: asize.y },
                            Point2 { x: pos.x + asize.x, y: pos.y },
                            id,
                            ContentChild::Empty,
                        ),
                    )
                } else {
                    0
                };
                let bottom = if area.y > asize.y {
                    slab_insert(
                        &mut self.slab,
                        Node::new(
                            Vector2 { x: area.x, y: area.y - asize.y },
                            Point2 { x: pos.x, y: pos.y + asize.y },
                            id,
                            ContentChild::Empty,
                        ),
                    )
                } else {
                    0
                };
                let (newid, content) = if id != self.root && right == 0 && bottom == 0 {
                    (id, ContentChild::Content(size))
                } else {
                    let left = slab_insert(
                        &mut self.slab,
                        Node::new(asize, pos, id, ContentChild::Content(size)),
                    );
                    (left, ContentChild::Child(left, right, bottom, 1))
                };
                let node = slab_at_mut(&mut self.slab, id);
                node.content = content;
                let p = node.parent;
                proof {
                    if newid == id {
                        assert(slab_nodes(self.slab) =~= filled_nodes(sh.nodes, id, size));
                        lemma_fill(sh, id, size);
                    } else {
                        assert(slab_nodes(self.slab) =~= split_nodes(
                            sh.nodes,
                            id,
                            size,
                            asize,
                            newid,
                            right,
                            bottom,
                        ));
                        lemma_split(sh, id, size, asize, newid, right, bottom);
                        self.depth@ = split_depth(sh.depth, id, newid, right, bottom);
                        self.height@ = if sh.height > d {
                            sh.height
                        } else {
                            d + 1
                        };
                    }
                    let sh2 = self.shape();
                    lemma_node_ok(sh2, id, 1, id);
                    if id != self.root {
                        assert forall|a: usize|
                            sh2.nodes.contains_key(a) && a != 0 && sh2.depth[a] <= sh2.depth[p] implies #[trigger] cnt(
                            sh2.nodes,
                            a,
                        ) < usize::MAX by {
                            lemma_node_ok(sh, 0, 0, p);
                            assert(sh.nodes.contains_key(a));
                            assert(a != id);
                            lemma_count_bound(sh, a);
                            assert(sh2.nodes[a] == sh.nodes[a]);
                        }
                    }
                }
                let ghost mid = self.shape();
                self.incr_count(p, Ghost(id));
                proof {
                    let fin = self.shape();
                    assert forall|k: usize| self.rects().contains_key(k) == old(self).rects().insert(
                        newid,
                        (size, pos),
                    ).contains_key(k) by {
                        assert(mid.nodes.contains_key(k) == fin.nodes.contains_key(k));
                        if fin.nodes.contains_key(k) {
                            assert(fin.nodes[k].pos == mid.nodes[k].pos);
                        }
                    }
                    assert forall|k: usize| self.rects().contains_key(k) implies self.rects()[k]
                        == old(self).rects().insert(newid, (size, pos))[k] by {
                        assert(fin.nodes[k].pos == mid.nodes[k].pos);
                    }
                    assert(self.rects() =~= old(self).rects().insert(newid, (size, pos)));
                    assert(fin.nodes[self.root].size == mid.nodes[self.root].size);
                }
                newid
            },
            _ => 0,
        }
    }
}

/// The nodes after the rectangle `id` has been taken out of its region.
pub open spec fn cleared_nodes(nodes: Map<usize, Node>, id: usize) -> Map<usize, Node> {
    nodes.insert(id, Node { content: ContentChild::Empty, ..nodes[id] })
}

/// Taking a rectangle out of its region keeps the invariant, with the region
/// one rectangle behind its parent.
pub(crate) proof fn lemma_clear(sh: Shape, id: usize)
    requires
        inv(sh, 0, 0),
        sh.nodes.contains_key(id),
        id != 0,
        sh.nodes[id].content is Content,
    ensures
        inv(Shape { nodes: cleared_nodes(sh.nodes, id), ..sh }, id, -1),
        id != sh.root,
{
    let sh2 = Shape { nodes: cleared_nodes(sh.nodes, id), ..sh };
    lemma_node_ok(sh, 0, 0, id);
    assert forall|k: usize| sh2.nodes.contains_key(k) && k != 0 implies #[trigger] node_ok(
        sh2,
        k,
        id,
        -1,
    ) by {
        lemma_node_ok(sh, 0, 0, k);
        if k != id {
            let kn = sh.nodes[k];
            if let ContentChild::Child(l, r, b, c) = kn.content {
                lemma_node_ok(sh, 0, 0, l);
                if r != 0 {
                    lemma_node_ok(sh, 0, 0, r);
                }
                if b != 0 {
                    lemma_node_ok(sh, 0, 0, b);
                }
                assert(kid_ok(sh2, k, l));
                assert(kid_ok(sh2, k, r));
                assert(kid_ok(sh2, k, b));
            }
        }
    }
    reveal(inv);
}

/// The nodes without the node `k`, if it is one.
pub open spec fn without(nodes: Map<usize, Node>, k: usize) -> Map<usize, Node> {
    if k != 0 {
        nodes.remove(k)
    } else {
        nodes
    }
}

/// The nodes after the sub-regions of the node `id`, all free, have been
/// merged into a free region again.
pub open spec fn merged_nodes(nodes: Map<usize, Node>, id: usize) -> Map<usize, Node> {
    match nodes[id].content {
        ContentChild::Child(l, r, b, _) => without(without(without(nodes, l), r), b).insert(
            id,
            Node { content: ContentChild::Empty, ..nodes[id] },
        ),
        _ => nodes,
    }
}

/// Merging the sub-regions of a node whose last rectangle has gone keeps the
/// invariant, with the node one rectangle behind its parent.
pub(crate) proof fn lemma_merge(sh: Shape, at: usize)
    requires
        inv(sh, at, -1),
        at != 0,
        at != sh.root,
        sh.nodes[sh.nodes[at].parent].content matches ContentChild::Child(_, _, _, c) && c == 1,
    ensures
        inv(
            Shape { nodes: merged_nodes(sh.nodes, sh.nodes[at].parent), ..sh },
            sh.nodes[at].parent,
            -1,
        ),
        ({
            let p = sh.nodes[at].parent;
            let l = sh.nodes[p].content->Child_0;
            let r = sh.nodes[p].content->Child_1;
            let b = sh.nodes[p].content->Child_2;
            &&& sh.nodes.contains_key(p)
            &&& p != 0
            &&& l != 0 && sh.nodes.contains_key(l) && sh.nodes[l].content is Empty
            &&& r != 0 ==> sh.nodes.contains_key(r) && sh.nodes[r].content is Empty && r != l
            &&& b != 0 ==> sh.nodes.contains_key(b) && sh.nodes[b].content is Empty && b != l && b
                != r
            &&& l != p && r != p && b != p
            &&& forall|k: usize|
                k != 0 && sh.nodes.contains_key(k) && sh.nodes[k].content is Content ==> k != l
                    && k != r && k != b && k != p
        }),
{
    let p = sh.nodes[at].parent;
    let sh2 = Shape { nodes: merged_nodes(sh.nodes, p), ..sh };
    lemma_root_ok(sh, at, -1);
    lemma_node_ok(sh, at, -1, at);
    lemma_node_ok(sh, at, -1, p);
    let l = sh.nodes[p].content->Child_0;
    let r = sh.nodes[p].content->Child_1;
    let b = sh.nodes[p].content->Child_2;
    lemma_node_ok(sh, at, -1, l);
    if r != 0 {
        lemma_node_ok(sh, at, -1, r);
    }
    if b != 0 {
        lemma_node_ok(sh, at, -1, b);
    }
    assert(cnt(sh.nodes, l) == 0 && cnt(sh.nodes, r) == 0 && cnt(sh.nodes, b) == 0);
    assert forall|k: usize| sh2.nodes.contains_key(k) && k != 0 implies #[trigger] node_ok(
        sh2,
        k,
        p,
        -1,
    ) by {
        lemma_node_ok(sh, at, -1, k);
        let kn = sh.nodes[k];
        if k != p {
            if k != sh.root {
                assert(sh.nodes[kn.parent].content is Child);
                assert(sh2.nodes.contains_key(kn.parent));
            }
            if let ContentChild::Child(kl, kr, kb, c) = kn.content {
                lemma_node_ok(sh, at, -1, kl);
                if kr != 0 {
                    lemma_node_ok(sh, at, -1, kr);
                }
                if kb != 0 {
                    lemma_node_ok(sh, at, -1, kb);
                }
                assert(kid_ok(sh2, k, kl));
                assert(kid_ok(sh2, k, kr));
                assert(kid_ok(sh2, k, kb));
                if at == kl || at == kr || at == kb {
                    assert(sh.nodes[at].parent == k);
                }
            }
        }
    }
    reveal(inv);
}

/// Two versions of the nodes with the same rectangles at the same places.
pub open spec fn same_rects(a: Map<usize, Node>, b: Map<usize, Node>) -> bool {
    &&& forall|k: usize|
        k != 0 && a.contains_key(k) && a[k].content is Content ==> (#[trigger] b.contains_key(k))
            && b[k].content == a[k].content && b[k].pos == a[k].pos
    &&& forall|k: usize|
        k != 0 && (#[trigger] b.contains_key(k)) && b[k].content is Content ==> a.contains_key(k)
            && a[k].content is Content
}

impl RectMap {
    /// Counts one rectangle less in the node `id` and in every node above
    /// it, and merges the sub-regions of every node that has lost its last
    /// rectangle into a free region. `at` is the node below `id` that has
    /// lost the rectangle.
    fn attempt_defrag(&mut self, id: usize, Ghost(at): Ghost<usize>)
        requires
            inv(old(self).shape(), at, -1),
            at != 0,
            id == (if at == old(self).root {
                0
            } else {
                old(self).shape().nodes[at].parent
            }),
        ensures
            final(self).wf(),
            same_rects(old(self).shape().nodes, final(self).shape().nodes),
            final(self).root == old(self).root,
            final(self).align == old(self).align,
            final(self).total() == old(self).total(),
            final(self).counted() == old(self).counted() - (if at != old(self).root {
                1int
            } else {
                0int
            }),
        decreases old(self).depth@[at],
    {
        let ghost sh = self.shape();
        proof {
            lemma_root_ok(sh, at, -1);
            lemma_node_ok(sh, at, -1, at);
        }
        if id == 0 {
            proof {
                lemma_settled(sh, -1);
            }
            return ;
        }
        proof {
            lemma_node_ok(sh, at, -1, id);
        }
        let node = slab_at_mut(&mut self.slab, id);
        let p = node.parent;
        let mut gone: (usize, usize, usize) = (0, 0, 0);
        if let ContentChild::Child(l, r, b, c) = node.content {
            if c > 1 {
                node.content = ContentChild::Child(l, r, b, c - 1);
            } else {
                node.content = ContentChild::Empty;
                gone = (l, r, b);
            }
        }
        let ghost mid = slab_nodes(self.slab);
        if gone.0 > 0 {
            proof {
                lemma_merge(sh, at);
            }
            let _ = slab_remove(&mut self.slab, gone.0);
            if gone.1 > 0 {
                let _ = slab_remove(&mut self.slab, gone.1);
            }
            if gone.2 > 0 {
                let _ = slab_remove(&mut self.slab, gone.2);
            }
            proof {
                assert(slab_nodes(self.slab) =~= merged_nodes(sh.nodes, id));
            }
        } else {
            proof {
                assert(mid =~= counted_nodes(sh.nodes, id, -1));
                lemma_pass_on(sh, at, -1);
            }
        }
        let ghost sh2 = self.shape();
        proof {
            lemma_node_ok(sh2, id, -1, id);
        }
        self.attempt_defrag(p, Ghost(id));
        proof {
            let fin = self.shape();
            assert forall|k: usize| k != 0 && sh.nodes.contains_key(k) && sh.nodes[k].content is Content implies (#[trigger] fin.nodes.contains_key(
                k,
            )) && fin.nodes[k].content == sh.nodes[k].content && fin.nodes[k].pos == sh.nodes[k].pos by {
                assert(sh2.nodes.contains_key(k));
                assert(sh2.nodes[k].content == sh.nodes[k].content);
                assert(sh2.nodes[k].pos == sh.nodes[k].pos);
            }
            assert forall|k: usize|
                k != 0 && (#[trigger] fin.nodes.contains_key(k)) && fin.nodes[k].content is Content implies sh.nodes.contains_key(
                k,
            ) && sh.nodes[k].content is Content by {
                assert(sh2.nodes.contains_key(k));
                assert(sh2.nodes[k].content is Content);
            }
        }
    }

    /// Takes the rectangle `id`, which must exist, out of the map and
    /// returns its size and its position. A region whose last rectangle has
    /// gone becomes free as a whole again.
    pub fn remove(&mut self, id: usize) -> (r: (Vector2, Point2))
        requires
            old(self).wf(),
            old(self).rects().contains_key(id),
        ensures
            final(self).wf(),
            r == old(self).rects()[id],
            final(self).rects() == old(self).rects().remove(id),
            final(self).counted() == old(self).counted() - 1,
            final(self).total() == old(self).total(),
            final(self).alignment() == old(self).alignment(),
    {
        let ghost sh = self.shape();
        proof {
            lemma_root_ok(sh, 0, 0);
            lemma_node_ok(sh, 0, 0, id);
            lemma_clear(sh, id);
        }
        let node = slab_at_mut(&mut self.slab, id);
        let size = match node.content {
            ContentChild::Content(size) => size,
            _ => Vector2 { x: 0, y: 0 },
        };
        node.content = ContentChild::Empty;
        let pos = node.pos;
        let p = node.parent;
        proof {
            assert(slab_nodes(self.slab) =~= cleared_nodes(sh.nodes, id));
        }
        let ghost mid = self.shape();
        self.attempt_defrag(p, Ghost(id));
        proof {
            let fin = self.shape();
            assert forall|k: usize| self.rects().contains_key(k) == old(self).rects().remove(
                id,
            ).contains_key(k) by {
                if k != 0 && mid.nodes.contains_key(k) && mid.nodes[k].content is Content {
                    assert(fin.nodes.contains_key(k));
                }
                if fin.nodes.contains_key(k) && fin.nodes[k].content is Content {
                    assert(mid.nodes.contains_key(k));
                }
            }
            assert forall|k: usize| self.rects().contains_key(k) implies self.rects()[k] == old(self).rects().remove(id)[k] by {
                assert(mid.nodes.contains_key(k) && mid.nodes[k].content is Content);
                assert(fin.nodes.contains_key(k));
            }
            assert(self.rects() =~= old(self).rects().remove(id));
        }
        (size, pos)
    }
}

/// The node `k`, if it is one, with the parent `p`.
pub open spec fn adopted(nodes: Map<usize, Node>, k: usize, p: usize) -> Map<usize, Node> {
    if k != 0 {
        nodes.insert(k, Node { parent: p, ..nodes[k] })
    } else {
        nodes
    }
}

/// The nodes after the whole area, which has sub-regions, has grown to the
/// size `size`: the old area is the new sub-region `left` with the old
/// sub-regions as its own, and what was added is free, as the new sub-regions
/// `right` of the old area and `bottom` below both.
pub open spec fn grown_nodes(
    nodes: Map<usize, Node>,
    root: usize,
    size: Vector2,
    left: usize,
    right: usize,
    bottom: usize,
) -> Map<usize, Node> {
    let n = nodes[root];
    let l = n.content->Child_0;
    let r = n.content->Child_1;
    let b = n.content->Child_2;
    let c = n.content->Child_3;
    let m1 = if right != 0 {
        nodes.insert(
            right,
            Node {
                size: Vector2 { x: (size.x - n.size.x) as usize, y: n.size.y },
                pos: Point2 { x: n.size.x, y: 0 },
                parent: root,
                content: ContentChild::Empty,
            },
        )
    } else {
        nodes
    };
    let m2 = if bottom != 0 {
        m1.insert(
            bottom,
            Node {
                size: Vector2 { x: size.x, y: (size.y - n.size.y) as usize },
                pos: Point2 { x: 0, y: n.size.y },
                parent: root,
                content: ContentChild::Empty,
            },
        )
    } else {
        m1
    };
    let m3 = m2.insert(
        left,
        Node {
            size: n.size,
            pos: Point2 { x: 0, y: 0 },
            parent: root,
            content: ContentChild::Child(l, r, b, c),
        },
    );
    adopted(adopted(adopted(m3, l, left), r, left), b, left).insert(
        root,
        Node { size, content: ContentChild::Child(left, right, bottom, c), ..n },
    )
}

/// The depths after the whole area has grown: its new sub-regions are at
/// level 1, and every older node is one level deeper than it was.
pub open spec fn grown_depth(
    nodes: Map<usize, Node>,
    depth: Map<usize, nat>,
    root: usize,
    left: usize,
    right: usize,
    bottom: usize,
) -> Map<usize, nat> {
    Map::new(
        |k: usize| nodes.contains_key(k) || k == left || k == right || k == bottom,
        |k: usize|
            if k == root {
                0nat
            } else if k == left || k == right || k == bottom {
                1nat
            } else {
                depth[k] + 1
            },
    )
}

/// What the nodes are after the whole area has grown, node by node.
pub(crate) proof fn lemma_grown_nodes(
    nodes: Map<usize, Node>,
    root: usize,
    size: Vector2,
    left: usize,
    right: usize,
    bottom: usize,
)
    requires
        nodes.contains_key(root),
        nodes.contains_key(0),
        root != 0,
        nodes[root].content is Child,
        left != 0 && !nodes.contains_key(left),
        right != 0 ==> !nodes.contains_key(right) && right != left,
        bottom != 0 ==> !nodes.contains_key(bottom) && bottom != left && bottom != right,
        ({
            let l = nodes[root].content->Child_0;
            let r = nodes[root].content->Child_1;
            let b = nodes[root].content->Child_2;
            &&& nodes.contains_key(l) && l != root && l != 0
            &&& r != 0 ==> nodes.contains_key(r) && r != root
            &&& b != 0 ==> nodes.contains_key(b) && b != root
        }),
    ensures
        ({
            let g = grown_nodes(nodes, root, size, left, right, bottom);
            let n = nodes[root];
            let l = n.content->Child_0;
            let r = n.content->Child_1;
            let b = n.content->Child_2;
            let c = n.content->Child_3;
            &&& forall|k: usize|
                g.contains_key(k) == (nodes.contains_key(k) || k == left || (k == right && right
                    != 0) || (k == bottom && bottom != 0))
            &&& g[root] == (Node {
                size,
                content: ContentChild::Child(left, right, bottom, c),
                ..n
            })
            &&& g[left] == (Node {
                size: n.size,
                pos: Point2 { x: 0, y: 0 },
                parent: root,
                content: ContentChild::Child(l, r, b, c),
            })
            &&& right != 0 ==> g[right] == (Node {
                size: Vector2 { x: (size.x - n.size.x) as usize, y: n.size.y },
                pos: Point2 { x: n.size.x, y: 0 },
                parent: root,
                content: ContentChild::Empty,
            })
            &&& bottom != 0 ==> g[bottom] == (Node {
                size: Vector2 { x: size.x, y: (size.y - n.size.y) as usize },
                pos: Point2 { x: 0, y: n.size.y },
                parent: root,
                content: ContentChild::Empty,
            })
            &&& forall|k: usize|
                nodes.contains_key(k) && k != root ==> #[trigger] g[k] == (Node {
                    parent: if k != 0 && (k == l || k == r || k == b) {
                        left
                    } else {
                        nodes[k].parent
                    },
                    ..nodes[k]
                })
        }),
{
    let g = grown_nodes(nodes, root, size, left, right, bottom);
    let n = nodes[root];
    let l = n.content->Child_0;
    let r = n.content->Child_1;
    let b = n.content->Child_2;
    assert forall|k: usize| nodes.contains_key(k) && k != root implies #[trigger] g[k] == (Node {
        parent: if k != 0 && (k == l || k == r || k == b) {
            left
        } else {
            nodes[k].parent
        },
        ..nodes[k]
    }) by {}
}

/// Growing a whole area that has sub-regions keeps the invariant.
pub(crate) proof fn lemma_grow(sh: Shape, size: Vector2, left: usize, right: usize, bottom: usize)
    requires
        inv(sh, 0, 0),
        sh.nodes[sh.root].content is Child,
        size.x % sh.align == 0,
        size.y % sh.align == 0,
        size.x >= sh.nodes[sh.root].size.x,
        size.y >= sh.nodes[sh.root].size.y,
        left != 0 && !sh.nodes.contains_key(left),
        right != 0 ==> !sh.nodes.contains_key(right) && right != left && size.x
            > sh.nodes[sh.root].size.x,
        bottom != 0 ==> !sh.nodes.contains_key(bottom) && bottom != left && bottom != right
            && size.y > sh.nodes[sh.root].size.y,
        right == 0 ==> size.x == sh.nodes[sh.root].size.x,
        bottom == 0 ==> size.y == sh.nodes[sh.root].size.y,
    ensures
        inv(
            Shape {
                nodes: grown_nodes(sh.nodes, sh.root, size, left, right, bottom),
                depth: grown_depth(sh.nodes, sh.depth, sh.root, left, right, bottom),
                height: sh.height + 1,
                ..sh
            },
            0,
            0,
        ),
{
    let g = grown_nodes(sh.nodes, sh.root, size, left, right, bottom);
    let sh2 = Shape {
        nodes: g,
        depth: grown_depth(sh.nodes, sh.depth, sh.root, left, right, bottom),
        height: sh.height + 1,
        ..sh
    };
    let root = sh.root;
    let n = sh.nodes[root];
    lemma_root_ok(sh, 0, 0);
    let l = n.content->Child_0;
    let r = n.content->Child_1;
    let b = n.content->Child_2;
    lemma_node_ok(sh, 0, 0, l);
    if r != 0 {
        lemma_node_ok(sh, 0, 0, r);
    }
    if b != 0 {
        lemma_node_ok(sh, 0, 0, b);
    }
    lemma_aligned_rest(sh.align, size.x, n.size.x);
    lemma_aligned_rest(sh.align, size.y, n.size.y);
    lemma_grown_nodes(sh.nodes, root, size, left, right, bottom);
    assert forall|k: usize| sh2.nodes.contains_key(k) && k != 0 implies #[trigger] node_ok(
        sh2,
        k,
        0,
        0,
    ) by {
        if k == root {
            lemma_grow_root(sh, sh2, size, left, right, bottom);
        } else if k == left {
            lemma_grow_left(sh, sh2, size, left, right, bottom);
        } else if (k == right && right != 0) || (k == bottom && bottom != 0) {
        } else {
            lemma_grow_old(sh, sh2, size, left, right, bottom, k);
        }
    }
    reveal(inv);
}

/// The shape `sh2` is the shape `sh` after the whole area has grown.
pub open spec fn grows_to(
    sh: Shape,
    sh2: Shape,
    size: Vector2,
    left: usize,
    right: usize,
    bottom: usize,
) -> bool {
    let n = sh.nodes[sh.root];
    let l = n.content->Child_0;
    let r = n.content->Child_1;
    let b = n.content->Child_2;
    let c = n.content->Child_3;
    &&& inv(sh, 0, 0)
    &&& n.content is Child
    &&& sh2.root == sh.root
    &&& sh2.align == sh.align
    &&& sh2.height == sh.height + 1
    &&& sh2.depth == grown_depth(sh.nodes, sh.depth, sh.root, left, right, bottom)
    &&& size.x % sh.align == 0
    &&& size.y % sh.align == 0
    &&& size.x >= n.size.x
    &&& size.y >= n.size.y
    &&& left != 0 && !sh.nodes.contains_key(left)
    &&& right != 0 ==> !sh.nodes.contains_key(right) && right != left && size.x > n.size.x
    &&& bottom != 0 ==> !sh.nodes.contains_key(bottom) && bottom != left && bottom != right
        && size.y > n.size.y
    &&& right == 0 ==> size.x == n.size.x
    &&& bottom == 0 ==> size.y == n.size.y
    &&& forall|k: usize|
        sh2.nodes.contains_key(k) == (sh.nodes.contains_key(k) || k == left || (k == right && right
            != 0) || (k == bottom && bottom != 0))
    &&& sh2.nodes[sh.root] == (Node {
        size,
        content: ContentChild::Child(left, right, bottom, c),
        ..n
    })
    &&& sh2.nodes[left] == (Node {
        size: n.size,
        pos: Point2 { x: 0, y: 0 },
        parent: sh.root,
        content: ContentChild::Child(l, r, b, c),
    })
    &&& right != 0 ==> sh2.nodes[right] == (Node {
        size: Vector2 { x: (size.x - n.size.x) as usize, y: n.size.y },
        pos: Point2 { x: n.size.x, y: 0 },
        parent: sh.root,
        content: ContentChild::Empty,
    })
    &&& bottom != 0 ==> sh2.nodes[bottom] == (Node {
        size: Vector2 { x: size.x, y: (size.y - n.size.y) as usize },
        pos: Point2 { x: 0, y: n.size.y },
        parent: sh.root,
        content: ContentChild::Empty,
    })
    &&& forall|k: usize|
        sh.nodes.contains_key(k) && k != sh.root ==> #[trigger] sh2.nodes[k] == (Node {
            parent: if k != 0 && (k == l || k == r || k == b) {
                left
            } else {
                sh.nodes[k].parent
            },
            ..sh.nodes[k]
        })
}

/// After the whole area has grown, its node is well formed.
proof fn lemma_grow_root(
    sh: Shape,
    sh2: Shape,
    size: Vector2,
    left: usize,
    right: usize,
    bottom: usize,
)
    requires
        grows_to(sh, sh2, size, left, right, bottom),
    ensures
        node_ok(sh2, sh.root, 0, 0),
{
    lemma_root_ok(sh, 0, 0);
    let n = sh.nodes[sh.root];
    lemma_aligned_rest(sh.align, size.x, n.size.x);
    lemma_aligned_rest(sh.align, size.y, n.size.y);
    assert(kid_ok(sh2, sh.root, left));
    assert(kid_ok(sh2, sh.root, right));
    assert(kid_ok(sh2, sh.root, bottom));
}

/// After the whole area has grown, the node of the old area is well formed.
proof fn lemma_grow_left(
    sh: Shape,
    sh2: Shape,
    size: Vector2,
    left: usize,
    right: usize,
    bottom: usize,
)
    requires
        grows_to(sh, sh2, size, left, right, bottom),
    ensures
        node_ok(sh2, left, 0, 0),
{
    lemma_root_ok(sh, 0, 0);
    let n = sh.nodes[sh.root];
    let l = n.content->Child_0;
    let r = n.content->Child_1;
    let b = n.content->Child_2;
    lemma_node_ok(sh, 0, 0, l);
    assert(sh2.nodes[l].parent == left);
    assert(kid_ok(sh2, left, l));
    if r != 0 {
        lemma_node_ok(sh, 0, 0, r);
        assert(sh2.nodes[r].parent == left);
    }
    assert(kid_ok(sh2, left, r));
    if b != 0 {
        lemma_node_ok(sh, 0, 0, b);
        assert(sh2.nodes[b].parent == left);
    }
    assert(kid_ok(sh2, left, b));
}

/// After the whole area has grown, every older node is well formed.
proof fn lemma_grow_old(
    sh: Shape,
    sh2: Shape,
    size: Vector2,
    left: usize,
    right: usize,
    bottom: usize,
    k: usize,
)
    requires
        grows_to(sh, sh2, size, left, right, bottom),
        sh.nodes.contains_key(k),
        k != 0,
        k != sh.root,
    ensures
        node_ok(sh2, k, 0, 0),
{
    lemma_root_ok(sh, 0, 0);
    let n = sh.nodes[sh.root];
    let l = n.content->Child_0;
    let r = n.content->Child_1;
    let b = n.content->Child_2;
    lemma_node_ok(sh, 0, 0, k);
    let kn = sh.nodes[k];
    assert(sh2.nodes[k].content == kn.content);
    assert(sh2.depth[k] == sh.depth[k] + 1);
    lemma_node_ok(sh, 0, 0, kn.parent);
    if let ContentChild::Child(kl, kr, kb, c) = kn.content {
        lemma_node_ok(sh, 0, 0, kl);
        assert(sh2.nodes[kl] == sh.nodes[kl]);
        assert(kid_ok(sh2, k, kl));
        if kr != 0 {
            lemma_node_ok(sh, 0, 0, kr);
            assert(sh2.nodes[kr] == sh.nodes[kr]);
        }
        assert(kid_ok(sh2, k, kr));
        if kb != 0 {
            lemma_node_ok(sh, 0, 0, kb);
            assert(sh2.nodes[kb] == sh.nodes[kb]);
        }
        assert(kid_ok(sh2, k, kb));
    }
    if k == l || k == r || k == b {
        assert(sh2.nodes[k].parent == left);
    } else {
        assert(kn.parent != sh.root);
        assert(sh2.nodes[kn.parent].content == sh.nodes[kn.parent].content);
    }
}

/// Growing a whole area that is free keeps the invariant.
pub(crate) proof fn lemma_grow_free(sh: Shape, size: Vector2)
    requires
        inv(sh, 0, 0),
        sh.nodes[sh.root].content is Empty,
        size.x % sh.align == 0,
        size.y % sh.align == 0,
    ensures
        inv(
            Shape { nodes: sh.nodes.insert(sh.root, Node { size, ..sh.nodes[sh.root] }), ..sh },
            0,
            0,
        ),
{
    let sh2 = Shape { nodes: sh.nodes.insert(sh.root, Node { size, ..sh.nodes[sh.root] }), ..sh };
    lemma_root_ok(sh, 0, 0);
    assert forall|k: usize| sh2.nodes.contains_key(k) && k != 0 implies #[trigger] node_ok(
        sh2,
        k,
        0,
        0,
    ) by {
        lemma_node_ok(sh, 0, 0, k);
        if k != sh.root {
            let kn = sh.nodes[k];
            lemma_node_ok(sh, 0, 0, kn.parent);
            if let ContentChild::Child(kl, kr, kb, c) = kn.content {
                lemma_node_ok(sh, 0, 0, kl);
                if kr != 0 {
                    lemma_node_ok(sh, 0, 0, kr);
                }
                if kb != 0 {
                    lemma_node_ok(sh, 0, 0, kb);
                }
                assert(kid_ok(sh2, k, kl));
                assert(kid_ok(sh2, k, kr));
                assert(kid_ok(sh2, k, kb));
            }
        }
    }
    reveal(inv);
}

/// The larger of two numbers.
pub open spec fn larger(a: usize, b: int) -> int {
    if a as int > b {
        a as int
    } else {
        b
    }
}

impl RectMap {
    /// Enlarges the whole area so that it is at least of the size `size`,
    /// rounded up to the alignment, in both directions; it never shrinks.
    /// Returns whether the area has grown. What is added is free; every
    /// rectangle stays where it is.
    pub fn extends(&mut self, size: Vector2) -> (r: bool)
        requires
            old(self).wf(),
            aligned(old(self).alignment(), size.x) <= usize::MAX,
            aligned(old(self).alignment(), size.y) <= usize::MAX,
        ensures
            final(self).wf(),
            final(self).total().x == larger(
                old(self).total().x,
                aligned(old(self).alignment(), size.x),
            ),
            final(self).total().y == larger(
                old(self).total().y,
                aligned(old(self).alignment(), size.y),
            ),
            r == (final(self).total() != old(self).total()),
            final(self).rects() == old(self).rects(),
            final(self).counted() == old(self).counted(),
            final(self).alignment() == old(self).alignment(),
    {
        let ghost sh = self.shape();
        let ghost wish = size;
        proof {
            lemma_root_ok(sh, 0, 0);
            lemma_aligned_multiple(self.align, size.x);
            lemma_aligned_multiple(self.align, size.y);
        }
        let mut size = size;
        align_size(self.align, &mut size);
        let root_id = self.root;
        let root = self.node(root_id);
        let w = if root.size.x > size.x {
            root.size.x
        } else {
            size.x
        };
        let h = if root.size.y > size.y {
            root.size.y
        } else {
            size.y
        };
        if w == root.size.x && h == root.size.y {
            return false;
        }
        let size = Vector2 { x: w, y: h };
        match root.content {
            ContentChild::Child(l, r, b, c) => {
                let oldsize = root.size;
                proof {
                    lemma_node_ok(sh, 0, 0, l);
                    if r != 0 {
                        lemma_node_ok(sh, 0, 0, r);
                    }
                    if b != 0 {
                        lemma_node_ok(sh, 0, 0, b);
                    }
                }
                let right = if size.x > oldsize.x {
                    slab_insert(
                        &mut self.slab,
                        Node::new(
                            Vector2 { x: size.x - oldsize.x, y: oldsize.y },
                            Point2 { x: oldsize.x, y: 0 },
                            root_id,
                            ContentChild::Empty,
                        ),
                    )
                } else {
                    0
                };
                let bottom = if size.y > oldsize.y {
                    slab_insert(
                        &mut self.slab,
                        Node::new(
                            Vector2 { x: size.x, y: size.y - oldsize.y },
                            Point2 { x: 0, y: oldsize.y },
                            root_id,
                            ContentChild::Empty,
                        ),
                    )
                } else {
                    0
                };
                let left = slab_insert(
                    &mut self.slab,
                    Node::new(
                        oldsize,
                        Point2 { x: 0, y: 0 },
                        root_id,
                        ContentChild::Child(l, r, b, c),
                    ),
                );
                let node = slab_at_mut(&mut self.slab, l);
                node.parent = left;
                if r > 0 {
                    let node = slab_at_mut(&mut self.slab, r);
                    node.parent = left;
                }
                if b > 0 {
                    let node = slab_at_mut(&mut self.slab, b);
                    node.parent = left;
                }
                let node = slab_at_mut(&mut self.slab, root_id);
                node.size = size;
                node.content = ContentChild::Child(left, right, bottom, c);
                proof {
                    assert(slab_nodes(self.slab) =~= grown_nodes(
                        sh.nodes,
                        sh.root,
                        size,
                        left,
                        right,
                        bottom,
                    ));
                    lemma_grow(sh, size, left, right, bottom);
                    self.depth@ = grown_depth(sh.nodes, sh.depth, sh.root, left, right, bottom);
                    self.height@ = sh.height + 1;
                    let fin = self.shape();
                    assert forall|k: usize| self.rects().contains_key(k) == old(self).rects().contains_key(
                        k,
                    ) by {
                        if k != 0 && sh.nodes.contains_key(k) && sh.nodes[k].content is Content {
                            lemma_node_ok(sh, 0, 0, k);
                        }
                    }
                    assert forall|k: usize| self.rects().contains_key(k) implies self.rects()[k]
                        == old(self).rects()[k] by {
                        lemma_node_ok(sh, 0, 0, k);
                    }
                    assert(self.rects() =~= old(self).rects());
                }
                true
            },
            ContentChild::Empty => {
                let node = slab_at_mut(&mut self.slab, root_id);
                node.size = size;
                proof {
                    assert(slab_nodes(self.slab) =~= sh.nodes.insert(
                        sh.root,
                        Node { size, ..sh.nodes[sh.root] },
                    ));
                    lemma_grow_free(sh, size);
                    assert(self.rects() =~= old(self).rects());
                }
                true
            },
            ContentChild::Content(_) => false,
        }
    }
}

/// The node at the level `d` on the way from the node `x` up to the whole
/// area; `x` itself if it is not deeper than that.
pub open spec fn node_above(sh: Shape, x: usize, d: nat) -> usize
    decreases sh.depth[x],
{
    if sh.depth[x] <= d || sh.depth[sh.nodes[x].parent] >= sh.depth[x] {
        x
    } else {
        node_above(sh, sh.nodes[x].parent, d)
    }
}

/// The regions of two nodes have no point in common.
pub open spec fn disjoint(a: Node, b: Node) -> bool {
    ||| a.pos.x + a.size.x <= b.pos.x
    ||| b.pos.x + b.size.x <= a.pos.x
    ||| a.pos.y + a.size.y <= b.pos.y
    ||| b.pos.y + b.size.y <= a.pos.y
}

/// The node above a node at a given level is live, at that level, and its
/// region holds the region of the node; it has sub-regions if it is not the
/// node itself.
proof fn lemma_node_above(sh: Shape, x: usize, d: nat)
    requires
        inv(sh, 0, 0),
        sh.nodes.contains_key(x),
        x != 0,
        d <= sh.depth[x],
    ensures
        sh.nodes.contains_key(node_above(sh, x, d)),
        node_above(sh, x, d) != 0,
        sh.depth[node_above(sh, x, d)] == d,
        within(sh.nodes[x], sh.nodes[node_above(sh, x, d)]),
        d < sh.depth[x] ==> sh.nodes[node_above(sh, x, d)].content is Child,
    decreases sh.depth[x],
{
    lemma_node_ok(sh, 0, 0, x);
    if sh.depth[x] > d {
        let p = sh.nodes[x].parent;
        lemma_node_ok(sh, 0, 0, p);
        lemma_node_above(sh, p, d);
    }
}

/// The regions of two different nodes of one level have no point in common.
proof fn lemma_level_apart(sh: Shape, x: usize, y: usize)
    requires
        inv(sh, 0, 0),
        sh.nodes.contains_key(x),
        sh.nodes.contains_key(y),
        x != 0,
        y != 0,
        x != y,
        sh.depth[x] == sh.depth[y],
    ensures
        disjoint(sh.nodes[x], sh.nodes[y]),
    decreases sh.depth[x],
{
    lemma_node_ok(sh, 0, 0, x);
    lemma_node_ok(sh, 0, 0, y);
    lemma_root_ok(sh, 0, 0);
    let px = sh.nodes[x].parent;
    let py = sh.nodes[y].parent;
    if x != sh.root {
        lemma_node_ok(sh, 0, 0, px);
    }
    if y != sh.root {
        lemma_node_ok(sh, 0, 0, py);
    }
    if x != sh.root && y != sh.root && px != py {
        lemma_level_apart(sh, px, py);
    }
}

/// Rounds both parts of `size` up to a multiple of `align`.
pub fn align_size(align: usize, size: &mut Vector2)
    requires
        align > 0,
        aligned(align, old(size).x) <= usize::MAX,
        aligned(align, old(size).y) <= usize::MAX,
    ensures
        final(size).x == aligned(align, old(size).x),
        final(size).y == aligned(align, old(size).y),
{
    let a = size.x % align;
    if a > 0 {
        size.x += align - a;
    }
    let a = size.y % align;
    if a > 0 {
        size.y += align - a;
    }
}

impl RectMap {
    /// Every rectangle lies in the whole area, even when its size is rounded
    /// up to the alignment.
    pub proof fn lemma_in_bounds(&self, id: usize)
        requires
            self.wf(),
            self.rects().contains_key(id),
        ensures
            self.rects()[id].1.x + aligned(self.alignment(), self.rects()[id].0.x)
                <= self.total().x,
            self.rects()[id].1.y + aligned(self.alignment(), self.rects()[id].0.y)
                <= self.total().y,
    {
        let sh = self.shape();
        lemma_root_ok(sh, 0, 0);
        lemma_node_ok(sh, 0, 0, id);
        lemma_in_area(sh, 0, 0, id);
    }

    /// No two rectangles overlap, even when their sizes are rounded up to the
    /// alignment: one ends where the other begins, or before, in one of the
    /// two directions.
    pub proof fn lemma_no_overlap(&self, a: usize, b: usize)
        requires
            self.wf(),
            self.rects().contains_key(a),
            self.rects().contains_key(b),
            a != b,
        ensures
            ({
                let (sa, pa) = self.rects()[a];
                let (sb, pb) = self.rects()[b];
                let al = self.alignment();
                ||| pa.x + aligned(al, sa.x) <= pb.x
                ||| pb.x + aligned(al, sb.x) <= pa.x
                ||| pa.y + aligned(al, sa.y) <= pb.y
                ||| pb.y + aligned(al, sb.y) <= pa.y
            }),
    {
        let sh = self.shape();
        lemma_node_ok(sh, 0, 0, a);
        lemma_node_ok(sh, 0, 0, b);
        if sh.depth[a] >= sh.depth[b] {
            let u = node_above(sh, a, sh.depth[b]);
            lemma_node_above(sh, a, sh.depth[b]);
            lemma_level_apart(sh, u, b);
        } else {
            let u = node_above(sh, b, sh.depth[a]);
            lemma_node_above(sh, b, sh.depth[a]);
            lemma_level_apart(sh, u, a);
        }
    }
}

} // verus!
