//! The records of the index: intrusive entry lists, cells and entries.

use vstd::prelude::*;
use crate::arena::Arena;
use crate::geometry::{Aabb3, Vector3};

verus! {

/// The slot number that stands for a cell's own list (and for the outer list).
pub const OWN: usize = 8;

/// Head and length of an intrusive doubly-linked list of entry handles.
///
/// The links themselves live in the entries (`prev`, `next`); handle 0 ends a
/// list. The list also carries, as ghost state, the handles it holds from the
/// head on, which is what contracts speak of.
#[derive(Clone, Copy)]
pub struct NodeList {
    pub head: usize,
    pub len: usize,
    pub order: Ghost<Seq<usize>>,
}

impl View for NodeList {
    type V = Seq<usize>;

    /// The handles in the list, head first.
    open spec fn view(&self) -> Seq<usize> {
        self.order@
    }
}

impl NodeList {
    /// Head and length agree with the recorded order.
    pub open spec fn wf(&self) -> bool {
        &&& self.len == self@.len()
        &&& self.head == (if self@.len() == 0 {
            0
        } else {
            self@[0]
        })
    }

    /// The list without any entry.
    pub open spec fn empty() -> NodeList {
        NodeList { head: 0, len: 0, order: Ghost(Seq::empty()) }
    }

    /// An empty list.
    pub fn new() -> (r: NodeList)
        ensures
            r == NodeList::empty(),
            r.wf(),
    {
        NodeList { head: 0, len: 0, order: Ghost(Seq::empty()) }
    }

    /// Makes `id` the new head. The caller links the entry itself.
    pub fn push(&mut self, id: usize)
        requires
            old(self).len < usize::MAX,
        ensures
            final(self).head == id,
            final(self).len == old(self).len + 1,
            final(self)@ == seq![id] + old(self)@,
            old(self).wf() ==> final(self).wf(),
    {
        self.head = id;
        self.len += 1;
        self.order = Ghost(seq![id] + self.order@);
    }

    /// The handles before and after position `i` of the list, 0 at either end.
    pub open spec fn neighbours(&self, i: int) -> (usize, usize) {
        (
            if i == 0 {
                0
            } else {
                self@[i - 1]
            },
            if i + 1 == self@.len() {
                0
            } else {
                self@[i + 1]
            },
        )
    }

    /// The position that follows the entry `prev`; the head's position if
    /// `prev` is 0.
    pub open spec fn position_after(&self, prev: usize) -> int {
        if prev == 0 {
            0
        } else {
            self@.index_of(prev) + 1
        }
    }

    /// Unlinks the entry that follows `prev` and precedes `next`: the
    /// neighbours are linked to each other, or the head moves on where there
    /// is no `prev`. The removed entry itself is not touched.
    pub fn remove<T>(
        &mut self,
        slab: &mut Arena<AbNode<T>>,
        prev: usize,
        next: usize,
    )
        requires
            old(self).wf(),
            old(slab).wf(),
            0 <= old(self).position_after(prev) < old(self)@.len(),
            old(self).neighbours(old(self).position_after(prev)) == (prev, next),
            prev != 0 ==> old(slab).has(prev),
            next != 0 ==> old(slab).has(next),
        ensures
            final(self).wf(),
            final(self)@ == old(self)@.remove(old(self).position_after(prev)),
            final(slab).wf(),
            final(slab)@ == relinked(old(slab)@, prev, next),
    {
        let ghost i = self.position_after(prev);
        let ghost before = self@;
        if prev > 0 {
            let node = slab.at_mut(prev);
            node.next = next;
        } else {
            self.head = next;
        }
        if next > 0 {
            let node = slab.at_mut(next);
            node.prev = prev;
        }
        self.len -= 1;
        self.order = Ghost(self.order@.remove(i));
        proof {
            if before.len() > 1 {
                assert(before.remove(i)[0] == before[if i == 0 { 1int } else { 0int }]);
            }
        }
        assert(final(slab)@ =~= relinked(old(slab)@, prev, next));
    }
}

/// The entries after `prev` and `next` have been linked to each other.
pub open spec fn relinked<T>(nodes: Map<usize, AbNode<T>>, prev: usize, next: usize) -> Map<
    usize,
    AbNode<T>,
> {
    let a = if prev != 0 {
        nodes.insert(prev, AbNode { next: next, ..nodes[prev] })
    } else {
        nodes
    };
    if next != 0 {
        a.insert(next, AbNode { prev: prev, ..a[next] })
    } else {
        a
    }
}

/// One of the eight child slots of a cell.
#[derive(Clone, Copy)]
pub enum ChildNode {
    /// A materialized child cell: its handle and the number of entries beneath it.
    Oct(usize, usize),
    /// The entries that belong to this octant while no child cell exists for it.
    Ab(NodeList),
}

impl ChildNode {
    /// The number of entries that the slot accounts for.
    pub open spec fn count(self) -> int {
        match self {
            ChildNode::Oct(_, n) => n as int,
            ChildNode::Ab(l) => l.len as int,
        }
    }
}

/// A cell of the octree.
#[derive(Clone, Copy)]
pub struct OctNode {
    /// The strict region of the cell.
    pub aabb: Aabb3,
    /// The slack by which the octants of this cell overlap.
    pub loose: Vector3,
    /// The owning cell, 0 for the root.
    pub parent: usize,
    /// The slot of `parent` that holds this cell.
    pub parent_child: usize,
    /// The eight child slots.
    pub childs: [ChildNode; 8],
    /// Depth below the root.
    pub layer: usize,
    /// The entries held by the cell itself.
    pub nodes: NodeList,
    /// One bit per child slot that waits for restructuring.
    pub dirty: usize,
}

impl OctNode {
    /// A cell without entries or child cells.
    pub open spec fn fresh(
        aabb: Aabb3,
        loose: Vector3,
        parent: usize,
        child: usize,
        layer: usize,
    ) -> OctNode {
        OctNode {
            aabb,
            loose,
            parent,
            parent_child: child,
            childs: [
                ChildNode::Ab(NodeList::empty()),
                ChildNode::Ab(NodeList::empty()),
                ChildNode::Ab(NodeList::empty()),
                ChildNode::Ab(NodeList::empty()),
                ChildNode::Ab(NodeList::empty()),
                ChildNode::Ab(NodeList::empty()),
                ChildNode::Ab(NodeList::empty()),
                ChildNode::Ab(NodeList::empty()),
            ],
            layer,
            nodes: NodeList::empty(),
            dirty: 0,
        }
    }

    /// A cell without entries or child cells.
    pub fn new(aabb: Aabb3, loose: Vector3, parent: usize, child: usize, layer: usize) -> (r:
        OctNode)
        ensures
            r == OctNode::fresh(aabb, loose, parent, child, layer),
    {
        let e = ChildNode::Ab(NodeList::new());
        let r = OctNode {
            aabb,
            loose,
            parent,
            parent_child: child,
            childs: [e, e, e, e, e, e, e, e],
            layer,
            nodes: NodeList::new(),
            dirty: 0,
        };
        assert(r.childs =~= OctNode::fresh(aabb, loose, parent, child, layer).childs);
        r
    }

    /// The number of entries in the cell's own list and in or beneath its slots.
    pub open spec fn population(self) -> int {
        self.nodes.len + self.childs[0].count() + self.childs[1].count() + self.childs[2].count()
            + self.childs[3].count() + self.childs[4].count() + self.childs[5].count()
            + self.childs[6].count() + self.childs[7].count()
    }

    /// The list in slot `slot`: the cell's own list for `OWN`, the empty list
    /// for a slot that holds a child cell.
    pub open spec fn list_at(self, slot: usize) -> NodeList {
        if slot < 8 {
            match self.childs[slot as int] {
                ChildNode::Ab(l) => l,
                ChildNode::Oct(_, _) => NodeList::empty(),
            }
        } else {
            self.nodes
        }
    }
}

/// An indexed bounding box with its payload.
pub struct AbNode<T> {
    /// The bounding box.
    pub aabb: Aabb3,
    /// The payload.
    pub bind: T,
    /// The size class of the box.
    pub layer: usize,
    /// The owning cell, 0 while the entry is in the outer list.
    pub parent: usize,
    /// The slot of `parent` whose list holds the entry, `OWN` for the cell's
    /// own list and for the outer list.
    pub parent_child: usize,
    /// The entry before this one in its list, 0 at the head.
    pub prev: usize,
    /// The entry after this one in its list, 0 at the tail.
    pub next: usize,
}

impl<T> AbNode<T> {
    /// An entry that is not linked anywhere yet.
    pub fn new(aabb: Aabb3, bind: T, layer: usize) -> (r: AbNode<T>)
        ensures
            r == (AbNode { aabb, bind, layer, parent: 0, parent_child: OWN, prev: 0, next: 0 }),
    {
        AbNode { aabb, bind, layer, parent: 0, parent_child: 8, prev: 0, next: 0 }
    }
}

} // verus!
