//! Dirty marks: the pending-slot bits of a cell and the worklist of cells
//! that wait for the restructuring pass.

use vstd::prelude::*;
use crate::node::OctNode;
use crate::octree::{DEEP_MAX, dirty_ok, listed};

verus! {

/// The mask with the bit of slot `index` added.
pub open spec fn with_bit(dirty: usize, index: usize) -> usize {
    dirty | (1usize << index)
}

/// Setting a bit leaves a mask that is not zero.
pub proof fn lemma_with_bit_not_zero(dirty: usize, index: usize)
    requires
        index < 8,
    ensures
        with_bit(dirty, index) != 0,
{
    assert(dirty | (1usize << index) != 0) by (bit_vector)
        requires
            index < 8,
    ;
}

/// Whether the bit of slot `index` is set in the mask.
pub open spec fn has_bit(dirty: usize, index: usize) -> bool {
    dirty & (1usize << index) != 0
}

/// Setting the bit of a slot sets that bit and changes no other.
pub proof fn lemma_with_bit(dirty: usize, index: usize, other: usize)
    requires
        index < 8,
        other < 8,
    ensures
        has_bit(with_bit(dirty, index), index),
        other != index ==> has_bit(with_bit(dirty, index), other) == has_bit(dirty, other),
        has_bit(dirty, other) ==> has_bit(with_bit(dirty, index), other),
        !has_bit(0, other),
{
    assert((dirty | (1usize << index)) & (1usize << index) != 0) by (bit_vector)
        requires
            index < 8,
    ;
    assert(other != index ==> (((dirty | (1usize << index)) & (1usize << other) != 0) == (dirty & (
    1usize << other) != 0))) by (bit_vector)
        requires
            index < 8,
            other < 8,
    ;
    assert(0usize & (1usize << other) == 0) by (bit_vector);
}

/// Marks slot `index` in the mask of a cell. Returns the cell's layer and
/// handle, as given, if this is the first pending slot of the cell, so that
/// the caller can put the cell on the worklist; `(0, 0)` otherwise.
pub fn set_dirty(dirty: &mut usize, index: usize, layer: usize, rid: usize) -> (r: (usize, usize))
    requires
        index < 8,
    ensures
        *final(dirty) == with_bit(*old(dirty), index),
        *final(dirty) != 0,
        r == if *old(dirty) == 0 {
            (layer, rid)
        } else {
            (0usize, 0usize)
        },
{
    proof {
        lemma_with_bit_not_zero(*dirty, index);
    }
    if *dirty == 0 {
        *dirty |= 1usize << index;
        return (layer, rid);
    }
    *dirty |= 1usize << index;
    return (0, 0);
}

/// The worklist is in order: it has at most one list per layer, and nothing
/// is listed while the count is 0 or below the recorded lowest layer.
pub open spec fn work_ok(dirty: (Vec<Vec<usize>>, usize, usize)) -> bool {
    &&& dirty.0@.len() <= DEEP_MAX + 1
    &&& forall|l: int|
        0 <= l < dirty.0@.len() && (dirty.1 == 0 || l < dirty.2) ==> (#[trigger] dirty.0@[l])@.len()
            == 0
}

/// Puts the cell `rid` of layer `layer` on the worklist; does nothing for
/// `rid == 0`. The count saturates.
pub fn set_tree_dirty(dirty: &mut (Vec<Vec<usize>>, usize, usize), pair: (usize, usize))
    requires
        work_ok(*old(dirty)),
        pair.1 != 0 ==> pair.0 <= DEEP_MAX,
    ensures
        work_ok(*final(dirty)),
        pair.1 == 0 ==> *final(dirty) == *old(dirty),
        pair.1 != 0 ==> listed(final(dirty).0@, pair.1) && final(dirty).1 != 0,
        pair.1 != 0 ==> final(dirty).1 == final_count(old(dirty).1),
        forall|c: usize| listed(old(dirty).0@, c) ==> listed(final(dirty).0@, c),
{
    let (layer, rid) = pair;
    if rid == 0 {
        return ;
    }
    let ghost before = dirty.0@;
    if dirty.1 < usize::MAX {
        dirty.1 += 1;
    }
    if dirty.2 > layer {
        dirty.2 = layer;
    }
    while dirty.0.len() <= layer
        invariant
            layer <= DEEP_MAX,
            dirty.0@.len() <= DEEP_MAX + 1,
            before.len() <= dirty.0@.len(),
            forall|l: int| 0 <= l < before.len() ==> dirty.0@[l] == before[l],
            forall|l: int| before.len() <= l < dirty.0@.len() ==> (#[trigger] dirty.0@[l])@.len() == 0,
            dirty.1 == final_count(old(dirty).1),
            dirty.2 == if old(dirty).2 > layer { layer } else { old(dirty).2 },
        decreases layer + 1 - dirty.0@.len(),
    {
        dirty.0.push(Vec::new());
    }
    let ghost grown = dirty.0@;
    dirty.0[layer].push(rid);
    proof {
        let after = dirty.0@;
        assert(after[layer as int]@[after[layer as int]@.len() - 1] == rid);
        assert forall|c: usize| listed(before, c) implies listed(after, c) by {
            let (l, j) = choose|l: int, j: int|
                0 <= l < before.len() && 0 <= j < before[l]@.len() && #[trigger] before[l]@[j] == c;
            assert(grown[l] == before[l]);
            assert(after[l]@[j] == c);
        }
        assert forall|l: int|
            0 <= l < after.len() && (dirty.1 == 0 || l < dirty.2) implies (#[trigger] after[l])@.len()
            == 0 by {
            if l < before.len() {
                assert(grown[l] == before[l]);
                assert(before[l]@.len() == 0);
            }
        }
    }
}

/// The count after one more cell has been listed.
pub open spec fn final_count(n: usize) -> usize {
    if n < usize::MAX {
        (n + 1) as usize
    } else {
        n
    }
}

/// Whatever is listed stays listed when the worklist is extended.
pub(crate) proof fn lemma_dirty_ok_extend(
    cells: Map<usize, OctNode>,
    cells2: Map<usize, OctNode>,
    dirty: (Vec<Vec<usize>>, usize, usize),
    dirty2: (Vec<Vec<usize>>, usize, usize),
    rid: usize,
)
    requires
        dirty_ok(cells, dirty),
        work_ok(dirty2),
        forall|c: usize| listed(dirty.0@, c) ==> listed(dirty2.0@, c),
        rid != 0 ==> listed(dirty2.0@, rid),
        forall|c: usize|
            #[trigger] cells2.contains_key(c) && cells2[c].dirty != 0 && c != rid ==> cells.contains_key(c)
                && cells[c].dirty != 0,
        rid == 0 ==> forall|c: usize|
            #[trigger] cells2.contains_key(c) && cells2[c].dirty != 0 ==> cells.contains_key(c)
                && cells[c].dirty != 0,
    ensures
        dirty_ok(cells2, dirty2),
{
}

} // verus!
