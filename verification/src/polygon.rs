//! Index lists of polygons: turning a convex polygon into a fan of
//! triangles, and the levels of detail of an arc.

use vstd::prelude::*;

verus! {

/// The corner numbers of the triangles of the fan over the polygon with the
/// corner numbers `indices`: for each corner but the first and the last, the
/// first corner, that corner and the next one.
pub open spec fn fan(indices: Seq<u16>) -> Seq<u16> {
    Seq::new(
        if indices.len() < 2 {
            0nat
        } else {
            (3 * (indices.len() - 2)) as nat
        },
        |k: int|
            if k % 3 == 0 {
                indices[0]
            } else {
                indices[k / 3 + k % 3]
            },
    )
}

/// The fans over the polygons `polygons[from..]`, one after the other.
pub open spec fn fans(polygons: Seq<Vec<u16>>, from: int) -> Seq<u16>
    decreases polygons.len() - from,
{
    if from < 0 || from >= polygons.len() {
        Seq::empty()
    } else {
        fan(polygons[from]@) + fans(polygons, from + 1)
    }
}

/// The fan of triangles over a polygon of at least two corners.
pub fn to_triangle_0(indices: &[u16]) -> (r: Vec<u16>)
    requires
        indices@.len() >= 2,
    ensures
        r@ == fan(indices@),
{
    let mut res_indices: Vec<u16> = Vec::new();
    let mut index: usize = 1;
    let count = indices.len();
    while index <= count - 2
        invariant
            1 <= index <= count - 1,
            count == indices@.len(),
            count >= 2,
            res_indices@.len() == 3 * (index - 1),
            forall|k: int| 0 <= k < res_indices@.len() ==> res_indices@[k] == fan(indices@)[k],
        decreases count - index,
    {
        res_indices.push(indices[0]);
        res_indices.push(indices[index]);
        res_indices.push(indices[index + 1]);
        index = index + 1;
    }
    assert(res_indices@ =~= fan(indices@));
    res_indices
}

/// Appends the fan of triangles over a polygon of at least two corners to
/// `out_indices`.
pub fn to_triangle(indices: &[u16], out_indices: Vec<u16>) -> (r: Vec<u16>)
    requires
        indices@.len() >= 2,
    ensures
        r@ == out_indices@ + fan(indices@),
{
    let mut out_indices = out_indices;
    let ghost before = out_indices@;
    let tri = to_triangle_0(indices);
    let mut i: usize = 0;
    while i < tri.len()
        invariant
            i <= tri@.len(),
            out_indices@ == before + tri@.take(i as int),
        decreases tri@.len() - i,
    {
        out_indices.push(tri[i]);
        assert(tri@.take(i + 1) =~= tri@.take(i as int).push(tri@[i as int]));
        i += 1;
    }
    assert(tri@.take(tri@.len() as int) =~= tri@);
    out_indices
}

/// Appends the fans of triangles over polygons of at least two corners
/// each to `out_indices`, one after the other.
pub fn mult_to_triangle(indices: &Vec<Vec<u16>>, out_indices: Vec<u16>) -> (r: Vec<u16>)
    requires
        forall|i: int| 0 <= i < indices@.len() ==> (#[trigger] indices@[i])@.len() >= 2,
    ensures
        r@ == out_indices@ + fans(indices@, 0),
{
    let mut out_indices = out_indices;
    let ghost before = out_indices@;
    let mut i: usize = 0;
    while i < indices.len()
        invariant
            i <= indices@.len(),
            forall|k: int| 0 <= k < indices@.len() ==> (#[trigger] indices@[k])@.len() >= 2,
            out_indices@ + fans(indices@, i as int) == before + fans(indices@, 0),
        decreases indices@.len() - i,
    {
        let ghost prev = out_indices@;
        out_indices = to_triangle(indices[i].as_slice(), out_indices);
        proof {
            assert((prev + fan(indices@[i as int]@)) + fans(indices@, i as int + 1) =~= prev + (fan(
                indices@[i as int]@,
            ) + fans(indices@, i as int + 1)));
        }
        i += 1;
    }
    assert(out_indices@ + fans(indices@, indices@.len() as int) =~= out_indices@);
    out_indices
}

/// Appends the fan of triangles over the polygon with the corner numbers
/// `index_list` to `triangle_indexs`. The polygon has at least one corner and
/// no more corners than a `u16` counts.
pub fn analy_triangles_points(index_list: &Vec<u16>, triangle_indexs: &mut Vec<u16>)
    requires
        1 <= index_list@.len() <= u16::MAX,
    ensures
        final(triangle_indexs)@ == old(triangle_indexs)@ + fan(index_list@),
{
    let count = index_list.len() as u16;
    let mut index: u16 = 1;
    let ghost before = triangle_indexs@;
    assert(before + fan(index_list@).take(0) =~= before);
    while index < count - 1
        invariant
            1 <= index <= count,
            count == index_list@.len(),
            index < count || count == 1,
            triangle_indexs@ == before + fan(index_list@).take(3 * (index - 1)),
        decreases count - index,
    {
        triangle_indexs.push(index_list[0]);
        triangle_indexs.push(index_list[index as usize]);
        triangle_indexs.push(index_list[(index + 1) as usize]);
        proof {
            let f = fan(index_list@);
            let k = 3 * (index - 1);
            assert(f.take(k + 3) =~= f.take(k).push(f[k]).push(f[k + 1]).push(f[k + 2]));
            assert(triangle_indexs@ =~= before + f.take(k + 3));
        }
        index = index + 1;
    }
    assert(fan(index_list@).take(3 * (index - 1)) =~= fan(index_list@));
}

/// The steps of a quarter arc at the coarsest level.
pub fn copy_level4() -> (r: Vec<u16>)
    ensures
        r@ == seq![0u16, 4, 8, 12, 16],
{
    vec![0, 4, 8, 12, 16]
}

/// The steps of a quarter arc at the middle level.
pub fn copy_level8() -> (r: Vec<u16>)
    ensures
        r@ == seq![0u16, 2, 4, 6, 8, 10, 12, 14, 16],
{
    vec![0, 2, 4, 6, 8, 10, 12, 14, 16]
}

/// The steps of a quarter arc at the finest level.
pub fn copy_level16() -> (r: Vec<u16>)
    ensures
        r@ == seq![0u16, 1, 2, 3, 4, 5, 6, 7, 8, 9, 10, 11, 12, 13, 14, 15, 16],
{
    vec![0, 1, 2, 3, 4, 5, 6, 7, 8, 9, 10, 11, 12, 13, 14, 15, 16]
}

/// The level of detail that is used for a wish of `lv` segments: 4, 8 or 16,
/// the least that is not below the wish.
pub open spec fn level_for(lv: u16) -> u16 {
    if lv <= 4 {
        4
    } else if lv <= 8 {
        8
    } else {
        16
    }
}

/// The level of detail that is used for a wish of `lv` segments.
pub fn scale_level(lv: u16) -> (r: u16)
    ensures
        r == level_for(lv),
{
    let mut lv = lv;
    if lv <= 4 {
        lv = 4;
    } else if lv <= 8 {
        lv = 8;
    } else {
        lv = 16;
    }
    lv
}

} // verus!
