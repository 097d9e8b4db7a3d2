//! Integer geometry for the spatial index: points, extents and axis-aligned
//! boxes, the containment and overlap tests, the octant boxes of a loose cell
//! and the size classification of a box.
//!
//! Coordinates are `i32`; differences and extents are `i64`, in which every
//! sum or difference of a few coordinates fits.

use vstd::prelude::*;

verus! {

/// A point in space.
#[derive(Clone, Copy, Debug, PartialEq, Eq, Structural)]
pub struct Point3 {
    pub x: i32,
    pub y: i32,
    pub z: i32,
}

/// A displacement or an extent, one component per axis.
#[derive(Clone, Copy, Debug, PartialEq, Eq, Structural)]
pub struct Vector3 {
    pub x: i64,
    pub y: i64,
    pub z: i64,
}

/// An axis-aligned bounding box, given by its two extreme corners.
#[derive(Clone, Copy, Debug, PartialEq, Eq, Structural)]
pub struct Aabb3 {
    pub min: Point3,
    pub max: Point3,
}

impl Point3 {
    pub fn new(x: i32, y: i32, z: i32) -> (p: Point3)
        ensures
            p == (Point3 { x, y, z }),
    {
        Point3 { x, y, z }
    }
}

impl Vector3 {
    pub fn new(x: i64, y: i64, z: i64) -> (v: Vector3)
        ensures
            v == (Vector3 { x, y, z }),
    {
        Vector3 { x, y, z }
    }

    /// Every component is at most the matching component of `other`.
    pub open spec fn le(self, other: Vector3) -> bool {
        self.x <= other.x && self.y <= other.y && self.z <= other.z
    }

    /// No component is negative.
    pub open spec fn non_negative(self) -> bool {
        self.x >= 0 && self.y >= 0 && self.z >= 0
    }

    /// Each component halved, rounding toward zero.
    pub open spec fn halved(self) -> Vector3 {
        Vector3 { x: half(self.x as int) as i64, y: half(self.y as int) as i64, z: half(self.z as int) as i64 }
    }

    /// Each component halved, rounding toward zero.
    pub fn half(&self) -> (r: Vector3)
        ensures
            r == self.halved(),
    {
        Vector3 { x: self.x / 2, y: self.y / 2, z: self.z / 2 }
    }
}

/// `a / 2`, rounded toward zero.
pub open spec fn half(a: int) -> int {
    if a >= 0 {
        a / 2
    } else {
        -((-a) / 2)
    }
}

pub open spec fn min_i32(a: i32, b: i32) -> i32 {
    if a <= b {
        a
    } else {
        b
    }
}

pub open spec fn max_i32(a: i32, b: i32) -> i32 {
    if a >= b {
        a
    } else {
        b
    }
}

fn lesser(a: i32, b: i32) -> (r: i32)
    ensures
        r == min_i32(a, b),
{
    if a <= b {
        a
    } else {
        b
    }
}

fn greater(a: i32, b: i32) -> (r: i32)
    ensures
        r == max_i32(a, b),
{
    if a >= b {
        a
    } else {
        b
    }
}

/// Whether the two boxes overlap in a region of positive extent on every axis.
pub open spec fn spec_intersects(a: Aabb3, b: Aabb3) -> bool {
    a.min.x < b.max.x && a.max.x > b.min.x && a.min.y < b.max.y && a.max.y > b.min.y && a.min.z
        < b.max.z && a.max.z > b.min.z
}

/// Whether the box `b` overlaps the loose box of a cell: the box `a` of the
/// cell enlarged by the slack `loose` on every side.
pub open spec fn spec_intersects_loose(a: Aabb3, loose: Vector3, b: Aabb3) -> bool {
    a.min.x - loose.x < b.max.x && a.max.x + loose.x > b.min.x && a.min.y - loose.y < b.max.y
        && a.max.y + loose.y > b.min.y && a.min.z - loose.z < b.max.z && a.max.z + loose.z
        > b.min.z
}

/// Whether the box `b` overlaps the box `a` enlarged by `loose` on every
/// side.
pub fn intersects_loose(a: &Aabb3, loose: &Vector3, b: &Aabb3) -> (r: bool)
    ensures
        r == spec_intersects_loose(*a, *loose, *b),
{
    (a.min.x as i128) - (loose.x as i128) < (b.max.x as i128) && (a.max.x as i128) + (
    loose.x as i128) > (b.min.x as i128) && (a.min.y as i128) - (loose.y as i128) < (
    b.max.y as i128) && (a.max.y as i128) + (loose.y as i128) > (b.min.y as i128) && (
    a.min.z as i128) - (loose.z as i128) < (b.max.z as i128) && (a.max.z as i128) + (
    loose.z as i128) > (b.min.z as i128)
}

/// Whether the two boxes overlap: on every axis each box begins strictly
/// before the other one ends.
pub fn intersects(a: &Aabb3, b: &Aabb3) -> (r: bool)
    ensures
        r == spec_intersects(*a, *b),
{
    a.min.x < b.max.x && a.max.x > b.min.x && a.min.y < b.max.y && a.max.y > b.min.y && a.min.z
        < b.max.z && a.max.z > b.min.z
}

impl Aabb3 {
    /// The corners are in order on every axis.
    pub open spec fn valid(self) -> bool {
        self.min.x <= self.max.x && self.min.y <= self.max.y && self.min.z <= self.max.z
    }

    /// The box spanned by two opposite corners, given in any order.
    pub open spec fn spanning(a: Point3, b: Point3) -> Aabb3 {
        Aabb3 {
            min: Point3 { x: min_i32(a.x, b.x), y: min_i32(a.y, b.y), z: min_i32(a.z, b.z) },
            max: Point3 { x: max_i32(a.x, b.x), y: max_i32(a.y, b.y), z: max_i32(a.z, b.z) },
        }
    }

    /// The box spanned by two opposite corners, given in any order.
    pub fn new(a: Point3, b: Point3) -> (r: Aabb3)
        ensures
            r == Aabb3::spanning(a, b),
            r.valid(),
    {
        Aabb3 {
            min: Point3 { x: lesser(a.x, b.x), y: lesser(a.y, b.y), z: lesser(a.z, b.z) },
            max: Point3 { x: greater(a.x, b.x), y: greater(a.y, b.y), z: greater(a.z, b.z) },
        }
    }

    /// The corner nearest to negative infinity.
    pub fn min(&self) -> (p: Point3)
        ensures
            p == self.min,
    {
        self.min
    }

    /// The corner nearest to positive infinity.
    pub fn max(&self) -> (p: Point3)
        ensures
            p == self.max,
    {
        self.max
    }

    /// The extent of the box on each axis.
    pub open spec fn extent(self) -> Vector3 {
        Vector3 {
            x: (self.max.x - self.min.x) as i64,
            y: (self.max.y - self.min.y) as i64,
            z: (self.max.z - self.min.z) as i64,
        }
    }

    /// The extent of the box on each axis.
    pub fn dim(&self) -> (d: Vector3)
        ensures
            d == self.extent(),
            self.valid() ==> d.non_negative(),
    {
        Vector3 {
            x: self.max.x as i64 - self.min.x as i64,
            y: self.max.y as i64 - self.min.y as i64,
            z: self.max.z as i64 - self.min.z as i64,
        }
    }

    /// `other` lies inside this box, borders included.
    pub open spec fn encloses(self, other: Aabb3) -> bool {
        other.min.x >= self.min.x && other.min.y >= self.min.y && other.min.z >= self.min.z
            && other.max.x <= self.max.x && other.max.y <= self.max.y && other.max.z <= self.max.z
    }

    /// Whether `other` lies inside this box, borders included.
    pub fn contains(&self, other: &Aabb3) -> (r: bool)
        ensures
            r == self.encloses(*other),
    {
        other.min.x >= self.min.x && other.min.y >= self.min.y && other.min.z >= self.min.z
            && other.max.x <= self.max.x && other.max.y <= self.max.y && other.max.z <= self.max.z
    }

    /// Whether moving the box by `d` keeps every coordinate representable.
    pub open spec fn can_shift(self, d: Vector3) -> bool {
        &&& i32::MIN <= self.min.x + d.x <= i32::MAX
        &&& i32::MIN <= self.min.y + d.y <= i32::MAX
        &&& i32::MIN <= self.min.z + d.z <= i32::MAX
        &&& i32::MIN <= self.max.x + d.x <= i32::MAX
        &&& i32::MIN <= self.max.y + d.y <= i32::MAX
        &&& i32::MIN <= self.max.z + d.z <= i32::MAX
    }

    /// The box moved by `d`.
    pub open spec fn shifted(self, d: Vector3) -> Aabb3 {
        Aabb3 {
            min: Point3 {
                x: (self.min.x + d.x) as i32,
                y: (self.min.y + d.y) as i32,
                z: (self.min.z + d.z) as i32,
            },
            max: Point3 {
                x: (self.max.x + d.x) as i32,
                y: (self.max.y + d.y) as i32,
                z: (self.max.z + d.z) as i32,
            },
        }
    }

    /// Whether moving the box by `d` keeps every coordinate representable.
    pub fn fits_shift(&self, d: &Vector3) -> (r: bool)
        ensures
            r == self.can_shift(*d),
    {
        axis_fits(self.min.x, d.x) && axis_fits(self.min.y, d.y) && axis_fits(self.min.z, d.z)
            && axis_fits(self.max.x, d.x) && axis_fits(self.max.y, d.y) && axis_fits(
            self.max.z,
            d.z,
        )
    }

    /// The box moved by `d`.
    pub fn moved_by(&self, d: &Vector3) -> (r: Aabb3)
        requires
            self.can_shift(*d),
        ensures
            r == self.shifted(*d),
            r.extent() == self.extent(),
            self.valid() ==> r.valid(),
    {
        Aabb3 {
            min: Point3 {
                x: (self.min.x as i64 + d.x) as i32,
                y: (self.min.y as i64 + d.y) as i32,
                z: (self.min.z as i64 + d.z) as i32,
            },
            max: Point3 {
                x: (self.max.x as i64 + d.x) as i32,
                y: (self.max.y as i64 + d.y) as i32,
                z: (self.max.z as i64 + d.z) as i32,
            },
        }
    }
}

fn axis_fits(c: i32, d: i64) -> (r: bool)
    ensures
        r == (i32::MIN <= c + d <= i32::MAX),
{
    d >= -0x1_0000_0000 && d <= 0x1_0000_0000 && c as i64 + d >= -0x8000_0000 && c as i64 + d
        <= 0x7fff_ffff
}

/// A box that overlaps `inner` overlaps every box that encloses `inner`.
pub proof fn lemma_intersects_grows(q: Aabb3, inner: Aabb3, outer: Aabb3)
    requires
        spec_intersects(q, inner),
        outer.encloses(inner),
    ensures
        spec_intersects(q, outer),
{
}


/// Where the high octants begin on an axis of a loose cell: the middle of the
/// axis moved down by half the slack, rounded toward zero.
pub open spec fn low_split(min: i32, max: i32, loose: i64) -> int {
    half(min + max - loose)
}

/// Where the low octants end on an axis of a loose cell: the middle of the
/// axis moved up by half the slack, rounded toward zero.
pub open spec fn high_split(min: i32, max: i32, loose: i64) -> int {
    half(min + max + loose)
}

/// Whether octant `child` takes the low part of the x axis.
pub open spec fn low_x(child: int) -> bool {
    !(child == 0 || child == 2 || child == 3 || child == 6)
}

/// Whether octant `child` takes the low part of the y axis.
pub open spec fn low_y(child: int) -> bool {
    !(child == 0 || child == 1 || child == 3 || child == 5)
}

/// Whether octant `child` takes the low part of the z axis.
pub open spec fn low_z(child: int) -> bool {
    !(child == 0 || child == 1 || child == 2 || child == 4)
}

/// The slack of a cell is usable: not negative and no larger than the cell.
pub open spec fn shape_ok(bounds: Aabb3, loose: Vector3) -> bool {
    loose.non_negative() && loose.le(bounds.extent())
}

/// The region of octant `child` of a loose cell. Each octant reaches from one
/// face of the cell past the middle by half the slack, so neighbouring octants
/// overlap by the slack. Octant 0 is the high corner and octant 7 the low one;
/// any number outside `0..7` names octant 7.
pub open spec fn octant_box(bounds: Aabb3, loose: Vector3, child: int) -> Aabb3 {
    let x1 = low_split(bounds.min.x, bounds.max.x, loose.x) as i32;
    let y1 = low_split(bounds.min.y, bounds.max.y, loose.y) as i32;
    let z1 = low_split(bounds.min.z, bounds.max.z, loose.z) as i32;
    let x2 = high_split(bounds.min.x, bounds.max.x, loose.x) as i32;
    let y2 = high_split(bounds.min.y, bounds.max.y, loose.y) as i32;
    let z2 = high_split(bounds.min.z, bounds.max.z, loose.z) as i32;
    Aabb3 {
        min: Point3 {
            x: if low_x(child) { bounds.min.x } else { x1 },
            y: if low_y(child) { bounds.min.y } else { y1 },
            z: if low_z(child) { bounds.min.z } else { z1 },
        },
        max: Point3 {
            x: if low_x(child) { x2 } else { bounds.max.x },
            y: if low_y(child) { y2 } else { bounds.max.y },
            z: if low_z(child) { z2 } else { bounds.max.z },
        },
    }
}

/// The six split coordinates of a loose cell, computed once for all octants.
#[derive(Clone, Copy, Debug)]
pub struct Splits {
    pub x1: i32,
    pub y1: i32,
    pub z1: i32,
    pub x2: i32,
    pub y2: i32,
    pub z2: i32,
}

impl Splits {
    /// These are the split coordinates of the cell `bounds` with slack `loose`.
    pub open spec fn of(self, bounds: Aabb3, loose: Vector3) -> bool {
        &&& self.x1 == low_split(bounds.min.x, bounds.max.x, loose.x)
        &&& self.y1 == low_split(bounds.min.y, bounds.max.y, loose.y)
        &&& self.z1 == low_split(bounds.min.z, bounds.max.z, loose.z)
        &&& self.x2 == high_split(bounds.min.x, bounds.max.x, loose.x)
        &&& self.y2 == high_split(bounds.min.y, bounds.max.y, loose.y)
        &&& self.z2 == high_split(bounds.min.z, bounds.max.z, loose.z)
    }

    /// The split coordinates of a cell.
    pub fn new(bounds: &Aabb3, loose: &Vector3) -> (s: Splits)
        requires
            shape_ok(*bounds, *loose),
        ensures
            s.of(*bounds, *loose),
    {
        Splits {
            x1: low_cut(bounds.min.x, bounds.max.x, loose.x),
            y1: low_cut(bounds.min.y, bounds.max.y, loose.y),
            z1: low_cut(bounds.min.z, bounds.max.z, loose.z),
            x2: high_cut(bounds.min.x, bounds.max.x, loose.x),
            y2: high_cut(bounds.min.y, bounds.max.y, loose.y),
            z2: high_cut(bounds.min.z, bounds.max.z, loose.z),
        }
    }

    /// The region of octant `child` of the cell these splits belong to.
    pub fn octant(&self, bounds: &Aabb3, child: usize) -> (r: Aabb3)
        ensures
            forall|loose: Vector3|
                self.of(*bounds, loose) ==> r == #[trigger] octant_box(*bounds, loose, child as int),
    {
        let lx = !(child == 0 || child == 2 || child == 3 || child == 6);
        let ly = !(child == 0 || child == 1 || child == 3 || child == 5);
        let lz = !(child == 0 || child == 1 || child == 2 || child == 4);
        Aabb3 {
            min: Point3 {
                x: if lx { bounds.min.x } else { self.x1 },
                y: if ly { bounds.min.y } else { self.y1 },
                z: if lz { bounds.min.z } else { self.z1 },
            },
            max: Point3 {
                x: if lx { self.x2 } else { bounds.max.x },
                y: if ly { self.y2 } else { bounds.max.y },
                z: if lz { self.z2 } else { bounds.max.z },
            },
        }
    }
}

fn low_cut(min: i32, max: i32, loose: i64) -> (r: i32)
    requires
        0 <= loose <= max - min,
    ensures
        r == low_split(min, max, loose),
        min <= r <= max,
        max - r >= loose,
{
    ((min as i64 + max as i64 - loose) / 2) as i32
}

fn high_cut(min: i32, max: i32, loose: i64) -> (r: i32)
    requires
        0 <= loose <= max - min,
    ensures
        r == high_split(min, max, loose),
        min <= r <= max,
        r - min >= loose,
{
    ((min as i64 + max as i64 + loose) / 2) as i32
}

/// The region of octant `child` of the cell `bounds` with slack `loose`.
pub fn octant(bounds: &Aabb3, loose: &Vector3, child: usize) -> (r: Aabb3)
    requires
        shape_ok(*bounds, *loose),
    ensures
        r == octant_box(*bounds, *loose, child as int),
{
    Splits::new(bounds, loose).octant(bounds, child)
}

/// The first octant of the cell, in the order 0 to 7, that encloses `b`; 8 if
/// none does.
pub open spec fn first_octant(bounds: Aabb3, loose: Vector3, b: Aabb3, from: int) -> int
    decreases 8 - from,
{
    if from >= 8 {
        8
    } else if octant_box(bounds, loose, from).encloses(b) {
        from
    } else {
        first_octant(bounds, loose, b, from + 1)
    }
}

/// The first octant that encloses `b`, if there is one, does enclose it.
pub proof fn lemma_first_octant(bounds: Aabb3, loose: Vector3, b: Aabb3, from: int)
    requires
        0 <= from <= 8,
    ensures
        from <= first_octant(bounds, loose, b, from) <= 8,
        first_octant(bounds, loose, b, from) < 8 ==> octant_box(
            bounds,
            loose,
            first_octant(bounds, loose, b, from),
        ).encloses(b),
    decreases 8 - from,
{
    if from < 8 && !octant_box(bounds, loose, from).encloses(b) {
        lemma_first_octant(bounds, loose, b, from + 1);
    }
}

/// The first octant of the cell, in the order 0 to 7, that encloses `b`; 8 if
/// none does.
pub fn find_octant(bounds: &Aabb3, loose: &Vector3, b: &Aabb3) -> (r: usize)
    requires
        shape_ok(*bounds, *loose),
    ensures
        r == first_octant(*bounds, *loose, *b, 0),
        r <= 8,
        r < 8 ==> octant_box(*bounds, *loose, r as int).encloses(*b),
{
    let splits = Splits::new(bounds, loose);
    let mut i: usize = 0;
    while i < 8
        invariant
            i <= 8,
            splits.of(*bounds, *loose),
            first_octant(*bounds, *loose, *b, 0) == first_octant(*bounds, *loose, *b, i as int),
        decreases 8 - i,
    {
        let a = splits.octant(bounds, i);
        assert(a == octant_box(*bounds, *loose, i as int));
        if a.contains(b) {
            return i;
        }
        i += 1;
    }
    8
}

/// The slot that an entry with box `node`, now in slot `child` of the cell
/// `parent`, belongs to: `child` itself if that octant still encloses the box
/// (`OWN` stands for octant 7 here); 9 if the cell no longer encloses the box;
/// else the first of the octants 0, 1, 2, 4, 5, 6, 7 that encloses it, and 3 if
/// none of them does.
pub open spec fn contain_slot(parent: Aabb3, loose: Vector3, node: Aabb3, child: int) -> int {
    if octant_box(parent, loose, child).encloses(node) {
        child
    } else if !parent.encloses(node) {
        9
    } else if octant_box(parent, loose, 0).encloses(node) {
        0
    } else if octant_box(parent, loose, 1).encloses(node) {
        1
    } else if octant_box(parent, loose, 2).encloses(node) {
        2
    } else if octant_box(parent, loose, 4).encloses(node) {
        4
    } else if octant_box(parent, loose, 5).encloses(node) {
        5
    } else if octant_box(parent, loose, 6).encloses(node) {
        6
    } else if octant_box(parent, loose, 7).encloses(node) {
        7
    } else {
        3
    }
}

/// What the result of `contain_slot` says about the box: 9 means that the
/// cell does not enclose it; any other result but 3, that the octant of that
/// number does; and 3 at least that the cell or the octant `child` does.
pub proof fn lemma_contain_slot(parent: Aabb3, loose: Vector3, node: Aabb3, child: int)
    requires
        shape_ok(parent, loose),
        0 <= child <= 8,
    ensures
        ({
            let r = contain_slot(parent, loose, node, child);
            &&& r == child || r == 9 || 0 <= r < 8
            &&& r == 9 ==> !parent.encloses(node)
            &&& r != 9 ==> parent.encloses(node)
            &&& r != 9 && r != 3 ==> octant_box(parent, loose, r).encloses(node)
        }),
{
    lemma_octant_inside(parent, loose, child);
}

/// Finds the slot of the cell `parent` for an entry that is in its slot
/// `child` and whose box has changed to `node`: see `contain_slot`.
pub fn check_contain(parent: &Aabb3, loose: &Vector3, node: &Aabb3, child: usize) -> (r: usize)
    requires
        shape_ok(*parent, *loose),
    ensures
        r == contain_slot(*parent, *loose, *node, child as int),
        r == child || r == 9 || r < 8,
{
    let splits = Splits::new(parent, loose);
    let a = splits.octant(parent, child);
    assert(a == octant_box(*parent, *loose, child as int));
    if a.contains(node) {
        return child;
    }
    if !parent.contains(node) {
        return 9;
    }
    let a = splits.octant(parent, 0);
    assert(a == octant_box(*parent, *loose, 0));
    if a.contains(node) {
        return 0;
    }
    let a = splits.octant(parent, 1);
    assert(a == octant_box(*parent, *loose, 1));
    if a.contains(node) {
        return 1;
    }
    let a = splits.octant(parent, 2);
    assert(a == octant_box(*parent, *loose, 2));
    if a.contains(node) {
        return 2;
    }
    let a = splits.octant(parent, 4);
    assert(a == octant_box(*parent, *loose, 4));
    if a.contains(node) {
        return 4;
    }
    let a = splits.octant(parent, 5);
    assert(a == octant_box(*parent, *loose, 5));
    if a.contains(node) {
        return 5;
    }
    let a = splits.octant(parent, 6);
    assert(a == octant_box(*parent, *loose, 6));
    if a.contains(node) {
        return 6;
    }
    let a = splits.octant(parent, 7);
    assert(a == octant_box(*parent, *loose, 7));
    if a.contains(node) {
        return 7;
    }
    return 3;
}

/// Every octant of a well-shaped cell lies inside the cell, and is itself well
/// shaped for half the slack.
pub proof fn lemma_octant_inside(bounds: Aabb3, loose: Vector3, child: int)
    requires
        shape_ok(bounds, loose),
    ensures
        bounds.encloses(octant_box(bounds, loose, child)),
        shape_ok(octant_box(bounds, loose, child), loose.halved()),
        octant_box(bounds, loose, child).valid(),
{
}

/// The number of binary digits of `n`: 0 for 0, else one more than the
/// position of its highest set bit.
pub open spec fn bit_length(n: nat) -> nat
    decreases n,
{
    if n == 0 {
        0
    } else {
        1 + bit_length(n / 2)
    }
}

/// `bit_length` never decreases when its argument grows.
pub proof fn lemma_bit_length_monotone(a: nat, b: nat)
    requires
        a <= b,
    ensures
        bit_length(a) <= bit_length(b),
    decreases b,
{
    if a != 0 {
        lemma_bit_length_monotone(a / 2, b / 2);
    }
}

/// A number below `2^k` has at most `k` binary digits.
pub proof fn lemma_bit_length_bound(n: nat, k: nat)
    requires
        n < vstd::arithmetic::power2::pow2(k),
    ensures
        bit_length(n) <= k,
    decreases n,
{
    if n != 0 {
        if k == 0 {
            vstd::arithmetic::power2::lemma2_to64();
        } else {
            vstd::arithmetic::power2::lemma_pow2_unfold(k);
            lemma_bit_length_bound(n / 2, (k - 1) as nat);
        }
    }
}

/// The number of binary digits of `n`.
pub fn bit_len(n: u64) -> (r: usize)
    ensures
        r == bit_length(n as nat),
        r <= 64,
{
    proof {
        vstd::arithmetic::power2::lemma2_to64();
        vstd::arithmetic::power2::lemma2_to64_rest();
        lemma_bit_length_bound(n as nat, 64);
    }
    let mut m: u64 = n;
    let mut r: usize = 0;
    while m > 0
        invariant
            r + bit_length(m as nat) == bit_length(n as nat),
            bit_length(n as nat) <= 64,
        decreases m,
    {
        m = m / 2;
        r = r + 1;
    }
    r
}

/// How many times an extent fits into the slack on one axis; an axis without
/// extent counts as fitting without limit.
pub open spec fn axis_ratio(loose: i64, el: i64) -> nat {
    if el <= 0 {
        u64::MAX as nat
    } else {
        (loose / el) as nat
    }
}

/// The size class of a box of extent `el` in a tree whose top-level slack is
/// `loose`: the number of binary digits of the smallest per-axis ratio of slack
/// to extent. Small boxes get high layers; a box as large as the slack or
/// larger on some axis gets layer 0 or 1.
pub open spec fn layer_of(loose: Vector3, el: Vector3) -> nat {
    let x = axis_ratio(loose.x, el.x);
    let y = axis_ratio(loose.y, el.y);
    let z = axis_ratio(loose.z, el.z);
    let xy = if x <= y { x } else { y };
    bit_length(if xy <= z { xy } else { z })
}

fn ratio(loose: i64, el: i64) -> (r: u64)
    requires
        loose >= 0,
    ensures
        r == axis_ratio(loose, el),
{
    if el <= 0 {
        u64::MAX
    } else {
        (loose / el) as u64
    }
}

/// The size class of a box of extent `el` under top-level slack `loose`.
pub fn calc_layer(loose: &Vector3, el: &Vector3) -> (layer: usize)
    requires
        loose.non_negative(),
    ensures
        layer == layer_of(*loose, *el),
        layer <= 64,
{
    let x = ratio(loose.x, el.x);
    let y = ratio(loose.y, el.y);
    let z = ratio(loose.z, el.z);
    let xy = if x <= y { x } else { y };
    bit_len(if xy <= z { xy } else { z })
}

proof fn lemma_axis_ratio_monotone(loose: i64, small: i64, large: i64)
    requires
        loose >= 0,
        0 <= small <= large,
    ensures
        axis_ratio(loose, large) <= axis_ratio(loose, small),
{
    if small > 0 {
        vstd::arithmetic::div_mod::lemma_div_is_ordered_by_denominator(
            loose as int,
            small as int,
            large as int,
        );
    } else if large > 0 {
        assert(loose / large <= loose) by (nonlinear_arith)
            requires
                loose >= 0,
                large > 0,
        ;
    }
}

/// The layer of a box does not increase when its extent grows on any axis.
pub proof fn lemma_layer_monotone(loose: Vector3, small: Vector3, large: Vector3)
    requires
        loose.non_negative(),
        small.non_negative(),
        small.le(large),
    ensures
        layer_of(loose, large) <= layer_of(loose, small),
{
    lemma_axis_ratio_monotone(loose.x, small.x, large.x);
    lemma_axis_ratio_monotone(loose.y, small.y, large.y);
    lemma_axis_ratio_monotone(loose.z, small.z, large.z);
    let x = axis_ratio(loose.x, small.x);
    let y = axis_ratio(loose.y, small.y);
    let z = axis_ratio(loose.z, small.z);
    let xy = if x <= y { x } else { y };
    let m = if xy <= z { xy } else { z };
    let x2 = axis_ratio(loose.x, large.x);
    let y2 = axis_ratio(loose.y, large.y);
    let z2 = axis_ratio(loose.z, large.z);
    let xy2 = if x2 <= y2 { x2 } else { y2 };
    let m2 = if xy2 <= z2 { xy2 } else { z2 };
    lemma_bit_length_monotone(m2, m);
}

/// Moving a box changes neither its extent nor, therefore, its layer.
pub proof fn lemma_layer_shift_invariant(loose: Vector3, aabb: Aabb3, d: Vector3)
    requires
        aabb.can_shift(d),
    ensures
        aabb.shifted(d).extent() == aabb.extent(),
        layer_of(loose, aabb.shifted(d).extent()) == layer_of(loose, aabb.extent()),
{
}

} // verus!
