use loose_octree::cg2d::{include_quad2, include_tri2, InnOuter, Point2};
use loose_octree::geometry::{
    bit_len, calc_layer, check_contain, find_octant, intersects, octant, Aabb3, Point3, Vector3,
};
use loose_octree::polygon::{
    copy_level16, copy_level4, copy_level8, mult_to_triangle, scale_level, to_triangle,
    to_triangle_0,
};

fn p(x: i32, y: i32) -> Point2 {
    Point2::new(x, y)
}

fn cube(lo: i32, hi: i32) -> Aabb3 {
    Aabb3::new(Point3::new(lo, lo, lo), Point3::new(hi, hi, hi))
}

#[test]
fn triangle_inner_outer_boundary() {
    let (a, b, c) = (p(0, 0), p(10, 0), p(0, 10));
    assert_eq!(include_tri2(&p(2, 2), &a, &b, &c), InnOuter::Inner);
    assert_eq!(include_tri2(&p(2, 2), &a, &c, &b), InnOuter::Inner);
    assert_eq!(include_tri2(&p(20, 2), &a, &b, &c), InnOuter::Outer);
    assert_eq!(include_tri2(&p(-1, 2), &a, &b, &c), InnOuter::Outer);
    assert_eq!(include_tri2(&p(5, 0), &a, &b, &c), InnOuter::Boundary);
    assert_eq!(include_tri2(&p(5, 5), &a, &b, &c), InnOuter::Boundary);
    assert_eq!(include_tri2(&p(0, 0), &a, &b, &c), InnOuter::Boundary);
}

#[test]
fn triangle_with_extreme_coordinates() {
    let (a, b, c) = (
        p(i32::MIN, i32::MIN),
        p(i32::MAX, i32::MIN),
        p(i32::MIN, i32::MAX),
    );
    assert_eq!(include_tri2(&p(-5, -5), &a, &b, &c), InnOuter::Inner);
    assert_eq!(include_tri2(&p(i32::MAX, i32::MAX), &a, &b, &c), InnOuter::Outer);
}

#[test]
fn quadrangle_inner_outer_boundary() {
    let (a, b, c, d) = (p(0, 0), p(10, 0), p(10, 10), p(0, 10));
    assert_eq!(include_quad2(&p(5, 5), &a, &b, &c, &d), InnOuter::Inner);
    assert_eq!(include_quad2(&p(5, 5), &d, &c, &b, &a), InnOuter::Inner);
    assert_eq!(include_quad2(&p(15, 5), &a, &b, &c, &d), InnOuter::Outer);
    assert_eq!(include_quad2(&p(5, -1), &a, &b, &c, &d), InnOuter::Outer);
    assert_eq!(include_quad2(&p(5, 11), &a, &b, &c, &d), InnOuter::Outer);
    assert_eq!(include_quad2(&p(10, 5), &a, &b, &c, &d), InnOuter::Boundary);
    assert_eq!(include_quad2(&p(5, 10), &a, &b, &c, &d), InnOuter::Boundary);
    assert_eq!(include_quad2(&p(0, 5), &a, &b, &c, &d), InnOuter::Boundary);
}

#[test]
fn fan_of_a_polygon() {
    assert_eq!(to_triangle_0(&[7, 8, 9, 10, 11]), vec![7, 8, 9, 7, 9, 10, 7, 10, 11]);
    assert_eq!(to_triangle_0(&[1, 2, 3]), vec![1, 2, 3]);
    assert_eq!(to_triangle_0(&[1, 2]), Vec::<u16>::new());
    assert_eq!(to_triangle(&[0, 1, 2, 3], vec![9, 9]), vec![9, 9, 0, 1, 2, 0, 2, 3]);
    assert_eq!(
        mult_to_triangle(&vec![vec![0, 1, 2], vec![3, 4, 5, 6]], vec![1]),
        vec![1, 0, 1, 2, 3, 4, 5, 3, 5, 6]
    );
    assert_eq!(mult_to_triangle(&vec![], vec![1]), vec![1]);
}

#[test]
fn levels_of_detail() {
    assert_eq!(scale_level(0), 4);
    assert_eq!(scale_level(4), 4);
    assert_eq!(scale_level(5), 8);
    assert_eq!(scale_level(8), 8);
    assert_eq!(scale_level(9), 16);
    assert_eq!(scale_level(1000), 16);
    assert_eq!(copy_level4(), vec![0, 4, 8, 12, 16]);
    assert_eq!(copy_level8().len(), 9);
    assert_eq!(copy_level16().len(), 17);
    assert_eq!(copy_level16()[16], 16);
}

#[test]
fn boxes_contain_and_intersect() {
    let a = cube(0, 10);
    assert!(a.contains(&cube(0, 10)));
    assert!(a.contains(&cube(2, 3)));
    assert!(!a.contains(&cube(2, 11)));
    assert!(intersects(&a, &cube(9, 20)));
    // touching boxes do not overlap
    assert!(!intersects(&a, &cube(10, 20)));
    // a box without extent inside another overlaps it
    assert!(intersects(&a, &cube(5, 5)));
    assert!(!intersects(&a, &cube(10, 10)));
    assert_eq!(a.dim(), Vector3::new(10, 10, 10));
    assert_eq!(
        Aabb3::new(Point3::new(i32::MAX, 0, 0), Point3::new(i32::MIN, 0, 0)).dim(),
        Vector3::new(4294967295, 0, 0)
    );
    let d = Vector3::new(5, -5, 0);
    assert!(a.fits_shift(&d));
    assert_eq!(
        a.moved_by(&d),
        Aabb3::new(Point3::new(5, -5, 0), Point3::new(15, 5, 10))
    );
    assert!(!cube(0, i32::MAX).fits_shift(&Vector3::new(1, 0, 0)));
    assert!(!a.fits_shift(&Vector3::new(i64::MAX, 0, 0)));
}

#[test]
fn octants_of_a_loose_cell() {
    let cell = cube(0, 1000);
    let loose = Vector3::new(300, 300, 300);
    assert_eq!(octant(&cell, &loose, 0), cube(350, 1000));
    assert_eq!(octant(&cell, &loose, 7), cube(0, 650));
    assert_eq!(
        octant(&cell, &loose, 1),
        Aabb3::new(Point3::new(0, 350, 350), Point3::new(650, 1000, 1000))
    );
    assert_eq!(
        octant(&cell, &loose, 6),
        Aabb3::new(Point3::new(350, 0, 0), Point3::new(1000, 650, 650))
    );
    // the splits round toward zero
    let cell = cube(-1001, 0);
    assert_eq!(octant(&cell, &Vector3::new(0, 0, 0), 0), cube(-500, 0));
    assert_eq!(octant(&cell, &Vector3::new(0, 0, 0), 7), cube(-1001, -500));
    assert_eq!(find_octant(&cube(0, 1000), &loose, &cube(400, 500)), 0);
    assert_eq!(find_octant(&cube(0, 1000), &loose, &cube(10, 20)), 7);
    assert_eq!(find_octant(&cube(0, 1000), &loose, &cube(100, 900)), 8);
}

#[test]
fn check_contain_prefers_the_current_slot() {
    let cell = cube(0, 1000);
    let loose = Vector3::new(300, 300, 300);
    // a box in the overlap of all octants stays where it is
    let mid = cube(400, 600);
    for slot in 0..8 {
        assert_eq!(check_contain(&cell, &loose, &mid, slot), slot);
    }
    // the own list stands for octant 7
    assert_eq!(check_contain(&cell, &loose, &mid, 8), 8);
    assert_eq!(check_contain(&cell, &loose, &cube(10, 20), 0), 7);
    assert_eq!(check_contain(&cell, &loose, &cube(900, 950), 7), 0);
    assert_eq!(check_contain(&cell, &loose, &cube(900, 1001), 7), 9);
    // octant 3 is tried last
    let b = Aabb3::new(Point3::new(700, 700, 10), Point3::new(710, 710, 20));
    assert_eq!(check_contain(&cell, &loose, &b, 0), 3);
}

#[test]
fn binary_digits_and_layers() {
    assert_eq!(bit_len(0), 0);
    assert_eq!(bit_len(1), 1);
    assert_eq!(bit_len(2), 2);
    assert_eq!(bit_len(255), 8);
    assert_eq!(bit_len(256), 9);
    assert_eq!(bit_len(u64::MAX), 64);
    let loose = Vector3::new(300, 300, 300);
    assert_eq!(calc_layer(&loose, &Vector3::new(1, 1, 1)), 9);
    assert_eq!(calc_layer(&loose, &Vector3::new(0, 0, 0)), 64);
    assert_eq!(calc_layer(&loose, &Vector3::new(1000, 1, 1)), 0);
}
