use loose_octree::rect_map::{align_size, Point2, RectMap, Vector2};

fn v(x: usize, y: usize) -> Vector2 {
    Vector2 { x, y }
}

fn p(x: usize, y: usize) -> Point2 {
    Point2 { x, y }
}

#[test]
fn test11() {
    let mut map = RectMap::new(Vector2 { x: 512, y: 512 }, 16);
    map.add(Vector2 { x: 50, y: 50 });
    map.add(Vector2 { x: 20, y: 20 });
    map.add(Vector2 { x: 200, y: 200 });
    map.remove(10);
    map.extends(Vector2 { x: 600, y: 600 });
}

#[test]
fn rect_map_places_first_fit() {
    let mut map = RectMap::new(v(512, 512), 16);
    assert_eq!(map.get_size(), v(512, 512));
    assert_eq!(map.get_align(), 16);
    assert_eq!(map.count(), 0);
    let a = map.add(v(50, 50));
    let b = map.add(v(20, 20));
    let c = map.add(v(200, 200));
    assert_eq!((a, b, c), (4, 7, 10));
    assert_eq!(map.count(), 3);
    // the first rectangle is in the corner; it takes 64 by 64 of the area
    assert_eq!(map.get(a), Some((v(50, 50), p(0, 0))));
    // the second goes to the right of it
    assert_eq!(map.get(b), Some((v(20, 20), p(64, 0))));
    // the third does not fit beside them and goes below
    assert_eq!(map.get(c), Some((v(200, 200), p(0, 64))));
    assert_eq!(map.get(0), None);
    assert_eq!(map.get(1), None);
    assert_eq!(map.get(2), None);
    assert_eq!(map.get(99), None);
    assert_eq!(map.remove(c), (v(200, 200), p(0, 64)));
    assert_eq!(map.get(c), None);
    assert_eq!(map.count(), 2);
    // the freed region is taken again
    let d = map.add(v(300, 300));
    assert_eq!(map.get(d), Some((v(300, 300), p(0, 64))));
    assert_eq!(map.count(), 3);
}

#[test]
fn rect_map_rounds_up_and_rejects() {
    let mut map = RectMap::new(v(100, 60), 16);
    assert_eq!(map.get_size(), v(112, 64));
    assert_eq!(map.add(v(113, 1)), 0);
    assert_eq!(map.add(v(1, 65)), 0);
    assert_eq!(map.count(), 0);
    let whole = map.add(v(112, 64));
    assert_ne!(whole, 0);
    assert_eq!(map.get(whole), Some((v(112, 64), p(0, 0))));
    assert_eq!(map.add(v(1, 1)), 0);
    assert_eq!(map.remove(whole), (v(112, 64), p(0, 0)));
    assert_eq!(map.count(), 0);
    let small = map.add(v(1, 1));
    assert_eq!(map.get(small), Some((v(1, 1), p(0, 0))));
    let next = map.add(v(96, 16));
    assert_eq!(map.get(next), Some((v(96, 16), p(16, 0))));
    // a region that the rectangle fills is not split
    let under = map.add(v(112, 48));
    assert_eq!(map.get(under), Some((v(112, 48), p(0, 16))));
    assert_eq!(map.count(), 3);
    assert_eq!(map.add(v(1, 1)), 0);
}

#[test]
fn rect_map_extends() {
    let mut map = RectMap::new(v(64, 64), 16);
    // a free area just grows
    assert!(map.extends(v(100, 10)));
    assert_eq!(map.get_size(), v(112, 64));
    assert!(!map.extends(v(100, 10)));
    assert!(!map.extends(v(1, 1)));
    let a = map.add(v(112, 64));
    assert_eq!(map.get(a), Some((v(112, 64), p(0, 0))));
    assert_eq!(map.add(v(16, 16)), 0);
    // an area with rectangles gets new free regions
    assert!(map.extends(v(200, 100)));
    assert_eq!(map.get_size(), v(208, 112));
    assert_eq!(map.count(), 1);
    assert_eq!(map.get(a), Some((v(112, 64), p(0, 0))));
    let b = map.add(v(96, 64));
    assert_eq!(map.get(b), Some((v(96, 64), p(112, 0))));
    let c = map.add(v(208, 48));
    assert_eq!(map.get(c), Some((v(208, 48), p(0, 64))));
    assert_eq!(map.count(), 3);
    assert_eq!(map.add(v(1, 1)), 0);
    // growing in one direction only
    assert!(map.extends(v(1, 200)));
    assert_eq!(map.get_size(), v(208, 208));
    map.remove(a);
    map.remove(b);
    map.remove(c);
    assert_eq!(map.count(), 0);
    let d = map.add(v(208, 208));
    assert_eq!(map.get(d), Some((v(208, 208), p(0, 0))));
}

#[test]
fn rect_map_never_overlaps() {
    let mut map = RectMap::new(v(1024, 1024), 8);
    let mut live: Vec<usize> = Vec::new();
    let mut seed: u32 = 99;
    let mut next = |m: usize| -> usize {
        seed = seed.wrapping_mul(1103515245).wrapping_add(12345);
        ((seed >> 8) as usize) % m
    };
    for round in 0..400 {
        if round % 3 == 2 && !live.is_empty() {
            let k = next(live.len());
            let id = live.swap_remove(k);
            map.remove(id);
        } else {
            let id = map.add(v(1 + next(120), 1 + next(120)));
            if id != 0 {
                live.push(id);
            }
        }
        assert_eq!(map.count(), live.len());
    }
    let total = map.get_size();
    let boxes: Vec<(Vector2, Point2)> = live.iter().map(|id| map.get(*id).unwrap()).collect();
    for (i, (s, q)) in boxes.iter().enumerate() {
        assert!(q.x + s.x <= total.x && q.y + s.y <= total.y);
        for (s2, q2) in boxes.iter().skip(i + 1) {
            let apart = q.x + s.x <= q2.x
                || q2.x + s2.x <= q.x
                || q.y + s.y <= q2.y
                || q2.y + s2.y <= q.y;
            assert!(apart);
        }
    }
}

#[test]
fn align_size_rounds_up() {
    let mut s = v(1, 16);
    align_size(16, &mut s);
    assert_eq!(s, v(16, 16));
    let mut s = v(0, 17);
    align_size(16, &mut s);
    assert_eq!(s, v(0, 32));
    let mut s = v(5, 7);
    align_size(1, &mut s);
    assert_eq!(s, v(5, 7));
}
