use loose_octree::geometry::{intersects, intersects_loose, Aabb3, Point3, Vector3};
use loose_octree::node::{ChildNode, NodeList};
use loose_octree::octree::{Tree, ROOT};
use loose_octree::query::{ab_query_func, AbQueryArgs};

fn cube(lo: i32, hi: i32) -> Aabb3 {
    Aabb3::new(Point3::new(lo, lo, lo), Point3::new(hi, hi, hi))
}

fn boxed(x: i32, y: i32, z: i32, edge: i32) -> Aabb3 {
    Aabb3::new(Point3::new(x, y, z), Point3::new(x + edge, y + edge, z + edge))
}

fn collect_binds(tree: &Tree<usize>, q: &Aabb3) -> Vec<usize> {
    let mut args: AbQueryArgs<usize> = AbQueryArgs::new(*q);
    for id in tree.query(q, intersects) {
        let (aabb, bind) = tree.get(id).unwrap();
        ab_query_func(&mut args, id, aabb, bind);
    }
    args.result()
}

fn sorted(mut v: Vec<usize>) -> Vec<usize> {
    v.sort();
    v
}

fn slot_is_cell(tree: &Tree<usize>, cell: usize, slot: usize) -> bool {
    matches!(tree.get_cell(cell).unwrap().childs[slot], ChildNode::Oct(_, _))
}

fn slot_len(tree: &Tree<usize>, cell: usize, slot: usize) -> usize {
    match tree.get_cell(cell).unwrap().childs[slot] {
        ChildNode::Oct(_, n) => n,
        ChildNode::Ab(l) => l.len,
    }
}

/// Walks the whole tree and checks what every cell caches against what is
/// found; returns the number of entries found in and beneath the cell.
fn audit(tree: &Tree<usize>, cell: usize) -> usize {
    let c = tree.get_cell(cell).unwrap();
    let mut found = c.nodes.len;
    for i in 0..8 {
        match c.childs[i] {
            ChildNode::Oct(k, n) => {
                let kid = tree.get_cell(k).unwrap();
                assert_eq!(kid.parent, cell);
                assert_eq!(kid.parent_child, i);
                assert_eq!(kid.layer, c.layer + 1);
                assert_eq!(audit(tree, k), n);
                found += n;
            }
            ChildNode::Ab(l) => {
                found += l.len;
            }
        }
    }
    found
}

#[test]
fn test2() {
    let mut tree: Tree<usize> = Tree::new(cube(0, 1000), 0, 0, 0, 0);
    for i in 0..9 {
        tree.add(cube(0, 1), i + 1);
    }
    tree.update(1, Aabb3::new(Point3::new(0, 0, 0), Point3::new(0, 0, 1)));
    tree.collect();
    // Lengths are in hundredths: a root of edge 10 and entries of edge 0.1.
    let mut tree: Tree<usize> = Tree::new(cube(0, 1000), 0, 0, 0, 0);
    for i in 0..6 {
        tree.add(cube(0, 10), i + 1);
    }
    tree.collect();
    tree.shift(4, Vector3::new(200, 200, 100));
    tree.shift(5, Vector3::new(400, 400, 100));
    tree.shift(6, Vector3::new(1000, 1000, 100));
    tree.collect();
    let aabb = Aabb3::new(Point3::new(5, 5, 0), Point3::new(5, 5, 100000));
    assert_eq!(collect_binds(&tree, &aabb), [1, 2, 3]);
}

#[test]
fn new_applies_defaults() {
    let tree: Tree<usize> = Tree::new(cube(0, 1000), 0, 0, 0, 0);
    assert_eq!(tree.get_loose_ratio(), 3000);
    assert_eq!(tree.get_adjust(), (4, 5));
    // The slack is 300; half of it can be halved 8 times before it is 0.
    assert_eq!(tree.get_deep(), 8);
    let root = tree.get_cell(ROOT).unwrap();
    assert_eq!(root.aabb, cube(0, 1000));
    assert_eq!(root.loose, Vector3::new(300, 300, 300));
    assert_eq!(root.layer, 0);
    assert_eq!(root.parent, 0);
    assert_eq!(audit(&tree, ROOT), 0);
    assert!(tree.get_cell(0).is_none());
    assert!(tree.get_cell(2).is_none());
}

#[test]
fn new_clamps_parameters() {
    let tree: Tree<usize> = Tree::new(cube(0, 1 << 30), 9000, 7, 3, 99);
    assert_eq!(tree.get_loose_ratio(), 5000);
    assert_eq!(tree.get_adjust(), (7, 7));
    assert_eq!(tree.get_deep(), 24);
    let tree: Tree<usize> = Tree::new(cube(0, 1 << 30), 1, 2, 9, 3);
    assert_eq!(tree.get_loose_ratio(), 1);
    assert_eq!(tree.get_adjust(), (2, 9));
    assert_eq!(tree.get_deep(), 3);
}

#[test]
fn new_orders_the_corners() {
    let tree: Tree<usize> = Tree::new(
        Aabb3::new(Point3::new(10, -10, 10), Point3::new(-10, 10, -10)),
        0,
        0,
        0,
        0,
    );
    assert_eq!(tree.get_cell(ROOT).unwrap().aabb, cube(-10, 10));
}

#[test]
fn layer_follows_the_smallest_ratio() {
    let tree: Tree<usize> = Tree::new(cube(0, 1000), 0, 0, 0, 0);
    // slack 300: 300 / 1 = 300 has 9 binary digits
    assert_eq!(tree.get_layer(&cube(0, 1)), 9);
    // 300 / 10 = 30 has 5 binary digits
    assert_eq!(tree.get_layer(&cube(0, 10)), 5);
    // 300 / 300 = 1
    assert_eq!(tree.get_layer(&cube(0, 300)), 1);
    // 300 / 301 = 0
    assert_eq!(tree.get_layer(&cube(0, 301)), 0);
    // the largest extent decides
    assert_eq!(
        tree.get_layer(&Aabb3::new(Point3::new(0, 0, 0), Point3::new(1, 10, 100))),
        2
    );
    // an axis without extent does not count
    assert_eq!(
        tree.get_layer(&Aabb3::new(Point3::new(0, 0, 0), Point3::new(0, 0, 1))),
        9
    );
    // a point gets the highest layer
    assert_eq!(tree.get_layer(&cube(5, 5)), 64);
}

#[test]
fn layer_does_not_grow_with_the_box_and_ignores_position() {
    let tree: Tree<usize> = Tree::new(cube(0, 100000), 0, 0, 0, 0);
    let mut last = tree.get_layer(&cube(0, 1));
    for edge in 2..400 {
        let layer = tree.get_layer(&cube(0, edge));
        assert!(layer <= last);
        assert_eq!(tree.get_layer(&boxed(-777, 31, 90000, edge)), layer);
        last = layer;
    }
}

#[test]
fn add_places_by_position() {
    let mut tree: Tree<usize> = Tree::new(cube(0, 1000), 0, 0, 0, 0);
    // inside the root, near the low corner: octant 7
    let a = tree.add(cube(0, 10), 10);
    assert_eq!(a, 1);
    assert_eq!(slot_len(&tree, ROOT, 7), 1);
    // inside the root, near the high corner: octant 0
    let b = tree.add(cube(900, 910), 20);
    assert_eq!(b, 2);
    assert_eq!(slot_len(&tree, ROOT, 0), 1);
    // across the border of the root: own list of the root
    let c = tree.add(cube(990, 1010), 30);
    assert_eq!(tree.get_cell(ROOT).unwrap().nodes.len, 1);
    assert_eq!(tree.get_cell(ROOT).unwrap().nodes.head, c);
    // too large for any octant: own list of the root
    let d = tree.add(cube(100, 900), 40);
    assert_eq!(tree.get_cell(ROOT).unwrap().nodes.len, 2);
    assert_eq!(tree.get_cell(ROOT).unwrap().nodes.head, d);
    // away from the root: outer list
    let e = tree.add(cube(2000, 2010), 50);
    assert_eq!(tree.query_outer(), vec![e]);
    assert_eq!(audit(&tree, ROOT), 4);
    assert_eq!(tree.get(a), Some((&cube(0, 10), &10)));
    assert_eq!(tree.get(e), Some((&cube(2000, 2010), &50)));
    assert_eq!(tree.get(77), None);
    assert_eq!(tree.get_unchecked(b), (&cube(900, 910), &20));
}

#[test]
fn split_then_shrink() {
    let mut tree: Tree<usize> = Tree::new(cube(0, 1024), 0, 0, 0, 0);
    let mut ids = Vec::new();
    for i in 0..9 {
        ids.push(tree.add(boxed(i, i, i, 1), 100 + i as usize));
    }
    // nothing is restructured before the pass
    assert!(!slot_is_cell(&tree, ROOT, 7));
    assert_eq!(slot_len(&tree, ROOT, 7), 9);
    assert_eq!(tree.get_cell(ROOT).unwrap().nodes.len, 0);
    assert_eq!(tree.get_dirty_count(), 1);
    assert!(tree.get_cell(ROOT).unwrap().dirty != 0);
    tree.collect();
    assert_eq!(tree.get_dirty_count(), 0);
    assert!(slot_is_cell(&tree, ROOT, 7));
    assert_eq!(slot_len(&tree, ROOT, 7), 9);
    assert_eq!(tree.get_cell(ROOT).unwrap().nodes.len, 0);
    assert_eq!(audit(&tree, ROOT), 9);
    let everything = cube(-5000, 5000);
    assert_eq!(
        sorted(collect_binds(&tree, &everything)),
        vec![100, 101, 102, 103, 104, 105, 106, 107, 108]
    );
    for id in ids.iter().take(6) {
        tree.remove(*id);
    }
    // the child cell is still there before the pass
    assert!(slot_is_cell(&tree, ROOT, 7));
    assert_eq!(slot_len(&tree, ROOT, 7), 3);
    assert!(tree.get_dirty_count() >= 1);
    assert!(tree.get_cell(ROOT).unwrap().dirty != 0);
    tree.collect();
    assert!(!slot_is_cell(&tree, ROOT, 7));
    assert_eq!(slot_len(&tree, ROOT, 7), 3);
    assert!(tree.get_cell(2).is_none());
    assert_eq!(audit(&tree, ROOT), 3);
    assert_eq!(sorted(collect_binds(&tree, &everything)), vec![106, 107, 108]);
    // no cell is dirty after a pass, and a second pass changes nothing
    assert_eq!(tree.get_cell(ROOT).unwrap().dirty, 0);
    tree.collect();
    assert_eq!(slot_len(&tree, ROOT, 7), 3);
    assert_eq!(tree.get_dirty_count(), 0);
}

#[test]
fn outer_entries_are_found_by_the_outer_query_only() {
    let mut tree: Tree<usize> = Tree::new(cube(0, 100), 0, 0, 0, 0);
    let inside = tree.add(cube(10, 20), 1);
    let outside = tree.add(cube(500, 510), 2);
    assert_eq!(tree.query_outer(), vec![outside]);
    let everything = cube(-100000, 100000);
    assert_eq!(tree.query(&everything, intersects), vec![inside]);
    assert_eq!(collect_binds(&tree, &everything), vec![1]);
    tree.collect();
    assert_eq!(tree.query_outer(), vec![outside]);
    assert_eq!(tree.query(&everything, intersects), vec![inside]);
}

#[test]
fn add_then_remove_restores() {
    let mut tree: Tree<usize> = Tree::new(cube(0, 1000), 0, 0, 0, 0);
    for i in 0..4 {
        tree.add(boxed(i * 200, 0, 0, 5), i as usize);
    }
    tree.add(cube(3000, 3001), 9);
    let before_outer = tree.query_outer();
    let before_inner = tree.query(&cube(-9000, 9000), intersects);
    let before_total = audit(&tree, ROOT);
    let id = tree.add(cube(7, 9), 42);
    assert_eq!(audit(&tree, ROOT), before_total + 1);
    assert_eq!(tree.remove(id), (cube(7, 9), 42));
    assert_eq!(tree.get(id), None);
    assert_eq!(audit(&tree, ROOT), before_total);
    assert_eq!(tree.query_outer(), before_outer);
    assert_eq!(tree.query(&cube(-9000, 9000), intersects), before_inner);
    let out = tree.add(cube(-500, -490), 43);
    assert_eq!(out, id);
    assert_eq!(tree.query_outer().len(), before_outer.len() + 1);
    assert_eq!(tree.remove(out), (cube(-500, -490), 43));
    assert_eq!(tree.query_outer(), before_outer);
    assert_eq!(audit(&tree, ROOT), before_total);
}

#[test]
fn update_moves_between_tree_and_outer_list() {
    let mut tree: Tree<usize> = Tree::new(cube(0, 1000), 0, 0, 0, 0);
    let id = tree.add(cube(10, 20), 5);
    assert!(tree.query_outer().is_empty());
    assert!(tree.update(id, cube(5000, 5010)));
    assert_eq!(tree.query_outer(), vec![id]);
    assert_eq!(audit(&tree, ROOT), 0);
    assert_eq!(tree.get(id), Some((&cube(5000, 5010), &5)));
    assert!(tree.update(id, cube(995, 1005)));
    assert!(tree.query_outer().is_empty());
    assert_eq!(tree.get_cell(ROOT).unwrap().nodes.head, id);
    assert!(tree.update(id, cube(900, 910)));
    assert_eq!(tree.get_cell(ROOT).unwrap().nodes.len, 0);
    assert_eq!(slot_len(&tree, ROOT, 0), 1);
    assert!(!tree.update(99, cube(0, 1)));
    assert!(!tree.shift(99, Vector3::new(1, 1, 1)));
    assert!(!tree.update_bind(99, 1));
    assert!(tree.update_bind(id, 6));
    assert_eq!(tree.get(id), Some((&cube(900, 910), &6)));
}

#[test]
fn update_climbs_out_of_child_cells() {
    let mut tree: Tree<usize> = Tree::new(cube(0, 1024), 0, 0, 0, 0);
    let mut ids = Vec::new();
    for i in 0..8 {
        ids.push(tree.add(boxed(i, i, i, 1), i as usize));
    }
    tree.collect();
    assert!(slot_is_cell(&tree, ROOT, 7));
    assert_eq!(audit(&tree, ROOT), 8);
    // to the other corner of the root
    assert!(tree.update(ids[0], cube(1000, 1001)));
    assert_eq!(slot_len(&tree, ROOT, 7), 7);
    assert_eq!(slot_len(&tree, ROOT, 0), 1);
    assert_eq!(audit(&tree, ROOT), 8);
    // out of the root
    assert!(tree.shift(ids[1], Vector3::new(5000, 0, 0)));
    assert_eq!(tree.query_outer(), vec![ids[1]]);
    assert_eq!(audit(&tree, ROOT), 7);
    // growing to the size of the root
    assert!(tree.update(ids[2], cube(1, 1000)));
    assert_eq!(tree.get_cell(ROOT).unwrap().nodes.head, ids[2]);
    assert_eq!(audit(&tree, ROOT), 7);
    // five are left beneath the child cell, at the shrink threshold still
    assert_eq!(slot_len(&tree, ROOT, 7), 5);
    assert!(tree.update(ids[3], cube(1000, 1001)));
    assert!(tree.update(ids[4], cube(1000, 1001)));
    assert_eq!(slot_len(&tree, ROOT, 7), 3);
    tree.collect();
    assert!(!slot_is_cell(&tree, ROOT, 7));
    assert_eq!(slot_len(&tree, ROOT, 7), 3);
    assert_eq!(audit(&tree, ROOT), 7);
    let found = sorted(collect_binds(&tree, &cube(-1, 2000)));
    assert_eq!(found, vec![0, 2, 3, 4, 5, 6, 7]);
}

#[test]
fn query_finds_exactly_the_overlapping_entries() {
    let mut tree: Tree<usize> = Tree::new(cube(-512, 512), 0, 0, 0, 0);
    let mut boxes = Vec::new();
    let mut seed: u32 = 12345;
    let mut next = |m: i32| -> i32 {
        seed = seed.wrapping_mul(1103515245).wrapping_add(12345);
        ((seed >> 8) % (m as u32)) as i32
    };
    for i in 0..300 {
        let edge = 1 + next(60);
        let b = boxed(next(1400) - 700, next(1400) - 700, next(1400) - 700, edge);
        let id = tree.add(b, i);
        boxes.push((id, b, i));
        if i % 40 == 0 {
            tree.collect();
        }
    }
    // move some, remove some
    for k in 0..100 {
        let (id, b, v) = boxes[k * 3];
        if k % 4 == 0 {
            tree.remove(id);
            boxes[k * 3] = (0, b, v);
        } else {
            let nb = boxed(next(1400) - 700, next(1400) - 700, next(1400) - 700, 1 + next(200));
            assert!(tree.update(id, nb));
            boxes[k * 3] = (id, nb, v);
        }
        if k % 25 == 0 {
            tree.collect();
        }
    }
    tree.collect();
    let root = cube(-512, 512);
    let slack = tree.get_cell(ROOT).unwrap().loose;
    assert_eq!(slack, Vector3::new(307, 307, 307));
    let live: Vec<(usize, Aabb3, usize)> =
        boxes.iter().cloned().filter(|(id, _, _)| *id != 0).collect();
    let inner = live
        .iter()
        .filter(|(_, b, _)| root.contains(b) || intersects_loose(&root, &slack, b))
        .count();
    assert_eq!(audit(&tree, ROOT), inner);
    assert_eq!(tree.query_outer().len(), live.len() - inner);
    for _ in 0..50 {
        let q = boxed(next(1200) - 600, next(1200) - 600, next(1200) - 600, 1 + next(300));
        let expected: Vec<usize> = live
            .iter()
            .filter(|(_, b, _)| {
                (root.contains(b) || intersects_loose(&root, &slack, b)) && intersects(&q, b)
            })
            .map(|(_, _, v)| *v)
            .collect();
        assert_eq!(sorted(collect_binds(&tree, &q)), sorted(expected));
        // every visited handle is visited once
        let visited = tree.query(&q, intersects);
        let mut seen = sorted(visited.clone());
        seen.dedup();
        assert_eq!(seen.len(), visited.len());
    }
}

#[test]
fn collision_lists_root_list_and_siblings() {
    let mut tree: Tree<usize> = Tree::new(cube(0, 1000), 0, 0, 0, 0);
    let big = tree.add(cube(100, 900), 1);
    let a = tree.add(cube(0, 10), 2);
    let b = tree.add(cube(1, 11), 3);
    let c = tree.add(cube(2, 12), 4);
    // the list of octant 7 is c, b, a from its head
    assert_eq!(tree.collision(b, 0), vec![big, a, c]);
    assert_eq!(tree.collision(c, 0), vec![big, b, a]);
    assert_eq!(tree.collision(a, 0), vec![big, b, c]);
    // an entry of the root list does not meet itself
    assert_eq!(tree.collision(big, 0), Vec::<usize>::new());
    assert_eq!(tree.collision(99, 0), Vec::<usize>::new());
    // three entries in the own list of the root: d, wide, big from its head
    let wide = tree.add(cube(50, 950), 5);
    let d = tree.add(cube(990, 1010), 6);
    assert_eq!(tree.collision(big, 0), vec![wide, d]);
    assert_eq!(tree.collision(wide, 0), vec![big, d]);
    assert_eq!(tree.collision(d, 0), vec![wide, big]);
    assert_eq!(tree.collision(b, 0), vec![d, wide, big, a, c]);
}

#[test]
fn collision_until_stops_at_the_first_refusal() {
    let mut tree: Tree<usize> = Tree::new(cube(0, 1000), 0, 0, 0, 0);
    let big = tree.add(cube(100, 900), 1);
    let a = tree.add(cube(0, 10), 2);
    let b = tree.add(cube(1, 11), 3);
    let c = tree.add(cube(2, 12), 4);
    // the whole enumeration for b is big, a, c
    let all = tree.collision_until(b, |_: usize, _: &Aabb3, _: &usize| true);
    assert_eq!(all, vec![big, a, c]);
    // a test that refuses at once is called once
    let calls = std::cell::Cell::new(0);
    let one = tree.collision_until(b, |_: usize, _: &Aabb3, _: &usize| {
        calls.set(calls.get() + 1);
        false
    });
    assert_eq!(one, vec![big]);
    assert_eq!(calls.get(), 1);
    // the test sees the handle, the box and the payload of the other entry
    let two = tree.collision_until(b, |other: usize, aabb: &Aabb3, bind: &usize| {
        assert_ne!(other, b);
        assert_eq!(tree.get(other), Some((aabb, bind)));
        *bind != 2
    });
    assert_eq!(two, vec![big, a]);
    // the last entry may refuse too
    let three = tree.collision_until(b, |other: usize, _: &Aabb3, _: &usize| other != c);
    assert_eq!(three, vec![big, a, c]);
    let none = tree.collision_until(99, |_: usize, _: &Aabb3, _: &usize| false);
    assert_eq!(none, Vec::<usize>::new());
}

#[test]
fn node_list_push_counts() {
    let mut list = NodeList::new();
    assert_eq!((list.head, list.len), (0, 0));
    list.push(7);
    list.push(3);
    assert_eq!((list.head, list.len), (3, 2));
}

#[test]
fn handles_are_reused() {
    let mut tree: Tree<usize> = Tree::new(cube(0, 1000), 0, 0, 0, 0);
    let a = tree.add(cube(0, 1), 1);
    let b = tree.add(cube(0, 1), 2);
    assert_eq!((a, b), (1, 2));
    tree.remove(a);
    assert_eq!(tree.add(cube(0, 1), 3), a);
    assert_eq!(tree.add(cube(0, 1), 4), 3);
}

#[test]
fn deep_trees_split_repeatedly() {
    let mut tree: Tree<usize> = Tree::new(cube(0, 1 << 20), 0, 0, 0, 0);
    for i in 0..40 {
        tree.add(boxed(i % 3, i % 5, i % 7, 1), i as usize);
    }
    tree.collect();
    assert_eq!(audit(&tree, ROOT), 40);
    assert_eq!(tree.get_dirty_count(), 0);
    // the chain of child cells towards the low corner is several cells deep
    let mut cell = ROOT;
    let mut depth = 0;
    while let ChildNode::Oct(k, _) = tree.get_cell(cell).unwrap().childs[7] {
        cell = k;
        depth += 1;
    }
    assert!(depth >= 3);
    let q = cube(-1, 100);
    assert_eq!(collect_binds(&tree, &q).len(), 40);
    // only the boxes that begin below 2 on every axis overlap this one
    assert_eq!(sorted(collect_binds(&tree, &cube(0, 2))), vec![0, 1, 15, 21, 36]);
    for id in 1..=40 {
        tree.remove(id);
    }
    tree.collect();
    assert_eq!(audit(&tree, ROOT), 0);
    assert!(!slot_is_cell(&tree, ROOT, 7));
    assert!(tree.get_cell(2).is_none());
}

/// Walks the cell and everything beneath it and checks every slot against
/// the thresholds: a slot over its threshold must be marked as pending, and
/// none may be when `settled` is set.
fn check_slots(tree: &Tree<usize>, cell: usize, settled: bool) {
    let (shrink, split) = tree.get_adjust();
    let c = tree.get_cell(cell).unwrap();
    if settled {
        assert_eq!(c.dirty, 0);
    }
    for i in 0..8 {
        let due = match c.childs[i] {
            ChildNode::Oct(k, n) => {
                check_slots(tree, k, settled);
                n < shrink
            }
            ChildNode::Ab(l) => l.len > split && c.layer < tree.get_deep(),
        };
        if due {
            assert!(!settled);
            assert!(c.dirty & (1 << i) != 0);
            assert!(tree.get_dirty_count() > 0);
        }
    }
}

#[test]
fn slots_over_a_threshold_are_pending_until_the_next_pass() {
    let mut tree: Tree<usize> = Tree::new(cube(-512, 512), 0, 0, 0, 0);
    let mut seed: u32 = 2024;
    let mut next = |m: i32| -> i32 {
        seed = seed.wrapping_mul(1103515245).wrapping_add(12345);
        ((seed >> 8) % (m as u32)) as i32
    };
    let mut ids = Vec::new();
    for round in 0..6 {
        for i in 0..80 {
            let b = boxed(next(900) - 450, next(900) - 450, next(900) - 450, 1 + next(40));
            ids.push(tree.add(b, i));
            check_slots(&tree, ROOT, false);
        }
        for k in 0..ids.len() {
            if k % 3 == round % 3 && ids[k] != 0 {
                if k % 2 == 0 {
                    tree.remove(ids[k]);
                    ids[k] = 0;
                } else {
                    let b = boxed(next(900) - 450, next(900) - 450, next(900) - 450, 1 + next(90));
                    assert!(tree.update(ids[k], b));
                }
                check_slots(&tree, ROOT, false);
            }
        }
        tree.collect();
        assert_eq!(tree.get_dirty_count(), 0);
        check_slots(&tree, ROOT, true);
        let live = ids.iter().filter(|id| **id != 0).count();
        assert_eq!(audit(&tree, ROOT) + tree.query_outer().len(), live);
    }
}

#[test]
fn a_list_at_the_deepest_layer_is_never_split() {
    // With a depth of 1 only the root can have child cells.
    let mut tree: Tree<usize> = Tree::new(cube(0, 1024), 0, 0, 0, 1);
    assert_eq!(tree.get_deep(), 1);
    for i in 0..20 {
        tree.add(cube(0, 1), i);
    }
    tree.collect();
    check_slots(&tree, ROOT, true);
    let kid = match tree.get_cell(ROOT).unwrap().childs[7] {
        ChildNode::Oct(k, n) => {
            assert_eq!(n, 20);
            k
        }
        ChildNode::Ab(_) => panic!("no child cell"),
    };
    let cell = tree.get_cell(kid).unwrap();
    assert_eq!(cell.layer, 1);
    assert_eq!(slot_len(&tree, kid, 7), 20);
    assert!(!slot_is_cell(&tree, kid, 7));
}

#[test]
fn a_box_in_the_margin_of_the_root_is_inside_the_tree() {
    // The slack of this root is 300 on every axis.
    let mut tree: Tree<usize> = Tree::new(cube(0, 1000), 0, 0, 0, 0);
    let near = tree.add(
        Aabb3::new(Point3::new(1001, 0, 0), Point3::new(1002, 1, 1)),
        1,
    );
    assert!(tree.query_outer().is_empty());
    assert_eq!(tree.get_cell(ROOT).unwrap().nodes.head, near);
    assert_eq!(tree.query(&cube(-5000, 5000), intersects), vec![near]);
    // the margin ends at 1300: a box that begins there is outside
    let edge = tree.add(boxed(1300, 0, 0, 5), 2);
    assert_eq!(tree.query_outer(), vec![edge]);
    let last = tree.add(boxed(1299, 0, 0, 5), 3);
    assert_eq!(tree.get_cell(ROOT).unwrap().nodes.head, last);
    // moving within the margin keeps an entry in the own list of the root
    assert!(tree.update(near, boxed(-200, -200, -200, 10)));
    assert_eq!(tree.query_outer(), vec![edge]);
    assert_eq!(tree.get_cell(ROOT).unwrap().nodes.len, 2);
    // moving out of the margin sends it to the outer list, and back
    assert!(tree.update(near, boxed(-400, 0, 0, 10)));
    assert_eq!(tree.query_outer(), vec![near, edge]);
    assert!(tree.update(edge, boxed(1250, 0, 0, 5)));
    assert_eq!(tree.query_outer(), vec![near]);
    assert_eq!(audit(&tree, ROOT), 2);
}

#[test]
fn a_cell_is_counted_as_waiting_once() {
    let mut tree: Tree<usize> = Tree::new(cube(0, 1000), 0, 0, 0, 0);
    for i in 0..5 {
        tree.add(cube(0, 1), i);
        assert_eq!(tree.get_dirty_count(), 0);
    }
    // the sixth entry makes the list longer than the split threshold
    tree.add(cube(0, 1), 5);
    assert_eq!(tree.get_dirty_count(), 1);
    assert_eq!(tree.get_cell(ROOT).unwrap().dirty, 1 << 7);
    tree.add(cube(0, 1), 6);
    assert_eq!(tree.get_dirty_count(), 1);
    // another slot of the same cell is marked, the cell is not counted again
    for i in 0..6 {
        tree.add(cube(900, 901), 10 + i);
    }
    assert_eq!(tree.get_cell(ROOT).unwrap().dirty, (1 << 7) | 1);
    assert_eq!(tree.get_dirty_count(), 1);
    tree.collect();
    assert_eq!(tree.get_dirty_count(), 0);
    assert_eq!(tree.get_cell(ROOT).unwrap().dirty, 0);
    assert!(slot_is_cell(&tree, ROOT, 7));
    assert!(slot_is_cell(&tree, ROOT, 0));
    assert_eq!(slot_len(&tree, ROOT, 7), 7);
    assert_eq!(slot_len(&tree, ROOT, 0), 6);
    assert_eq!(tree.get_cell(ROOT).unwrap().nodes.len, 0);
    // removing entries marks the slot once its count is below the shrink
    // threshold, and the pass folds the child cell back into a list
    for id in 1..=4 {
        tree.remove(id);
    }
    assert_eq!(tree.get_cell(ROOT).unwrap().dirty, 1 << 7);
    assert_eq!(slot_len(&tree, ROOT, 7), 3);
    tree.collect();
    assert!(!slot_is_cell(&tree, ROOT, 7));
    assert_eq!(slot_len(&tree, ROOT, 7), 3);
    assert!(slot_is_cell(&tree, ROOT, 0));
}
