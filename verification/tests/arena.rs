use loose_octree::arena::Arena;

#[test]
fn arena_hands_out_and_reuses_handles() {
    let mut a: Arena<&str> = Arena::new();
    assert!(!a.contains(0));
    assert!(!a.contains(1));
    let x = a.insert("x");
    let y = a.insert("y");
    let z = a.insert("z");
    assert_eq!((x, y, z), (1, 2, 3));
    assert_eq!(a.get(y), Some(&"y"));
    assert_eq!(a.get(0), None);
    assert_eq!(a.get(4), None);
    assert_eq!(a.remove(y), "y");
    assert!(!a.contains(y));
    assert_eq!(a.get(y), None);
    assert_eq!(a.remove(x), "x");
    // the handle freed last is handed out first
    assert_eq!(a.insert("u"), x);
    assert_eq!(a.insert("v"), y);
    assert_eq!(a.insert("w"), 4);
    *a.at_mut(z) = "zz";
    assert_eq!(*a.at(z), "zz");
}
