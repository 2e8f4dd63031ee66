use hprtree::{BBox, HPRTree, HPRTreeBuilder, HPRTreeWrappingBuilder, Point, NODE_CAPACITY};

fn pt(x: i32, y: i32) -> Point {
    Point { x, y }
}

/// A scattered cloud of `n` points, each tagged by its insertion index.
fn cloud(n: usize) -> Vec<(usize, Point)> {
    let mut state: u64 = 0x9E37_79B9_7F4A_7C15;
    (0..n)
        .map(|i| {
            state = state.wrapping_mul(6364136223846793005).wrapping_add(1442695040888963407);
            let x = ((state >> 33) % 2001) as i32 - 1000;
            let y = ((state >> 13) % 1001) as i32 - 500;
            (i, pt(x, y))
        })
        .collect()
}

fn build(points: &[(usize, Point)]) -> HPRTree<usize> {
    let mut b = HPRTreeBuilder::new(points.len());
    for (tag, p) in points {
        b.insert(*tag, *p);
    }
    b.build()
}

fn scan(points: &[(usize, Point)], q: &BBox) -> Vec<usize> {
    let mut r: Vec<usize> = points.iter().filter(|(_, p)| q.contains(p)).map(|(t, _)| *t).collect();
    r.sort();
    r
}

fn sorted(mut v: Vec<usize>) -> Vec<usize> {
    v.sort();
    v
}

fn boxes() -> Vec<BBox> {
    vec![
        BBox::new(-1000, -500, 1000, 500),
        BBox::new(-10, -10, 10, 10),
        BBox::new(-300, 0, 250, 90),
        BBox::new(999, 499, 2000, 2000),
        BBox::new(0, 0, 0, 0),
        BBox::new(-5000, -5000, -1001, 5000),
        BBox::new(17, -400, 640, -399),
        BBox::new(i32::MIN, i32::MIN, i32::MAX, i32::MAX),
    ]
}

#[test]
fn query_equals_linear_scan() {
    for n in [0usize, 1, 15, 16, 17, 255, 256, 257, 4096, 5000] {
        let points = cloud(n);
        let tree = build(&points);
        for q in boxes() {
            assert_eq!(sorted(tree.query(&q)), scan(&points, &q), "n = {}, q = {:?}", n, q);
        }
    }
}

#[test]
fn query_of_full_extent_returns_everything() {
    for n in [5usize, 15, 16, 40, 3000] {
        let points = cloud(n);
        let tree = build(&points);
        let all = sorted(tree.query(&tree.extent()));
        assert_eq!(all, (0..n).collect::<Vec<usize>>());
        assert_eq!(tree.len(), n);
    }
}

#[test]
fn query_disjoint_from_extent_is_empty() {
    for n in [3usize, 300] {
        let tree = build(&cloud(n));
        let e = tree.extent();
        let beyond = BBox::new(e.maxx + 1, e.miny, e.maxx + 50, e.maxy);
        assert!(!e.intersects(&beyond));
        assert!(tree.query(&beyond).is_empty());
        let mut list = vec![7usize];
        tree.query_with_list(&beyond, &mut list);
        assert_eq!(list, vec![7]);
    }
}

#[test]
fn presorted_build_matches_direct_build() {
    let points = cloud(2000);
    let direct = build(&points);
    let mut b = HPRTreeBuilder::new(points.len());
    for (tag, p) in &points {
        b.insert(*tag, *p);
    }
    b.sort_items();
    let presorted = b.build_sorted();
    for q in boxes() {
        assert_eq!(sorted(direct.query(&q)), sorted(presorted.query(&q)));
    }
}

#[test]
fn builds_of_same_sequence_answer_alike() {
    let points = cloud(1234);
    let a = build(&points);
    let b = build(&points);
    for q in boxes() {
        assert_eq!(a.query(&q), b.query(&q));
    }
}

#[test]
fn points_on_every_edge_are_included() {
    let q = BBox::new(-4, -3, 6, 8);
    let on_edges = [pt(-4, 0), pt(6, 0), pt(0, -3), pt(0, 8), pt(-4, -3), pt(6, 8)];
    for p in on_edges.iter() {
        assert!(q.contains(p));
    }
    let mut points: Vec<(usize, Point)> = on_edges.iter().copied().enumerate().collect();
    // Just outside each edge.
    for (k, p) in [pt(-5, 0), pt(7, 0), pt(0, -4), pt(0, 9)].iter().enumerate() {
        points.push((100 + k, *p));
    }
    // Enough filler inside to give the tree layers.
    for k in 0..40 {
        points.push((200 + k, pt(k as i32 % 5, k as i32 % 7)));
    }
    let tree = build(&points);
    assert_eq!(sorted(tree.query(&q)), scan(&points, &q));
    let found = tree.query(&q);
    for k in 0..on_edges.len() {
        assert!(found.contains(&k));
    }
    for k in 100..104 {
        assert!(!found.contains(&k));
    }
}

#[test]
fn empty_builder_builds_empty_tree() {
    let b: HPRTreeBuilder<u8> = HPRTreeBuilder::new(0);
    assert!(b.is_empty());
    assert_eq!(b.extent(), BBox::default());
    let tree = b.build();
    assert!(tree.is_empty());
    assert_eq!(tree.len(), 0);
    assert!(tree.query(&BBox::new(i32::MIN, i32::MIN, i32::MAX, i32::MAX)).is_empty());
}

#[test]
fn identical_points_fall_back_to_unit_stride() {
    let mut b = HPRTreeWrappingBuilder::new(100);
    for k in 0..100u32 {
        b.insert(k, pt(42, -7));
    }
    assert_eq!(b.extent(), BBox::new(42, -7, 42, -7));
    let tree = b.build();
    assert_eq!(tree.query(&BBox::new(42, -7, 42, -7)).len(), 100);
    assert!(tree.query(&BBox::new(43, -7, 50, 0)).is_empty());
}

#[test]
fn builder_extent_widens_with_each_insert() {
    let mut b = HPRTreeBuilder::new(2);
    assert_eq!(b.extent(), BBox::default());
    b.insert('a', pt(3, -2));
    assert_eq!(b.extent(), BBox::new(3, -2, 3, -2));
    b.insert('b', pt(-1, 5));
    assert_eq!(b.extent(), BBox::new(-1, -2, 3, 5));
    assert_eq!(b.len(), 2);
    assert!(!b.is_empty());
    let tree = b.build();
    assert_eq!(tree.extent(), BBox::new(-1, -2, 3, 5));
}

#[test]
fn wrapping_sort_then_build_sorted() {
    let points = cloud(700);
    let mut b = HPRTreeWrappingBuilder::new(points.len());
    for (tag, p) in &points {
        b.insert(*tag, *p);
    }
    b.sort_items();
    assert_eq!(b.len(), 700);
    let tree = b.build_sorted();
    assert_eq!(tree.len(), 700);
    assert!(!tree.is_empty());
    for q in boxes() {
        assert_eq!(sorted(tree.query(&q)), scan(&points, &q));
    }
}

#[test]
fn sort_items_orders_by_hilbert_key() {
    // Points inserted against the order of the curve come back along it.
    let mut points = Vec::new();
    for k in 0..(2 * NODE_CAPACITY) {
        points.push((k, pt(1000 - 31 * k as i32, (k as i32 * 17) % 23)));
    }
    let mut b = HPRTreeBuilder::new(points.len());
    for (tag, p) in &points {
        b.insert(*tag, *p);
    }
    let extent = b.extent();
    let inserted: Vec<u32> =
        points.iter().map(|(_, p)| hprtree::hilbert::hilbert_key_of(&extent, p)).collect();
    let mut inserted_sorted = inserted.clone();
    inserted_sorted.sort();
    assert_ne!(inserted, inserted_sorted);
    b.sort_items();
    let tree = b.build_sorted();
    let order = tree.query(&extent);
    let keys: Vec<u32> =
        order.iter().map(|&t| hprtree::hilbert::hilbert_key_of(&extent, &points[t].1)).collect();
    let mut ascending = keys.clone();
    ascending.sort();
    assert_eq!(keys, ascending);
    assert_eq!(sorted(order), (0..points.len()).collect::<Vec<usize>>());
}

#[test]
fn small_trees_keep_insertion_order() {
    let points = cloud(NODE_CAPACITY - 1);
    let tree = build(&points);
    assert_eq!(tree.query(&tree.extent()), (0..NODE_CAPACITY - 1).collect::<Vec<usize>>());
}

#[test]
fn equal_keys_keep_insertion_order() {
    // Forty entries on one point share one Hilbert key; the stable sort keeps
    // them in the order of insertion, between the entries around them.
    let mut b = HPRTreeBuilder::new(60);
    b.insert(1000usize, pt(-50, -50));
    for k in 0..40usize {
        b.insert(k, pt(7, 7));
    }
    b.insert(2000usize, pt(50, 50));
    let tree = b.build();
    let on_point = tree.query(&BBox::new(7, 7, 7, 7));
    assert_eq!(on_point, (0..40).collect::<Vec<usize>>());
}
