use hprtree::{BBox, Point, SpatiallyIndexable};

#[test]
fn bbox_width_and_height() {
    let b = BBox::new(-3, 2, 7, 10);
    assert_eq!(b.width(), 10);
    assert_eq!(b.height(), 8);
    let wide = BBox::new(i32::MIN, i32::MIN, i32::MAX, i32::MAX);
    assert_eq!(wide.width(), u32::MAX as i64);
    assert!(BBox::default().width() < 0);
}

#[test]
fn empty_box_expands_to_exactly_the_geometry() {
    let mut b = BBox::default();
    b.expand_to_include_point(&Point { x: 4, y: -9 });
    assert_eq!(b, BBox::new(4, -9, 4, -9));
    let mut c = BBox::default();
    c.expand_to_include(&BBox::new(1, 2, 3, 4));
    assert_eq!(c, BBox::new(1, 2, 3, 4));
    let mut d = BBox::default();
    d.expand_to_include_spatially_indexable(&Point { x: -1, y: 6 });
    assert_eq!(d, BBox::new(-1, 6, -1, 6));
}

#[test]
fn expand_takes_the_union() {
    let mut b = BBox::new(0, 0, 5, 5);
    b.expand_to_include(&BBox::new(-2, 3, 4, 9));
    assert_eq!(b, BBox::new(-2, 0, 5, 9));
    b.expand_to_include(&BBox::default());
    assert_eq!(b, BBox::new(-2, 0, 5, 9));
    b.expand_to_include_point(&Point { x: 8, y: -1 });
    assert_eq!(b, BBox::new(-2, -1, 8, 9));
}

#[test]
fn contains_is_closed_on_all_sides() {
    let b = BBox::new(0, 0, 10, 5);
    for p in [(0, 3), (10, 3), (4, 0), (4, 5), (0, 0), (10, 5), (5, 2)] {
        assert!(b.contains(&Point { x: p.0, y: p.1 }));
        assert!(b.contains_spatially_indexable(&Point { x: p.0, y: p.1 }));
    }
    for p in [(-1, 3), (11, 3), (4, -1), (4, 6)] {
        assert!(!b.contains(&Point { x: p.0, y: p.1 }));
        assert!(!b.contains_spatially_indexable(&Point { x: p.0, y: p.1 }));
    }
    assert!(!BBox::default().contains(&Point { x: 0, y: 0 }));
}

#[test]
fn touching_boxes_intersect() {
    let b = BBox::new(0, 0, 10, 10);
    assert!(b.intersects(&BBox::new(10, 10, 20, 20)));
    assert!(b.intersects(&BBox::new(-5, 3, 0, 4)));
    assert!(b.intersects(&BBox::new(2, 2, 3, 3)));
    assert!(!b.intersects(&BBox::new(11, 0, 20, 10)));
    assert!(!b.intersects(&BBox::new(0, -7, 10, -1)));
    assert!(!b.intersects(&BBox::default()));
}

#[test]
fn point_reports_its_coordinates() {
    let p = Point { x: 12, y: -34 };
    assert_eq!(p.x(), 12);
    assert_eq!(p.y(), -34);
}
