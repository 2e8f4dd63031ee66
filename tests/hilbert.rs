use hprtree::hilbert::{grid_cell_of, hilbert_key_of, hilbert_xy_to_index};
use hprtree::{BBox, Point};

#[test]
fn hilbert_corners_and_centre() {
    assert_eq!(hilbert_xy_to_index(0, 0), 0);
    assert_eq!(hilbert_xy_to_index(1, 0), 1);
    assert_eq!(hilbert_xy_to_index(1, 1), 2);
    assert_eq!(hilbert_xy_to_index(0, 1), 3);
    assert_eq!(hilbert_xy_to_index(0, 4095), 0x55_5555);
    assert_eq!(hilbert_xy_to_index(4095, 4095), 0xAA_AAAA);
    assert_eq!(hilbert_xy_to_index(4095, 0), 0xFF_FFFF);
    assert_eq!(hilbert_xy_to_index(2048, 2048), 0x80_0000);
    assert_eq!(hilbert_xy_to_index(100, 200), 28272);
}

#[test]
fn hilbert_walks_a_corner_block_cell_by_cell() {
    // The first 64 x 64 cells take the first 4096 positions, and consecutive
    // positions are neighbouring cells.
    let mut cell_at = vec![(u32::MAX, u32::MAX); 4096];
    for x in 0..64u32 {
        for y in 0..64u32 {
            let d = hilbert_xy_to_index(x, y) as usize;
            assert!(d < 4096);
            assert_eq!(cell_at[d], (u32::MAX, u32::MAX));
            cell_at[d] = (x, y);
        }
    }
    for d in 1..4096 {
        let (a, b) = (cell_at[d - 1], cell_at[d]);
        assert_eq!(a.0.abs_diff(b.0) + a.1.abs_diff(b.1), 1);
    }
}

#[test]
fn grid_cells_span_the_extent() {
    assert_eq!(grid_cell_of(-180, -180, 180), 0);
    assert_eq!(grid_cell_of(180, -180, 180), 4095);
    assert_eq!(grid_cell_of(0, -180, 180), 2047);
    assert_eq!(grid_cell_of(1, 0, 3), 1365);
    assert_eq!(grid_cell_of(5, 5, 5), 0);
    assert_eq!(grid_cell_of(-1000, 0, 10), 0);
    assert_eq!(grid_cell_of(1000, 0, 10), 4095);
    assert_eq!(grid_cell_of(i32::MAX - 1, i32::MIN, i32::MAX), 4094);
}

#[test]
fn key_of_point_uses_each_axis_extent() {
    let extent = BBox::new(0, 100, 4095, 4195);
    assert_eq!(hilbert_key_of(&extent, &Point { x: 0, y: 100 }), 0);
    assert_eq!(hilbert_key_of(&extent, &Point { x: 1, y: 101 }), 2);
    assert_eq!(hilbert_key_of(&extent, &Point { x: 4095, y: 100 }), 0xFF_FFFF);
    let flat = BBox::new(7, 7, 7, 7);
    assert_eq!(hilbert_key_of(&flat, &Point { x: 7, y: 7 }), 0);
}
