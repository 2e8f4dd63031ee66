use hprtree::{BBox, HPRTree, HPRTreeBuilder, HPRTreeWrapping, HPRTreeWrappingBuilder, IndexItem, Point};
use std::mem::size_of;

#[test]
fn projected_size_follows_the_fit() {
    // 16200 entries: 3 layer offsets and 1082 node bounds by the fit.
    let item = size_of::<IndexItem<usize>>();
    let expected = 16200 * item + 3 * size_of::<usize>() + 1082 * size_of::<BBox>() + size_of::<BBox>();
    assert_eq!(HPRTree::<usize>::projected_size_in_bytes(16200), expected);
    // No entries: the fit's intercept of 2 node bounds, and the extent.
    assert_eq!(HPRTree::<usize>::projected_size_in_bytes(0), 3 * size_of::<BBox>());
    let wrapped = 1036800 * size_of::<u64>() + 4 * size_of::<usize>() + 69156 * size_of::<BBox>()
        + size_of::<HPRTreeWrapping<u64>>();
    assert_eq!(HPRTreeWrapping::<u64>::projected_size_in_bytes(1036800), wrapped);
    assert_eq!(HPRTree::<usize>::projected_size_in_bytes(usize::MAX), usize::MAX);
}

#[test]
fn current_size_counts_entries_offsets_and_bounds() {
    let mut b = HPRTreeBuilder::new(300);
    let mut w = HPRTreeWrappingBuilder::new(300);
    for k in 0..300i32 {
        b.insert(k as u32, Point { x: k % 17, y: k / 17 });
        w.insert(k as u32, Point { x: k % 17, y: k / 17 });
    }
    let t = b.build();
    let tw = w.build();
    // 300 entries: 19 leaves, 2 nodes above them, one root; 4 layer offsets.
    let index = 4 * size_of::<usize>() + 22 * size_of::<BBox>();
    assert_eq!(
        t.current_size_in_bytes(),
        300 * size_of::<IndexItem<u32>>() + index + size_of::<BBox>()
    );
    assert_eq!(
        tw.current_size_in_bytes(),
        300 * size_of::<u32>() + index + size_of::<HPRTreeWrapping<u32>>()
    );
    let small: HPRTree<u8> = HPRTreeBuilder::new(0).build();
    assert_eq!(small.current_size_in_bytes(), size_of::<BBox>());
}
