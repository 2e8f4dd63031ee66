// Coordinates in these tests are in half units (or in ten-thousandths of a
// degree where stated), so that every point of the scenarios is an integer.
use hprtree::{BBox, HPRTreeBuilder, HPRTreeWrappingBuilder, Point};

fn pt(x: i32, y: i32) -> Point {
    Point { x, y }
}

#[test]
fn scenario_a_named_points() {
    let mut index = HPRTreeBuilder::new(10);
    index.insert("Bob".to_string(), pt(0, 0));
    for _ in 0..2 {
        index.insert("Alice".to_string(), pt(2, 2));
    }
    index.insert("James".to_string(), pt(5, -5));
    index.insert("Annie".to_string(), pt(40, 2));
    for _ in 0..5 {
        index.insert("Thomas".to_string(), pt(2, -100));
    }
    let index = index.build();

    let mut result = Vec::with_capacity(4);
    index.query_with_list(&BBox { minx: -10, miny: -10, maxx: 10, maxy: 10 }, &mut result);
    assert_eq!(result.len(), 4);
    result.sort();
    assert_eq!(result, vec!["Alice", "Alice", "Bob", "James"]);
}

#[test]
fn scenario_a_wrapping_variant() {
    let mut index = HPRTreeWrappingBuilder::new(10);
    index.insert("Bob", pt(0, 0));
    for _ in 0..2 {
        index.insert("Alice", pt(2, 2));
    }
    index.insert("James", pt(5, -5));
    index.insert("Annie", pt(40, 2));
    for _ in 0..5 {
        index.insert("Thomas", pt(2, -100));
    }
    let index = index.build();

    let mut result = index.query(&BBox { minx: -10, miny: -10, maxx: 10, maxy: 10 });
    assert_eq!(result.len(), 4);
    result.sort();
    assert_eq!(result, vec!["Alice", "Alice", "Bob", "James"]);
}

#[test]
fn hprtree_end_to_end() {
    // A 720 x 360 grid from (-180, -90) in steps of 0.5, in half units.
    let mut index = HPRTreeWrappingBuilder::new(259200);
    for i in 0..(180 * 2 * 2) {
        for j in 0..(90 * 2 * 2) {
            index.insert(i * 1000 + j, pt(-360 + i, -180 + j));
        }
    }
    assert_eq!(index.len(), 259200);
    let index = index.build();
    let list = index.query(&BBox { minx: -20, miny: -20, maxx: 20, maxy: 20 });
    assert!(list.len() == 1681);
    for elem in list {
        let j = elem % 1000;
        let i = (elem - j) / 1000;
        assert!(j <= 200);
        assert!(j >= 160);
        assert!(i <= 380);
        assert!(i >= 340);
    }
}

#[test]
fn scenario_b_engine_variant() {
    let mut index = HPRTreeBuilder::new(259200);
    for i in 0..720usize {
        for j in 0..360usize {
            index.insert(i * 1000 + j, pt(-360 + i as i32, -180 + j as i32));
        }
    }
    let index = index.build();
    let list = index.query(&BBox { minx: -20, miny: -20, maxx: 20, maxy: 20 });
    assert_eq!(list.len(), 1681);
    let mut seen = list.clone();
    seen.sort();
    seen.dedup();
    assert_eq!(seen.len(), 1681);
    for elem in list {
        let (i, j) = (elem / 1000, elem % 1000);
        assert!((340..=380).contains(&i));
        assert!((160..=200).contains(&j));
    }
}

/// A xorshift generator, so that the random data is the same on every run.
struct Rng(u64);

impl Rng {
    fn next(&mut self) -> u64 {
        self.0 ^= self.0 << 13;
        self.0 ^= self.0 >> 7;
        self.0 ^= self.0 << 17;
        self.0
    }

    /// A value in `lo..=hi`.
    fn range(&mut self, lo: i32, hi: i32) -> i32 {
        lo + (self.next() % ((hi - lo) as u64 + 1)) as i32
    }

    fn coin(&mut self) -> bool {
        self.next() % 2 == 0
    }
}

#[test]
fn random_contain_test() {
    // Ten-thousandths of a degree.
    const N_INCLUDED: usize = 100_000;
    const N_EXCLUDED: usize = 50_000;
    const D: i32 = 10_000;
    let mut rng = Rng(0x2545_F491_4F6C_DD1D);

    let mut index = HPRTreeWrappingBuilder::new(N_INCLUDED + N_EXCLUDED);
    let bbox_included_lim = BBox { minx: -180 * D, miny: -90 * D, maxx: 180 * D, maxy: 90 * D };
    let mut bbox_included = BBox::default();
    let mut bbox_all = BBox::default();

    for _ in 0..N_INCLUDED {
        let p = pt(rng.range(-180 * D, 180 * D), rng.range(-90 * D, 90 * D));
        bbox_included.expand_to_include_point(&p);
        bbox_all.expand_to_include_point(&p);
        index.insert(true, p);
    }
    for _ in 0..N_EXCLUDED {
        let x = if rng.coin() {
            rng.range(-360 * D, -180 * D - 1)
        } else {
            rng.range(180 * D + 1, 360 * D - 1)
        };
        let y = if rng.coin() {
            rng.range(-180 * D, -90 * D - 1)
        } else {
            rng.range(90 * D + 1, 180 * D - 1)
        };
        let p = pt(x, y);
        bbox_all.expand_to_include_point(&p);
        index.insert(false, p);
    }

    let index = index.build();
    assert!(index.len() == N_INCLUDED + N_EXCLUDED);

    let query_included_lim = index.query(&bbox_included_lim);
    assert!(query_included_lim.len() == N_INCLUDED);
    for i in query_included_lim {
        assert!(i);
    }

    let query_included = index.query(&bbox_included);
    assert!(query_included.len() == N_INCLUDED);
    for i in query_included {
        assert!(i);
    }

    let query_all = index.query(&bbox_all);
    assert!(query_all.len() == N_INCLUDED + N_EXCLUDED);

    let query_top =
        index.query(&BBox { minx: -360 * D, miny: 90 * D + 1, maxx: 360 * D, maxy: 180 * D });
    let query_bottom =
        index.query(&BBox { minx: -360 * D, miny: -180 * D, maxx: 360 * D, maxy: -90 * D - 1 });
    let query_right =
        index.query(&BBox { minx: 180 * D + 1, miny: -90 * D, maxx: 360 * D, maxy: 90 * D });
    let query_left =
        index.query(&BBox { minx: -360 * D, miny: -90 * D, maxx: -180 * D - 1, maxy: 90 * D });

    assert!(
        query_top.len() + query_left.len() + query_bottom.len() + query_right.len() == N_EXCLUDED
    );
    for i in query_top
        .into_iter()
        .chain(query_left.into_iter())
        .chain(query_bottom.into_iter())
        .chain(query_right.into_iter())
    {
        assert!(!i);
    }
}
