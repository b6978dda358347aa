use netext_core::geometry::Point;
use netext_core::raw_area::{RawArea, RawPoint};

fn area() -> RawArea {
    RawArea { top_left: Point::new(-1, 2), bottom_right: Point::new(2, 4) }
}

#[test]
fn raw_area_dimensions() {
    let a = area();
    assert_eq!(a.width(), 4);
    assert_eq!(a.height(), 3);
    assert_eq!(a.size(), 12);
    assert_eq!(a.num_segments(), 3 * 3 + 2 * 4);
}

#[test]
fn raw_area_of_one_point() {
    let a = RawArea { top_left: Point::new(7, 7), bottom_right: Point::new(7, 7) };
    assert_eq!(a.size(), 1);
    assert_eq!(a.num_segments(), 0);
    assert_eq!(a.point_to_raw_point(&Point::new(7, 7)), Some(RawPoint(0)));
}

#[test]
fn corners_fit_limits() {
    assert!(RawArea::corners_fit(Point::new(0, 0), Point::new(0, 0)));
    assert!(!RawArea::corners_fit(Point::new(1, 0), Point::new(0, 0)));
    assert!(RawArea::corners_fit(Point::new(0, 0), Point::new(0x7ff_ffff, 0)));
    assert!(!RawArea::corners_fit(Point::new(0, 0), Point::new(0x800_0000, 0)));
    assert!(!RawArea::corners_fit(Point::new(0, 0), Point::new(0x4000, 0x4000)));
}

#[test]
fn point_index_is_row_major() {
    let a = area();
    assert_eq!(a.point_to_raw_point(&Point::new(-1, 2)), Some(RawPoint(0)));
    assert_eq!(a.point_to_raw_point(&Point::new(2, 2)), Some(RawPoint(3)));
    assert_eq!(a.point_to_raw_point(&Point::new(0, 3)), Some(RawPoint(5)));
    assert_eq!(a.point_to_raw_point(&Point::new(2, 4)), Some(RawPoint(11)));
    assert_eq!(a.point_to_raw_point(&Point::new(3, 4)), None);
    assert_eq!(a.point_to_raw_point(&Point::new(-2, 2)), None);
    assert_eq!(a.point_to_raw_point(&Point::new(0, 1)), None);
    assert_eq!(a.point_to_raw_point(&Point::new(0, 5)), None);
}

#[test]
fn index_and_point_are_inverse() {
    let a = area();
    for i in 0..a.size() {
        let p = a.raw_index_to_point(i);
        assert_eq!(a.point_to_raw_point(&p), Some(RawPoint(i as u32)));
    }
    assert_eq!(a.raw_index_to_point(5), Point::new(0, 3));
}

#[test]
fn segment_index_formulas() {
    let a = area();
    // horizontal at (x, y) -> (x + 1, y): y * (width - 1) + x
    assert_eq!(a.segment_index_between(&Point::new(-1, 2), &Point::new(0, 2)), Some(0));
    assert_eq!(a.segment_index_between(&Point::new(1, 2), &Point::new(2, 2)), Some(2));
    assert_eq!(a.segment_index_between(&Point::new(0, 3), &Point::new(1, 3)), Some(1 * 3 + 1));
    // vertical at (x, y) -> (x, y + 1): (width - 1) * height + x * (height - 1) + y
    assert_eq!(a.segment_index_between(&Point::new(-1, 2), &Point::new(-1, 3)), Some(9));
    assert_eq!(a.segment_index_between(&Point::new(1, 3), &Point::new(1, 4)), Some(9 + 2 * 2 + 1));
    assert_eq!(a.segment_index_between(&Point::new(2, 3), &Point::new(2, 4)), Some(16));
}

#[test]
fn segment_index_is_the_same_both_ways() {
    let a = area();
    assert_eq!(
        a.segment_index_between(&Point::new(0, 2), &Point::new(-1, 2)),
        a.segment_index_between(&Point::new(-1, 2), &Point::new(0, 2))
    );
    assert_eq!(
        a.segment_index_between(&Point::new(1, 4), &Point::new(1, 3)),
        a.segment_index_between(&Point::new(1, 3), &Point::new(1, 4))
    );
}

#[test]
fn segment_index_of_other_pairs_is_none() {
    let a = area();
    assert_eq!(a.segment_index_between(&Point::new(0, 2), &Point::new(0, 2)), None);
    assert_eq!(a.segment_index_between(&Point::new(0, 2), &Point::new(2, 2)), None);
    assert_eq!(a.segment_index_between(&Point::new(0, 2), &Point::new(1, 3)), None);
    assert_eq!(a.segment_index_between(&Point::new(2, 2), &Point::new(3, 2)), None);
    assert_eq!(a.segment_index_between(&Point::new(0, 1), &Point::new(0, 2)), None);
}

#[test]
fn segment_indices_are_distinct_and_complete() {
    let a = area();
    let mut seen = vec![false; a.num_segments()];
    for y in 2..=4 {
        for x in -1..=2 {
            for (dx, dy) in [(1, 0), (0, 1)] {
                let from = Point::new(x, y);
                let to = Point::new(x + dx, y + dy);
                if let Some(i) = a.segment_index_between(&from, &to) {
                    assert!(!seen[i]);
                    seen[i] = true;
                }
            }
        }
    }
    assert!(seen.iter().all(|s| *s));
}

#[test]
fn prefix_sums_of_a_small_area() {
    let a = RawArea { top_left: Point::new(0, 0), bottom_right: Point::new(2, 1) };
    // horizontal: row 0: 1, 2; row 1: 3, 4; vertical: column 0: 5, column 1: 6, column 2: 7
    let values: Vec<i64> = vec![1, 2, 3, 4, 5, 6, 7];
    let mut px = vec![0i64; 6];
    let mut py = vec![0i64; 6];
    a.edge_prefix_sums(&values, &mut px, &mut py);
    assert_eq!(px, vec![0, 1, 3, 0, 3, 7]);
    assert_eq!(py, vec![0, 0, 0, 5, 6, 7]);
}

#[test]
fn prefix_sums_overwrite_what_was_there() {
    let a = RawArea { top_left: Point::new(0, 0), bottom_right: Point::new(1, 1) };
    let values: Vec<i64> = vec![10, 20, 30, 40];
    let mut px = vec![99i64; 4];
    let mut py = vec![-99i64; 4];
    a.edge_prefix_sums(&values, &mut px, &mut py);
    assert_eq!(px, vec![0, 10, 0, 20]);
    assert_eq!(py, vec![0, 0, 30, 40]);
}

#[test]
fn prefix_differences_are_range_sums() {
    let a = RawArea { top_left: Point::new(-2, -3), bottom_right: Point::new(4, 2) };
    let n = a.num_segments();
    let values: Vec<i64> = (0..n).map(|i| ((i * 37 + 11) % 23) as i64 - 5).collect();
    let mut px = vec![0i64; a.size()];
    let mut py = vec![0i64; a.size()];
    a.edge_prefix_sums(&values, &mut px, &mut py);
    for y in -3..=2 {
        for x0 in -2..=4 {
            for x1 in (x0 + 1)..=4 {
                let mut sum = 0i64;
                for x in x0..x1 {
                    let s = a.segment_index_between(&Point::new(x, y), &Point::new(x + 1, y)).unwrap();
                    sum += values[s];
                }
                let from = a.point_to_raw_point(&Point::new(x0, y)).unwrap().0 as usize;
                let to = a.point_to_raw_point(&Point::new(x1, y)).unwrap().0 as usize;
                assert_eq!(px[to] - px[from], sum);
            }
        }
    }
    for x in -2..=4 {
        for y0 in -3..=2 {
            for y1 in (y0 + 1)..=2 {
                let mut sum = 0i64;
                for y in y0..y1 {
                    let s = a.segment_index_between(&Point::new(x, y), &Point::new(x, y + 1)).unwrap();
                    sum += values[s];
                }
                let from = a.point_to_raw_point(&Point::new(x, y0)).unwrap().0 as usize;
                let to = a.point_to_raw_point(&Point::new(x, y1)).unwrap().0 as usize;
                assert_eq!(py[to] - py[from], sum);
            }
        }
    }
}
