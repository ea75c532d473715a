use donda::color::{get_color_for_count, ColorBucket};
use donda::date::Date;
use donda::grid::{
    build_grid, cell_coordinate, count_for_date, week_anchors, DateRange, SubmitRecord,
};
use donda::thresholds::determine_color_thresholds;

fn d(year: u32, month: u32, day: u32) -> Date {
    Date { year, month, day }
}

#[test]
fn thresholds_are_sorted_quintiles() {
    // Ten counts: ranks 2, 4, 6 and 8 of the sorted data.
    let counts = vec![9, 1, 8, 2, 7, 3, 6, 4, 5, 0];
    let t = determine_color_thresholds(&counts);
    assert_eq!(t, vec![2, 4, 6, 8]);
    assert!(t[0] <= t[1] && t[1] <= t[2] && t[2] <= t[3]);
}

#[test]
fn thresholds_order_independent() {
    let a = determine_color_thresholds(&[3, 1, 4, 1, 5, 9, 2, 6]);
    let b = determine_color_thresholds(&[9, 6, 5, 4, 3, 2, 1, 1]);
    assert_eq!(a, b);
}

#[test]
fn thresholds_of_single_count() {
    assert_eq!(determine_color_thresholds(&[3]), vec![3, 3, 3, 3]);
}

#[test]
fn thresholds_of_empty_data() {
    // An empty collection degrades to four zero cut points.
    let t = determine_color_thresholds(&[]);
    assert_eq!(t, vec![0, 0, 0, 0]);
    assert_eq!(get_color_for_count(0, &t), ColorBucket::Zero);
    assert_eq!(get_color_for_count(1, &t), ColorBucket::Overflow);
    assert_eq!(get_color_for_count(100, &t), ColorBucket::Overflow);
}

#[test]
fn classify_cascades_with_ties_low() {
    let t = vec![2, 4, 6, 8];
    assert_eq!(get_color_for_count(0, &t), ColorBucket::Zero);
    assert_eq!(get_color_for_count(1, &t), ColorBucket::Bucket1);
    assert_eq!(get_color_for_count(2, &t), ColorBucket::Bucket1);
    assert_eq!(get_color_for_count(3, &t), ColorBucket::Bucket2);
    assert_eq!(get_color_for_count(4, &t), ColorBucket::Bucket2);
    assert_eq!(get_color_for_count(5, &t), ColorBucket::Bucket3);
    assert_eq!(get_color_for_count(6, &t), ColorBucket::Bucket3);
    assert_eq!(get_color_for_count(7, &t), ColorBucket::Bucket4);
    assert_eq!(get_color_for_count(8, &t), ColorBucket::Bucket4);
    assert_eq!(get_color_for_count(9, &t), ColorBucket::Overflow);
    assert_eq!(get_color_for_count(u32::MAX, &t), ColorBucket::Overflow);
}

#[test]
fn classify_zero_beats_zero_cut_points() {
    // A zero count is Zero even when the first cut point is also zero,
    // and a nonzero count at a zero cut point still lands in a bucket.
    let t = vec![0, 0, 5, 9];
    assert_eq!(get_color_for_count(0, &t), ColorBucket::Zero);
    assert_eq!(get_color_for_count(1, &t), ColorBucket::Bucket3);
}

#[test]
fn anchors_of_one_week() {
    // 2024-11-01 falls on a Friday, so under full-week inclusion the
    // range 2024-11-01 .. 2024-11-07 spans two anchor weeks.
    let range = DateRange { start: d(2024, 11, 1), end: d(2024, 11, 7) };
    let anchors = week_anchors(&range);
    assert_eq!(anchors, vec![d(2024, 10, 28), d(2024, 11, 4)]);
}

#[test]
fn first_week_of_november() {
    // One submit on Tuesday 2024-11-05, queried over 2024-11-01 .. 2024-11-07.
    let records = vec![SubmitRecord { date: d(2024, 11, 5), count: 3 }];
    let range = DateRange { start: d(2024, 11, 1), end: d(2024, 11, 7) };
    let grid = build_grid(&records, &range);
    // The week of Monday 2024-11-04 is the last anchor column.
    let week = grid.anchors.len() - 1;
    assert_eq!(grid.anchors[week], d(2024, 11, 4));
    // The Tuesday cell of that week carries the count of 3.
    assert_eq!(count_for_date(&records, &grid.rows[1][week].date), 3);
    assert_eq!(grid.rows[1][week].bucket, ColorBucket::Bucket1);
    // The Monday cell has count 0 and renders as the Zero bucket.
    assert_eq!(count_for_date(&records, &grid.rows[0][week].date), 0);
    assert_eq!(grid.rows[0][week].bucket, ColorBucket::Zero);
}

#[test]
fn anchors_cover_the_range() {
    let range = DateRange { start: d(2024, 11, 4), end: d(2024, 12, 1) };
    let anchors = week_anchors(&range);
    assert_eq!(anchors.len(), 4);
    assert_eq!(anchors[0], d(2024, 11, 4));
    assert_eq!(anchors[3], d(2024, 11, 25));
    for w in anchors.windows(2) {
        assert_eq!(w[1].to_day_index() - w[0].to_day_index(), 7);
        assert_eq!(w[0].weekday(), 0);
    }
}

#[test]
fn single_record_grid() {
    // One submit on Tuesday 2024-11-05 within the first week of November.
    let records = vec![SubmitRecord { date: d(2024, 11, 5), count: 3 }];
    let range = DateRange { start: d(2024, 11, 4), end: d(2024, 11, 7) };
    let anchors = week_anchors(&range);
    assert_eq!(anchors, vec![d(2024, 11, 4)]);
    let grid = build_grid(&records, &range);
    assert_eq!(grid.thresholds, vec![3, 3, 3, 3]);
    assert_eq!(grid.rows.len(), 7);
    for row in &grid.rows {
        assert_eq!(row.len(), 1);
    }
    // The Tuesday cell holds the count of 3, classified into the first bucket.
    assert_eq!(grid.rows[1][0].date, d(2024, 11, 5));
    assert_eq!(grid.rows[1][0].bucket, ColorBucket::Bucket1);
    // The Monday cell has no record and renders as Zero.
    assert_eq!(grid.rows[0][0].date, d(2024, 11, 4));
    assert_eq!(grid.rows[0][0].bucket, ColorBucket::Zero);
}

#[test]
fn equal_counts_collapse_to_first_bucket() {
    // Twenty days all counting five: thresholds collapse to (5,5,5,5),
    // every nonzero day is Bucket1 and absent days are Zero.
    let mut records = Vec::new();
    let mut date = d(2024, 11, 1);
    for _ in 0..20 {
        records.push(SubmitRecord { date, count: 5 });
        date = date.next_day();
    }
    let range = DateRange { start: d(2024, 11, 1), end: d(2024, 11, 25) };
    let grid = build_grid(&records, &range);
    assert_eq!(grid.thresholds, vec![5, 5, 5, 5]);
    for row in &grid.rows {
        for cell in row {
            let expected = if count_for_date(&records, &cell.date) == 0 {
                ColorBucket::Zero
            } else {
                ColorBucket::Bucket1
            };
            assert_eq!(cell.bucket, expected);
        }
    }
}

#[test]
fn grid_is_complete_and_coherent() {
    let records = vec![
        SubmitRecord { date: d(2024, 10, 1), count: 1 },
        SubmitRecord { date: d(2024, 10, 20), count: 7 },
        SubmitRecord { date: d(2024, 11, 5), count: 4 },
    ];
    let range = DateRange { start: d(2024, 10, 1), end: d(2024, 11, 10) };
    let grid = build_grid(&records, &range);
    let anchors = week_anchors(&range);
    assert_eq!(grid.anchors, anchors);
    assert_eq!(grid.rows.len(), 7);
    for (w, row) in grid.rows.iter().enumerate() {
        assert_eq!(row.len(), anchors.len());
        for (c, cell) in row.iter().enumerate() {
            assert_eq!(cell.weekday, w as u32);
            assert_eq!(cell.week, c);
            assert_eq!(cell.date, anchors[c].add_days(w as u32));
            let count = count_for_date(&records, &cell.date);
            assert_eq!(cell.bucket, get_color_for_count(count, &grid.thresholds));
        }
    }
}

#[test]
fn coordinates_inside_and_outside_the_window() {
    let range = DateRange { start: d(2024, 11, 4), end: d(2024, 11, 17) };
    let anchors = week_anchors(&range);
    // Tuesday of the first week, Sunday of the second week.
    assert_eq!(cell_coordinate(&d(2024, 11, 5), &anchors), Some((1, 0)));
    assert_eq!(cell_coordinate(&d(2024, 11, 17), &anchors), Some((6, 1)));
    // A date outside the displayed weeks is a lookup failure.
    assert_eq!(cell_coordinate(&d(2024, 12, 1), &anchors), None);
    assert_eq!(cell_coordinate(&d(2024, 11, 3), &anchors), None);
}

#[test]
fn lookup_missing_date_is_zero() {
    let records = vec![SubmitRecord { date: d(2024, 11, 5), count: 3 }];
    assert_eq!(count_for_date(&records, &d(2024, 11, 5)), 3);
    assert_eq!(count_for_date(&records, &d(2024, 11, 6)), 0);
}
