//! The Monday-aligned weekly grid.
//!
//! A date range is covered by its week anchors: every Monday whose
//! week overlaps the range, so boundary weeks are always rendered in
//! full. The grid has one row per weekday (Monday first) and one
//! column per anchor, and every cell carries the color bucket of the
//! count recorded for its date, with absent dates counting as zero.

use vstd::prelude::*;
use crate::color::ColorBucket;
use crate::color::get_color_for_count;
use crate::color::spec_classify;
use crate::date::Date;
use crate::date::lemma_day_index_in_range;
use crate::thresholds::determine_color_thresholds;
use crate::thresholds::spec_thresholds;

verus! {

/// Number of qualifying events recorded on one calendar date.
#[derive(Clone, Copy, Debug, PartialEq, Eq, Structural)]
pub struct SubmitRecord {
    pub date: Date,
    pub count: u32,
}

/// An inclusive query window.
#[derive(Clone, Copy, Debug, PartialEq, Eq, Structural)]
pub struct DateRange {
    pub start: Date,
    pub end: Date,
}

impl DateRange {
    pub open spec fn valid(self) -> bool {
        &&& self.start.valid()
        &&& self.end.valid()
        &&& self.start.day_index() <= self.end.day_index()
    }

    /// Number of days in the window, both endpoints included.
    pub open spec fn span_days(self) -> int {
        self.end.day_index() - self.start.day_index() + 1
    }
}

/// The counts of the records, in record order.
pub open spec fn counts_of(records: Seq<SubmitRecord>) -> Seq<u32> {
    records.map_values(|r: SubmitRecord| r.count)
}

/// The count recorded for `d`: the first record with that date, or
/// zero when no record mentions it.
pub open spec fn lookup_count(records: Seq<SubmitRecord>, d: Date) -> u32
    decreases records.len(),
{
    if records.len() == 0 {
        0u32
    } else if records[0].date == d {
        records[0].count
    } else {
        lookup_count(records.drop_first(), d)
    }
}

/// Exact-date lookup of a day's count; absent dates count as zero.
pub fn count_for_date(records: &Vec<SubmitRecord>, d: &Date) -> (c: u32)
    ensures
        c == lookup_count(records@, *d),
{
    let mut i: usize = 0;
    proof {
        assert(records@.skip(0) =~= records@);
    }
    while i < records.len()
        invariant
            0 <= i <= records@.len(),
            lookup_count(records@, *d) == lookup_count(records@.skip(i as int), *d),
        decreases records@.len() - i,
    {
        let r = records[i];
        proof {
            assert(records@.skip(i as int)[0] == records@[i as int]);
            assert(records@.skip(i as int).drop_first() =~= records@.skip(i + 1));
        }
        if r.date == *d {
            return r.count;
        }
        i = i + 1;
    }
    proof {
        assert(records@.skip(records@.len() as int).len() == 0);
    }
    0
}

/// What `week_anchors` promises: a chronological run of valid Mondays,
/// seven days apart, starting at the Monday of the week of
/// `range.start` and ending in the week of `range.end`, so that the
/// anchors' weeks jointly cover the whole range.
pub open spec fn anchors_ok(anchors: Seq<Date>, range: DateRange) -> bool {
    &&& anchors.len() >= 1
    &&& forall|i: int|
        0 <= i < anchors.len() ==> (#[trigger] anchors[i]).valid() && anchors[i].weekday_index()
            == 0
    &&& forall|i: int|
        0 < i < anchors.len() ==> #[trigger] anchors[i].day_index() == anchors[i
            - 1].day_index() + 7
    &&& anchors[0].day_index() == range.start.day_index() - range.start.weekday_index()
    &&& anchors.last().day_index() <= range.end.day_index()
    &&& range.end.day_index() < anchors.last().day_index() + 7
}

/// The anchors' seven-day weeks jointly cover the whole range: the
/// first week holds the start of the range and the last week holds
/// its end.
pub proof fn lemma_anchors_cover(anchors: Seq<Date>, range: DateRange)
    requires
        anchors_ok(anchors, range),
        range.valid(),
    ensures
        anchors[0].day_index() <= range.start.day_index(),
        range.start.day_index() <= anchors[0].day_index() + 6,
        anchors.last().day_index() <= range.end.day_index(),
        range.end.day_index() <= anchors.last().day_index() + 6,
{
    assert(0 <= range.start.day_index() % 7 < 7);
}

/// Every Monday whose seven-day week overlaps the range, in
/// chronological order.
pub fn week_anchors(range: &DateRange) -> (anchors: Vec<Date>)
    requires
        range.valid(),
    ensures
        anchors_ok(anchors@, *range),
{
    proof {
        lemma_day_index_in_range(range.end);
        assert(crate::date::max_day_index() < 3700000);
    }
    let first = range.start.monday_of_week();
    let end_idx = range.end.to_day_index();
    let mut anchors: Vec<Date> = Vec::new();
    anchors.push(first);
    let mut cur = first;
    let mut cur_idx = first.to_day_index();
    while cur_idx + 7 <= end_idx
        invariant
            range.valid(),
            end_idx as int == range.end.day_index(),
            anchors@.len() >= 1,
            anchors@.last() == cur,
            cur.valid(),
            cur.weekday_index() == 0,
            cur_idx as int == cur.day_index(),
            cur_idx <= end_idx,
            end_idx < 3700000,
            anchors@[0].day_index() == range.start.day_index() - range.start.weekday_index(),
            forall|i: int|
                0 <= i < anchors@.len() ==> (#[trigger] anchors@[i]).valid()
                    && anchors@[i].weekday_index() == 0,
            forall|i: int|
                0 < i < anchors@.len() ==> #[trigger] anchors@[i].day_index() == anchors@[i
                    - 1].day_index() + 7,
        decreases end_idx - cur_idx,
    {
        proof {
            lemma_day_index_in_range(range.end);
        }
        let next = cur.add_days(7);
        proof {
            vstd::arithmetic::div_mod::lemma_mod_adds(cur.day_index(), 7, 7);
            assert(next.weekday_index() == 0);
        }
        anchors.push(next);
        cur = next;
        cur_idx = cur_idx + 7;
    }
    anchors
}

/// The cell coordinate of a date: its weekday row and the column of
/// the anchor that starts its week. A date whose Monday is not among
/// the anchors lies outside the displayed window and yields `None`.
pub fn cell_coordinate(date: &Date, anchors: &Vec<Date>) -> (r: Option<(u32, usize)>)
    requires
        date.valid(),
        forall|i: int| 0 <= i < anchors@.len() ==> (#[trigger] anchors@[i]).valid(),
    ensures
        r matches Some(wc) ==> {
            &&& wc.0 as int == date.weekday_index()
            &&& wc.1 < anchors@.len()
            &&& anchors@[wc.1 as int].day_index() == date.day_index() - date.weekday_index()
        },
        r is None ==> forall|c: int|
            0 <= c < anchors@.len() ==> (#[trigger] anchors@[c]).day_index() != date.day_index()
                - date.weekday_index(),
{
    let monday = date.monday_of_week();
    let mut c: usize = 0;
    while c < anchors.len()
        invariant
            0 <= c <= anchors@.len(),
            date.valid(),
            monday.valid(),
            monday.day_index() == date.day_index() - date.weekday_index(),
            forall|i: int| 0 <= i < anchors@.len() ==> (#[trigger] anchors@[i]).valid(),
            forall|i: int|
                0 <= i < c ==> (#[trigger] anchors@[i]).day_index() != date.day_index()
                    - date.weekday_index(),
        decreases anchors@.len() - c,
    {
        if anchors[c] == monday {
            return Some((date.weekday(), c));
        }
        proof {
            if anchors@[c as int].day_index() == monday.day_index() {
                crate::date::lemma_day_index_injective(anchors@[c as int], monday);
            }
        }
        c = c + 1;
    }
    None
}

/// One renderable unit of the heatmap.
#[derive(Clone, Copy, Debug, PartialEq, Eq, Structural)]
pub struct GridCell {
    pub date: Date,
    pub weekday: u32,
    pub week: usize,
    pub bucket: ColorBucket,
}

/// The complete renderable grid: the cut points used, the week-anchor
/// columns, and seven weekday rows of classified cells.
pub struct HeatmapGrid {
    pub thresholds: Vec<u32>,
    pub anchors: Vec<Date>,
    pub rows: Vec<Vec<GridCell>>,
}

/// One cell is correct for row `w` and column `c`: it names its own
/// coordinates, its date is `w` days after the column's anchor, and
/// its bucket classifies the count recorded for that date.
pub open spec fn cell_ok(
    cell: GridCell,
    anchor: Date,
    records: Seq<SubmitRecord>,
    w: int,
    c: int,
) -> bool {
    &&& cell.weekday == w
    &&& cell.week == c
    &&& cell.date.valid()
    &&& cell.date.day_index() == anchor.day_index() + w
    &&& cell.bucket == spec_classify(
        lookup_count(records, cell.date),
        spec_thresholds(counts_of(records)),
    )
}

impl HeatmapGrid {
    /// Grid completeness: thresholds are the quintiles of all counts,
    /// there are exactly seven rows, every row has one cell per week
    /// anchor, and every cell is classified as `cell_ok` says.
    pub open spec fn wf(self, records: Seq<SubmitRecord>) -> bool {
        &&& self.thresholds@ == spec_thresholds(counts_of(records))
        &&& self.rows@.len() == 7
        &&& forall|w: int| 0 <= w < 7 ==> (#[trigger] self.rows@[w])@.len() == self.anchors@.len()
        &&& forall|w: int, c: int|
            0 <= w < 7 && 0 <= c < self.anchors@.len() ==> cell_ok(
                #[trigger] self.rows@[w]@[c],
                self.anchors@[c],
                records,
                w,
                c,
            )
    }
}

/// Build the complete heatmap grid for a query window.
///
/// Thresholds are computed once over the entire record collection;
/// each cell's date is looked up exactly, with absent dates counted
/// as zero. Boundary weeks are not truncated: every column covers its
/// full seven days, which is why the end of the range must sit at
/// least six days before the calendar's last representable day.
pub fn build_grid(records: &Vec<SubmitRecord>, range: &DateRange) -> (grid: HeatmapGrid)
    requires
        range.valid(),
        range.end.day_index() + 6 <= crate::date::max_day_index(),
    ensures
        grid.wf(records@),
        anchors_ok(grid.anchors@, *range),
{
    let anchors = week_anchors(range);
    let mut counts: Vec<u32> = Vec::new();
    let mut i: usize = 0;
    while i < records.len()
        invariant
            0 <= i <= records@.len(),
            counts@ == counts_of(records@.take(i as int)),
        decreases records@.len() - i,
    {
        counts.push(records[i].count);
        proof {
            assert(counts_of(records@.take(i + 1)) =~= counts_of(records@.take(i as int)).push(
                records@[i as int].count,
            ));
        }
        i = i + 1;
    }
    proof {
        assert(records@.take(records@.len() as int) =~= records@);
    }
    let thresholds = determine_color_thresholds(counts.as_slice());
    let mut rows: Vec<Vec<GridCell>> = Vec::new();
    let mut w: usize = 0;
    while w < 7
        invariant
            0 <= w <= 7,
            rows@.len() == w,
            range.valid(),
            range.end.day_index() + 6 <= crate::date::max_day_index(),
            anchors_ok(anchors@, *range),
            thresholds@ == spec_thresholds(counts_of(records@)),
            forall|v: int| 0 <= v < w ==> (#[trigger] rows@[v])@.len() == anchors@.len(),
            forall|v: int, c: int|
                0 <= v < w && 0 <= c < anchors@.len() ==> cell_ok(
                    #[trigger] rows@[v]@[c],
                    anchors@[c],
                    records@,
                    v,
                    c,
                ),
        decreases 7 - w,
    {
        let mut row: Vec<GridCell> = Vec::new();
        let mut c: usize = 0;
        while c < anchors.len()
            invariant
                0 <= c <= anchors@.len(),
                0 <= w < 7,
                row@.len() == c,
                range.valid(),
                range.end.day_index() + 6 <= crate::date::max_day_index(),
                anchors_ok(anchors@, *range),
                thresholds@ == spec_thresholds(counts_of(records@)),
                forall|j: int|
                    0 <= j < c ==> cell_ok(#[trigger] row@[j], anchors@[j], records@, w as int, j),
            decreases anchors@.len() - c,
        {
            proof {
                lemma_anchor_at_most_end(anchors@, *range, c as int);
            }
            let date = anchors[c].add_days(w as u32);
            let count = count_for_date(records, &date);
            let bucket = get_color_for_count(count, thresholds.as_slice());
            row.push(GridCell { date, weekday: w as u32, week: c, bucket });
            c = c + 1;
        }
        rows.push(row);
        w = w + 1;
    }
    HeatmapGrid { thresholds, anchors, rows }
}

/// Every anchor lies at or before the last anchor, hence at or before
/// the end of the range.
proof fn lemma_anchor_at_most_end(anchors: Seq<Date>, range: DateRange, c: int)
    requires
        anchors_ok(anchors, range),
        0 <= c < anchors.len(),
    ensures
        anchors[c].day_index() <= range.end.day_index(),
    decreases anchors.len() - c,
{
    if c < anchors.len() - 1 {
        lemma_anchor_at_most_end(anchors, range, c + 1);
        assert(anchors[c + 1].day_index() == anchors[c].day_index() + 7);
    }
}

} // verus!
