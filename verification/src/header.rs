//! Week-column header labels.
//!
//! In full mode every week anchor is labeled with its month and
//! two-digit day, like `Jan05`. In compact mode only the first anchor
//! and each anchor that starts a new month carry the month name; the
//! other columns stay blank, giving the sparse month-marker row of
//! common contribution graphs.

use vstd::prelude::*;
use vstd::string::StringExecFns;
use crate::date::Date;
use crate::date::lemma_day_index_month_order;
use crate::date::lemma_same_month_number_far;
use crate::grid::DateRange;
use crate::grid::anchors_ok;
use crate::text::lemma_month_abbrev_nonempty;
use crate::text::month_abbrev;
use crate::text::month_abbrev_str;
use crate::text::two_digit_rep;
use crate::text::two_digit_string;

verus! {

/// The full-mode label of one anchor: month name and two-digit day.
pub open spec fn full_label(d: Date) -> Seq<char> {
    month_abbrev(d.month as int) + two_digit_rep(d.day as int)
}

/// The compact-mode label of column `i`: the month name where a new
/// month begins (and always on the first column), otherwise blank.
pub open spec fn compact_label(anchors: Seq<Date>, i: int) -> Seq<char> {
    if i == 0 || anchors[i].month != anchors[i - 1].month {
        month_abbrev(anchors[i].month as int)
    } else {
        Seq::<char>::empty()
    }
}

/// One header label per week column.
pub fn get_header(mondays: &Vec<Date>, full: bool) -> (labels: Vec<String>)
    requires
        forall|i: int| 0 <= i < mondays@.len() ==> (#[trigger] mondays@[i]).valid(),
    ensures
        labels@.len() == mondays@.len(),
        full ==> forall|i: int|
            0 <= i < labels@.len() ==> (#[trigger] labels@[i])@ == full_label(mondays@[i]),
        !full ==> forall|i: int|
            0 <= i < labels@.len() ==> (#[trigger] labels@[i])@ == compact_label(mondays@, i),
{
    let mut labels: Vec<String> = Vec::new();
    let mut i: usize = 0;
    if full {
        while i < mondays.len()
            invariant
                0 <= i <= mondays@.len(),
                labels@.len() == i,
                forall|j: int| 0 <= j < mondays@.len() ==> (#[trigger] mondays@[j]).valid(),
                forall|j: int|
                    0 <= j < i ==> (#[trigger] labels@[j])@ == full_label(mondays@[j]),
            decreases mondays@.len() - i,
        {
            let m = mondays[i];
            let mut s = month_abbrev_str(m.month).to_owned();
            s.append(two_digit_string(m.day).as_str());
            labels.push(s);
            i = i + 1;
        }
    } else {
        while i < mondays.len()
            invariant
                0 <= i <= mondays@.len(),
                labels@.len() == i,
                forall|j: int| 0 <= j < mondays@.len() ==> (#[trigger] mondays@[j]).valid(),
                forall|j: int|
                    0 <= j < i ==> (#[trigger] labels@[j])@ == compact_label(mondays@, j),
            decreases mondays@.len() - i,
        {
            if i == 0 || mondays[i].month != mondays[i - 1].month {
                labels.push(month_abbrev_str(mondays[i].month).to_owned());
            } else {
                let s = String::new();
                proof {
                    assert(s@ =~= compact_label(mondays@, i as int));
                }
                labels.push(s);
            }
            i = i + 1;
        }
    }
    labels
}

/// How many of the first `n` compact labels are visible.
pub open spec fn num_labeled(anchors: Seq<Date>, n: int) -> int
    decreases n,
{
    if n <= 0 {
        0
    } else {
        num_labeled(anchors, n - 1) + if compact_label(anchors, n - 1).len() != 0 {
            1int
        } else {
            0int
        }
    }
}

/// The months the anchors touch, by month number.
pub open spec fn months_of(anchors: Seq<Date>) -> Set<u32> {
    anchors.map_values(|d: Date| d.month).to_set()
}

/// Anchor day indices grow linearly along the sequence.
proof fn lemma_anchor_linear(anchors: Seq<Date>, range: DateRange, i: int)
    requires
        anchors_ok(anchors, range),
        0 <= i < anchors.len(),
    ensures
        anchors[i].day_index() == anchors[0].day_index() + 7 * i,
    decreases i,
{
    if i > 0 {
        lemma_anchor_linear(anchors, range, i - 1);
    }
}

/// Within one covered range, two anchors with the same month number
/// fall in the same calendar month, and month order follows column
/// order.
proof fn lemma_anchor_months(anchors: Seq<Date>, range: DateRange, i: int, j: int)
    requires
        anchors_ok(anchors, range),
        range.valid(),
        range.span_days() <= 180,
        0 <= i <= j < anchors.len(),
    ensures
        anchors[i].month_index() <= anchors[j].month_index(),
        anchors[i].month == anchors[j].month ==> anchors[i].month_index()
            == anchors[j].month_index(),
{
    lemma_anchor_linear(anchors, range, i);
    lemma_anchor_linear(anchors, range, j);
    lemma_anchor_linear(anchors, range, anchors.len() - 1);
    lemma_day_index_month_order(anchors[i], anchors[j]);
    if anchors[i].month == anchors[j].month && anchors[i].month_index()
        != anchors[j].month_index() {
        lemma_same_month_number_far(anchors[i], anchors[j]);
        // But all anchors lie within 186 days of each other.
        assert(anchors[j].day_index() <= range.end.day_index());
        assert(anchors[i].day_index() >= anchors[0].day_index());
        assert(false);
    }
}

/// Header compactness: in compact mode the number of visible labels
/// equals the number of distinct calendar months the anchors touch.
pub proof fn lemma_compact_header_counts_months(anchors: Seq<Date>, range: DateRange)
    requires
        anchors_ok(anchors, range),
        range.valid(),
        range.span_days() <= 180,
    ensures
        num_labeled(anchors, anchors.len() as int) == months_of(anchors).len(),
{
    lemma_compact_header_prefix(anchors, range, anchors.len() as int);
    assert(anchors.take(anchors.len() as int) =~= anchors);
}

/// The counting invariant behind header compactness, over a prefix of
/// the anchor columns.
proof fn lemma_compact_header_prefix(anchors: Seq<Date>, range: DateRange, n: int)
    requires
        anchors_ok(anchors, range),
        range.valid(),
        range.span_days() <= 180,
        0 <= n <= anchors.len(),
    ensures
        num_labeled(anchors, n) == months_of(anchors.take(n)).len(),
        months_of(anchors.take(n)).finite(),
    decreases n,
{
    broadcast use vstd::set::group_set_axioms;

    let month_of = |d: Date| d.month;
    if n == 0 {
        assert(anchors.take(0).map_values(month_of) =~= Seq::<u32>::empty());
        assert(months_of(anchors.take(0)) =~= Set::<u32>::empty());
    } else {
        lemma_compact_header_prefix(anchors, range, n - 1);
        let prev = anchors.take(n - 1);
        let here = anchors.take(n);
        assert(here.map_values(month_of) =~= prev.map_values(month_of).push(
            anchors[n - 1].month,
        ));
        assert(months_of(here) =~= months_of(prev).insert(anchors[n - 1].month)) by {
            prev.map_values(month_of).lemma_push_to_set_commute(anchors[n - 1].month);
        }
        if compact_label(anchors, n - 1).len() != 0 {
            // A visible label starts a month not seen in any earlier column.
            assert forall|k: int| 0 <= k < n - 1 implies (#[trigger] anchors[k]).month != anchors[n
                - 1].month by {
                if anchors[k].month == anchors[n - 1].month {
                    lemma_anchor_months(anchors, range, k, n - 2);
                    lemma_anchor_months(anchors, range, n - 2, n - 1);
                    lemma_anchor_months(anchors, range, k, n - 1);
                }
            }
            assert(!months_of(prev).contains(anchors[n - 1].month)) by {
                assert(forall|k: int|
                    0 <= k < prev.map_values(month_of).len() ==> prev.map_values(month_of)[k]
                        == anchors[k].month);
            }
        } else {
            // A blank column repeats the previous column's month.
            assert(n >= 2 && anchors[n - 1].month == anchors[n - 2].month) by {
                if n == 1 || anchors[n - 1].month != anchors[n - 2].month {
                    lemma_month_abbrev_nonempty(anchors[n - 1].month as int);
                }
            }
            assert(months_of(prev).contains(anchors[n - 1].month)) by {
                assert(prev.map_values(month_of)[n - 2] == anchors[n - 2].month);
                assert(prev.map_values(month_of).contains(anchors[n - 2].month));
            }
        }
    }
}

} // verus!
