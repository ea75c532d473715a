//! The interactive view's decisions and fixed texts.
//!
//! The view has a single state — displaying — and one transition:
//! a press of the quit key ends it. Everything drawn is computed
//! here or in the sibling modules; the caller only paints and polls.

use vstd::prelude::*;
use vstd::string::StringExecFns;
use crate::date::Date;
use crate::grid::DateRange;
use crate::grid::SubmitRecord;
use crate::text::dec_rep;
use crate::text::u32_string;

verus! {

/// The title over the grid, naming the year or span of years shown.
pub open spec fn title_rep(start_year: int, end_year: int) -> Seq<char> {
    if start_year == end_year {
        dec_rep(start_year) + " sumbit Heatmap"@
    } else {
        dec_rep(start_year) + " - "@ + dec_rep(end_year) + " sumbit Heatmap"@
    }
}

pub fn heatmap_title(start_year: u32, end_year: u32) -> (s: String)
    ensures
        s@ == title_rep(start_year as int, end_year as int),
{
    let mut s = u32_string(start_year);
    if start_year != end_year {
        s.append(" - ");
        s.append(u32_string(end_year).as_str());
    }
    s.append(" sumbit Heatmap");
    s
}

/// The only transition of the view: quit on a press of `q`.
pub fn should_quit(is_press: bool, key: Option<char>) -> (quit: bool)
    ensures
        quit == (is_press && key == Some('q')),
{
    is_press && match key {
        Some(c) => c == 'q',
        None => false,
    }
}

/// Demonstration counts: one record per day of the range, with the
/// day of the month modulo ten as its count.
pub fn generate_sumbit_data(range: &DateRange) -> (records: Vec<SubmitRecord>)
    requires
        range.valid(),
    ensures
        records@.len() == range.span_days(),
        forall|i: int|
            0 <= i < records@.len() ==> {
                let r = #[trigger] records@[i];
                r.date.valid() && r.date.day_index() == range.start.day_index() + i && r.count
                    == r.date.day % 10
            },
{
    proof {
        crate::date::lemma_day_index_in_range(range.end);
    }
    let end_idx = range.end.to_day_index();
    let mut records: Vec<SubmitRecord> = Vec::new();
    let mut cur: Date = range.start;
    let mut cur_idx: u32 = range.start.to_day_index();
    while cur_idx < end_idx
        invariant
            range.valid(),
            cur.valid(),
            cur_idx as int == cur.day_index(),
            end_idx as int == range.end.day_index(),
            range.start.day_index() <= cur_idx <= end_idx,
            end_idx as int <= crate::date::max_day_index(),
            records@.len() == cur.day_index() - range.start.day_index(),
            forall|i: int|
                0 <= i < records@.len() ==> {
                    let r = #[trigger] records@[i];
                    r.date.valid() && r.date.day_index() == range.start.day_index() + i && r.count
                        == r.date.day % 10
                },
        decreases end_idx - cur_idx,
    {
        records.push(SubmitRecord { date: cur, count: cur.day % 10 });
        cur = cur.next_day();
        cur_idx = cur_idx + 1;
    }
    records.push(SubmitRecord { date: cur, count: cur.day % 10 });
    records
}

} // verus!
