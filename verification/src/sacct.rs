//! Parsing accounting output into daily submit counts.
//!
//! The accounting command prints one submit timestamp per line, in
//! the shape `YYYY-MM-DDTHH:MM:SS`, possibly surrounded by blanks.
//! Lines are split at newlines, trimmed of ASCII blanks, and a line
//! counts only when it is exactly a well-formed timestamp: a real
//! calendar date in years 1..=9999 and a time of day with hours
//! below 24 and minutes and seconds below 60. Anything else is
//! silently skipped. The dates of the good lines are then aggregated
//! into one record per distinct date carrying its number of lines.

use vstd::prelude::*;
use vstd::pervasive::VecAdditionalExecFns;
use crate::date::Date;
use crate::grid::SubmitRecord;

verus! {

/// The blank bytes that trimming removes: space, tab, carriage return.
pub open spec fn is_space(b: u8) -> bool {
    b == 32 || b == 9 || b == 13
}

pub open spec fn is_digit(b: u8) -> bool {
    48 <= b <= 57
}

pub open spec fn digit_at(line: Seq<u8>, i: int) -> int {
    line[i] - 48
}

/// The two-digit number starting at `i`.
pub open spec fn num2(line: Seq<u8>, i: int) -> int {
    10 * digit_at(line, i) + digit_at(line, i + 1)
}

/// The four-digit number starting at `i`.
pub open spec fn num4(line: Seq<u8>, i: int) -> int {
    1000 * digit_at(line, i) + 100 * digit_at(line, i + 1) + 10 * digit_at(line, i + 2)
        + digit_at(line, i + 3)
}

/// The raw shape of a timestamp: nineteen bytes, digits and the
/// fixed separators in their places.
pub open spec fn stamp_digits_ok(line: Seq<u8>) -> bool {
    &&& line.len() == 19
    &&& is_digit(line[0]) && is_digit(line[1]) && is_digit(line[2]) && is_digit(line[3])
    &&& line[4] == 45 && is_digit(line[5]) && is_digit(line[6])
    &&& line[7] == 45 && is_digit(line[8]) && is_digit(line[9])
    &&& line[10] == 84 && is_digit(line[11]) && is_digit(line[12])
    &&& line[13] == 58 && is_digit(line[14]) && is_digit(line[15])
    &&& line[16] == 58 && is_digit(line[17]) && is_digit(line[18])
}

/// The calendar date named by a well-shaped timestamp line.
pub open spec fn stamp_date(line: Seq<u8>) -> Date {
    Date {
        year: num4(line, 0) as u32,
        month: num2(line, 5) as u32,
        day: num2(line, 8) as u32,
    }
}

/// A trimmed line that counts as one submit.
pub open spec fn is_stamp(line: Seq<u8>) -> bool {
    &&& stamp_digits_ok(line)
    &&& stamp_date(line).valid()
    &&& num2(line, 11) <= 23
    &&& num2(line, 14) <= 59
    &&& num2(line, 17) <= 59
}

pub open spec fn trim_start(s: Seq<u8>) -> Seq<u8>
    decreases s.len(),
{
    if s.len() > 0 && is_space(s[0]) {
        trim_start(s.drop_first())
    } else {
        s
    }
}

pub open spec fn trim_end(s: Seq<u8>) -> Seq<u8>
    decreases s.len(),
{
    if s.len() > 0 && is_space(s.last()) {
        trim_end(s.drop_last())
    } else {
        s
    }
}

pub open spec fn trim(s: Seq<u8>) -> Seq<u8> {
    trim_end(trim_start(s))
}

/// The position of the newline that ends the line starting at `pos`,
/// or the end of the text.
pub open spec fn line_end(text: Seq<u8>, pos: int) -> int
    decreases text.len() - pos,
{
    if pos < 0 || pos >= text.len() {
        text.len() as int
    } else if text[pos] == 10 {
        pos
    } else {
        line_end(text, pos + 1)
    }
}

/// The dates of all good timestamp lines from `pos` on, in text order.
pub open spec fn parsed_dates(text: Seq<u8>, pos: int) -> Seq<Date>
    decreases text.len() - pos + 1,
    via parsed_dates_decreases
{
    if pos < 0 || pos > text.len() {
        Seq::<Date>::empty()
    } else {
        let e = line_end(text, pos);
        let line = trim(text.subrange(pos, e));
        (if is_stamp(line) {
            seq![stamp_date(line)]
        } else {
            Seq::<Date>::empty()
        }) + parsed_dates(text, e + 1)
    }
}

#[via_fn]
proof fn parsed_dates_decreases(text: Seq<u8>, pos: int) {
    if 0 <= pos <= text.len() {
        lemma_line_end_bounds(text, pos);
    }
}

/// How many of the dates equal `d`.
pub open spec fn occurrences(dates: Seq<Date>, d: Date) -> int
    decreases dates.len(),
{
    if dates.len() == 0 {
        0
    } else {
        (if dates.last() == d {
            1int
        } else {
            0int
        }) + occurrences(dates.drop_last(), d)
    }
}

/// The aggregation contract: one record per distinct date, each
/// carrying exactly the number of occurrences of its date, and every
/// date accounted for.
pub open spec fn records_match(records: Seq<SubmitRecord>, dates: Seq<Date>) -> bool {
    &&& forall|i: int, j: int|
        0 <= i < j < records.len() ==> (#[trigger] records[i]).date != (
        #[trigger] records[j]).date
    &&& forall|i: int|
        0 <= i < records.len() ==> (#[trigger] records[i]).count == occurrences(
            dates,
            records[i].date,
        ) && records[i].count > 0
    &&& forall|d: Date| #[trigger] dates.contains(d) ==> exists|i: int|
            0 <= i < records.len() && (#[trigger] records[i]).date == d
}

proof fn lemma_line_end_bounds(text: Seq<u8>, pos: int)
    requires
        0 <= pos <= text.len(),
    ensures
        pos <= line_end(text, pos) <= text.len(),
    decreases text.len() - pos,
{
    if pos < text.len() && text[pos] != 10 {
        lemma_line_end_bounds(text, pos + 1);
    }
}

/// A scan that stopped at the first newline found the line's end.
proof fn lemma_line_end_eq(text: Seq<u8>, pos: int, e: int)
    requires
        0 <= pos <= e <= text.len(),
        forall|k: int| pos <= k < e ==> text[k] != 10,
        e == text.len() || text[e] == 10,
    ensures
        line_end(text, pos) == e,
    decreases e - pos,
{
    if pos < e {
        lemma_line_end_eq(text, pos + 1, e);
    }
}

proof fn lemma_trim_start_len(s: Seq<u8>)
    ensures
        trim_start(s).len() <= s.len(),
    decreases s.len(),
{
    if s.len() > 0 && is_space(s[0]) {
        lemma_trim_start_len(s.drop_first());
    }
}

proof fn lemma_trim_end_len(s: Seq<u8>)
    ensures
        trim_end(s).len() <= s.len(),
    decreases s.len(),
{
    if s.len() > 0 && is_space(s.last()) {
        lemma_trim_end_len(s.drop_last());
    }
}

/// Every good line consumes at least twenty bytes of the text, so the
/// number of parsed dates is small compared to the text.
proof fn lemma_parsed_dates_len(text: Seq<u8>, pos: int)
    requires
        pos <= text.len() + 1,
    ensures
        20 * parsed_dates(text, pos).len() <= text.len() - pos + 20,
    decreases text.len() - pos + 1,
{
    if 0 <= pos <= text.len() {
        let e = line_end(text, pos);
        lemma_line_end_bounds(text, pos);
        lemma_parsed_dates_len(text, e + 1);
        let line = trim(text.subrange(pos, e));
        if is_stamp(line) {
            lemma_trim_start_len(text.subrange(pos, e));
            lemma_trim_end_len(trim_start(text.subrange(pos, e)));
        }
    }
}

/// A date occurs at all exactly when it is among the dates.
proof fn lemma_occurrences_contains(dates: Seq<Date>, d: Date)
    ensures
        (occurrences(dates, d) > 0) <==> dates.contains(d),
        0 <= occurrences(dates, d) <= dates.len(),
    decreases dates.len(),
{
    if dates.len() == 0 {
        assert(!dates.contains(d));
    } else {
        let rest = dates.drop_last();
        lemma_occurrences_contains(rest, d);
        if rest.contains(d) {
            let k = choose|k: int| 0 <= k < rest.len() && rest[k] == d;
            assert(dates[k] == d);
        }
        if dates.last() == d {
            assert(dates[dates.len() - 1] == d);
        }
        if dates.contains(d) && dates.last() != d {
            let k = choose|k: int| 0 <= k < dates.len() && dates[k] == d;
            assert(rest[k] == d);
        }
    }
}

/// Appending one date raises its own occurrence count by one and
/// leaves every other count unchanged.
proof fn lemma_occurrences_push(dates: Seq<Date>, d: Date, x: Date)
    ensures
        occurrences(dates.push(d), x) == occurrences(dates, x) + if x == d {
            1int
        } else {
            0int
        },
{
    assert(dates.push(d).drop_last() =~= dates);
    assert(dates.push(d).last() == d);
}

fn byte_digit(b: u8) -> (r: bool)
    ensures
        r == is_digit(b),
{
    48 <= b && b <= 57
}

/// Parse the trimmed line `bytes[lo..hi)` as a submit timestamp.
fn parse_stamp(bytes: &Vec<u8>, lo: usize, hi: usize) -> (r: Option<Date>)
    requires
        lo <= hi <= bytes@.len(),
    ensures
        is_stamp(bytes@.subrange(lo as int, hi as int)) ==> r == Some(
            stamp_date(bytes@.subrange(lo as int, hi as int)),
        ),
        !is_stamp(bytes@.subrange(lo as int, hi as int)) ==> r is None,
        r matches Some(d) ==> d.valid(),
{
    let ghost line = bytes@.subrange(lo as int, hi as int);
    if hi - lo != 19 {
        return None;
    }
    if !(bytes[lo + 4] == 45 && bytes[lo + 7] == 45 && bytes[lo + 10] == 84 && bytes[lo + 13]
        == 58 && bytes[lo + 16] == 58) {
        return None;
    }
    if !(byte_digit(bytes[lo]) && byte_digit(bytes[lo + 1]) && byte_digit(bytes[lo + 2])
        && byte_digit(bytes[lo + 3]) && byte_digit(bytes[lo + 5]) && byte_digit(bytes[lo + 6])
        && byte_digit(bytes[lo + 8]) && byte_digit(bytes[lo + 9]) && byte_digit(bytes[lo + 11])
        && byte_digit(bytes[lo + 12]) && byte_digit(bytes[lo + 14]) && byte_digit(bytes[lo + 15])
        && byte_digit(bytes[lo + 17]) && byte_digit(bytes[lo + 18])) {
        return None;
    }
    let year: u32 = 1000 * ((bytes[lo] - 48) as u32) + 100 * ((bytes[lo + 1] - 48) as u32) + 10
        * ((bytes[lo + 2] - 48) as u32) + ((bytes[lo + 3] - 48) as u32);
    let month: u32 = 10 * ((bytes[lo + 5] - 48) as u32) + ((bytes[lo + 6] - 48) as u32);
    let day: u32 = 10 * ((bytes[lo + 8] - 48) as u32) + ((bytes[lo + 9] - 48) as u32);
    let hour: u32 = 10 * ((bytes[lo + 11] - 48) as u32) + ((bytes[lo + 12] - 48) as u32);
    let minute: u32 = 10 * ((bytes[lo + 14] - 48) as u32) + ((bytes[lo + 15] - 48) as u32);
    let second: u32 = 10 * ((bytes[lo + 17] - 48) as u32) + ((bytes[lo + 18] - 48) as u32);
    if hour > 23 || minute > 59 || second > 59 {
        return None;
    }
    let d = Date { year, month, day };
    proof {
        assert(stamp_date(line) == d);
    }
    if d.check_valid() {
        Some(d)
    } else {
        None
    }
}

/// The dates of all good timestamp lines of the raw output, in order.
fn scan_dates(bytes: &Vec<u8>) -> (dates: Vec<Date>)
    requires
        bytes@.len() < 0x8000_0000,
    ensures
        dates@ == parsed_dates(bytes@, 0),
        forall|i: int| 0 <= i < dates@.len() ==> (#[trigger] dates@[i]).valid(),
{
    let n = bytes.len();
    let mut dates: Vec<Date> = Vec::new();
    let mut pos: usize = 0;
    while pos <= n
        invariant
            n == bytes@.len(),
            n < 0x8000_0000,
            0 <= pos <= n + 1,
            dates@ + parsed_dates(bytes@, pos as int) == parsed_dates(bytes@, 0),
            forall|i: int| 0 <= i < dates@.len() ==> (#[trigger] dates@[i]).valid(),
        decreases n + 1 - pos,
    {
        let mut e: usize = pos;
        while e < n && bytes[e] != 10
            invariant
                pos <= e <= n,
                n == bytes@.len(),
                forall|k: int| pos <= k < e ==> bytes@[k] != 10,
            decreases n - e,
        {
            e = e + 1;
        }
        proof {
            lemma_line_end_eq(bytes@, pos as int, e as int);
        }
        let mut lo: usize = pos;
        let mut hi: usize = e;
        while lo < hi && (bytes[lo] == 32 || bytes[lo] == 9 || bytes[lo] == 13)
            invariant
                pos <= lo <= hi,
                hi == e <= n,
                n == bytes@.len(),
                trim_start(bytes@.subrange(pos as int, e as int)) == trim_start(
                    bytes@.subrange(lo as int, e as int),
                ),
            decreases hi - lo,
        {
            proof {
                assert(bytes@.subrange(lo as int, e as int).drop_first() =~= bytes@.subrange(
                    lo as int + 1,
                    e as int,
                ));
            }
            lo = lo + 1;
        }
        proof {
            assert(trim_start(bytes@.subrange(pos as int, e as int)) == bytes@.subrange(
                lo as int,
                e as int,
            ));
        }
        while lo < hi && (bytes[hi - 1] == 32 || bytes[hi - 1] == 9 || bytes[hi - 1] == 13)
            invariant
                pos <= lo <= hi <= e <= n,
                n == bytes@.len(),
                trim_end(bytes@.subrange(lo as int, e as int)) == trim_end(
                    bytes@.subrange(lo as int, hi as int),
                ),
            decreases hi - lo,
        {
            proof {
                assert(bytes@.subrange(lo as int, hi as int).drop_last() =~= bytes@.subrange(
                    lo as int,
                    hi as int - 1,
                ));
            }
            hi = hi - 1;
        }
        proof {
            assert(trim(bytes@.subrange(pos as int, e as int)) == bytes@.subrange(
                lo as int,
                hi as int,
            ));
        }
        let ghost line = trim(bytes@.subrange(pos as int, e as int));
        let ghost before = dates@;
        match parse_stamp(bytes, lo, hi) {
            Some(d) => {
                dates.push(d);
                proof {
                    assert(dates@ =~= before + seq![stamp_date(line)]);
                }
            },
            None => {},
        }
        proof {
            let rest = parsed_dates(bytes@, e as int + 1);
            if is_stamp(line) {
                assert(parsed_dates(bytes@, pos as int) == seq![stamp_date(line)] + rest);
                assert(dates@ + rest =~= before + parsed_dates(bytes@, pos as int));
            } else {
                assert(parsed_dates(bytes@, pos as int) == Seq::<Date>::empty() + rest);
                assert(Seq::<Date>::empty() + rest =~= rest);
                assert(dates@ + rest =~= before + parsed_dates(bytes@, pos as int));
            }
        }
        pos = e + 1;
    }
    proof {
        assert(parsed_dates(bytes@, pos as int) == Seq::<Date>::empty());
        assert(dates@ + Seq::<Date>::empty() =~= dates@);
    }
    dates
}

/// Fold one more date into the per-day records.
fn add_date(records: &mut Vec<SubmitRecord>, d: Date, Ghost(seen): Ghost<Seq<Date>>)
    requires
        records_match(old(records)@, seen),
        forall|j: int| 0 <= j < old(records)@.len() ==> (#[trigger] old(records)@[j]).date.valid(),
        d.valid(),
        occurrences(seen, d) < u32::MAX,
    ensures
        records_match(final(records)@, seen.push(d)),
        forall|j: int|
            0 <= j < final(records)@.len() ==> (#[trigger] final(records)@[j]).date.valid(),
{
    proof {
        assert forall|x: Date| #[trigger] occurrences(seen.push(d), x) == occurrences(seen, x) + (
        if x == d {
            1int
        } else {
            0int
        }) by {
            lemma_occurrences_push(seen, d, x);
        }
        assert(seen.push(d)[seen.len() as int] == d);
    }
    let mut i: usize = 0;
    while i < records.len()
        invariant
            0 <= i <= records@.len(),
            records_match(records@, seen),
            records == old(records),
            occurrences(seen, d) < u32::MAX,
            d.valid(),
            forall|j: int| 0 <= j < records@.len() ==> (#[trigger] records@[j]).date.valid(),
            forall|j: int| 0 <= j < i ==> (#[trigger] records@[j]).date != d,
        decreases records@.len() - i,
    {
        if records[i].date == d {
            let cur = records[i];
            proof {
                lemma_occurrences_contains(seen, d);
                assert(cur == records@[i as int]);
                assert(cur.count == occurrences(seen, cur.date));
                assert(cur.date == d);
                assert(cur.count < u32::MAX);
            }
            records.set(i, SubmitRecord { date: cur.date, count: cur.count + 1 });
            proof {
                let now = records@;
                let prev = old(records)@;
                assert forall|a: int, b: int| 0 <= a < b < now.len() implies (
                #[trigger] now[a]).date != (#[trigger] now[b]).date by {
                    assert(prev[a].date == now[a].date && prev[b].date == now[b].date);
                }
                assert forall|a: int| 0 <= a < now.len() implies (#[trigger] now[a]).count
                    == occurrences(seen.push(d), now[a].date) && now[a].count > 0 by {
                    lemma_occurrences_push(seen, d, now[a].date);
                    assert(prev[a].count == occurrences(seen, prev[a].date));
                    if a != i {
                        assert(now[a] == prev[a]);
                        assert(prev[a].date != d) by {
                            if prev[a].date == d {
                                if a < i {
                                    assert(prev[a].date != prev[i as int].date);
                                } else {
                                    assert(prev[i as int].date != prev[a].date);
                                }
                            }
                        }
                    }
                }
                assert forall|j: int| 0 <= j < now.len() implies (#[trigger] now[j]).date.valid()
                by {
                    assert(prev[j].date == now[j].date);
                    assert(prev[j].date.valid());
                }
                assert forall|x: Date| #[trigger] seen.push(d).contains(x) implies exists|k: int|
                    0 <= k < now.len() && (#[trigger] now[k]).date == x by {
                    if x == d {
                        assert(now[i as int].date == d);
                    } else {
                        let w = choose|w: int| 0 <= w < seen.push(d).len() && seen.push(d)[w] == x;
                        assert(seen[w] == x);
                        assert(seen.contains(x));
                        let k = choose|k: int|
                            0 <= k < prev.len() && (#[trigger] prev[k]).date == x;
                        assert(now[k].date == x);
                    }
                }
            }
            return ;
        }
        i = i + 1;
    }
    proof {
        lemma_occurrences_contains(seen, d);
        if seen.contains(d) {
            let k = choose|k: int|
                0 <= k < records@.len() && (#[trigger] records@[k]).date == d;
            assert(false);
        }
    }
    records.push(SubmitRecord { date: d, count: 1 });
    proof {
        let now = records@;
        let prev = old(records)@;
        assert forall|x: Date| #[trigger] seen.push(d).contains(x) implies exists|k: int|
            0 <= k < now.len() && (#[trigger] now[k]).date == x by {
            if x == d {
                assert(now[now.len() - 1].date == d);
            } else {
                let w = choose|w: int| 0 <= w < seen.push(d).len() && seen.push(d)[w] == x;
                assert(seen[w] == x);
                assert(seen.contains(x));
                let k = choose|k: int| 0 <= k < prev.len() && (#[trigger] prev[k]).date == x;
                assert(now[k].date == x);
            }
        }
    }
}

/// Aggregate the raw accounting output into one record per distinct
/// date, each carrying the number of good timestamp lines naming it.
///
/// The length bound keeps every per-day count well below the
/// counter's capacity.
pub fn parse_sacct_output(bytes: &Vec<u8>) -> (records: Vec<SubmitRecord>)
    requires
        bytes@.len() < 0x8000_0000,
    ensures
        records_match(records@, parsed_dates(bytes@, 0)),
        forall|i: int| 0 <= i < records@.len() ==> (#[trigger] records@[i]).date.valid(),
{
    let dates = scan_dates(bytes);
    let mut records: Vec<SubmitRecord> = Vec::new();
    let mut i: usize = 0;
    proof {
        assert(dates@.take(0) =~= Seq::<Date>::empty());
    }
    while i < dates.len()
        invariant
            0 <= i <= dates@.len(),
            records_match(records@, dates@.take(i as int)),
            forall|j: int| 0 <= j < dates@.len() ==> (#[trigger] dates@[j]).valid(),
            forall|j: int| 0 <= j < records@.len() ==> (#[trigger] records@[j]).date.valid(),
            dates@ == parsed_dates(bytes@, 0),
            bytes@.len() < 0x8000_0000,
        decreases dates@.len() - i,
    {
        proof {
            lemma_occurrences_contains(dates@.take(i as int), dates@[i as int]);
            lemma_parsed_dates_len(bytes@, 0);
            assert(dates@.take(i as int).len() <= dates@.len());
        }
        let d = dates[i];
        let ghost before = records@;
        add_date(&mut records, d, Ghost(dates@.take(i as int)));
        proof {
            assert(dates@.take(i + 1) =~= dates@.take(i as int).push(dates@[i as int]));
            assert forall|j: int| 0 <= j < records@.len() implies (
            #[trigger] records@[j]).date.valid() by {
                if j < before.len() {
                    assert(before[j].date.valid());
                }
            }
        }
        i = i + 1;
    }
    proof {
        assert(dates@.take(dates@.len() as int) =~= dates@);
    }
    records
}

} // verus!
