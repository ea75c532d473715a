//! The legend row.
//!
//! A fixed eight-cell row: the `Less` cap, one cell per color bucket
//! showing its count range, and the `More` cap. The bucket cells carry
//! the category they illustrate so the renderer can style them.

use vstd::prelude::*;
use vstd::string::StringExecFns;
use crate::color::ColorBucket;
use crate::text::dec_rep;

verus! {

/// One legend cell: its text and, for bucket cells, the bucket shown.
#[derive(Debug)]
pub struct LegendEntry {
    pub label: String,
    pub bucket: Option<ColorBucket>,
}

/// The upper-bound text of one cut point.
pub open spec fn at_most_label(q: int) -> Seq<char> {
    "<= "@ + dec_rep(q)
}

/// The text of the overflow cell.
pub open spec fn above_label(q: int) -> Seq<char> {
    "> "@ + dec_rep(q)
}

/// The eight legend cells for the four cut points, in display order:
/// `Less`, the zero cell, the four bucket ranges, the overflow range,
/// and `More`.
pub fn get_legend(color_thresholds: &Vec<u32>) -> (entries: Vec<LegendEntry>)
    requires
        color_thresholds@.len() == 4,
    ensures
        entries@.len() == 8,
        entries@[0].label@ == "    Less    "@ && entries@[0].bucket is None,
        entries@[1].label@ == "= 0"@ && entries@[1].bucket == Some(ColorBucket::Zero),
        entries@[2].label@ == at_most_label(color_thresholds@[0] as int) && entries@[2].bucket
            == Some(ColorBucket::Bucket1),
        entries@[3].label@ == at_most_label(color_thresholds@[1] as int) && entries@[3].bucket
            == Some(ColorBucket::Bucket2),
        entries@[4].label@ == at_most_label(color_thresholds@[2] as int) && entries@[4].bucket
            == Some(ColorBucket::Bucket3),
        entries@[5].label@ == at_most_label(color_thresholds@[3] as int) && entries@[5].bucket
            == Some(ColorBucket::Bucket4),
        entries@[6].label@ == above_label(color_thresholds@[3] as int) && entries@[6].bucket
            == Some(ColorBucket::Overflow),
        entries@[7].label@ == "    More    "@ && entries@[7].bucket is None,
{
    let mut entries: Vec<LegendEntry> = Vec::new();
    entries.push(LegendEntry { label: "    Less    ".to_owned(), bucket: None });
    entries.push(LegendEntry { label: "= 0".to_owned(), bucket: Some(ColorBucket::Zero) });
    entries.push(
        LegendEntry {
            label: at_most_string(color_thresholds[0]),
            bucket: Some(ColorBucket::Bucket1),
        },
    );
    entries.push(
        LegendEntry {
            label: at_most_string(color_thresholds[1]),
            bucket: Some(ColorBucket::Bucket2),
        },
    );
    entries.push(
        LegendEntry {
            label: at_most_string(color_thresholds[2]),
            bucket: Some(ColorBucket::Bucket3),
        },
    );
    entries.push(
        LegendEntry {
            label: at_most_string(color_thresholds[3]),
            bucket: Some(ColorBucket::Bucket4),
        },
    );
    let mut above = "> ".to_owned();
    above.append(crate::text::u32_string(color_thresholds[3]).as_str());
    entries.push(LegendEntry { label: above, bucket: Some(ColorBucket::Overflow) });
    entries.push(LegendEntry { label: "    More    ".to_owned(), bucket: None });
    entries
}

fn at_most_string(q: u32) -> (s: String)
    ensures
        s@ == at_most_label(q as int),
{
    let mut s = "<= ".to_owned();
    s.append(crate::text::u32_string(q).as_str());
    s
}

} // verus!
