//! Color buckets and count classification.
//!
//! A count is mapped to one of six ordered categories: `Zero` for a
//! count of zero, `Bucket1` through `Bucket4` for counts at or below
//! the four cut points, and `Overflow` above the last cut point. The
//! comparisons cascade in order, so ties land in the lower bucket.

use vstd::prelude::*;

verus! {

/// One of the six visual categories of the heatmap.
#[derive(Clone, Copy, Debug, PartialEq, Eq, Structural)]
pub enum ColorBucket {
    Zero,
    Bucket1,
    Bucket2,
    Bucket3,
    Bucket4,
    Overflow,
}

/// The bucket of a count under four cut points. Total: every count and
/// every choice of cut points yields exactly one bucket.
pub open spec fn spec_classify(count: u32, t: Seq<u32>) -> ColorBucket
    recommends
        t.len() == 4,
{
    if count == 0 {
        ColorBucket::Zero
    } else if count <= t[0] {
        ColorBucket::Bucket1
    } else if count <= t[1] {
        ColorBucket::Bucket2
    } else if count <= t[2] {
        ColorBucket::Bucket3
    } else if count <= t[3] {
        ColorBucket::Bucket4
    } else {
        ColorBucket::Overflow
    }
}

/// The color bucket for one day's count.
///
/// Deterministic and total over all counts: the result is exactly
/// `spec_classify(count, thresholds@)`, a zero count is always `Zero`,
/// and otherwise the first cut point at or above the count decides.
pub fn get_color_for_count(count: u32, thresholds: &[u32]) -> (b: ColorBucket)
    requires
        thresholds@.len() == 4,
    ensures
        b == spec_classify(count, thresholds@),
{
    if count == 0 {
        ColorBucket::Zero
    } else if count <= thresholds[0] {
        ColorBucket::Bucket1
    } else if count <= thresholds[1] {
        ColorBucket::Bucket2
    } else if count <= thresholds[2] {
        ColorBucket::Bucket3
    } else if count <= thresholds[3] {
        ColorBucket::Bucket4
    } else {
        ColorBucket::Overflow
    }
}

} // verus!
