//! The command-line options the view is driven by.
//!
//! The surrounding binary parses arguments and hands them over as
//! plain values; here lives the one rule worth checking: a query
//! window, when both of its ends are given, must run forward and span
//! at most 180 days.

use vstd::prelude::*;
use crate::date::Date;

verus! {

/// The widest allowed query window, in days from start to end.
pub const MAX_DAYS: u32 = 180;

/// Selectable color schemes of the view.
#[derive(Clone, Copy, Debug, PartialEq, Eq, Structural)]
pub enum ColorScheme {
    Default,
}

/// The resolved command-line options.
#[derive(Clone, Copy, Debug)]
pub struct Cli {
    pub start: Option<Date>,
    pub end: Option<Date>,
    pub full_header: bool,
    pub color_scheme: Option<ColorScheme>,
}

impl Cli {
    pub open spec fn wf(self) -> bool {
        &&& (self.start matches Some(s) ==> s.valid())
        &&& (self.end matches Some(e) ==> e.valid())
    }

    /// Whether the given endpoints form an acceptable window: with
    /// both present, the end must not precede the start and must lie
    /// within `MAX_DAYS` days of it; a missing endpoint is filled in
    /// later and always accepted.
    pub open spec fn range_acceptable(self) -> bool {
        match (self.start, self.end) {
            (Some(s), Some(e)) => s.day_index() <= e.day_index() && e.day_index() - s.day_index()
                <= MAX_DAYS,
            _ => true,
        }
    }

    /// Validates the date range: `Ok` exactly when the window is
    /// acceptable, and otherwise the error text shown to the user.
    pub fn validate_date_range(&self) -> (r: Result<(), String>)
        requires
            self.wf(),
        ensures
            r is Ok <==> self.range_acceptable(),
            r matches Err(e) ==> e@
                == "Date range must be within 180 days and start must be before end."@,
    {
        if let (Some(start), Some(end)) = (self.start, self.end) {
            let s_idx = start.to_day_index();
            let e_idx = end.to_day_index();
            if e_idx < s_idx || e_idx - s_idx > MAX_DAYS {
                return Err(
                    "Date range must be within 180 days and start must be before end.".to_owned(),
                );
            }
        }
        Ok(())
    }
}

} // verus!
