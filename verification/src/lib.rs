//! Terminal activity-heatmap engine.
//!
//! Computes a Monday-aligned weekly grid over a date range, adaptive
//! quantile color-bucket thresholds from observed daily counts, and the
//! header and legend label data needed to render a contribution-style
//! heatmap. All drawing and input polling is left to the caller.

pub mod cli;
pub mod color;
pub mod date;
pub mod grid;
pub mod header;
pub mod legend;
pub mod sacct;
pub mod text;
pub mod thresholds;
pub mod view;
