use donda::cli::{Cli, ColorScheme};
use donda::color::ColorBucket;
use donda::date::Date;
use donda::grid::{week_anchors, DateRange};
use donda::header::get_header;
use donda::legend::get_legend;
use donda::text::{month_abbrev_str, two_digit_string, u32_string};
use donda::view::{generate_sumbit_data, heatmap_title, should_quit};

fn d(year: u32, month: u32, day: u32) -> Date {
    Date { year, month, day }
}

#[test]
fn number_strings() {
    assert_eq!(u32_string(0), "0");
    assert_eq!(u32_string(7), "7");
    assert_eq!(u32_string(42), "42");
    assert_eq!(u32_string(2024), "2024");
    assert_eq!(two_digit_string(4), "04");
    assert_eq!(two_digit_string(28), "28");
    assert_eq!(month_abbrev_str(1), "Jan");
    assert_eq!(month_abbrev_str(12), "Dec");
}

#[test]
fn full_header_names_every_week() {
    let mondays = vec![d(2024, 10, 28), d(2024, 11, 4), d(2024, 11, 11)];
    let labels = get_header(&mondays, true);
    assert_eq!(labels, vec!["Oct28", "Nov04", "Nov11"]);
}

#[test]
fn compact_header_marks_month_starts() {
    let mondays = vec![
        d(2024, 10, 21),
        d(2024, 10, 28),
        d(2024, 11, 4),
        d(2024, 11, 11),
        d(2024, 12, 2),
    ];
    let labels = get_header(&mondays, false);
    assert_eq!(labels, vec!["Oct", "", "Nov", "", "Dec"]);
}

#[test]
fn compact_header_counts_distinct_months() {
    // Header compactness over a realistic anchor run: one visible
    // label per distinct month touched.
    let range = DateRange { start: d(2024, 9, 15), end: d(2025, 1, 20) };
    let anchors = week_anchors(&range);
    let labels = get_header(&anchors, false);
    let visible = labels.iter().filter(|l| !l.is_empty()).count();
    let mut months: Vec<u32> = anchors.iter().map(|a| a.month).collect();
    months.sort_unstable();
    months.dedup();
    assert_eq!(visible, months.len());
}

#[test]
fn legend_row_shape() {
    let legend = get_legend(&vec![2, 4, 6, 8]);
    assert_eq!(legend.len(), 8);
    assert_eq!(legend[0].label, "    Less    ");
    assert_eq!(legend[0].bucket, None);
    assert_eq!(legend[1].label, "= 0");
    assert_eq!(legend[1].bucket, Some(ColorBucket::Zero));
    assert_eq!(legend[2].label, "<= 2");
    assert_eq!(legend[2].bucket, Some(ColorBucket::Bucket1));
    assert_eq!(legend[3].label, "<= 4");
    assert_eq!(legend[4].label, "<= 6");
    assert_eq!(legend[5].label, "<= 8");
    assert_eq!(legend[5].bucket, Some(ColorBucket::Bucket4));
    assert_eq!(legend[6].label, "> 8");
    assert_eq!(legend[6].bucket, Some(ColorBucket::Overflow));
    assert_eq!(legend[7].label, "    More    ");
    assert_eq!(legend[7].bucket, None);
}

#[test]
fn title_for_years() {
    assert_eq!(heatmap_title(2024, 2024), "2024 sumbit Heatmap");
    assert_eq!(heatmap_title(2023, 2024), "2023 - 2024 sumbit Heatmap");
}

#[test]
fn quit_only_on_q_press() {
    assert!(should_quit(true, Some('q')));
    assert!(!should_quit(false, Some('q')));
    assert!(!should_quit(true, Some('x')));
    assert!(!should_quit(true, None));
}

#[test]
fn demo_data_counts_day_mod_ten() {
    let range = DateRange { start: d(2024, 11, 8), end: d(2024, 11, 12) };
    let records = generate_sumbit_data(&range);
    assert_eq!(records.len(), 5);
    assert_eq!(records[0].date, d(2024, 11, 8));
    assert_eq!(records[0].count, 8);
    assert_eq!(records[2].date, d(2024, 11, 10));
    assert_eq!(records[2].count, 0);
    assert_eq!(records[4].date, d(2024, 11, 12));
    assert_eq!(records[4].count, 2);
}

#[test]
fn date_range_validation() {
    let ok = Cli {
        start: Some(d(2024, 6, 1)),
        end: Some(d(2024, 11, 1)),
        full_header: false,
        color_scheme: Some(ColorScheme::Default),
    };
    assert!(ok.validate_date_range().is_ok());

    let too_wide = Cli { start: Some(d(2024, 1, 1)), end: Some(d(2024, 11, 1)), ..ok };
    let err = too_wide.validate_date_range().unwrap_err();
    assert_eq!(err, "Date range must be within 180 days and start must be before end.");

    let backwards = Cli { start: Some(d(2024, 11, 1)), end: Some(d(2024, 10, 1)), ..ok };
    assert!(backwards.validate_date_range().is_err());

    // Exactly 180 days apart is still accepted.
    let edge = Cli { start: Some(d(2024, 5, 5)), end: Some(d(2024, 11, 1)), ..ok };
    assert!(edge.validate_date_range().is_ok());

    // A missing endpoint is filled in later and always accepted.
    let open_ended = Cli { start: None, end: Some(d(2024, 11, 1)), ..ok };
    assert!(open_ended.validate_date_range().is_ok());
}
