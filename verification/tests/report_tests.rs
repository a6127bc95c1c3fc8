use color_histogram::histogram::Histogram;
use color_histogram::report::{
    human, render_report, to_decimal, HTML_FOOTER, HTML_HEADER, ROW_COLOR, ROW_HEAD, ROW_MID,
    ROW_TAIL, SUMMARY_HEAD, SUMMARY_TAIL,
};

#[test]
fn decimal_rendering() {
    assert_eq!(to_decimal(0), "0");
    assert_eq!(to_decimal(7), "7");
    assert_eq!(to_decimal(10), "10");
    assert_eq!(to_decimal(305), "305");
    assert_eq!(to_decimal(18446744073709551615), "18446744073709551615");
}

#[test]
fn human_unscaled_values() {
    assert_eq!(human(0, ""), "0");
    assert_eq!(human(999, ""), "999");
    // The thresholds are strict: the boundary values keep no suffix.
    assert_eq!(human(1000, ""), "1000");
}

#[test]
fn human_scaled_values() {
    assert_eq!(human(1001, ""), "1.00K");
    assert_eq!(human(1500, ""), "1.50K");
    assert_eq!(human(1500000, ""), "1.50M");
    assert_eq!(human(2000000000, ""), "2.00G");
}

#[test]
fn human_boundaries_stay_on_smaller_unit() {
    // The comparisons are strict: each boundary value keeps the previous
    // unit rather than moving up to the next one.
    assert_eq!(human(1000000, ""), "1000.00K");
    assert_eq!(human(1000000000, ""), "1000.00M");
    assert_eq!(human(1000001, ""), "1.00M");
    assert_eq!(human(1000000001, ""), "1.00G");
}

#[test]
fn human_appends_suffix() {
    assert_eq!(human(5, "B"), "5B");
    assert_eq!(human(2500, "B"), "2.50KB");
}

#[test]
fn report_of_no_entries_is_frame_and_summary() {
    let out = render_report(12, &vec![]);
    let expected = format!("{HTML_HEADER}{SUMMARY_HEAD}12{SUMMARY_TAIL}{HTML_FOOTER}");
    assert_eq!(out, expected);
}

#[test]
fn report_rows_reproduce_entries_in_order() {
    let entries = vec![(1500usize, 1u8, 2u8, 3u8), (0, 248, 0, 8)];
    let out = render_report(1500, &entries);
    let row1 = format!("{ROW_HEAD}1,2,3{ROW_MID}1.50K{ROW_COLOR}1, 2, 3{ROW_TAIL}");
    let row2 = format!("{ROW_HEAD}248,0,8{ROW_MID}0{ROW_COLOR}248, 0, 8{ROW_TAIL}");
    let expected =
        format!("{HTML_HEADER}{SUMMARY_HEAD}1.50K{SUMMARY_TAIL}{row1}{row2}{HTML_FOOTER}");
    assert_eq!(out, expected);
}

#[test]
fn histogram_report_renders_ranked_entries() {
    // One bucket in all: reduction factor 256.
    let mut h = Histogram::new(256);
    h.add(10, 20, 30);
    h.add(1, 2, 3);
    let html = h.to_html();
    let row = format!("{ROW_HEAD}0,0,0{ROW_MID}2{ROW_COLOR}0, 0, 0{ROW_TAIL}");
    let expected = format!("{HTML_HEADER}{SUMMARY_HEAD}2{SUMMARY_TAIL}{row}{HTML_FOOTER}");
    assert_eq!(html, expected);
}
