use minigrep::{decimal_text, MatchReport, MatchedLine, ReportMode};

fn line(row: usize, column: usize, text: &str) -> MatchedLine {
    MatchedLine {
        row,
        column,
        text: text.to_string(),
    }
}

#[test]
fn decimal_text_writes_numbers() {
    assert_eq!("0", decimal_text(0));
    assert_eq!("9", decimal_text(9));
    assert_eq!("10", decimal_text(10));
    assert_eq!("1234567890", decimal_text(1234567890));
    assert_eq!(usize::MAX.to_string(), decimal_text(usize::MAX));
}

#[test]
fn a_line_is_rendered_as_written_in_simple_mode() {
    assert_eq!(
        "safe, fast, productive.",
        line(1, 15, "safe, fast, productive.").render(ReportMode::Simple)
    );
}

#[test]
fn a_line_is_rendered_after_row_and_column_in_positional_mode() {
    assert_eq!(
        "1:15 safe, fast, productive.",
        line(1, 15, "safe, fast, productive.").render(ReportMode::Positional)
    );
    assert_eq!("0:0 Rust:", line(0, 0, "Rust:").render(ReportMode::Positional));
    assert_eq!("3:1 Trust me.", line(3, 1, "Trust me.").render(ReportMode::Positional));
    assert_eq!("120:7 ", line(120, 7, "").render(ReportMode::Positional));
}

#[test]
fn there_is_no_report_without_a_matching_line() {
    assert!(MatchReport::on("poem.txt".to_string(), Vec::new()).is_none());
}

#[test]
fn a_report_is_printed_as_path_and_lines() {
    let report = MatchReport::on(
        "/tmp/poem.txt".to_string(),
        vec![line(0, 0, "Rust:"), line(3, 1, "Trust me.")],
    )
    .unwrap();
    assert_eq!("/tmp/poem.txt", report.file_path);
    assert_eq!(2, report.lines.len());
    assert_eq!(
        vec!["/tmp/poem.txt", "Rust:", "Trust me."],
        report.render(ReportMode::Simple)
    );
    assert_eq!(
        vec!["/tmp/poem.txt", "0:0 Rust:", "3:1 Trust me."],
        report.render(ReportMode::Positional)
    );
}
