use textutils::cat::{run, Args};
use textutils::source::Source;

fn args(number_lines: bool, number_nonblank_lines: bool) -> Args {
    Args { files: Vec::new(), number_lines, number_nonblank_lines }
}

fn text_source(name: &str, text: &str) -> Source {
    Source::Text { name: name.to_string(), text: text.to_string() }
}

#[test]
fn cat_plain_lines() {
    let sources = vec![text_source("f", "a\n\nb\n")];
    let report = run(&args(false, false), &sources);
    assert_eq!(report.out, vec!["a".to_string(), "".to_string(), "b".to_string()]);
    assert!(report.err.is_empty());
}

#[test]
fn cat_numbers_every_line() {
    let sources = vec![text_source("f", "a\n\nb\n")];
    let report = run(&args(true, false), &sources);
    assert_eq!(
        report.out,
        vec!["     1\ta".to_string(), "     2\t".to_string(), "     3\tb".to_string()]
    );
}

#[test]
fn cat_numbers_nonblank_lines_only() {
    let sources = vec![text_source("f", "a\n\nb\n")];
    let report = run(&args(false, true), &sources);
    assert_eq!(
        report.out,
        vec!["     1\ta".to_string(), "".to_string(), "     2\tb".to_string()]
    );
}

#[test]
fn cat_strips_crlf_terminators() {
    let sources = vec![text_source("f", "a\r\nb")];
    let report = run(&args(false, false), &sources);
    assert_eq!(report.out, vec!["a".to_string(), "b".to_string()]);
}

#[test]
fn cat_numbering_restarts_per_source() {
    let sources = vec![text_source("f", "a\n"), text_source("g", "b\n")];
    let report = run(&args(true, false), &sources);
    assert_eq!(report.out, vec!["     1\ta".to_string(), "     1\tb".to_string()]);
}

#[test]
fn lines_of_agrees_with_standard_line_splitting() {
    let samples = ["", "one", "a\nb", "a\r\nb\r\n", "\n\n", "ends with cr\r"];
    for text in samples {
        let split: Vec<String> = textutils::text::lines_of(text);
        let expected: Vec<String> = text.lines().map(|l| l.to_string()).collect();
        assert_eq!(split, expected);
    }
}

#[test]
fn cat_reports_failure_and_continues() {
    let sources = vec![
        Source::Failed {
            name: "missing".to_string(),
            message: "No such file or directory (os error 2)".to_string(),
        },
        text_source("f", "ok\n"),
    ];
    let report = run(&args(false, false), &sources);
    assert_eq!(report.out, vec!["ok".to_string()]);
    assert_eq!(report.err, vec![
        "missing: No such file or directory (os error 2)".to_string(),
    ]);
}
