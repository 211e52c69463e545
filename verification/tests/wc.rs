use textutils::source::Source;
use textutils::wc::{count, run, showable, Args, ConfigError, FileInfo};

fn args(lines: bool, words: bool, bytes: bool, chars: bool) -> Args {
    Args { files: Vec::new(), lines, words, bytes, chars }
}

fn text_source(name: &str, text: &str) -> Source {
    Source::Text { name: name.to_string(), text: text.to_string() }
}

fn failed_source(name: &str, message: &str) -> Source {
    Source::Failed { name: name.to_string(), message: message.to_string() }
}

#[test]
fn test_count() {
    let text = "I don't want the world.\nI just want your half.\r\n";
    let info = count(text);

    let expected = FileInfo { num_lines: 2, num_words: 10, num_bytes: 48, num_chars: 48 };

    assert_eq!(info, expected);
}

#[test]
fn count_empty() {
    let info = count("");
    assert_eq!(info, FileInfo { num_lines: 0, num_words: 0, num_bytes: 0, num_chars: 0 });
}

#[test]
fn count_unterminated_final_line() {
    let info = count("one\ntwo");
    assert_eq!(info.num_lines, 2);
    assert_eq!(info.num_words, 2);
    assert_eq!(info.num_bytes, 7);
    assert_eq!(info.num_chars, 7);
}

#[test]
fn count_collapses_whitespace_runs() {
    let a = count("a b c");
    let b = count("  a \t b \n\n  c  \n");
    assert_eq!(a.num_words, 3);
    assert_eq!(b.num_words, 3);
}

#[test]
fn count_multibyte_chars_fewer_than_bytes() {
    let info = count("h\u{e9}llo\n");
    assert_eq!(info.num_chars, 6);
    assert_eq!(info.num_bytes, 7);
    assert!(info.num_chars <= info.num_bytes);
}

#[test]
fn count_single_byte_chars_equal_bytes() {
    let info = count("plain ascii\n");
    assert_eq!(info.num_chars, info.num_bytes);
}

#[test]
fn count_is_deterministic() {
    let first = String::from("same text\nagain\n");
    let second = String::from("same text\nagain\n");
    assert_eq!(count(first.as_str()), count(second.as_str()));
}

#[test]
fn count_agrees_with_standard_tokenization() {
    let samples = [
        "",
        "one",
        "one two\nthree\n",
        "  padded \t words \u{a0} here\r\n",
        "\u{3000}wide\u{2028}separators\u{2029}too\n",
        "tab\tnewline\nmix \r\n\r\n",
        "caf\u{e9} na\u{ef}ve \u{4f60}\u{597d}\n",
    ];
    for text in samples {
        let info = count(text);
        assert_eq!(info.num_words as usize, text.split_whitespace().count());
        assert_eq!(info.num_chars as usize, text.chars().count());
        assert_eq!(info.num_bytes as usize, text.len());
        assert_eq!(info.num_lines as usize, text.lines().count());
    }
}

#[test]
fn showable_pads_to_eight_columns() {
    assert_eq!(showable(10, true), "      10");
    assert_eq!(showable(0, true), "       0");
    assert_eq!(showable(123456789, true), "123456789");
    assert_eq!(showable(5, false), "");
}

#[test]
fn run_default_fields_are_lines_words_bytes() {
    let sources = vec![text_source("one", "a b\n")];
    let report = run(&args(false, false, false, false), &sources).unwrap();
    assert_eq!(report.out, vec!["       1       2       4 one".to_string()]);
    assert!(report.err.is_empty());
}

#[test]
fn run_rejects_bytes_with_chars() {
    let sources = vec![failed_source("missing", "No such file or directory (os error 2)")];
    let result = run(&args(false, false, true, true), &sources);
    assert_eq!(result.unwrap_err(), ConfigError::ConflictingFlags);
}

#[test]
fn run_chars_field_alone() {
    let sources = vec![text_source("one", "a b\n")];
    let report = run(&args(false, false, false, true), &sources).unwrap();
    assert_eq!(report.out, vec!["       4 one".to_string()]);
}

#[test]
fn run_omits_stdin_name() {
    let sources = vec![text_source("-", "a b\n")];
    let report = run(&args(true, false, false, false), &sources).unwrap();
    assert_eq!(report.out, vec!["       1".to_string()]);
}

#[test]
fn run_totals_sum_the_sources() {
    let sources = vec![text_source("one", "a b\n"), text_source("two", "x\ny z\n")];
    let report = run(&args(false, false, false, false), &sources).unwrap();
    assert_eq!(
        report.out,
        vec![
            "       1       2       4 one".to_string(),
            "       2       3       6 two".to_string(),
            "       3       5      10 total".to_string(),
        ]
    );
}

#[test]
fn run_single_source_has_no_total() {
    let sources = vec![text_source("one", "a b\n")];
    let report = run(&args(false, false, false, false), &sources).unwrap();
    assert_eq!(report.out.len(), 1);
}

#[test]
fn run_reports_failure_and_continues() {
    let sources = vec![
        text_source("good.txt", "hello\n"),
        failed_source("bad.txt", "No such file or directory (os error 2)"),
    ];
    let report = run(&args(false, false, false, false), &sources).unwrap();
    assert_eq!(
        report.out,
        vec![
            "       1       1       6 good.txt".to_string(),
            "       1       1       6 total".to_string(),
        ]
    );
    assert_eq!(report.err, vec![
        "bad.txt: No such file or directory (os error 2)".to_string(),
    ]);
}
