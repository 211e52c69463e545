use textutils::head::{run, Args, ByteSource};

fn args(lines: u64, bytes: Option<u64>) -> Args {
    Args { files: Vec::new(), lines, bytes }
}

fn data_source(name: &str, data: &[u8]) -> ByteSource {
    ByteSource::Data { name: name.to_string(), data: data.to_vec() }
}

#[test]
fn head_first_lines() {
    let sources = vec![data_source("f", b"one\ntwo\nthree\n")];
    let (out, errs) = run(&args(2, None), &sources);
    assert_eq!(out, "one\ntwo\n");
    assert!(errs.is_empty());
}

#[test]
fn head_fewer_lines_than_asked() {
    let sources = vec![data_source("f", b"only\n")];
    let (out, errs) = run(&args(10, None), &sources);
    assert_eq!(out, "only\n");
    assert!(errs.is_empty());
}

#[test]
fn head_terminates_final_fragment() {
    let sources = vec![data_source("f", b"abc")];
    let (out, _) = run(&args(1, None), &sources);
    assert_eq!(out, "abc\n");
}

#[test]
fn head_multiple_sources_get_headers_and_separator() {
    let sources = vec![data_source("a", b"l1\n"), data_source("b", b"l2\n")];
    let (out, errs) = run(&args(10, None), &sources);
    assert_eq!(out, "==> a <==\nl1\n\n==> b <==\nl2\n");
    assert!(errs.is_empty());
}

#[test]
fn head_first_bytes() {
    let sources = vec![data_source("f", b"hello")];
    let (out, errs) = run(&args(10, Some(2)), &sources);
    assert_eq!(out, "he");
    assert!(errs.is_empty());
}

#[test]
fn head_byte_cut_inside_a_character() {
    let sources = vec![data_source("f", "\u{e9}x".as_bytes())];
    let (out, _) = run(&args(10, Some(1)), &sources);
    assert_eq!(out, "\u{fffd}");
}

#[test]
fn head_rejects_bytes_that_are_not_text_in_line_mode() {
    let sources = vec![data_source("f", &[0xff, 0xfe])];
    let (out, errs) = run(&args(10, None), &sources);
    assert_eq!(out, "");
    assert_eq!(errs, vec!["f: stream did not contain valid UTF-8".to_string()]);
}

#[test]
fn head_header_shown_for_failed_source() {
    let sources = vec![
        ByteSource::Failed {
            name: "missing".to_string(),
            message: "No such file or directory (os error 2)".to_string(),
        },
        data_source("f", b"ok\n"),
    ];
    let (out, errs) = run(&args(10, None), &sources);
    assert_eq!(out, "==> missing <==\n==> f <==\nok\n");
    assert_eq!(errs, vec![
        "missing: No such file or directory (os error 2)".to_string(),
    ]);
}
