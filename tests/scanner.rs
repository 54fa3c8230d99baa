use quickfix::bytes::Span;
use quickfix::parse::{Decimal, Line};
use quickfix::scan::{golines, Record};

fn text<'a>(buf: &'a [u8], s: &Span) -> &'a [u8] {
    s.slice(buf)
}

fn value(d: &Decimal) -> f64 {
    let m = d.mantissa as f64 / 10f64.powi(d.scale as i32);
    if d.negative {
        -m
    } else {
        m
    }
}

fn joined(buf: &[u8], recs: &[Record]) -> Vec<u8> {
    let mut out = Vec::new();
    for r in recs {
        out.extend_from_slice(r.consumed.slice(buf));
    }
    out
}

const FIVE: &[u8] = b"--- FAIL: TestXX (0.00s)\nFAIL\tgithub.com/org/pkg\t0.011s\npanic: runtime error: invalid memory address or nil pointer dereference [recovered]\ngoroutine 24 [running]:\n /a/b/file.go:293 +0x5bc\n";

#[test]
fn scan_begin_fail() {
    let buf: &[u8] = b"--- FAIL: TestXX (0.00s)\n";
    let r = golines(buf);
    assert_eq!(r.len(), 1);
    match &r[0].line {
        Line::BeginFail(n, d) => {
            assert_eq!(text(buf, n), b"TestXX");
            assert_eq!(value(d), 0.0);
        }
        other => panic!("{:?}", other),
    }
}

#[test]
fn scan_failed_package() {
    let buf: &[u8] = b"FAIL\tgithub.com/org/pkg\t0.011s\n";
    let r = golines(buf);
    assert_eq!(r.len(), 1);
    match &r[0].line {
        Line::FailedPackage(n, d) => {
            assert_eq!(text(buf, n), b"github.com/org/pkg");
            assert_eq!(value(d), 0.011);
        }
        other => panic!("{:?}", other),
    }
}

#[test]
fn scan_panic_start() {
    let buf: &[u8] =
        b"panic: runtime error: invalid memory address or nil pointer dereference [recovered]\n";
    let r = golines(buf);
    assert_eq!(r.len(), 1);
    match &r[0].line {
        Line::PanicStart(m) => assert_eq!(
            text(buf, m),
            b"runtime error: invalid memory address or nil pointer dereference"
        ),
        other => panic!("{:?}", other),
    }
}

#[test]
fn scan_stack_start() {
    let buf: &[u8] = b"goroutine 24 [running]:\n";
    let r = golines(buf);
    assert_eq!(r.len(), 1);
    assert!(matches!(r[0].line, Line::StackStart(24)));
}

#[test]
fn scan_stack_line() {
    let buf: &[u8] = b" /a/b/file.go:293 +0x5bc\n";
    let r = golines(buf);
    assert_eq!(r.len(), 1);
    match &r[0].line {
        Line::StackLine(f, n, o) => {
            assert_eq!(text(buf, f), b"/a/b/file.go");
            assert_eq!(*n, 293);
            assert_eq!(*o, 0x5bc);
            assert_eq!(*o, 1468);
        }
        other => panic!("{:?}", other),
    }
}

#[test]
fn scan_five_lines_in_order() {
    let r = golines(FIVE);
    assert_eq!(r.len(), 5);
    assert!(matches!(r[0].line, Line::BeginFail(..)));
    assert!(matches!(r[1].line, Line::FailedPackage(..)));
    assert!(matches!(r[2].line, Line::PanicStart(..)));
    assert!(matches!(r[3].line, Line::StackStart(24)));
    assert!(matches!(r[4].line, Line::StackLine(_, 293, 1468)));
}

#[test]
fn scan_is_lossless() {
    let buf: &[u8] = b"=== RUN TestA\r\n--- FAIL: TestA (1.5s)\n\n[oops]\nno newline at the end";
    let r = golines(buf);
    assert_eq!(joined(buf, &r), buf.to_vec());
    assert_eq!(joined(FIVE, &golines(FIVE)), FIVE.to_vec());
}

#[test]
fn scan_is_deterministic() {
    let a = golines(FIVE);
    let b = golines(FIVE);
    assert_eq!(format!("{:?}", a), format!("{:?}", b));
}

#[test]
fn scan_priority_first_grammar_wins() {
    // Also a call of a function named "--- FAIL: TestX " with one argument.
    let buf: &[u8] = b"--- FAIL: TestX (1s)\n";
    let r = golines(buf);
    assert!(matches!(r[0].line, Line::BeginFail(..)));
    assert!(quickfix::parse::stack_function(buf, 0, buf.len() - 1).is_some());
}

#[test]
fn scan_empty_buffer() {
    assert!(golines(b"").is_empty());
}

#[test]
fn scan_crlf_and_last_line() {
    let buf: &[u8] = b"goroutine 7 [running]:\r\nplain text";
    let r = golines(buf);
    assert_eq!(r.len(), 2);
    assert!(matches!(r[0].line, Line::StackStart(7)));
    assert_eq!(r[0].consumed, Span { start: 0, end: 24 });
    match &r[1].line {
        Line::Basic(t) => assert_eq!(text(buf, t), b"plain text"),
        other => panic!("{:?}", other),
    }
    assert_eq!(r[1].consumed, Span { start: 24, end: buf.len() });
}

#[test]
fn scan_empty_line_is_basic() {
    let buf: &[u8] = b"\n\n";
    let r = golines(buf);
    assert_eq!(r.len(), 2);
    assert!(matches!(r[0].line, Line::Basic(Span { start: 0, end: 0 })));
    assert!(matches!(r[1].line, Line::Basic(Span { start: 1, end: 1 })));
}
