use quickfix::bytes::Span;
use quickfix::parse::{Decimal, Line};

fn text<'a>(buf: &'a [u8], s: &Span) -> &'a [u8] {
    s.slice(buf)
}

fn value(d: &Decimal) -> f64 {
    let m = d.mantissa as f64 / 10f64.powi(d.scale as i32);
    if d.negative {
        -m
    } else {
        m
    }
}

fn whole(buf: &[u8]) -> Option<Line> {
    let b = buf.len() - 1;
    assert_eq!(buf[b], b'\n');
    Some(quickfix::parse::goline(buf, 0, b))
}

#[test]
fn fail_begin() {
    let buf: &[u8] = b"--- FAIL: TestXX (0.00s)\n";
    match quickfix::parse::fail_begin(buf, 0, buf.len() - 1) {
        Some(Line::BeginFail(n, d)) => {
            assert_eq!(text(buf, &n), b"TestXX");
            assert_eq!(value(&d), 0.0);
        }
        other => panic!("{:?}", other),
    }
    let buf: &[u8] = b"--- FAIL: TestPi (3.14s)\n";
    match quickfix::parse::fail_begin(buf, 0, buf.len() - 1) {
        Some(Line::BeginFail(n, d)) => {
            assert_eq!(text(buf, &n), b"TestPi");
            assert_eq!(value(&d), 3.14);
        }
        other => panic!("{:?}", other),
    }
}

#[test]
fn failed_package() {
    let buf: &[u8] = b"FAIL\tgithub.com/opentable/sous/ext/singularity\t0.011s\n";
    match quickfix::parse::failed_package(buf, 0, buf.len() - 1) {
        Some(Line::FailedPackage(n, d)) => {
            assert_eq!(text(buf, &n), b"github.com/opentable/sous/ext/singularity");
            assert_eq!(value(&d), 0.011);
        }
        other => panic!("{:?}", other),
    }
}

#[test]
fn panic_start() {
    let buf: &[u8] = b"panic: runtime error: invalid memory address or nil pointer dereference [recovered]\n";
    match quickfix::parse::panic_start(buf, 0, buf.len() - 1) {
        Some(Line::PanicStart(m)) => {
            assert_eq!(
                text(buf, &m),
                b"runtime error: invalid memory address or nil pointer dereference"
            );
        }
        other => panic!("{:?}", other),
    }
}

#[test]
fn panic_cause() {
    let buf: &[u8] = b"[signal SIGSEGV: segmentation violation code=0x1 addr=0x4c pc=0x90e072]\n";
    match quickfix::parse::panic_cause(buf, 0, buf.len() - 1) {
        Some(Line::PanicCause(c)) => {
            assert_eq!(
                text(buf, &c),
                b"signal SIGSEGV: segmentation violation code=0x1 addr=0x4c pc=0x90e072"
            );
        }
        other => panic!("{:?}", other),
    }
}

#[test]
fn stack_function() {
    let buf: &[u8] = b"testing.tRunner.func1(0xc4203a3520)\n";
    match quickfix::parse::stack_function(buf, 0, buf.len() - 1) {
        Some(Line::StackFunc(f, args)) => {
            assert_eq!(text(buf, &f), b"testing.tRunner.func1");
            assert_eq!(args.len(), 1);
            assert_eq!(text(buf, &args[0]), b"0xc4203a3520");
        }
        other => panic!("{:?}", other),
    }
}

#[test]
fn stack_line() {
    let buf: &[u8] = b" /home/judson/golang/src/github.com/opentable/sous/ext/singularity/deployer_test.go:293 +0x5bc\n";
    match quickfix::parse::stack_line(buf, 0, buf.len() - 1) {
        Some(Line::StackLine(f, n, o)) => {
            assert_eq!(
                text(buf, &f),
                &b"/home/judson/golang/src/github.com/opentable/sous/ext/singularity/deployer_test.go"[..]
            );
            assert_eq!(n, 293);
            assert_eq!(o, 1468);
        }
        other => panic!("{:?}", other),
    }
}

#[test]
fn delim_dur() {
    let buf: &[u8] = b"(0.00s)";
    let r = quickfix::parse::delim_dur(buf, 0, buf.len());
    assert_eq!(
        r,
        Some((Decimal { negative: false, mantissa: 0, scale: 2 }, buf.len()))
    );
    assert_eq!(value(&r.unwrap().0), 0.0);
}

#[test]
fn endfail_matches() {
    let buf: &[u8] = b"FAIL\t";
    assert_eq!(quickfix::parse::endfail(buf, 0, buf.len()), Some(buf.len()));
}

#[test]
#[should_panic]
fn endfail_nomatch() {
    let buf: &[u8] = b"something else";
    quickfix::parse::endfail(buf, 0, buf.len()).unwrap();
}

#[test]
fn dash_dash_fail_matches() {
    let buf: &[u8] = b"--- FAIL: ";
    assert_eq!(quickfix::parse::dash_dash_fail(buf, 0, buf.len()), Some(buf.len()));
}

#[test]
#[should_panic]
fn dash_dash_fail_nomatch() {
    let buf: &[u8] = b"something else";
    quickfix::parse::dash_dash_fail(buf, 0, buf.len()).unwrap();
}

#[test]
fn decimal_forms() {
    let buf: &[u8] = b"-2.5";
    assert_eq!(
        quickfix::parse::decimal(buf, 0, buf.len()),
        Some((Decimal { negative: true, mantissa: 25, scale: 1 }, 4))
    );
    let buf: &[u8] = b"7.";
    assert_eq!(
        quickfix::parse::decimal(buf, 0, buf.len()),
        Some((Decimal { negative: false, mantissa: 7, scale: 0 }, 2))
    );
    let buf: &[u8] = b".5s";
    assert_eq!(
        quickfix::parse::decimal(buf, 0, buf.len()),
        Some((Decimal { negative: false, mantissa: 5, scale: 1 }, 2))
    );
    let buf: &[u8] = b"+.s";
    assert_eq!(quickfix::parse::decimal(buf, 0, buf.len()), None);
    let buf: &[u8] = b"99999999999999999999";
    assert_eq!(quickfix::parse::decimal(buf, 0, buf.len()), None);
}

#[test]
fn duration_needs_unit() {
    let buf: &[u8] = b"0.5";
    assert_eq!(quickfix::parse::duration(buf, 0, buf.len()), None);
    let buf: &[u8] = b"0.5ms";
    assert_eq!(
        quickfix::parse::duration(buf, 0, buf.len()),
        Some((Decimal { negative: false, mantissa: 5, scale: 1 }, 5))
    );
}

#[test]
fn integer_skips_blanks() {
    let buf: &[u8] = b"  \t42 ";
    assert_eq!(quickfix::parse::integer(buf, 0, buf.len()), Some((42, 5)));
    let buf: &[u8] = b"9223372036854775808";
    assert_eq!(quickfix::parse::integer(buf, 0, buf.len()), None);
    let buf: &[u8] = b"9223372036854775807";
    assert_eq!(
        quickfix::parse::integer(buf, 0, buf.len()),
        Some((i64::MAX, buf.len()))
    );
}

#[test]
fn stack_function_many_args() {
    let buf: &[u8] = b"github.com/org/pkg.Func(0xc420,  0x0)\n";
    match whole(buf) {
        Some(Line::StackFunc(f, args)) => {
            assert_eq!(text(buf, &f), b"github.com/org/pkg.Func");
            assert_eq!(args.len(), 2);
            assert_eq!(text(buf, &args[0]), b"0xc420");
            assert_eq!(text(buf, &args[1]), b"0x0");
        }
        other => panic!("{:?}", other),
    }
    let buf: &[u8] = b"main.main()\n";
    match whole(buf) {
        Some(Line::StackFunc(f, args)) => {
            assert_eq!(text(buf, &f), b"main.main");
            assert!(args.is_empty());
        }
        other => panic!("{:?}", other),
    }
}

#[test]
fn offset_over_u32_is_basic() {
    let buf: &[u8] = b"\t/a.go:1 +0x100000000\n";
    assert!(matches!(whole(buf), Some(Line::Basic(_))));
    let buf: &[u8] = b"\t/a.go:1 +0xffffffff\n";
    assert!(matches!(whole(buf), Some(Line::StackLine(_, 1, 0xffff_ffff))));
    let buf: &[u8] = b"\t/a.go:1 +0x5bg\n";
    assert!(matches!(whole(buf), Some(Line::Basic(_))));
}

#[test]
fn panic_without_marker_is_basic() {
    let buf: &[u8] = b"panic: boom\n";
    assert!(matches!(whole(buf), Some(Line::Basic(_))));
}
