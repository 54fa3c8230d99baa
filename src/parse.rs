//! The line grammars and the scanner that applies them to a whole buffer.

use vstd::prelude::*;

use crate::bytes::{
    digits_value, fold_digits, lemma_fold_mono, lemma_run_end_bounds, read_number, run, run_end,
    tag, tag_at, ByteClass, Span,
};

verus! {

/// A decimal number `(-1)^negative * mantissa / 10^scale`, as written in the input.
#[derive(Clone, Copy, Debug, PartialEq, Eq, Structural)]
pub struct Decimal {
    pub negative: bool,
    pub mantissa: u64,
    pub scale: usize,
}

/// One classified line; text fields are spans of the scanned buffer.
#[derive(Clone, Debug)]
pub enum Line {
    /// `--- FAIL: <name> (<duration>)`
    BeginFail(Span, Decimal),
    /// `FAIL<tab><package> <duration>`
    FailedPackage(Span, Decimal),
    /// `panic: <message> [recovered]`
    PanicStart(Span),
    /// `[<cause>]`
    PanicCause(Span),
    /// `goroutine <id> [running]:`
    StackStart(i64),
    /// `<function>(<arg>, ...)`
    StackFunc(Span, Vec<Span>),
    /// `<blank><file>:<line> +0x<offset>`
    StackLine(Span, i64, u32),
    /// any other line
    Basic(Span),
}

/// What a [`Line`] holds, with the argument list as a sequence.
pub enum LineView {
    BeginFail(Span, Decimal),
    FailedPackage(Span, Decimal),
    PanicStart(Span),
    PanicCause(Span),
    StackStart(i64),
    StackFunc(Span, Seq<Span>),
    StackLine(Span, i64, u32),
    Basic(Span),
}

impl View for Line {
    type V = LineView;

    open spec fn view(&self) -> LineView {
        match self {
            Line::BeginFail(n, d) => LineView::BeginFail(*n, *d),
            Line::FailedPackage(n, d) => LineView::FailedPackage(*n, *d),
            Line::PanicStart(m) => LineView::PanicStart(*m),
            Line::PanicCause(c) => LineView::PanicCause(*c),
            Line::StackStart(g) => LineView::StackStart(*g),
            Line::StackFunc(f, a) => LineView::StackFunc(*f, a@),
            Line::StackLine(f, n, o) => LineView::StackLine(*f, *n, *o),
            Line::Basic(t) => LineView::Basic(*t),
        }
    }
}

pub open spec fn opt_view(r: Option<Line>) -> Option<LineView> {
    match r {
        Some(l) => Some(l@),
        None => None,
    }
}

/// `--- FAIL: `
pub open spec fn dash_fail_tag() -> Seq<u8> {
    seq![0x2du8, 0x2d, 0x2d, 0x20, 0x46, 0x41, 0x49, 0x4c, 0x3a, 0x20]
}

/// `FAIL` and a tab
pub open spec fn end_fail_tag() -> Seq<u8> {
    seq![0x46u8, 0x41, 0x49, 0x4c, 0x09]
}

/// `panic: `
pub open spec fn panic_tag() -> Seq<u8> {
    seq![0x70u8, 0x61, 0x6e, 0x69, 0x63, 0x3a, 0x20]
}

/// ` [recovered]`
pub open spec fn recovered_tag() -> Seq<u8> {
    seq![0x20u8, 0x5b, 0x72, 0x65, 0x63, 0x6f, 0x76, 0x65, 0x72, 0x65, 0x64, 0x5d]
}

/// `goroutine `
pub open spec fn goroutine_tag() -> Seq<u8> {
    seq![0x67u8, 0x6f, 0x72, 0x6f, 0x75, 0x74, 0x69, 0x6e, 0x65, 0x20]
}

/// ` [running]:`
pub open spec fn running_tag() -> Seq<u8> {
    seq![0x20u8, 0x5b, 0x72, 0x75, 0x6e, 0x6e, 0x69, 0x6e, 0x67, 0x5d, 0x3a]
}

/// `+0x`
pub open spec fn offset_tag() -> Seq<u8> {
    seq![0x2bu8, 0x30, 0x78]
}

/// The end of tag `t` when it stands at `p`.
pub open spec fn spec_tag(s: Seq<u8>, p: int, b: int, t: Seq<u8>) -> Option<int> {
    if tag_at(s, p, b, t) {
        Some(p + t.len())
    } else {
        None
    }
}

/// Matches `--- FAIL: ` at `p`, returning where it ends.
pub fn dash_dash_fail(s: &[u8], p: usize, b: usize) -> (r: Option<usize>)
    requires
        p <= b <= s@.len(),
    ensures
        r matches Some(e) ==> spec_tag(s@, p as int, b as int, dash_fail_tag()) == Some(e as int),
        r is None ==> spec_tag(s@, p as int, b as int, dash_fail_tag()) is None,
{
    let t: [u8; 10] = [0x2d, 0x2d, 0x2d, 0x20, 0x46, 0x41, 0x49, 0x4c, 0x3a, 0x20];
    assert(t@ =~= dash_fail_tag());
    if tag(s, p, b, &t) {
        Some(p + 10)
    } else {
        None
    }
}

/// Matches `FAIL` and a tab at `p`, returning where it ends.
pub fn endfail(s: &[u8], p: usize, b: usize) -> (r: Option<usize>)
    requires
        p <= b <= s@.len(),
    ensures
        r matches Some(e) ==> spec_tag(s@, p as int, b as int, end_fail_tag()) == Some(e as int),
        r is None ==> spec_tag(s@, p as int, b as int, end_fail_tag()) is None,
{
    let t: [u8; 5] = [0x46, 0x41, 0x49, 0x4c, 0x09];
    assert(t@ =~= end_fail_tag());
    if tag(s, p, b, &t) {
        Some(p + 5)
    } else {
        None
    }
}

/// A decimal literal at `p`: an optional sign, digits, and an optional point with
/// more digits, with at least one digit in all. Its value and where it ends; `None`
/// where there is no such literal or its digits do not fit in a `u64`.
pub open spec fn spec_decimal(s: Seq<u8>, p: int, b: int) -> Option<(Decimal, int)> {
    let signed = p < b && (s[p] == 0x2b || s[p] == 0x2d);
    let se = if signed { p + 1 } else { p };
    let ie = run_end(s, se, b, ByteClass::Digit);
    let fs = if ie < b && s[ie] == 0x2e { ie + 1 } else { ie };
    let fe = run_end(s, fs, b, ByteClass::Digit);
    let m = fold_digits(digits_value(s, se, ie, 10), s, fs, fe, 10);
    if (ie > se || fe > fs) && m <= u64::MAX {
        Some(
            (Decimal { negative: signed && s[p] == 0x2d, mantissa: m as u64, scale: (fe - fs) as usize }, fe),
        )
    } else {
        None
    }
}

pub fn decimal(s: &[u8], p: usize, b: usize) -> (r: Option<(Decimal, usize)>)
    requires
        p <= b <= s@.len(),
    ensures
        r matches Some((d, e)) ==> spec_decimal(s@, p as int, b as int) == Some((d, e as int)) && p
            <= e <= b,
        r is None ==> spec_decimal(s@, p as int, b as int) is None,
{
    let signed = p < b && (s[p] == 0x2b || s[p] == 0x2d);
    let se = if signed { p + 1 } else { p };
    let ie = run(s, se, b, ByteClass::Digit);
    proof {
        lemma_run_end_bounds(s@, se as int, b as int, ByteClass::Digit);
    }
    let fs = if ie < b && s[ie] == 0x2e { ie + 1 } else { ie };
    let fe = run(s, fs, b, ByteClass::Digit);
    proof {
        lemma_run_end_bounds(s@, fs as int, b as int, ByteClass::Digit);
    }
    if !(ie > se || fe > fs) {
        return None;
    }
    let iv = match read_number(s, se, ie, 0, 10, u64::MAX) {
        Some(v) => v,
        None => {
            proof {
                lemma_fold_mono(
                    digits_value(s@, se as int, ie as int, 10), s@, fs as int, fs as int, fe as int, 10);
            }
            return None;
        },
    };
    match read_number(s, fs, fe, iv, 10, u64::MAX) {
        Some(m) => Some(
            (Decimal { negative: signed && s[p] == 0x2d, mantissa: m, scale: fe - fs }, fe),
        ),
        None => None,
    }
}

/// A decimal literal followed by one or more letters of unit, which are dropped.
pub open spec fn spec_duration(s: Seq<u8>, p: int, b: int) -> Option<(Decimal, int)> {
    match spec_decimal(s, p, b) {
        Some((d, e)) => {
            let u = run_end(s, e, b, ByteClass::Alpha);
            if u > e {
                Some((d, u))
            } else {
                None
            }
        },
        None => None,
    }
}

pub fn duration(s: &[u8], p: usize, b: usize) -> (r: Option<(Decimal, usize)>)
    requires
        p <= b <= s@.len(),
    ensures
        r matches Some((d, e)) ==> spec_duration(s@, p as int, b as int) == Some((d, e as int)) && p
            <= e <= b,
        r is None ==> spec_duration(s@, p as int, b as int) is None,
{
    match decimal(s, p, b) {
        Some((d, e)) => {
            let u = run(s, e, b, ByteClass::Alpha);
            proof {
                lemma_run_end_bounds(s@, e as int, b as int, ByteClass::Alpha);
            }
            if u > e {
                Some((d, u))
            } else {
                None
            }
        },
        None => None,
    }
}

/// A duration in parentheses.
pub open spec fn spec_delim_dur(s: Seq<u8>, p: int, b: int) -> Option<(Decimal, int)> {
    if p < b && s[p] == 0x28 {
        match spec_duration(s, p + 1, b) {
            Some((d, e)) => if e < b && s[e] == 0x29 {
                Some((d, e + 1))
            } else {
                None
            },
            None => None,
        }
    } else {
        None
    }
}

pub fn delim_dur(s: &[u8], p: usize, b: usize) -> (r: Option<(Decimal, usize)>)
    requires
        p <= b <= s@.len(),
    ensures
        r matches Some((d, e)) ==> spec_delim_dur(s@, p as int, b as int) == Some((d, e as int)) && p
            <= e <= b,
        r is None ==> spec_delim_dur(s@, p as int, b as int) is None,
{
    if p < b && s[p] == 0x28 {
        match duration(s, p + 1, b) {
            Some((d, e)) => if e < b && s[e] == 0x29 {
                Some((d, e + 1))
            } else {
                None
            },
            None => None,
        }
    } else {
        None
    }
}

/// A decimal integer at `p` after optional blanks; `None` where it has no digit or
/// exceeds `i64::MAX`.
pub open spec fn spec_integer(s: Seq<u8>, p: int, b: int) -> Option<(i64, int)> {
    let w = run_end(s, p, b, ByteClass::Space);
    let e = run_end(s, w, b, ByteClass::Digit);
    if e > w && digits_value(s, w, e, 10) <= i64::MAX {
        Some((digits_value(s, w, e, 10) as i64, e))
    } else {
        None
    }
}

pub fn integer(s: &[u8], p: usize, b: usize) -> (r: Option<(i64, usize)>)
    requires
        p <= b <= s@.len(),
    ensures
        r matches Some((v, e)) ==> spec_integer(s@, p as int, b as int) == Some((v, e as int)) && p
            <= e <= b,
        r is None ==> spec_integer(s@, p as int, b as int) is None,
{
    let w = run(s, p, b, ByteClass::Space);
    proof {
        lemma_run_end_bounds(s@, p as int, b as int, ByteClass::Space);
    }
    let e = run(s, w, b, ByteClass::Digit);
    proof {
        lemma_run_end_bounds(s@, w as int, b as int, ByteClass::Digit);
    }
    if e == w {
        return None;
    }
    match read_number(s, w, e, 0, 10, 0x7fff_ffff_ffff_ffff) {
        Some(v) => Some((v as i64, e)),
        None => None,
    }
}

/// `--- FAIL: <name> (<duration>)`, the name made of letters and digits.
pub open spec fn spec_fail_begin(s: Seq<u8>, a: int, b: int) -> Option<LineView> {
    match spec_tag(s, a, b, dash_fail_tag()) {
        Some(n0) => {
            let n1 = run_end(s, n0, b, ByteClass::Alnum);
            let w = run_end(s, n1, b, ByteClass::Space);
            if n1 > n0 && w > n1 {
                match spec_delim_dur(s, w, b) {
                    Some((d, e)) => if e == b {
                        Some(LineView::BeginFail(Span { start: n0 as usize, end: n1 as usize }, d))
                    } else {
                        None
                    },
                    None => None,
                }
            } else {
                None
            }
        },
        None => None,
    }
}

/// Recognizes the line `s[a..b]` as the start of a failed test.
pub fn fail_begin(s: &[u8], a: usize, b: usize) -> (r: Option<Line>)
    requires
        a <= b <= s@.len(),
    ensures
        opt_view(r) == spec_fail_begin(s@, a as int, b as int),
{
    let n0 = match dash_dash_fail(s, a, b) {
        Some(n0) => n0,
        None => return None,
    };
    let n1 = run(s, n0, b, ByteClass::Alnum);
    proof {
        lemma_run_end_bounds(s@, n0 as int, b as int, ByteClass::Alnum);
    }
    let w = run(s, n1, b, ByteClass::Space);
    proof {
        lemma_run_end_bounds(s@, n1 as int, b as int, ByteClass::Space);
    }
    if n1 > n0 && w > n1 {
        match delim_dur(s, w, b) {
            Some((d, e)) => if e == b {
                Some(Line::BeginFail(Span { start: n0, end: n1 }, d))
            } else {
                None
            },
            None => None,
        }
    } else {
        None
    }
}

/// `FAIL<tab><package><blanks><duration>`, the package running to the next blank.
pub open spec fn spec_failed_package(s: Seq<u8>, a: int, b: int) -> Option<LineView> {
    match spec_tag(s, a, b, end_fail_tag()) {
        Some(n0) => {
            let n1 = run_end(s, n0, b, ByteClass::NotEither(0x20, 0x09));
            let w = run_end(s, n1, b, ByteClass::Space);
            if w > n1 {
                match spec_duration(s, w, b) {
                    Some((d, e)) => if e == b {
                        Some(
                            LineView::FailedPackage(Span { start: n0 as usize, end: n1 as usize }, d),
                        )
                    } else {
                        None
                    },
                    None => None,
                }
            } else {
                None
            }
        },
        None => None,
    }
}

/// Recognizes the line `s[a..b]` as the summary of a failed package.
pub fn failed_package(s: &[u8], a: usize, b: usize) -> (r: Option<Line>)
    requires
        a <= b <= s@.len(),
    ensures
        opt_view(r) == spec_failed_package(s@, a as int, b as int),
{
    let n0 = match endfail(s, a, b) {
        Some(n0) => n0,
        None => return None,
    };
    let n1 = run(s, n0, b, ByteClass::NotEither(0x20, 0x09));
    proof {
        lemma_run_end_bounds(s@, n0 as int, b as int, ByteClass::NotEither(0x20, 0x09));
    }
    let w = run(s, n1, b, ByteClass::Space);
    proof {
        lemma_run_end_bounds(s@, n1 as int, b as int, ByteClass::Space);
    }
    if w > n1 {
        match duration(s, w, b) {
            Some((d, e)) => if e == b {
                Some(Line::FailedPackage(Span { start: n0, end: n1 }, d))
            } else {
                None
            },
            None => None,
        }
    } else {
        None
    }
}

/// The first place at or after `p` where `t` stands, ending no later than `b`.
pub open spec fn spec_find(s: Seq<u8>, p: int, b: int, t: Seq<u8>) -> Option<int>
    decreases b - p,
{
    if p >= b || p + t.len() > b {
        None
    } else if tag_at(s, p, b, t) {
        Some(p)
    } else {
        spec_find(s, p + 1, b, t)
    }
}

fn find_recovered(s: &[u8], p: usize, b: usize) -> (r: Option<usize>)
    requires
        p <= b <= s@.len(),
    ensures
        r matches Some(j) ==> spec_find(s@, p as int, b as int, recovered_tag()) == Some(j as int)
            && p <= j && j + 12 <= b,
        r is None ==> spec_find(s@, p as int, b as int, recovered_tag()) is None,
{
    let t: [u8; 12] = [0x20, 0x5b, 0x72, 0x65, 0x63, 0x6f, 0x76, 0x65, 0x72, 0x65, 0x64, 0x5d];
    assert(t@ =~= recovered_tag());
    let mut q: usize = p;
    while q <= b && b - q >= 12
        invariant
            p <= q <= b <= s@.len(),
            t@ == recovered_tag(),
            recovered_tag().len() == 12,
            spec_find(s@, p as int, b as int, recovered_tag()) == spec_find(
                s@,
                q as int,
                b as int,
                recovered_tag(),
            ),
        decreases b - q,
    {
        if tag(s, q, b, &t) {
            return Some(q);
        }
        q = q + 1;
    }
    None
}

/// `panic: <message> [recovered]`, the message ending where the marker first stands.
pub open spec fn spec_panic_start(s: Seq<u8>, a: int, b: int) -> Option<LineView> {
    match spec_tag(s, a, b, panic_tag()) {
        Some(m0) => match spec_find(s, m0, b, recovered_tag()) {
            Some(j) => if j + 12 == b {
                Some(LineView::PanicStart(Span { start: m0 as usize, end: j as usize }))
            } else {
                None
            },
            None => None,
        },
        None => None,
    }
}

/// Recognizes the line `s[a..b]` as the start of a recovered panic.
pub fn panic_start(s: &[u8], a: usize, b: usize) -> (r: Option<Line>)
    requires
        a <= b <= s@.len(),
    ensures
        opt_view(r) == spec_panic_start(s@, a as int, b as int),
{
    let t: [u8; 7] = [0x70, 0x61, 0x6e, 0x69, 0x63, 0x3a, 0x20];
    assert(t@ =~= panic_tag());
    if !tag(s, a, b, &t) {
        return None;
    }
    let m0 = a + 7;
    match find_recovered(s, m0, b) {
        Some(j) => if j + 12 == b {
            Some(Line::PanicStart(Span { start: m0, end: j }))
        } else {
            None
        },
        None => None,
    }
}

/// `[<cause>]`, the cause holding no `]`.
pub open spec fn spec_panic_cause(s: Seq<u8>, a: int, b: int) -> Option<LineView> {
    if a < b && s[a] == 0x5b {
        let c = run_end(s, a + 1, b, ByteClass::Not(0x5d));
        if c > a + 1 && c < b && s[c] == 0x5d && c + 1 == b {
            Some(LineView::PanicCause(Span { start: (a + 1) as usize, end: c as usize }))
        } else {
            None
        }
    } else {
        None
    }
}

/// Recognizes the line `s[a..b]` as the cause of a panic.
pub fn panic_cause(s: &[u8], a: usize, b: usize) -> (r: Option<Line>)
    requires
        a <= b <= s@.len(),
    ensures
        opt_view(r) == spec_panic_cause(s@, a as int, b as int),
{
    if a < b && s[a] == 0x5b {
        let c = run(s, a + 1, b, ByteClass::Not(0x5d));
        proof {
            lemma_run_end_bounds(s@, a + 1, b as int, ByteClass::Not(0x5d));
        }
        if c > a + 1 && c < b && s[c] == 0x5d && c + 1 == b {
            Some(Line::PanicCause(Span { start: a + 1, end: c }))
        } else {
            None
        }
    } else {
        None
    }
}

/// `goroutine <id> [running]:`
pub open spec fn spec_stack_start(s: Seq<u8>, a: int, b: int) -> Option<LineView> {
    match spec_tag(s, a, b, goroutine_tag()) {
        Some(g0) => match spec_integer(s, g0, b) {
            Some((g, e)) => if spec_tag(s, e, b, running_tag()) == Some(b) {
                Some(LineView::StackStart(g))
            } else {
                None
            },
            None => None,
        },
        None => None,
    }
}

/// Recognizes the line `s[a..b]` as the head of a goroutine's stack.
pub fn stack_start(s: &[u8], a: usize, b: usize) -> (r: Option<Line>)
    requires
        a <= b <= s@.len(),
    ensures
        opt_view(r) == spec_stack_start(s@, a as int, b as int),
{
    let t: [u8; 10] = [0x67, 0x6f, 0x72, 0x6f, 0x75, 0x74, 0x69, 0x6e, 0x65, 0x20];
    assert(t@ =~= goroutine_tag());
    if !tag(s, a, b, &t) {
        return None;
    }
    match integer(s, a + 10, b) {
        Some((g, e)) => {
            let u: [u8; 11] = [0x20, 0x5b, 0x72, 0x75, 0x6e, 0x6e, 0x69, 0x6e, 0x67, 0x5d, 0x3a];
            assert(u@ =~= running_tag());
            if tag(s, e, b, &u) && e + 11 == b {
                Some(Line::StackStart(g))
            } else {
                None
            }
        },
        None => None,
    }
}

/// A list of arguments from `p`: each one or more bytes other than `,` and `)`,
/// with blanks after each comma skipped. The arguments and where the list ends.
pub open spec fn spec_args(s: Seq<u8>, p: int, b: int) -> Option<(Seq<Span>, int)>
    decreases b - p,
{
    let e = run_end(s, p, b, ByteClass::NotEither(0x2c, 0x29));
    let arg = Span { start: p as usize, end: e as usize };
    if e <= p {
        None
    } else if e < b && s[e] == 0x2c {
        let q = run_end(s, e + 1, b, ByteClass::Space);
        if p < q <= b {
            match spec_args(s, q, b) {
                Some((rest, end)) => Some((seq![arg] + rest, end)),
                None => None,
            }
        } else {
            None
        }
    } else {
        Some((seq![arg], e))
    }
}

/// The arguments inside a call's parentheses, from `p` (just after `(`): none
/// where `)` follows at once.
pub open spec fn spec_arg_list(s: Seq<u8>, p: int, b: int) -> Option<(Seq<Span>, int)> {
    if p < b && s[p] == 0x29 {
        Some((Seq::empty(), p))
    } else {
        spec_args(s, p, b)
    }
}

fn arg_list(s: &[u8], p: usize, b: usize) -> (r: Option<(Vec<Span>, usize)>)
    requires
        p <= b <= s@.len(),
    ensures
        r matches Some((v, e)) ==> spec_arg_list(s@, p as int, b as int) == Some((v@, e as int))
            && e <= b,
        r is None ==> spec_arg_list(s@, p as int, b as int) is None,
{
    if p < b && s[p] == 0x29 {
        return Some((Vec::new(), p));
    }
    let mut out: Vec<Span> = Vec::new();
    let mut q: usize = p;
    loop
        invariant
            p <= q <= b <= s@.len(),
            !(p < b && s@[p as int] == 0x29),
            spec_args(s@, p as int, b as int) == (match spec_args(s@, q as int, b as int) {
                Some((rest, end)) => Some((out@ + rest, end)),
                None => None,
            }),
        decreases b - q,
    {
        let k = ByteClass::NotEither(0x2c, 0x29);
        let e = run(s, q, b, k);
        proof {
            lemma_run_end_bounds(s@, q as int, b as int, k);
        }
        let arg = Span { start: q, end: e };
        if e <= q {
            return None;
        }
        let ghost prev = out@;
        out.push(arg);
        if e < b && s[e] == 0x2c {
            let q2 = run(s, e + 1, b, ByteClass::Space);
            proof {
                lemma_run_end_bounds(s@, e + 1, b as int, ByteClass::Space);
                match spec_args(s@, q2 as int, b as int) {
                    Some((rest, end)) => {
                        assert(prev + (seq![arg] + rest) =~= out@ + rest);
                    },
                    None => {},
                }
            }
            q = q2;
        } else {
            proof {
                assert(prev + seq![arg] =~= out@);
            }
            return Some((out, e));
        }
    }
}

/// `<function>(<arg>, ...)`, the function name running to the first `(`.
pub open spec fn spec_stack_function(s: Seq<u8>, a: int, b: int) -> Option<LineView> {
    let f = run_end(s, a, b, ByteClass::Not(0x28));
    if f > a && f < b && s[f] == 0x28 {
        match spec_arg_list(s, f + 1, b) {
            Some((args, e)) => if e < b && s[e] == 0x29 && e + 1 == b {
                Some(LineView::StackFunc(Span { start: a as usize, end: f as usize }, args))
            } else {
                None
            },
            None => None,
        }
    } else {
        None
    }
}

/// Recognizes the line `s[a..b]` as a function call in a stack trace.
pub fn stack_function(s: &[u8], a: usize, b: usize) -> (r: Option<Line>)
    requires
        a <= b <= s@.len(),
    ensures
        opt_view(r) == spec_stack_function(s@, a as int, b as int),
{
    let f = run(s, a, b, ByteClass::Not(0x28));
    proof {
        lemma_run_end_bounds(s@, a as int, b as int, ByteClass::Not(0x28));
    }
    if f > a && f < b && s[f] == 0x28 {
        match arg_list(s, f + 1, b) {
            Some((args, e)) => if e < b && s[e] == 0x29 && e + 1 == b {
                Some(Line::StackFunc(Span { start: a, end: f }, args))
            } else {
                None
            },
            None => None,
        }
    } else {
        None
    }
}

/// `<blanks><file>:<line> +0x<offset>`, the file running to the first `:` and the
/// offset in hexadecimal, up to `u32::MAX`.
pub open spec fn spec_stack_line(s: Seq<u8>, a: int, b: int) -> Option<LineView> {
    let w = run_end(s, a, b, ByteClass::Space);
    let f = run_end(s, w, b, ByteClass::Not(0x3a));
    if w > a && f > w && f < b && s[f] == 0x3a {
        match spec_integer(s, f + 1, b) {
            Some((n, e)) => {
                let g = run_end(s, e, b, ByteClass::Space);
                match spec_tag(s, g, b, offset_tag()) {
                    Some(h0) => {
                        let h = run_end(s, h0, b, ByteClass::Hex);
                        let v = digits_value(s, h0, h, 16);
                        if h > h0 && h == b && v <= u32::MAX {
                            Some(
                                LineView::StackLine(
                                    Span { start: w as usize, end: f as usize },
                                    n,
                                    v as u32,
                                ),
                            )
                        } else {
                            None
                        }
                    },
                    None => None,
                }
            },
            None => None,
        }
    } else {
        None
    }
}

/// Recognizes the line `s[a..b]` as a source location in a stack trace.
pub fn stack_line(s: &[u8], a: usize, b: usize) -> (r: Option<Line>)
    requires
        a <= b <= s@.len(),
    ensures
        opt_view(r) == spec_stack_line(s@, a as int, b as int),
{
    let w = run(s, a, b, ByteClass::Space);
    proof {
        lemma_run_end_bounds(s@, a as int, b as int, ByteClass::Space);
    }
    let f = run(s, w, b, ByteClass::Not(0x3a));
    proof {
        lemma_run_end_bounds(s@, w as int, b as int, ByteClass::Not(0x3a));
    }
    if !(w > a && f > w && f < b && s[f] == 0x3a) {
        return None;
    }
    let (n, e) = match integer(s, f + 1, b) {
        Some(x) => x,
        None => return None,
    };
    let g = run(s, e, b, ByteClass::Space);
    proof {
        lemma_run_end_bounds(s@, e as int, b as int, ByteClass::Space);
    }
    let t: [u8; 3] = [0x2b, 0x30, 0x78];
    assert(t@ =~= offset_tag());
    if !tag(s, g, b, &t) {
        return None;
    }
    let h0 = g + 3;
    let h = run(s, h0, b, ByteClass::Hex);
    proof {
        lemma_run_end_bounds(s@, h0 as int, b as int, ByteClass::Hex);
    }
    if !(h > h0 && h == b) {
        return None;
    }
    match read_number(s, h0, h, 0, 16, 0xffff_ffff) {
        Some(v) => Some(Line::StackLine(Span { start: w, end: f }, n, v as u32)),
        None => None,
    }
}

/// The line `s[a..b]` as the first grammar that matches it makes it, in the
/// order: failed test, failed package, panic, panic cause, goroutine head, stack
/// function, stack location; any other line is kept whole as `Basic`.
pub open spec fn spec_goline(s: Seq<u8>, a: int, b: int) -> LineView {
    if let Some(l) = spec_fail_begin(s, a, b) {
        l
    } else if let Some(l) = spec_failed_package(s, a, b) {
        l
    } else if let Some(l) = spec_panic_start(s, a, b) {
        l
    } else if let Some(l) = spec_panic_cause(s, a, b) {
        l
    } else if let Some(l) = spec_stack_start(s, a, b) {
        l
    } else if let Some(l) = spec_stack_function(s, a, b) {
        l
    } else if let Some(l) = spec_stack_line(s, a, b) {
        l
    } else {
        LineView::Basic(Span { start: a as usize, end: b as usize })
    }
}

/// Classifies the line `s[a..b]` (its terminator excluded).
pub fn goline(s: &[u8], a: usize, b: usize) -> (r: Line)
    requires
        a <= b <= s@.len(),
    ensures
        r@ == spec_goline(s@, a as int, b as int),
{
    if let Some(l) = fail_begin(s, a, b) {
        l
    } else if let Some(l) = failed_package(s, a, b) {
        l
    } else if let Some(l) = panic_start(s, a, b) {
        l
    } else if let Some(l) = panic_cause(s, a, b) {
        l
    } else if let Some(l) = stack_start(s, a, b) {
        l
    } else if let Some(l) = stack_function(s, a, b) {
        l
    } else if let Some(l) = stack_line(s, a, b) {
        l
    } else {
        Line::Basic(Span { start: a, end: b })
    }
}

} // verus!
