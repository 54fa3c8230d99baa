//! The scanner: splits a buffer into lines and classifies each one.

use vstd::prelude::*;

use crate::bytes::{lemma_run_end_bounds, run, run_end, ByteClass, Span};
use crate::parse::{
    goline, spec_fail_begin, spec_failed_package, spec_goline, spec_panic_cause,
    spec_panic_start, spec_stack_function, spec_stack_line, spec_stack_start, Line, LineView,
};

verus! {

/// A classified line and the bytes it was read from, its terminator included.
#[derive(Clone, Debug)]
pub struct Record {
    pub line: Line,
    pub consumed: Span,
}

pub struct RecordView {
    pub line: LineView,
    pub consumed: Span,
}

impl View for Record {
    type V = RecordView;

    open spec fn view(&self) -> RecordView {
        RecordView { line: self.line@, consumed: self.consumed }
    }
}

pub open spec fn views(r: Seq<Record>) -> Seq<RecordView> {
    r.map_values(|x: Record| x@)
}

/// Where the line that starts at `p` ends: at its newline, or at the end of `s`.
pub open spec fn line_end(s: Seq<u8>, p: int) -> int {
    run_end(s, p, s.len() as int, ByteClass::Not(0x0a))
}

/// Where the text of the line that starts at `p` ends: before a carriage return
/// that precedes its newline, else at `line_end`.
pub open spec fn content_end(s: Seq<u8>, p: int) -> int {
    let e = line_end(s, p);
    if e < s.len() && e > p && s[e - 1] == 0x0d {
        e - 1
    } else {
        e
    }
}

/// Where the line after the one that starts at `p` starts.
pub open spec fn next_line(s: Seq<u8>, p: int) -> int {
    let e = line_end(s, p);
    if e < s.len() {
        e + 1
    } else {
        e
    }
}

/// The records of the lines of `s` from `p` on, in order.
pub open spec fn spec_scan(s: Seq<u8>, p: int) -> Seq<RecordView>
    decreases s.len() - p,
{
    let n = next_line(s, p);
    if 0 <= p < s.len() && p < n <= s.len() {
        seq![
            RecordView {
                line: spec_goline(s, p, content_end(s, p)),
                consumed: Span { start: p as usize, end: n as usize },
            },
        ] + spec_scan(s, n)
    } else {
        Seq::empty()
    }
}

pub proof fn lemma_line_bounds(s: Seq<u8>, p: int)
    requires
        0 <= p < s.len(),
    ensures
        p <= content_end(s, p),
        content_end(s, p) <= line_end(s, p),
        line_end(s, p) <= next_line(s, p),
        p < next_line(s, p),
        next_line(s, p) <= s.len(),
{
    lemma_run_end_bounds(s, p, s.len() as int, ByteClass::Not(0x0a));
}

/// Scans the whole buffer: one record per line, in the order of the lines. A last
/// line without a newline is a line too.
pub fn golines(s: &[u8]) -> (r: Vec<Record>)
    ensures
        views(r@) == spec_scan(s@, 0),
{
    let mut out: Vec<Record> = Vec::new();
    let mut p: usize = 0;
    while p < s.len()
        invariant
            p <= s@.len(),
            spec_scan(s@, 0) == views(out@) + spec_scan(s@, p as int),
        decreases s@.len() - p,
    {
        let e = run(s, p, s.len(), ByteClass::Not(0x0a));
        proof {
            lemma_line_bounds(s@, p as int);
        }
        let ce = if e < s.len() && e > p && s[e - 1] == 0x0d {
            e - 1
        } else {
            e
        };
        let n = if e < s.len() {
            e + 1
        } else {
            e
        };
        let rec = Record { line: goline(s, p, ce), consumed: Span { start: p, end: n } };
        proof {
            assert(views(out@.push(rec)) =~= views(out@).push(rec@));
            assert(views(out@) + spec_scan(s@, p as int) =~= views(out@).push(rec@) + spec_scan(
                s@,
                n as int,
            ));
        }
        out.push(rec);
        p = n;
    }
    proof {
        assert(views(out@) + spec_scan(s@, p as int) =~= views(out@));
    }
    out
}

/// The bytes of `s` that `recs` consumed, one record after the other.
pub open spec fn joined(s: Seq<u8>, recs: Seq<RecordView>) -> Seq<u8>
    decreases recs.len(),
{
    if recs.len() == 0 {
        Seq::empty()
    } else {
        s.subrange(recs[0].consumed.start as int, recs[0].consumed.end as int) + joined(
            s,
            recs.drop_first(),
        )
    }
}

proof fn lemma_joined_from(s: Seq<u8>, p: int)
    requires
        0 <= p <= s.len() <= usize::MAX,
    ensures
        joined(s, spec_scan(s, p)) == s.subrange(p, s.len() as int),
    decreases s.len() - p,
{
    if p < s.len() {
        lemma_line_bounds(s, p);
        let n = next_line(s, p);
        lemma_joined_from(s, n);
        assert(spec_scan(s, p).drop_first() =~= spec_scan(s, n));
        assert(s.subrange(p, n) + s.subrange(n, s.len() as int) =~= s.subrange(p, s.len() as int));
    } else {
        assert(s.subrange(p, s.len() as int) =~= Seq::<u8>::empty());
    }
}

/// Scanning loses nothing: the bytes that the records consumed, put back together
/// in order, are the whole buffer.
pub proof fn lemma_scan_lossless(s: Seq<u8>)
    requires
        s.len() <= usize::MAX,
    ensures
        joined(s, spec_scan(s, 0)) == s,
{
    lemma_joined_from(s, 0);
    assert(s.subrange(0, s.len() as int) =~= s);
}

proof fn lemma_scan_tiles_from(s: Seq<u8>, p: int)
    requires
        0 <= p <= s.len() <= usize::MAX,
    ensures
        p < s.len() ==> spec_scan(s, p).len() > 0 && spec_scan(s, p)[0].consumed.start == p,
        forall|i: int|
            0 <= i < spec_scan(s, p).len() ==> {
                let c = (#[trigger] spec_scan(s, p)[i]).consumed;
                p <= c.start < c.end <= s.len() && (i + 1 < spec_scan(s, p).len() ==> c.end
                    == spec_scan(s, p)[i + 1].consumed.start) && (i + 1 == spec_scan(s, p).len()
                    ==> c.end == s.len())
            },
    decreases s.len() - p,
{
    if p < s.len() {
        lemma_line_bounds(s, p);
        let n = next_line(s, p);
        lemma_scan_tiles_from(s, n);
        let r = spec_scan(s, p);
        let t = spec_scan(s, n);
        assert(r.len() == t.len() + 1);
        assert forall|i: int| 1 <= i < r.len() implies r[i] == t[i - 1] by {}
        assert(n < s.len() ==> t[0].consumed.start == n);
        assert forall|i: int| 0 <= i < r.len() implies {
            let c = (#[trigger] r[i]).consumed;
            p <= c.start < c.end <= s.len() && (i + 1 < r.len() ==> c.end == r[i + 1].consumed.start)
                && (i + 1 == r.len() ==> c.end == s.len())
        } by {
            if i > 0 {
                assert(r[i] == t[i - 1]);
                assert(i + 1 < r.len() ==> r[i + 1] == t[i]);
            }
        }
    }
}

/// Scanning never fails: every buffer gives records, each of one or more bytes,
/// that follow each other from the first byte to the last; a buffer that is not
/// empty gives at least one.
pub proof fn lemma_scan_total(s: Seq<u8>)
    requires
        s.len() <= usize::MAX,
    ensures
        s.len() > 0 ==> spec_scan(s, 0).len() > 0 && spec_scan(s, 0)[0].consumed.start == 0,
        forall|i: int|
            0 <= i < spec_scan(s, 0).len() ==> {
                let c = (#[trigger] spec_scan(s, 0)[i]).consumed;
                c.start < c.end <= s.len() && (i + 1 < spec_scan(s, 0).len() ==> c.end
                    == spec_scan(s, 0)[i + 1].consumed.start) && (i + 1 == spec_scan(s, 0).len()
                    ==> c.end == s.len())
            },
{
    lemma_scan_tiles_from(s, 0);
}

/// Scanning is a function of the bytes alone: equal buffers give equal records.
pub proof fn lemma_scan_deterministic(s1: Seq<u8>, s2: Seq<u8>)
    requires
        s1 == s2,
    ensures
        spec_scan(s1, 0) == spec_scan(s2, 0),
{
}

/// The grammar tried at place `i` in the order of priority.
pub open spec fn recognizer(i: int, s: Seq<u8>, a: int, b: int) -> Option<LineView> {
    if i == 0 {
        spec_fail_begin(s, a, b)
    } else if i == 1 {
        spec_failed_package(s, a, b)
    } else if i == 2 {
        spec_panic_start(s, a, b)
    } else if i == 3 {
        spec_panic_cause(s, a, b)
    } else if i == 4 {
        spec_stack_start(s, a, b)
    } else if i == 5 {
        spec_stack_function(s, a, b)
    } else {
        spec_stack_line(s, a, b)
    }
}

/// A line that several grammars match is classified by the first of them in the
/// order of priority, whatever the others would make of it; a line that none
/// matches is kept as `Basic`.
pub proof fn lemma_priority(s: Seq<u8>, a: int, b: int, i: int)
    requires
        0 <= i < 7,
        recognizer(i, s, a, b) is Some,
        forall|j: int| 0 <= j < i ==> recognizer(j, s, a, b) is None,
    ensures
        spec_goline(s, a, b) == recognizer(i, s, a, b).unwrap(),
{
    assert(recognizer(0, s, a, b) is None || i == 0);
    assert(i <= 1 || recognizer(1, s, a, b) is None);
    assert(i <= 2 || recognizer(2, s, a, b) is None);
    assert(i <= 3 || recognizer(3, s, a, b) is None);
    assert(i <= 4 || recognizer(4, s, a, b) is None);
    assert(i <= 5 || recognizer(5, s, a, b) is None);
}

/// A line that no grammar matches is kept whole as `Basic`.
pub proof fn lemma_fallback(s: Seq<u8>, a: int, b: int)
    requires
        forall|j: int| 0 <= j < 7 ==> recognizer(j, s, a, b) is None,
    ensures
        spec_goline(s, a, b) == LineView::Basic(Span { start: a as usize, end: b as usize }),
{
    assert(recognizer(0, s, a, b) is None);
    assert(recognizer(1, s, a, b) is None);
    assert(recognizer(2, s, a, b) is None);
    assert(recognizer(3, s, a, b) is None);
    assert(recognizer(4, s, a, b) is None);
    assert(recognizer(5, s, a, b) is None);
    assert(recognizer(6, s, a, b) is None);
}

} // verus!
