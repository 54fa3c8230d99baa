//! Byte classes and the small scanners the line grammars are built from.

use vstd::prelude::*;
use vstd::slice::slice_subrange;

verus! {

/// A half-open range `start..end` of positions in the scanned buffer.
#[derive(Clone, Copy, Debug, PartialEq, Eq, Structural)]
pub struct Span {
    pub start: usize,
    pub end: usize,
}

impl Span {
    /// The bytes of `buf` that this span covers.
    pub fn slice<'a>(&self, buf: &'a [u8]) -> (r: &'a [u8])
        requires
            self.start <= self.end <= buf@.len(),
        ensures
            r@ == buf@.subrange(self.start as int, self.end as int),
    {
        slice_subrange(buf, self.start, self.end)
    }
}

/// A set of bytes that a run of input may be made of.
#[derive(Clone, Copy, Debug, PartialEq, Eq, Structural)]
pub enum ByteClass {
    /// `0`..`9`
    Digit,
    /// `0`..`9`, `a`..`f`, `A`..`F`
    Hex,
    /// ASCII letters
    Alpha,
    /// ASCII letters and digits
    Alnum,
    /// blank: space or tab
    Space,
    /// anything but the given byte
    Not(u8),
    /// anything but either of the given bytes
    NotEither(u8, u8),
}

pub open spec fn is_digit(c: u8) -> bool {
    0x30 <= c <= 0x39
}

pub open spec fn is_lower_hex(c: u8) -> bool {
    0x61 <= c <= 0x66
}

pub open spec fn is_upper_hex(c: u8) -> bool {
    0x41 <= c <= 0x46
}

pub open spec fn is_alpha(c: u8) -> bool {
    (0x41 <= c <= 0x5a) || (0x61 <= c <= 0x7a)
}

pub open spec fn is_space(c: u8) -> bool {
    c == 0x20 || c == 0x09
}

impl ByteClass {
    pub open spec fn has(self, c: u8) -> bool {
        match self {
            ByteClass::Digit => is_digit(c),
            ByteClass::Hex => is_digit(c) || is_lower_hex(c) || is_upper_hex(c),
            ByteClass::Alpha => is_alpha(c),
            ByteClass::Alnum => is_alpha(c) || is_digit(c),
            ByteClass::Space => is_space(c),
            ByteClass::Not(x) => c != x,
            ByteClass::NotEither(x, y) => c != x && c != y,
        }
    }

    pub fn contains(self, c: u8) -> (r: bool)
        ensures
            r == self.has(c),
    {
        match self {
            ByteClass::Digit => 0x30 <= c && c <= 0x39,
            ByteClass::Hex => (0x30 <= c && c <= 0x39) || (0x61 <= c && c <= 0x66) || (0x41 <= c
                && c <= 0x46),
            ByteClass::Alpha => (0x41 <= c && c <= 0x5a) || (0x61 <= c && c <= 0x7a),
            ByteClass::Alnum => (0x41 <= c && c <= 0x5a) || (0x61 <= c && c <= 0x7a) || (0x30 <= c
                && c <= 0x39),
            ByteClass::Space => c == 0x20 || c == 0x09,
            ByteClass::Not(x) => c != x,
            ByteClass::NotEither(x, y) => c != x && c != y,
        }
    }
}

/// Where the longest run of bytes of class `k` that starts at `p` ends, looking no
/// further than `b`.
pub open spec fn run_end(s: Seq<u8>, p: int, b: int, k: ByteClass) -> int
    decreases b - p,
{
    if p < b && k.has(s[p]) {
        run_end(s, p + 1, b, k)
    } else {
        p
    }
}

pub proof fn lemma_run_end_bounds(s: Seq<u8>, p: int, b: int, k: ByteClass)
    requires
        p <= b,
    ensures
        p <= run_end(s, p, b, k) <= b,
        forall|j: int| p <= j < run_end(s, p, b, k) ==> k.has(#[trigger] s[j]),
        run_end(s, p, b, k) < b ==> !k.has(s[run_end(s, p, b, k)]),
    decreases b - p,
{
    if p < b && k.has(s[p]) {
        lemma_run_end_bounds(s, p + 1, b, k);
    }
}

/// The end of the run of class `k` that starts at `p` and stops at `b` at the latest.
pub fn run(s: &[u8], p: usize, b: usize, k: ByteClass) -> (r: usize)
    requires
        p <= b <= s@.len(),
    ensures
        r == run_end(s@, p as int, b as int, k),
{
    let mut q: usize = p;
    while q < b && k.contains(s[q])
        invariant
            p <= q <= b <= s@.len(),
            run_end(s@, p as int, b as int, k) == run_end(s@, q as int, b as int, k),
        decreases b - q,
    {
        q = q + 1;
    }
    q
}

/// Whether `t` occurs in `s` at `p`, ending no later than `b`.
pub open spec fn tag_at(s: Seq<u8>, p: int, b: int, t: Seq<u8>) -> bool {
    p + t.len() <= b && s.subrange(p, p + t.len()) == t
}

/// Whether the bytes of `t` stand in `s` at `p`, ending no later than `b`.
pub fn tag(s: &[u8], p: usize, b: usize, t: &[u8]) -> (r: bool)
    requires
        p <= b <= s@.len(),
    ensures
        r == tag_at(s@, p as int, b as int, t@),
{
    if t.len() > b - p {
        return false;
    }
    let mut j: usize = 0;
    while j < t.len()
        invariant
            p + t@.len() <= b <= s@.len(),
            j <= t@.len(),
            forall|x: int| 0 <= x < j ==> s@[p + x] == t@[x],
        decreases t@.len() - j,
    {
        if s[p + j] != t[j] {
            assert(s@.subrange(p as int, p + t@.len())[j as int] != t@[j as int]);
            return false;
        }
        j = j + 1;
    }
    assert(s@.subrange(p as int, p + t@.len()) =~= t@);
    true
}

/// The value of a decimal or hexadecimal digit.
pub open spec fn digit_val(c: u8) -> int {
    if is_digit(c) {
        c - 0x30
    } else if is_lower_hex(c) {
        c - 0x61 + 10
    } else {
        c - 0x41 + 10
    }
}

/// The digits `s[a..b]` read in order in base `base`, after the value `v0`.
pub open spec fn fold_digits(v0: int, s: Seq<u8>, a: int, b: int, base: int) -> int
    decreases b - a,
{
    if b <= a {
        v0
    } else {
        fold_digits(v0, s, a, b - 1, base) * base + digit_val(s[b - 1])
    }
}

/// The digits `s[a..b]` read as a number in base `base`.
pub open spec fn digits_value(s: Seq<u8>, a: int, b: int, base: int) -> int {
    fold_digits(0, s, a, b, base)
}

pub open spec fn digits_in_base(s: Seq<u8>, a: int, b: int, base: int) -> bool {
    forall|j: int|
        a <= j < b ==> ByteClass::Hex.has(#[trigger] s[j]) && digit_val(s[j]) < base
}

pub proof fn lemma_fold_nonneg(v0: int, s: Seq<u8>, a: int, b: int, base: int)
    requires
        0 <= v0,
        a <= b,
        1 <= base,
        digits_in_base(s, a, b, base),
    ensures
        0 <= fold_digits(v0, s, a, b, base),
    decreases b - a,
{
    if a < b {
        lemma_fold_nonneg(v0, s, a, b - 1, base);
        let f = fold_digits(v0, s, a, b - 1, base);
        assert(0 <= f * base) by (nonlinear_arith)
            requires
                0 <= f,
                1 <= base,
        ;
    }
}

/// Reading more digits never makes the value smaller.
pub proof fn lemma_fold_mono(v0: int, s: Seq<u8>, a: int, c: int, b: int, base: int)
    requires
        0 <= v0,
        a <= c <= b,
        1 <= base,
        digits_in_base(s, a, b, base),
    ensures
        fold_digits(v0, s, a, c, base) <= fold_digits(v0, s, a, b, base),
    decreases b - c,
{
    if c < b {
        lemma_fold_mono(v0, s, a, c, b - 1, base);
        lemma_fold_nonneg(v0, s, a, b - 1, base);
        let f = fold_digits(v0, s, a, b - 1, base);
        assert(f <= f * base) by (nonlinear_arith)
            requires
                0 <= f,
                1 <= base,
        ;
    }
}

fn digit_value(c: u8) -> (r: u64)
    requires
        ByteClass::Hex.has(c),
    ensures
        r == digit_val(c),
{
    if c <= 0x39 {
        (c - 0x30) as u64
    } else if c >= 0x61 {
        (c - 0x61 + 10) as u64
    } else {
        (c - 0x41 + 10) as u64
    }
}

/// Reads the digits `s[a..b]` in base `base` after the value `v0`; `None` when the
/// result exceeds `limit`.
pub fn read_number(s: &[u8], a: usize, b: usize, v0: u64, base: u64, limit: u64) -> (r: Option<
    u64,
>)
    requires
        a <= b <= s@.len(),
        2 <= base <= 16,
        v0 <= limit,
        digits_in_base(s@, a as int, b as int, base as int),
    ensures
        r matches Some(v) ==> v == fold_digits(v0 as int, s@, a as int, b as int, base as int),
        r is None <==> fold_digits(v0 as int, s@, a as int, b as int, base as int) > limit,
{
    let mut v: u64 = v0;
    let mut q: usize = a;
    while q < b
        invariant
            a <= q <= b <= s@.len(),
            2 <= base <= 16,
            digits_in_base(s@, a as int, b as int, base as int),
            v == fold_digits(v0 as int, s@, a as int, q as int, base as int),
            v <= limit,
        decreases b - q,
    {
        let d = digit_value(s[q]);
        if d > limit || v > (limit - d) / base {
            proof {
                let f = fold_digits(v0 as int, s@, a as int, q + 1, base as int);
                assert(f == v * base + d);
                if d <= limit {
                    let m = (limit - d) as int;
                    assert(v * base + d > limit) by (nonlinear_arith)
                        requires
                            v > m / (base as int),
                            m == limit - d,
                            base >= 2,
                    ;
                }
                lemma_fold_mono(v0 as int, s@, a as int, q + 1, b as int, base as int);
            }
            return None;
        }
        proof {
            let m = (limit - d) as int;
            assert(v * base <= m) by (nonlinear_arith)
                requires
                    v <= m / (base as int),
                    base >= 2,
                    m >= 0,
            ;
        }
        v = v * base + d;
        q = q + 1;
    }
    Some(v)
}

} // verus!
