//! Scanning the input line of BibTeX, and decimal numbers.
use vstd::prelude::*;
use crate::bibtex::lex::{lex_class, lex_class_spec, id_class, id_class_spec, LexType, IdType};

verus! {

/// The outcome of scanning an identifier.
#[derive(Clone, Copy, Debug, PartialEq, Eq, Structural)]
pub enum ScanResult {
    IdNull,
    SpecifiedCharAdjacent,
    OtherCharAdjacent,
    WhiteAdjacent,
}

/// The current input line: `buffer[0..last]`, with `buf_ptr1` at the start
/// of the token just scanned and `buf_ptr2` after it. The buffer holds at
/// least one byte past `last`.
pub struct Scanner {
    pub buffer: Vec<u8>,
    pub last: usize,
    pub buf_ptr1: usize,
    pub buf_ptr2: usize,
}

/// What ends a scan: one of a few given bytes (with or without white
/// space), or the first byte outside a class.
#[derive(Clone, Copy, Debug, PartialEq, Eq, Structural)]
pub enum Stop {
    Byte1(u8),
    Byte1White(u8),
    Byte2(u8, u8),
    Byte2White(u8, u8),
    Byte3(u8, u8, u8),
    NotAlpha,
    NotWhite,
    NotIdChar,
    NotDigit,
}

/// Whether the byte `b` ends a scan of kind `s`.
pub open spec fn stops(s: Stop, b: u8) -> bool {
    match s {
        Stop::Byte1(c1) => b == c1,
        Stop::Byte1White(c1) => b == c1 || lex_class_spec(b) == LexType::WhiteSpace,
        Stop::Byte2(c1, c2) => b == c1 || b == c2,
        Stop::Byte2White(c1, c2) => b == c1 || b == c2 || lex_class_spec(b) == LexType::WhiteSpace,
        Stop::Byte3(c1, c2, c3) => b == c1 || b == c2 || b == c3,
        Stop::NotAlpha => lex_class_spec(b) != LexType::Alpha,
        Stop::NotWhite => lex_class_spec(b) != LexType::WhiteSpace,
        Stop::NotIdChar => id_class_spec(b) != IdType::Legal,
        Stop::NotDigit => !(48 <= b <= 57),
    }
}

fn stops_at(s: Stop, b: u8) -> (r: bool)
    ensures
        r == stops(s, b),
{
    match s {
        Stop::Byte1(c1) => b == c1,
        Stop::Byte1White(c1) => b == c1 || lex_class(b) == LexType::WhiteSpace,
        Stop::Byte2(c1, c2) => b == c1 || b == c2,
        Stop::Byte2White(c1, c2) => b == c1 || b == c2 || lex_class(b) == LexType::WhiteSpace,
        Stop::Byte3(c1, c2, c3) => b == c1 || b == c2 || b == c3,
        Stop::NotAlpha => lex_class(b) != LexType::Alpha,
        Stop::NotWhite => lex_class(b) != LexType::WhiteSpace,
        Stop::NotIdChar => id_class(b) != IdType::Legal,
        Stop::NotDigit => !(48 <= b && b <= 57),
    }
}

/// The first position from `p` (below `last`) whose byte ends a scan of
/// kind `s`, or `last`.
pub open spec fn advance(buf: Seq<u8>, p: int, last: int, s: Stop) -> int
    decreases last - p,
{
    if p >= last || stops(s, buf[p]) {
        p
    } else {
        advance(buf, p + 1, last, s)
    }
}

pub proof fn lemma_advance(buf: Seq<u8>, p: int, last: int, s: Stop)
    requires
        p <= last,
    ensures
        p <= advance(buf, p, last, s) <= last,
        advance(buf, p, last, s) < last ==> stops(s, buf[advance(buf, p, last, s)]),
        forall|k: int| p <= k < advance(buf, p, last, s) ==> !stops(s, #[trigger] buf[k]),
    decreases last - p,
{
    if p < last && !stops(s, buf[p]) {
        lemma_advance(buf, p + 1, last, s);
    }
}

impl Scanner {
    pub open spec fn wf(&self) -> bool {
        &&& self.last < self.buffer@.len()
        &&& self.buf_ptr2 <= self.last
    }

    /// `buf_ptr2` moved forward from where it was in `old_s` up to the first
    /// byte that ends a scan of kind `s`, with `buf_ptr1` where it started.
    pub open spec fn scanned_to(&self, old_s: &Scanner, s: Stop) -> bool {
        &&& self.buffer@ == old_s.buffer@
        &&& self.last == old_s.last
        &&& self.buf_ptr1 == old_s.buf_ptr2
        &&& self.buf_ptr2 == advance(old_s.buffer@, old_s.buf_ptr2 as int, old_s.last as int, s)
    }

    /// Moves `buf_ptr2` forward to the first byte that ends a scan of kind `s`.
    fn skip_to(&mut self, s: Stop)
        requires
            old(self).wf(),
        ensures
            final(self).wf(),
            final(self).buffer@ == old(self).buffer@,
            final(self).last == old(self).last,
            final(self).buf_ptr1 == old(self).buf_ptr1,
            final(self).buf_ptr2 == advance(old(self).buffer@, old(self).buf_ptr2 as int, old(self).last as int, s),
    {
        while self.buf_ptr2 < self.last && !stops_at(s, self.buffer[self.buf_ptr2])
            invariant
                self.wf(),
                self.buffer@ == old(self).buffer@,
                self.last == old(self).last,
                self.buf_ptr1 == old(self).buf_ptr1,
                advance(self.buffer@, old(self).buf_ptr2 as int, self.last as int, s) == advance(self.buffer@, self.buf_ptr2 as int, self.last as int, s),
            decreases self.last - self.buf_ptr2,
        {
            self.buf_ptr2 = self.buf_ptr2 + 1;
        }
    }

    /// Scans from `buf_ptr2` to the first byte that ends a scan of kind `s`.
    fn scan_to(&mut self, s: Stop)
        requires
            old(self).wf(),
        ensures
            final(self).wf(),
            final(self).scanned_to(&*old(self), s),
    {
        self.buf_ptr1 = self.buf_ptr2;
        self.skip_to(s);
    }

    /// Scans up to `char1`; true where it was found before the end.
    pub fn scan1(&mut self, char1: u8) -> (r: bool)
        requires
            old(self).wf(),
        ensures
            final(self).wf(),
            final(self).scanned_to(&*old(self), Stop::Byte1(char1)),
            r == (final(self).buf_ptr2 < final(self).last),
    {
        self.scan_to(Stop::Byte1(char1));
        self.buf_ptr2 < self.last
    }

    /// Scans up to `char1` or white space.
    pub fn scan1_white(&mut self, char1: u8) -> (r: bool)
        requires
            old(self).wf(),
        ensures
            final(self).wf(),
            final(self).scanned_to(&*old(self), Stop::Byte1White(char1)),
            r == (final(self).buf_ptr2 < final(self).last),
    {
        self.scan_to(Stop::Byte1White(char1));
        self.buf_ptr2 < self.last
    }

    /// Scans up to `char1` or `char2`.
    pub fn scan2(&mut self, char1: u8, char2: u8) -> (r: bool)
        requires
            old(self).wf(),
        ensures
            final(self).wf(),
            final(self).scanned_to(&*old(self), Stop::Byte2(char1, char2)),
            r == (final(self).buf_ptr2 < final(self).last),
    {
        self.scan_to(Stop::Byte2(char1, char2));
        self.buf_ptr2 < self.last
    }

    /// Scans up to `char1`, `char2` or white space.
    pub fn scan2_white(&mut self, char1: u8, char2: u8) -> (r: bool)
        requires
            old(self).wf(),
        ensures
            final(self).wf(),
            final(self).scanned_to(&*old(self), Stop::Byte2White(char1, char2)),
            r == (final(self).buf_ptr2 < final(self).last),
    {
        self.scan_to(Stop::Byte2White(char1, char2));
        self.buf_ptr2 < self.last
    }

    /// Scans up to `char1`, `char2` or `char3`.
    pub fn scan3(&mut self, char1: u8, char2: u8, char3: u8) -> (r: bool)
        requires
            old(self).wf(),
        ensures
            final(self).wf(),
            final(self).scanned_to(&*old(self), Stop::Byte3(char1, char2, char3)),
            r == (final(self).buf_ptr2 < final(self).last),
    {
        self.scan_to(Stop::Byte3(char1, char2, char3));
        self.buf_ptr2 < self.last
    }

    /// Scans a run of letters; true where it is not empty.
    pub fn scan_alpha(&mut self) -> (r: bool)
        requires
            old(self).wf(),
        ensures
            final(self).wf(),
            final(self).scanned_to(&*old(self), Stop::NotAlpha),
            r == (final(self).buf_ptr2 > final(self).buf_ptr1),
    {
        self.scan_to(Stop::NotAlpha);
        self.buf_ptr2 > self.buf_ptr1
    }

    /// Skips white space; true where something follows on the line.
    pub fn scan_white_space(&mut self) -> (r: bool)
        requires
            old(self).wf(),
        ensures
            final(self).wf(),
            final(self).buffer@ == old(self).buffer@,
            final(self).last == old(self).last,
            final(self).buf_ptr1 == old(self).buf_ptr1,
            final(self).buf_ptr2 == advance(old(self).buffer@, old(self).buf_ptr2 as int, old(self).last as int, Stop::NotWhite),
            r == (final(self).buf_ptr2 < final(self).last),
    {
        self.skip_to(Stop::NotWhite);
        self.buf_ptr2 < self.last
    }

    /// Scans an identifier (which may not start with a digit) and tells what
    /// follows it: nothing (empty identifier), white space or the end of the
    /// line, one of the three given bytes, or something else.
    pub fn scan_identifier(&mut self, char1: u8, char2: u8, char3: u8) -> (r: ScanResult)
        requires
            old(self).wf(),
        ensures
            final(self).wf(),
            final(self).buffer@ == old(self).buffer@,
            final(self).last == old(self).last,
            final(self).buf_ptr1 == old(self).buf_ptr2,
            final(self).buf_ptr2 == if lex_class_spec(old(self).buffer@[old(self).buf_ptr2 as int]) != LexType::Numeric {
                advance(old(self).buffer@, old(self).buf_ptr2 as int, old(self).last as int, Stop::NotIdChar)
            } else {
                old(self).buf_ptr2 as int
            },
            ({
                let p = final(self).buf_ptr2 as int;
                let c = final(self).buffer@[p];
                r == if p == final(self).buf_ptr1 {
                    ScanResult::IdNull
                } else if lex_class_spec(c) == LexType::WhiteSpace || p == final(self).last {
                    ScanResult::WhiteAdjacent
                } else if c == char1 || c == char2 || c == char3 {
                    ScanResult::SpecifiedCharAdjacent
                } else {
                    ScanResult::OtherCharAdjacent
                }
            }),
    {
        self.buf_ptr1 = self.buf_ptr2;
        if lex_class(self.buffer[self.buf_ptr2]) != LexType::Numeric {
            self.skip_to(Stop::NotIdChar);
        }
        let c = self.buffer[self.buf_ptr2];
        if self.buf_ptr2 == self.buf_ptr1 {
            ScanResult::IdNull
        } else if lex_class(c) == LexType::WhiteSpace || self.buf_ptr2 == self.last {
            ScanResult::WhiteAdjacent
        } else if c == char1 || c == char2 || c == char3 {
            ScanResult::SpecifiedCharAdjacent
        } else {
            ScanResult::OtherCharAdjacent
        }
    }

    /// Scans a run of digits; true where it is not empty.
    pub fn scan_nonneg_integer(&mut self) -> (r: bool)
        requires
            old(self).wf(),
        ensures
            final(self).wf(),
            final(self).scanned_to(&*old(self), Stop::NotDigit),
            r == (final(self).buf_ptr1 < final(self).buf_ptr2),
    {
        self.scan_to(Stop::NotDigit);
        self.buf_ptr1 < self.buf_ptr2
    }

    /// Scans an optionally negative integer and returns its value, or `None`
    /// where no digit follows the optional minus sign (`buf_ptr2` is then
    /// left after the sign).
    pub fn scan_integer(&mut self) -> (r: Option<i32>)
        requires
            old(self).wf(),
            ({
                let start = integer_start(old(self).buffer@, old(self).buf_ptr2 as int, old(self).last as int);
                digits_value(old(self).buffer@, start, advance(old(self).buffer@, start, old(self).last as int, Stop::NotDigit)) <= i32::MAX
            }),
        ensures
            final(self).wf(),
            final(self).buffer@ == old(self).buffer@,
            final(self).last == old(self).last,
            final(self).buf_ptr1 == old(self).buf_ptr2,
            final(self).buf_ptr2 == integer_end(old(self).buffer@, old(self).buf_ptr2 as int, old(self).last as int),
            match scanned_integer(old(self).buffer@, old(self).buf_ptr2 as int, old(self).last as int) {
                Some(v) => r == Some(v as i32),
                None => r is None,
            },
    {
        let ghost s = Stop::NotDigit;
        self.buf_ptr1 = self.buf_ptr2;
        let neg = self.buffer[self.buf_ptr2] == 45 && self.buf_ptr2 < self.last;
        if neg {
            self.buf_ptr2 = self.buf_ptr2 + 1;
        }
        let start = self.buf_ptr2;
        let mut token_value: i32 = 0;
        proof {
            lemma_advance(self.buffer@, start as int, self.last as int, s);
        }
        while self.buf_ptr2 < self.last && 48 <= self.buffer[self.buf_ptr2] && self.buffer[self.buf_ptr2] <= 57
            invariant
                self.wf(),
                s == Stop::NotDigit,
                0 <= token_value,
                start <= self.buf_ptr2,
                self.buffer@ == old(self).buffer@,
                self.last == old(self).last,
                self.buf_ptr1 == old(self).buf_ptr2,
                start <= advance(self.buffer@, start as int, self.last as int, s) <= self.last,
                advance(self.buffer@, start as int, self.last as int, s) == advance(self.buffer@, self.buf_ptr2 as int, self.last as int, s),
                token_value == digits_value(self.buffer@, start as int, self.buf_ptr2 as int),
                digits_value(self.buffer@, start as int, advance(self.buffer@, start as int, self.last as int, s)) <= i32::MAX,
                forall|k: int| start <= k < advance(self.buffer@, start as int, self.last as int, s) ==> !stops(s, #[trigger] self.buffer@[k]),
            decreases self.last - self.buf_ptr2,
        {
            let d = self.buffer[self.buf_ptr2] - 48;
            proof {
                lemma_advance(self.buffer@, self.buf_ptr2 as int + 1, self.last as int, s);
                lemma_digits_value_mono(self.buffer@, start as int, self.buf_ptr2 as int + 1, advance(self.buffer@, start as int, self.last as int, s));
            }
            token_value = token_value * 10 + d as i32;
            self.buf_ptr2 = self.buf_ptr2 + 1;
        }
        if self.buf_ptr2 == start {
            None
        } else if neg {
            Some(-token_value)
        } else {
            Some(token_value)
        }
    }
}

/// Where the digits of an integer start: after a minus sign at `p`, if any.
pub open spec fn integer_start(buf: Seq<u8>, p: int, last: int) -> int {
    if buf[p] == 45 && p < last { p + 1 } else { p }
}

/// Where the digits of an integer at `p` end.
pub open spec fn integer_end(buf: Seq<u8>, p: int, last: int) -> int {
    advance(buf, integer_start(buf, p, last), last, Stop::NotDigit)
}

/// The optionally negative integer written at `p`, or `None` where no digit
/// follows the optional minus sign.
pub open spec fn scanned_integer(buf: Seq<u8>, p: int, last: int) -> Option<int> {
    let start = integer_start(buf, p, last);
    let end = integer_end(buf, p, last);
    let v = digits_value(buf, start, end);
    if end == start {
        None
    } else if start == p + 1 {
        Some(-v)
    } else {
        Some(v)
    }
}

/// The value of the decimal digits `buf[a..b]`.
pub open spec fn digits_value(buf: Seq<u8>, a: int, b: int) -> int
    decreases b - a,
{
    if b <= a {
        0
    } else {
        digits_value(buf, a, b - 1) * 10 + (buf[b - 1] - 48)
    }
}

pub proof fn lemma_digits_value_mono(buf: Seq<u8>, a: int, b: int, c: int)
    requires
        a <= b <= c,
        forall|k: int| a <= k < c ==> 48 <= #[trigger] buf[k] <= 57,
    ensures
        0 <= digits_value(buf, a, b) <= digits_value(buf, a, c),
    decreases c - a,
{
    if b < c {
        lemma_digits_value_mono(buf, a, b, c - 1);
    } else {
        lemma_digits_nonneg(buf, a, b);
    }
}

pub proof fn lemma_digits_nonneg(buf: Seq<u8>, a: int, b: int)
    requires
        forall|k: int| a <= k < b ==> 48 <= #[trigger] buf[k] <= 57,
    ensures
        0 <= digits_value(buf, a, b),
    decreases b - a,
{
    if b > a {
        lemma_digits_nonneg(buf, a, b - 1);
    }
}

/// The decimal digits of `n`.
pub open spec fn decimal(n: nat) -> Seq<u8>
    decreases n,
{
    if n < 10 {
        seq![(48 + n) as u8]
    } else {
        decimal(n / 10).push((48 + n % 10) as u8)
    }
}

/// The decimal text of an integer, with a minus sign where it is negative.
pub open spec fn int_text(i: int) -> Seq<u8> {
    if i < 0 {
        seq![45u8] + decimal((-i) as nat)
    } else {
        decimal(i as nat)
    }
}

pub proof fn lemma_decimal_len(n: nat)
    ensures
        decimal(n).len() >= 1,
    decreases n,
{
    if n >= 10 {
        lemma_decimal_len(n / 10);
    }
}

/// Writes the decimal text of `the_int` into `buf` from `int_begin` and
/// returns where it ends (`int_to_ASCII`).
pub fn int_to_ASCII(the_int: i32, buf: &mut Vec<u8>, int_begin: usize) -> (int_end: usize)
    requires
        the_int != i32::MIN,
        int_begin + int_text(the_int as int).len() <= old(buf)@.len(),
    ensures
        int_end == int_begin + int_text(the_int as int).len(),
        final(buf)@.len() == old(buf)@.len(),
        final(buf)@.subrange(int_begin as int, int_end as int) == int_text(the_int as int),
        forall|k: int| 0 <= k < old(buf)@.len() && !(int_begin <= k < int_end) ==> #[trigger] final(buf)@[k] == old(buf)@[k],
{
    let ghost text = int_text(the_int as int);
    let blen = buf.len();
    let mut int_ptr = int_begin;
    let mut v: i32 = the_int;
    if the_int < 0 {
        buf.set(int_ptr, 45);
        int_ptr = int_ptr + 1;
        v = -the_int;
    }
    let ghost digits = decimal(v as nat);
    let ghost xbegin = int_ptr;
    proof {
        assert(text =~= if the_int < 0 { seq![45u8] + digits } else { digits });
        lemma_decimal_len(v as nat);
    }
    // The digits, lowest first, then turned around.
    let mut tmp: Vec<u8> = Vec::new();
    let mut w: i32 = v;
    while w >= 10
        invariant
            0 <= w <= v,
            v >= 0,
            decimal(v as nat) == decimal(w as nat) + reverse(tmp@),
        decreases w,
    {
        let d = (w % 10) as u8;
        proof {
            assert(decimal(w as nat) == decimal((w / 10) as nat).push((48 + w % 10) as u8));
            assert(reverse(tmp@.push((48 + d) as u8)) =~= seq![(48 + d) as u8] + reverse(tmp@)) by {
                lemma_reverse_push(tmp@, (48 + d) as u8);
            }
            assert(decimal((w / 10) as nat).push((48 + w % 10) as u8) + reverse(tmp@) =~= decimal((w / 10) as nat) + (seq![(48 + d) as u8] + reverse(tmp@)));
        }
        tmp.push(48 + d);
        w = w / 10;
    }
    proof {
        assert(decimal(w as nat) =~= seq![(48 + w) as u8]);
    }
    tmp.push(48 + w as u8);
    proof {
        lemma_reverse_push(tmp@.drop_last(), (48 + w) as u8);
        assert(tmp@.drop_last().push((48 + w) as u8) =~= tmp@);
        assert(reverse(tmp@) =~= digits);
    }
    let n = tmp.len();
    let mut k: usize = 0;
    while k < n
        invariant
            k <= n,
            n == tmp@.len(),
            blen == buf@.len(),
            reverse(tmp@) == digits,
            xbegin + n <= buf@.len(),
            int_ptr == xbegin,
            buf@.len() == old(buf)@.len(),
            forall|j: int| xbegin <= j < xbegin + k ==> #[trigger] buf@[j] == digits[j - xbegin],
            forall|j: int| 0 <= j < old(buf)@.len() && !(int_begin <= j < xbegin + k) ==> #[trigger] buf@[j] == old(buf)@[j],
            the_int < 0 ==> buf@[int_begin as int] == 45 && xbegin == int_begin + 1,
            the_int >= 0 ==> xbegin == int_begin,
        decreases n - k,
    {
        proof {
            lemma_reverse_index(tmp@, k as int);
        }
        buf.set(int_ptr + k, tmp[n - 1 - k]);
        k = k + 1;
    }
    proof {
        assert(buf@.subrange(int_begin as int, (xbegin + n) as int) =~= text);
    }
    int_ptr + n
}

/// `s` backwards.
pub open spec fn reverse(s: Seq<u8>) -> Seq<u8> {
    Seq::new(s.len(), |i: int| s[s.len() - 1 - i])
}

proof fn lemma_reverse_push(s: Seq<u8>, x: u8)
    ensures
        reverse(s.push(x)) =~= seq![x] + reverse(s),
{
}

proof fn lemma_reverse_index(s: Seq<u8>, k: int)
    requires
        0 <= k < s.len(),
    ensures
        reverse(s)[k] == s[s.len() - 1 - k],
{
}

/// The digits of a natural number read back give the number.
pub proof fn lemma_decimal_digits(n: nat)
    ensures
        digits_value(decimal(n), 0, decimal(n).len() as int) == n,
        forall|k: int| 0 <= k < decimal(n).len() ==> 48 <= #[trigger] decimal(n)[k] <= 57,
    decreases n,
{
    if n >= 10 {
        lemma_decimal_digits(n / 10);
        let d = decimal(n / 10);
        let e = decimal(n);
        let x = (48 + n % 10) as u8;
        assert(e == d.push(x));
        assert(x == 48 + n % 10);
        assert forall|k: int| 0 <= k < d.len() implies e[k] == d[k] by {}
        lemma_digits_value_prefix(e, d, d.len() as int);
        assert(digits_value(e, 0, e.len() as int) == digits_value(e, 0, d.len() as int) * 10 + (e[d.len() as int] - 48));
        assert(digits_value(d, 0, d.len() as int) == n / 10);
        assert(e[d.len() as int] == x);
        assert((n / 10) * 10 + n % 10 == n);
    } else {
        let e = decimal(n);
        assert(e[0] == 48 + n);
        assert(digits_value(e, 0, 0) == 0);
        assert(digits_value(e, 0, 1) == digits_value(e, 0, 0) * 10 + (e[0] - 48));
    }
}

proof fn lemma_digits_value_prefix(e: Seq<u8>, d: Seq<u8>, b: int)
    requires
        0 <= b <= d.len(),
        d.len() <= e.len(),
        forall|k: int| 0 <= k < d.len() ==> e[k] == d[k],
    ensures
        digits_value(e, 0, b) == digits_value(d, 0, b),
    decreases b,
{
    if b > 0 {
        lemma_digits_value_prefix(e, d, b - 1);
    }
}

proof fn lemma_advance_digits(buf: Seq<u8>, q: int, e: int, last: int)
    requires
        q <= e <= last,
        forall|k: int| q <= k < e ==> 48 <= #[trigger] buf[k] <= 57,
        e < last ==> !(48 <= buf[e] <= 57),
    ensures
        advance(buf, q, last, Stop::NotDigit) == e,
    decreases e - q,
{
    if q < e {
        lemma_advance_digits(buf, q + 1, e, last);
    }
}

proof fn lemma_digits_value_shift(buf: Seq<u8>, d: Seq<u8>, a: int, m: int)
    requires
        0 <= m <= d.len(),
        forall|k: int| 0 <= k < m ==> buf[a + k] == #[trigger] d[k],
    ensures
        digits_value(buf, a, a + m) == digits_value(d, 0, m),
    decreases m,
{
    if m > 0 {
        lemma_digits_value_shift(buf, d, a, m - 1);
        assert(buf[a + (m - 1)] == d[m - 1]);
    }
}

/// The decimal text that `int_to_ASCII` writes is read back by
/// `scan_integer` as the same integer, where no digit follows it on the line.
pub proof fn law_integer_text_scans_back(x: int, buf: Seq<u8>, p: int, last: int)
    requires
        i32::MIN < x <= i32::MAX,
        0 <= p,
        p + int_text(x).len() <= last < buf.len(),
        buf.subrange(p, p + int_text(x).len()) == int_text(x),
        p + int_text(x).len() < last ==> !(48 <= buf[p + int_text(x).len()] <= 57),
    ensures
        scanned_integer(buf, p, last) == Some(x),
        integer_end(buf, p, last) == p + int_text(x).len(),
{
    let n: nat = if x < 0 { (-x) as nat } else { x as nat };
    let d = decimal(n);
    let t = int_text(x);
    let len = t.len() as int;
    lemma_decimal_digits(n);
    lemma_decimal_len(n);
    let start = if x < 0 { p + 1 } else { p };
    assert forall|k: int| 0 <= k < d.len() implies buf[start + k] == #[trigger] d[k] by {
        if x < 0 {
            assert(t[k + 1] == d[k]);
            assert(buf[p + (k + 1)] == t[k + 1]);
        } else {
            assert(buf[p + k] == t[k]);
        }
    }
    if x < 0 {
        assert(buf[p] == t[0]);
    } else {
        assert(buf[p] == d[0]);
    }
    assert(integer_start(buf, p, last) == start);
    assert(start + d.len() == p + len);
    assert forall|k: int| start <= k < p + len implies 48 <= #[trigger] buf[k] <= 57 by {
        assert(buf[start + (k - start)] == d[k - start]);
    }
    lemma_advance_digits(buf, start, p + len, last);
    lemma_digits_value_shift(buf, d, start, d.len() as int);
}

} // verus!
