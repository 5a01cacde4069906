//! The string functions of the BibTeX style language that look at the text
//! of a string: `text.length$`, `text.prefix$`, `add.period$`,
//! `substring$`, `chr.to.int$`, `int.to.chr$`, `purify$`, `width$` and
//! `num.names$`.
//!
//! A "special character" is a group at brace depth 1 that starts with a
//! backslash, such as `{\"o}`; it counts as one text character.
use vstd::prelude::*;
use crate::bibtex::lex::{lex_class, lex_class_spec, LexType, control_seq, control_seq_spec, char_width, char_width_spec, lower_case, upper_case, is_white};

verus! {

pub const LEFT_BRACE: u8 = 123;
pub const RIGHT_BRACE: u8 = 125;
pub const BACKSLASH: u8 = 92;

/// Skips the inside of a group from `j` at brace depth `lvl`, up to the
/// byte after the brace that closes it (or the end of `s`). Returns the
/// position and the depth there.
pub open spec fn skip_group(s: Seq<u8>, j: int, lvl: int) -> (int, int)
    decreases s.len() - j,
{
    if j >= s.len() || lvl <= 0 || j < 0 {
        (j, lvl)
    } else if s[j] == RIGHT_BRACE {
        skip_group(s, j + 1, lvl - 1)
    } else if s[j] == LEFT_BRACE {
        skip_group(s, j + 1, lvl + 1)
    } else {
        skip_group(s, j + 1, lvl)
    }
}

pub proof fn lemma_skip_group(s: Seq<u8>, j: int, lvl: int)
    requires
        0 <= j,
        0 <= lvl,
    ensures
        j <= skip_group(s, j, lvl).0,
        skip_group(s, j, lvl).0 <= if j > s.len() { j } else { s.len() as int },
        0 <= skip_group(s, j, lvl).1,
    decreases s.len() - j,
{
    if j >= s.len() || lvl <= 0 {
    } else if s[j] == RIGHT_BRACE {
        lemma_skip_group(s, j + 1, lvl - 1);
    } else if s[j] == LEFT_BRACE {
        lemma_skip_group(s, j + 1, lvl + 1);
    } else {
        lemma_skip_group(s, j + 1, lvl);
    }
}

/// One step of the text-character scan at position `i` (inside `s`) and
/// brace depth `lvl`: the next position, the next depth, and how many text
/// characters the step passed.
pub open spec fn text_step(s: Seq<u8>, i: int, lvl: int) -> (int, int, int) {
    let c = s[i];
    if c == LEFT_BRACE {
        if lvl + 1 == 1 && i + 1 < s.len() && s[i + 1] == BACKSLASH {
            let r = skip_group(s, i + 2, lvl + 1);
            (r.0, r.1, 1)
        } else {
            (i + 1, lvl + 1, 0)
        }
    } else if c == RIGHT_BRACE {
        (i + 1, if lvl > 0 { lvl - 1 } else { lvl }, 0)
    } else {
        (i + 1, lvl, 1)
    }
}

pub proof fn lemma_text_step(s: Seq<u8>, i: int, lvl: int)
    requires
        0 <= i < s.len(),
        0 <= lvl,
    ensures
        i < text_step(s, i, lvl).0 <= s.len(),
        0 <= text_step(s, i, lvl).1,
        0 <= text_step(s, i, lvl).2 <= 1,
{
    if s[i] == LEFT_BRACE && lvl + 1 == 1 && i + 1 < s.len() && s[i + 1] == BACKSLASH {
        lemma_skip_group(s, i + 2, lvl + 1);
    }
}

/// Number of text characters in `s` from position `i` at depth `lvl`.
pub open spec fn text_length_from(s: Seq<u8>, i: int, lvl: int) -> int
    decreases s.len() - i,
{
    if i >= s.len() || i < 0 || lvl < 0 {
        0
    } else {
        let st = text_step(s, i, lvl);
        proof {
            lemma_text_step(s, i, lvl);
        }
        st.2 + text_length_from(s, st.0, st.1)
    }
}

/// `text.length$`: the number of text characters of `s`. Braces do not
/// count; a special character counts once.
pub open spec fn text_length_spec(s: Seq<u8>) -> int {
    text_length_from(s, 0, 0)
}

pub proof fn lemma_text_length_from_bound(s: Seq<u8>, i: int, lvl: int)
    requires
        0 <= i,
        0 <= lvl,
    ensures
        0 <= text_length_from(s, i, lvl) <= if i < s.len() { s.len() - i } else { 0 },
    decreases s.len() - i,
{
    if i < s.len() {
        lemma_text_step(s, i, lvl);
        let st = text_step(s, i, lvl);
        lemma_text_length_from_bound(s, st.0, st.1);
    }
}

pub proof fn lemma_vec_len(v: &Vec<u8>)
    ensures
        v@.len() <= usize::MAX,
{
    vstd::std_specs::vec::axiom_spec_len(v);
}

/// Executes one step of the text-character scan.
fn text_step_exec(s: &Vec<u8>, i: usize, lvl: usize) -> (r: (usize, usize, usize))
    requires
        i < s@.len(),
        lvl < s@.len(),
    ensures
        r.0 as int == text_step(s@, i as int, lvl as int).0,
        r.1 as int == text_step(s@, i as int, lvl as int).1,
        r.2 as int == text_step(s@, i as int, lvl as int).2,
        r.1 <= lvl + (r.0 - i),
        i < r.0 <= s@.len(),
{
    proof {
        lemma_text_step(s@, i as int, lvl as int);
        lemma_vec_len(s);
    }
    let c = s[i];
    if c == LEFT_BRACE {
        if lvl == 0 && i + 1 < s.len() && s[i + 1] == BACKSLASH {
            let (j, l) = skip_group_exec(s, i + 2, 1);
            (j, l, 1)
        } else {
            (i + 1, lvl + 1, 0)
        }
    } else if c == RIGHT_BRACE {
        (i + 1, if lvl > 0 { lvl - 1 } else { lvl }, 0)
    } else {
        (i + 1, lvl, 1)
    }
}

/// Executes `skip_group`.
pub(crate) fn skip_group_exec(s: &Vec<u8>, j: usize, lvl: usize) -> (r: (usize, usize))
    requires
        j <= s@.len(),
        lvl <= j,
    ensures
        r.0 as int == skip_group(s@, j as int, lvl as int).0,
        r.1 as int == skip_group(s@, j as int, lvl as int).1,
        r.1 <= lvl + (r.0 - j),
        j <= r.0 <= s@.len(),
{
    proof {
        lemma_vec_len(s);
    }
    let mut p = j;
    let mut l = lvl;
    while p < s.len() && l > 0
        invariant
            j <= p <= s@.len(),
            s@.len() <= usize::MAX,
            lvl <= j,
            l <= lvl + (p - j),
            skip_group(s@, j as int, lvl as int) == skip_group(s@, p as int, l as int),
        decreases s@.len() - p,
    {
        if s[p] == RIGHT_BRACE {
            l = l - 1;
        } else if s[p] == LEFT_BRACE {
            l = l + 1;
        }
        p = p + 1;
    }
    (p, l)
}

/// `text.length$`.
pub fn text_length(s: &Vec<u8>) -> (r: i32)
    requires
        s@.len() < i32::MAX,
    ensures
        r == text_length_spec(s@),
{
    let mut num_text_chars: usize = 0;
    let mut i: usize = 0;
    let mut lvl: usize = 0;
    proof {
        lemma_text_length_from_bound(s@, 0, 0);
    }
    while i < s.len()
        invariant
            i <= s@.len(),
            lvl <= i,
            num_text_chars <= i,
            s@.len() < i32::MAX,
            text_length_spec(s@) == num_text_chars + text_length_from(s@, i as int, lvl as int),
        decreases s@.len() - i,
    {
        let (j, l, k) = text_step_exec(s, i, lvl);
        num_text_chars = num_text_chars + k;
        i = j;
        lvl = l;
    }
    num_text_chars as i32
}

/// Skipping a group reads only what follows: it skips in `y` as it does
/// in `x + y` from past `x`.
proof fn lemma_skip_group_shift(x: Seq<u8>, y: Seq<u8>, j: int, lvl: int)
    requires
        0 <= j,
        0 <= lvl,
    ensures
        skip_group(x + y, x.len() + j, lvl) == (x.len() + skip_group(y, j, lvl).0, skip_group(y, j, lvl).1),
    decreases y.len() - j,
{
    let s = x + y;
    if j < y.len() && lvl > 0 {
        assert(s[x.len() + j] == y[j]);
        if y[j] == RIGHT_BRACE {
            lemma_skip_group_shift(x, y, j + 1, lvl - 1);
        } else if y[j] == LEFT_BRACE {
            lemma_skip_group_shift(x, y, j + 1, lvl + 1);
        } else {
            lemma_skip_group_shift(x, y, j + 1, lvl);
        }
    }
}

/// Counting text characters reads only what follows: it counts in `y` as
/// it does in `x + y` from past `x`.
proof fn lemma_text_length_shift(x: Seq<u8>, y: Seq<u8>, i: int, lvl: int)
    requires
        0 <= i,
        0 <= lvl,
    ensures
        text_length_from(x + y, x.len() + i, lvl) == text_length_from(y, i, lvl),
    decreases y.len() - i,
{
    let s = x + y;
    if i < y.len() {
        assert(s[x.len() + i] == y[i]);
        if i + 1 < y.len() {
            assert(s[x.len() + i + 1] == y[i + 1]);
        }
        if y[i] == LEFT_BRACE && lvl + 1 == 1 && i + 1 < y.len() && y[i + 1] == BACKSLASH {
            lemma_skip_group_shift(x, y, i + 2, lvl + 1);
        }
        lemma_text_step(y, i, lvl);
        let st = text_step(y, i, lvl);
        assert(text_step(s, x.len() + i, lvl) == (x.len() + st.0, st.1, st.2));
        lemma_text_length_shift(x, y, st.0, st.1);
    }
}

/// Characters other than braces at the top count one each.
proof fn lemma_text_length_plain(s: Seq<u8>, i: int, e: int)
    requires
        0 <= i <= e <= s.len(),
        forall|k: int| i <= k < e ==> #[trigger] s[k] != LEFT_BRACE && s[k] != RIGHT_BRACE,
    ensures
        text_length_from(s, i, 0) == (e - i) + text_length_from(s, e, 0),
    decreases e - i,
{
    if i < e {
        lemma_text_length_plain(s, i + 1, e);
    }
}

/// The inside of a group without braces is skipped up to its right brace.
proof fn lemma_skip_group_plain(s: Seq<u8>, j: int, e: int)
    requires
        0 <= j <= e < s.len(),
        s[e] == RIGHT_BRACE,
        forall|k: int| j <= k < e ==> #[trigger] s[k] != LEFT_BRACE && s[k] != RIGHT_BRACE,
    ensures
        skip_group(s, j, 1) == (e + 1, 0int),
    decreases e - j,
{
    if j < e {
        lemma_skip_group_plain(s, j + 1, e);
    }
    assert(skip_group(s, e + 1, 0) == (e + 1, 0int));
}

/// A special character (`{\` and a text without braces, then `}`) counts as
/// one text character, after as many as there are characters of a text
/// `a` without braces before it: text characters are counted left to right.
pub proof fn law_text_length_special_char(a: Seq<u8>, body: Seq<u8>, rest: Seq<u8>)
    requires
        forall|k: int| 0 <= k < a.len() ==> #[trigger] a[k] != LEFT_BRACE && a[k] != RIGHT_BRACE,
        forall|k: int| 0 <= k < body.len() ==> #[trigger] body[k] != LEFT_BRACE && body[k] != RIGHT_BRACE,
    ensures
        text_length_spec(a + seq![LEFT_BRACE, BACKSLASH] + body + seq![RIGHT_BRACE] + rest) == a.len() + 1 + text_length_spec(rest),
{
    let g = a + seq![LEFT_BRACE, BACKSLASH] + body + seq![RIGHT_BRACE];
    let s = g + rest;
    let n = a.len() as int;
    let e = n + 2 + body.len();
    assert forall|k: int| 0 <= k < n implies #[trigger] s[k] != LEFT_BRACE && s[k] != RIGHT_BRACE by {
        assert(s[k] == a[k]);
    }
    lemma_text_length_plain(s, 0, n);
    assert(s[n] == LEFT_BRACE && s[n + 1] == BACKSLASH);
    assert(s[e] == RIGHT_BRACE);
    assert forall|k: int| n + 2 <= k < e implies #[trigger] s[k] != LEFT_BRACE && s[k] != RIGHT_BRACE by {
        assert(s[k] == body[k - n - 2]);
    }
    lemma_skip_group_plain(s, n + 2, e);
    assert(text_step(s, n, 0) == (e + 1, 0int, 1int));
    assert(g.len() == e + 1);
    lemma_text_length_shift(g, rest, 0, 0);
}

/// Where the scan for the first `n` text characters stops, and the depth
/// there.
pub open spec fn prefix_end(s: Seq<u8>, i: int, lvl: int, cnt: int, n: int) -> (int, int)
    decreases s.len() - i,
{
    if i >= s.len() || cnt >= n || i < 0 || lvl < 0 {
        (i, lvl)
    } else {
        let st = text_step(s, i, lvl);
        proof {
            lemma_text_step(s, i, lvl);
        }
        prefix_end(s, st.0, st.1, cnt + st.2, n)
    }
}

/// `n` right braces.
pub open spec fn right_braces(n: int) -> Seq<u8> {
    Seq::new(n as nat, |k: int| RIGHT_BRACE)
}

/// `text.prefix$`: the first `n` text characters of `s`, with the braces
/// open there closed again; empty where `n` is not positive.
pub open spec fn text_prefix_spec(s: Seq<u8>, n: int) -> Seq<u8> {
    if n <= 0 {
        Seq::empty()
    } else {
        let e = prefix_end(s, 0, 0, 0, n);
        s.take(e.0) + right_braces(e.1)
    }
}

/// `text.prefix$`.
pub fn text_prefix(s: &Vec<u8>, n: i32) -> (r: Vec<u8>)
    ensures
        r@ == text_prefix_spec(s@, n as int),
{
    let mut out: Vec<u8> = Vec::new();
    if n <= 0 {
        return out;
    }
    let mut num_text_chars: usize = 0;
    let mut i: usize = 0;
    let mut lvl: usize = 0;
    while i < s.len() && num_text_chars < n as usize
        invariant
            i <= s@.len(),
            lvl <= i,
            num_text_chars <= i,
            n > 0,
            prefix_end(s@, 0, 0, 0, n as int) == prefix_end(s@, i as int, lvl as int, num_text_chars as int, n as int),
        decreases s@.len() - i,
    {
        let (j, l, k) = text_step_exec(s, i, lvl);
        num_text_chars = num_text_chars + k;
        i = j;
        lvl = l;
    }
    let mut k: usize = 0;
    while k < i
        invariant
            k <= i <= s@.len(),
            out@ == s@.take(k as int),
        decreases i - k,
    {
        out.push(s[k]);
        proof {
            assert(out@ =~= s@.take(k as int + 1));
        }
        k = k + 1;
    }
    let mut b: usize = 0;
    while b < lvl
        invariant
            b <= lvl,
            out@ == s@.take(i as int) + right_braces(b as int),
        decreases lvl - b,
    {
        out.push(RIGHT_BRACE);
        proof {
            assert(out@ =~= s@.take(i as int) + right_braces(b as int + 1));
        }
        b = b + 1;
    }
    out
}

/// Where the backward scan of `add.period$` lands: the last byte that is
/// not a right brace (or position 0).
pub open spec fn last_non_brace(s: Seq<u8>, p: int) -> int
    decreases p,
{
    if p <= 0 {
        0
    } else if s[p - 1] != RIGHT_BRACE {
        p - 1
    } else {
        last_non_brace(s, p - 1)
    }
}

/// `add.period$`: `s` with a period added, unless its last byte other than
/// right braces is `.`, `?` or `!`; the empty string stays empty.
pub open spec fn add_period_spec(s: Seq<u8>) -> Seq<u8> {
    if s.len() == 0 {
        s
    } else {
        let c = s[last_non_brace(s, s.len() as int)];
        if c == 46 || c == 63 || c == 33 {
            s
        } else {
            s.push(46)
        }
    }
}

/// `add.period$` twice adds no more than once.
pub proof fn law_add_period_idempotent(s: Seq<u8>)
    ensures
        add_period_spec(add_period_spec(s)) == add_period_spec(s),
{
    let t = add_period_spec(s);
    if t.len() > 0 {
        assert(t.len() >= 1);
        if t != s {
            assert(t[t.len() - 1] == 46);
            assert(last_non_brace(t, t.len() as int) == t.len() - 1);
        }
    }
}

/// `add.period$`.
pub fn add_period(s: &Vec<u8>) -> (r: Vec<u8>)
    ensures
        r@ == add_period_spec(s@),
{
    let mut out: Vec<u8> = Vec::new();
    let mut k: usize = 0;
    while k < s.len()
        invariant
            k <= s@.len(),
            out@ == s@.take(k as int),
        decreases s@.len() - k,
    {
        out.push(s[k]);
        proof {
            assert(out@ =~= s@.take(k as int + 1));
        }
        k = k + 1;
    }
    proof {
        assert(out@ =~= s@);
    }
    if s.len() == 0 {
        return out;
    }
    let mut p = s.len();
    while p > 0 && s[p - 1] == RIGHT_BRACE
        invariant
            p <= s@.len(),
            last_non_brace(s@, s@.len() as int) == last_non_brace(s@, p as int),
        decreases p,
    {
        p = p - 1;
    }
    let q = if p > 0 { p - 1 } else { 0 };
    assert(q == last_non_brace(s@, s@.len() as int));
    let c = s[q];
    if !(c == 46 || c == 63 || c == 33) {
        out.push(46);
    }
    out
}

/// `substring$`: `len` bytes of `s` from position `start` (counting from 1;
/// a negative `start` counts from the end, and then the bytes end there).
pub open spec fn substring_spec(s: Seq<u8>, start: int, len: int) -> Seq<u8> {
    let n = s.len() as int;
    if len >= n && (start == 1 || start == -1) {
        s
    } else if len <= 0 || start == 0 || start > n || start < -n {
        Seq::empty()
    } else if start > 0 {
        let l = if len > n - (start - 1) { n - (start - 1) } else { len };
        s.subrange(start - 1, start - 1 + l)
    } else {
        let st = -start;
        let l = if len > n - (st - 1) { n - (st - 1) } else { len };
        let end = n - (st - 1);
        s.subrange(end - l, end)
    }
}

/// `substring$` (the arguments in the order of the stack: the string, the
/// start, the length).
pub fn substring(s: &Vec<u8>, start: i32, len: i32) -> (r: Vec<u8>)
    requires
        s@.len() < i32::MAX,
    ensures
        r@ == substring_spec(s@, start as int, len as int),
{
    let n = s.len() as i32;
    let (from, to): (usize, usize) = if len >= n && (start == 1 || start == -1) {
        (0, s.len())
    } else if len <= 0 || start == 0 || start > n || start < -n {
        (0, 0)
    } else if start > 0 {
        let l = if len > n - (start - 1) { n - (start - 1) } else { len };
        ((start - 1) as usize, (start - 1 + l) as usize)
    } else {
        let st = -start;
        let l = if len > n - (st - 1) { n - (st - 1) } else { len };
        let end = n - (st - 1);
        ((end - l) as usize, end as usize)
    };
    let mut out: Vec<u8> = Vec::new();
    let mut k = from;
    while k < to
        invariant
            from <= k <= to,
            to <= s@.len(),
            out@ == s@.subrange(from as int, k as int),
        decreases to - k,
    {
        out.push(s[k]);
        proof {
            assert(out@ =~= s@.subrange(from as int, k as int + 1));
        }
        k = k + 1;
    }
    proof {
        if len >= n && (start == 1 || start == -1) {
            assert(s@.subrange(0, s@.len() as int) =~= s@);
        }
        if !(len >= n && (start == 1 || start == -1)) && (len <= 0 || start == 0 || start > n || start < -n) {
            assert(out@ =~= Seq::<u8>::empty());
        }
    }
    out
}

/// `chr.to.int$`: the code of a one-byte string; `None` for other strings
/// (the style program is then told it made a mistake, and 0 is pushed).
pub fn chr_to_int(s: &Vec<u8>) -> (r: Option<i32>)
    ensures
        s@.len() == 1 ==> r == Some(s@[0] as i32),
        s@.len() != 1 ==> r is None,
{
    if s.len() != 1 {
        None
    } else {
        Some(s[0] as i32)
    }
}

/// `int.to.chr$`: the one-byte string of an ASCII code (0 to 127); `None`
/// for other numbers (the empty string is pushed then).
pub fn int_to_chr(i: i32) -> (r: Option<Vec<u8>>)
    ensures
        0 <= i <= 127 ==> (r matches Some(v) && v@ == seq![i as u8]),
        !(0 <= i <= 127) ==> r is None,
{
    if i < 0 || i > 127 {
        None
    } else {
        let v = vec![i as u8];
        assert(v@ =~= seq![i as u8]);
        Some(v)
    }
}


/// The end of the run of letters (and other bytes of class alpha) from `p`.
pub open spec fn alpha_end(s: Seq<u8>, p: int) -> int
    decreases s.len() - p,
{
    if p < 0 || p >= s.len() || lex_class_spec(s[p]) != LexType::Alpha {
        p
    } else {
        alpha_end(s, p + 1)
    }
}

pub proof fn lemma_alpha_end(s: Seq<u8>, p: int)
    requires
        0 <= p,
    ensures
        p <= alpha_end(s, p),
        alpha_end(s, p) <= if p > s.len() { p } else { s.len() as int },
    decreases s.len() - p,
{
    if p < s.len() && lex_class_spec(s[p]) == LexType::Alpha {
        lemma_alpha_end(s, p + 1);
    }
}

fn alpha_end_exec(s: &Vec<u8>, p: usize) -> (r: usize)
    requires
        p <= s@.len(),
    ensures
        r == alpha_end(s@, p as int),
        p <= r <= s@.len(),
{
    let mut q = p;
    while q < s.len() && lex_class(s[q]) == LexType::Alpha
        invariant
            p <= q <= s@.len(),
            alpha_end(s@, p as int) == alpha_end(s@, q as int),
        decreases s@.len() - q,
    {
        q = q + 1;
    }
    q
}

/// What `purify$` keeps of a special character's control sequence
/// `s[y..e]`: its first byte, and the second one for `\oe`, `\OE`, `\ae`,
/// `\AE` and `\ss`; nothing for unknown control sequences.
pub open spec fn purify_cs(s: Seq<u8>, y: int, e: int) -> Seq<u8> {
    match control_seq_spec(s.subrange(y, e)) {
        Some(code) => if code == 2 || code == 3 || code == 4 || code == 5 || code == 12 {
            seq![s[y], s[y + 1]]
        } else {
            seq![s[y]]
        },
        None => Seq::empty(),
    }
}

/// The rest of a special character after a control sequence, up to the next
/// backslash or the end of the group: letters and digits are kept.
pub open spec fn purify_inner(s: Seq<u8>, p: int, lvl: int) -> (int, int, Seq<u8>)
    decreases s.len() - p,
{
    if p < 0 || p >= s.len() || lvl <= 0 || s[p] == BACKSLASH {
        (p, lvl, Seq::empty())
    } else {
        let c = s[p];
        let cl = lex_class_spec(c);
        let (o, l) = if cl == LexType::Alpha || cl == LexType::Numeric {
            (seq![c], lvl)
        } else if c == RIGHT_BRACE {
            (Seq::<u8>::empty(), lvl - 1)
        } else if c == LEFT_BRACE {
            (Seq::<u8>::empty(), lvl + 1)
        } else {
            (Seq::<u8>::empty(), lvl)
        };
        let r = purify_inner(s, p + 1, l);
        (r.0, r.1, o + r.2)
    }
}

pub proof fn lemma_purify_inner(s: Seq<u8>, p: int, lvl: int)
    requires
        0 <= p,
        0 <= lvl,
    ensures
        p <= purify_inner(s, p, lvl).0,
        purify_inner(s, p, lvl).0 <= if p > s.len() { p } else { s.len() as int },
        0 <= purify_inner(s, p, lvl).1,
    decreases s.len() - p,
{
    if p < s.len() && lvl > 0 && s[p] != BACKSLASH {
        let c = s[p];
        let l = if c == RIGHT_BRACE {
            lvl - 1
        } else if c == LEFT_BRACE {
            lvl + 1
        } else {
            lvl
        };
        let cl = lex_class_spec(c);
        if cl == LexType::Alpha || cl == LexType::Numeric {
            lemma_purify_inner(s, p + 1, lvl);
        } else {
            lemma_purify_inner(s, p + 1, l);
        }
    }
}

/// A special character from position `p` (a backslash, or where the last
/// control sequence's tail stopped) at depth `lvl`: what `purify$` keeps.
pub open spec fn purify_special(s: Seq<u8>, p: int, lvl: int) -> (int, int, Seq<u8>)
    decreases s.len() - p,
{
    if p < 0 || p >= s.len() || lvl <= 0 {
        (p, lvl, Seq::empty())
    } else {
        let y = p + 1;
        let e = alpha_end(s, y);
        let cs = purify_cs(s, y, e);
        proof {
            lemma_alpha_end(s, y);
            lemma_purify_inner(s, e, lvl);
        }
        let r1 = purify_inner(s, e, lvl);
        let r2 = purify_special(s, r1.0, r1.1);
        (r2.0, r2.1, cs + r1.2 + r2.2)
    }
}

pub proof fn lemma_purify_special(s: Seq<u8>, p: int, lvl: int)
    requires
        0 <= p,
        0 <= lvl,
    ensures
        p <= purify_special(s, p, lvl).0,
        purify_special(s, p, lvl).0 <= if p > s.len() { p } else { s.len() as int },
    decreases s.len() - p,
{
    if p < s.len() && lvl > 0 {
        let y = p + 1;
        lemma_alpha_end(s, y);
        let e = alpha_end(s, y);
        lemma_purify_inner(s, e, lvl);
        let r1 = purify_inner(s, e, lvl);
        lemma_purify_special(s, r1.0, r1.1);
    }
}

/// `purify$` from position `i` at depth `lvl`.
pub open spec fn purify_from(s: Seq<u8>, i: int, lvl: int) -> Seq<u8>
    decreases s.len() - i,
{
    if i < 0 || i >= s.len() || lvl < 0 {
        Seq::empty()
    } else {
        let c = s[i];
        let cl = lex_class_spec(c);
        if cl == LexType::WhiteSpace || cl == LexType::SepChar {
            seq![32u8] + purify_from(s, i + 1, lvl)
        } else if cl == LexType::Alpha || cl == LexType::Numeric {
            seq![c] + purify_from(s, i + 1, lvl)
        } else if c == LEFT_BRACE {
            if lvl + 1 == 1 && i + 1 < s.len() && s[i + 1] == BACKSLASH {
                proof {
                    lemma_purify_special(s, i + 1, lvl + 1);
                }
                let r = purify_special(s, i + 1, lvl + 1);
                r.2 + purify_from(s, if r.0 > i + 1 { r.0 } else { i + 2 }, r.1)
            } else {
                purify_from(s, i + 1, lvl + 1)
            }
        } else if c == RIGHT_BRACE {
            purify_from(s, i + 1, if lvl > 0 { lvl - 1 } else { lvl })
        } else {
            purify_from(s, i + 1, lvl)
        }
    }
}

/// `purify$`: `s` without the non-alphanumeric characters, with white space
/// and `~`/`-` turned into spaces, and special characters reduced to the
/// letters of their control sequence (for the known ones) and of their text.
pub open spec fn purify_spec(s: Seq<u8>) -> Seq<u8> {
    purify_from(s, 0, 0)
}

/// A byte that `purify$` can give: a letter, a digit or a space.
pub open spec fn purified_byte(c: u8) -> bool {
    c == 32 || lex_class_spec(c) == LexType::Alpha || lex_class_spec(c) == LexType::Numeric
}

/// Every byte of `x` is one that `purify$` can give.
pub open spec fn purified_text(x: Seq<u8>) -> bool {
    forall|i: int| 0 <= i < x.len() ==> #[trigger] purified_byte(x[i])
}

proof fn lemma_purified_concat(a: Seq<u8>, b: Seq<u8>)
    requires
        purified_text(a),
        purified_text(b),
    ensures
        purified_text(a + b),
{
    assert forall|i: int| 0 <= i < (a + b).len() implies #[trigger] purified_byte((a + b)[i]) by {
        if i < a.len() {
            assert((a + b)[i] == a[i]);
        } else {
            assert((a + b)[i] == b[i - a.len()]);
        }
    }
}

proof fn lemma_purify_inner_text(s: Seq<u8>, p: int, lvl: int)
    ensures
        purified_text(purify_inner(s, p, lvl).2),
    decreases s.len() - p,
{
    if !(p < 0 || p >= s.len() || lvl <= 0 || s[p] == BACKSLASH) {
        let c = s[p];
        let cl = lex_class_spec(c);
        let l = if cl == LexType::Alpha || cl == LexType::Numeric {
            lvl
        } else if c == RIGHT_BRACE {
            lvl - 1
        } else if c == LEFT_BRACE {
            lvl + 1
        } else {
            lvl
        };
        lemma_purify_inner_text(s, p + 1, l);
        let o = if cl == LexType::Alpha || cl == LexType::Numeric { seq![c] } else { Seq::<u8>::empty() };
        assert(purified_text(o));
        lemma_purified_concat(o, purify_inner(s, p + 1, l).2);
    } else {
        assert(purify_inner(s, p, lvl).2 =~= Seq::<u8>::empty());
    }
}

proof fn lemma_purify_cs_text(s: Seq<u8>, y: int, e: int)
    requires
        0 <= y <= e <= s.len(),
        forall|k: int| y <= k < e ==> lex_class_spec(#[trigger] s[k]) == LexType::Alpha,
    ensures
        purified_text(purify_cs(s, y, e)),
{
    let name = s.subrange(y, e);
    if control_seq_spec(name) is Some {
        assert(name.len() >= 1);
        assert(name[0] == s[y]);
        assert(lex_class_spec(s[y]) == LexType::Alpha);
        if name.len() == 2 {
            assert(lex_class_spec(s[y + 1]) == LexType::Alpha);
        }
    }
}

proof fn lemma_purify_special_text(s: Seq<u8>, p: int, lvl: int)
    requires
        0 <= p,
        0 <= lvl,
    ensures
        purified_text(purify_special(s, p, lvl).2),
    decreases s.len() - p,
{
    if p < s.len() && lvl > 0 {
        let y = p + 1;
        lemma_alpha_end(s, y);
        let e = alpha_end(s, y);
        lemma_alpha_run(s, y);
        lemma_purify_cs_text(s, y, e);
        lemma_purify_inner(s, e, lvl);
        let r1 = purify_inner(s, e, lvl);
        lemma_purify_inner_text(s, e, lvl);
        lemma_purify_special_text(s, r1.0, r1.1);
        lemma_purified_concat(purify_cs(s, y, e), r1.2);
        lemma_purified_concat(purify_cs(s, y, e) + r1.2, purify_special(s, r1.0, r1.1).2);
    } else {
        assert(purify_special(s, p, lvl).2 =~= Seq::<u8>::empty());
    }
}

proof fn lemma_alpha_run(s: Seq<u8>, p: int)
    requires
        0 <= p,
    ensures
        forall|k: int| p <= k < alpha_end(s, p) ==> lex_class_spec(#[trigger] s[k]) == LexType::Alpha,
    decreases s.len() - p,
{
    if 0 <= p < s.len() && lex_class_spec(s[p]) == LexType::Alpha {
        lemma_alpha_run(s, p + 1);
    }
}

proof fn lemma_purify_from_text(s: Seq<u8>, i: int, lvl: int)
    requires
        0 <= i,
    ensures
        purified_text(purify_from(s, i, lvl)),
    decreases s.len() - i,
{
    if i < s.len() && lvl >= 0 {
        let c = s[i];
        let cl = lex_class_spec(c);
        if cl == LexType::WhiteSpace || cl == LexType::SepChar {
            lemma_purify_from_text(s, i + 1, lvl);
            lemma_purified_concat(seq![32u8], purify_from(s, i + 1, lvl));
        } else if cl == LexType::Alpha || cl == LexType::Numeric {
            lemma_purify_from_text(s, i + 1, lvl);
            lemma_purified_concat(seq![c], purify_from(s, i + 1, lvl));
        } else if c == LEFT_BRACE {
            if lvl + 1 == 1 && i + 1 < s.len() && s[i + 1] == BACKSLASH {
                lemma_purify_special(s, i + 1, lvl + 1);
                let r = purify_special(s, i + 1, lvl + 1);
                lemma_purify_special_text(s, i + 1, lvl + 1);
                let nx = if r.0 > i + 1 { r.0 } else { i + 2 };
                lemma_purify_from_text(s, nx, r.1);
                lemma_purified_concat(r.2, purify_from(s, nx, r.1));
            } else {
                lemma_purify_from_text(s, i + 1, lvl + 1);
            }
        } else if c == RIGHT_BRACE {
            lemma_purify_from_text(s, i + 1, if lvl > 0 { lvl - 1 } else { lvl });
        } else {
            lemma_purify_from_text(s, i + 1, lvl);
        }
    } else {
        assert(purify_from(s, i, lvl) =~= Seq::<u8>::empty());
    }
}

/// `purify$` gives only letters, digits and spaces: of a special
/// character it keeps the letters of its control sequence (for the known
/// ones) and the letters and digits of its text.
pub proof fn law_purify_gives_letters_digits_spaces(s: Seq<u8>)
    ensures
        purified_text(purify_spec(s)),
{
    lemma_purify_from_text(s, 0, 0);
}

/// What `purify$` makes of one character outside special characters: a
/// space for white space, `~` and `-`, the character itself for letters and
/// digits, and nothing for the rest.
pub open spec fn purified_char(c: u8) -> Seq<u8> {
    let cl = lex_class_spec(c);
    if cl == LexType::WhiteSpace || cl == LexType::SepChar {
        seq![32u8]
    } else if cl == LexType::Alpha || cl == LexType::Numeric {
        seq![c]
    } else {
        Seq::empty()
    }
}

/// Each character of `s` purified on its own, in order.
pub open spec fn purify_chars(s: Seq<u8>) -> Seq<u8>
    decreases s.len(),
{
    if s.len() == 0 {
        Seq::empty()
    } else {
        purified_char(s[0]) + purify_chars(s.drop_first())
    }
}

proof fn lemma_purify_plain_from(s: Seq<u8>, i: int, lvl: int)
    requires
        0 <= i <= s.len(),
        0 <= lvl,
        forall|k: int| 0 <= k < s.len() ==> s[k] != LEFT_BRACE,
    ensures
        purify_from(s, i, lvl) == purify_chars(s.subrange(i, s.len() as int)),
    decreases s.len() - i,
{
    if i < s.len() {
        let c = s[i];
        let nl = if c == RIGHT_BRACE && lvl > 0 { lvl - 1 } else { lvl };
        lemma_purify_plain_from(s, i + 1, nl);
        assert(s.subrange(i, s.len() as int).drop_first() =~= s.subrange(i + 1, s.len() as int));
        assert(s.subrange(i, s.len() as int)[0] == c);
    } else {
        assert(s.subrange(i, s.len() as int) =~= Seq::<u8>::empty());
    }
}

/// Text without special characters (no left brace at all) is purified
/// character by character: right braces and other non-alphanumeric
/// characters go, white space, `~` and `-` become spaces.
pub proof fn law_purify_plain_text(s: Seq<u8>)
    requires
        forall|k: int| 0 <= k < s.len() ==> s[k] != LEFT_BRACE,
    ensures
        purify_spec(s) == purify_chars(s),
{
    lemma_purify_plain_from(s, 0, 0);
    assert(s.subrange(0, s.len() as int) =~= s);
}

proof fn lemma_purify_run(s: Seq<u8>, i: int, e: int, lvl: int)
    requires
        0 <= i <= e <= s.len(),
        0 <= lvl,
        forall|k: int| i <= k < e ==> #[trigger] s[k] != LEFT_BRACE && s[k] != RIGHT_BRACE,
    ensures
        purify_from(s, i, lvl) == purify_chars(s.subrange(i, e)) + purify_from(s, e, lvl),
    decreases e - i,
{
    if i < e {
        lemma_purify_run(s, i + 1, e, lvl);
        assert(s.subrange(i, e).drop_first() =~= s.subrange(i + 1, e));
        assert(s.subrange(i, e)[0] == s[i]);
        assert(purified_char(s[i]) + (purify_chars(s.subrange(i + 1, e)) + purify_from(s, e, lvl)) =~= (purified_char(s[i])
            + purify_chars(s.subrange(i + 1, e))) + purify_from(s, e, lvl));
    } else {
        assert(s.subrange(i, e) =~= Seq::<u8>::empty());
        assert(Seq::<u8>::empty() + purify_from(s, e, lvl) =~= purify_from(s, e, lvl));
    }
}

/// Braces that only group text (not a special character: the group does
/// not start with a backslash) do not change what `purify$` gives: the
/// letters and digits inside the group are kept, only the braces go.
pub proof fn law_purify_ignores_plain_groups(x: Seq<u8>, t: Seq<u8>, y: Seq<u8>)
    requires
        forall|k: int| 0 <= k < x.len() ==> #[trigger] x[k] != LEFT_BRACE && x[k] != RIGHT_BRACE,
        forall|k: int| 0 <= k < t.len() ==> #[trigger] t[k] != LEFT_BRACE && t[k] != RIGHT_BRACE,
        forall|k: int| 0 <= k < y.len() ==> #[trigger] y[k] != LEFT_BRACE && y[k] != RIGHT_BRACE,
        t.len() > 0 ==> t[0] != BACKSLASH,
    ensures
        purify_spec(x + seq![LEFT_BRACE] + t + seq![RIGHT_BRACE] + y) == purify_spec(x + t + y),
        purify_spec(x + t + y) == purify_chars(x) + purify_chars(t) + purify_chars(y),
{
    let s1 = x + seq![LEFT_BRACE] + t + seq![RIGHT_BRACE] + y;
    let s2 = x + t + y;
    let a = x.len() as int;
    let b = t.len() as int;
    let c = y.len() as int;
    // the braced string
    assert forall|k: int| 0 <= k < a implies #[trigger] s1[k] != LEFT_BRACE && s1[k] != RIGHT_BRACE by {
        assert(s1[k] == x[k]);
    }
    assert forall|k: int| a + 1 <= k < a + 1 + b implies #[trigger] s1[k] != LEFT_BRACE && s1[k] != RIGHT_BRACE by {
        assert(s1[k] == t[k - a - 1]);
    }
    assert forall|k: int| a + b + 2 <= k < a + b + 2 + c implies #[trigger] s1[k] != LEFT_BRACE && s1[k] != RIGHT_BRACE by {
        assert(s1[k] == y[k - a - b - 2]);
    }
    assert(s1.len() == a + b + 2 + c);
    lemma_purify_run(s1, 0, a, 0);
    lemma_purify_run(s1, a + 1, a + 1 + b, 1);
    lemma_purify_run(s1, a + b + 2, a + b + 2 + c, 0);
    assert(s1.subrange(0, a) =~= x);
    assert(s1.subrange(a + 1, a + 1 + b) =~= t);
    assert(s1.subrange(a + b + 2, a + b + 2 + c) =~= y);
    assert(s1[a] == LEFT_BRACE);
    assert(s1[a + 1 + b] == RIGHT_BRACE);
    if b > 0 {
        assert(s1[a + 1] == t[0]);
    }
    assert(s1[a + 1] != BACKSLASH);
    assert(purify_from(s1, a, 0) == purify_from(s1, a + 1, 1));
    assert(purify_from(s1, a + 1 + b, 1) == purify_from(s1, a + b + 2, 0));
    assert(purify_from(s1, a + b + 2 + c, 0) == Seq::<u8>::empty());
    // the plain string
    assert forall|k: int| 0 <= k < a + b + c implies #[trigger] s2[k] != LEFT_BRACE && s2[k] != RIGHT_BRACE by {
        if k < a {
            assert(s2[k] == x[k]);
        } else if k < a + b {
            assert(s2[k] == t[k - a]);
        } else {
            assert(s2[k] == y[k - a - b]);
        }
    }
    lemma_purify_run(s2, 0, a, 0);
    lemma_purify_run(s2, a, a + b, 0);
    lemma_purify_run(s2, a + b, a + b + c, 0);
    assert(s2.subrange(0, a) =~= x);
    assert(s2.subrange(a, a + b) =~= t);
    assert(s2.subrange(a + b, a + b + c) =~= y);
    assert(purify_from(s2, a + b + c, 0) == Seq::<u8>::empty());
    assert(purify_chars(x) + (purify_chars(t) + (purify_chars(y) + Seq::<u8>::empty())) =~= purify_chars(x) + purify_chars(t)
        + purify_chars(y));
}

/// `purify$`.
pub fn purify(s: &Vec<u8>) -> (r: Vec<u8>)
    ensures
        r@ == purify_spec(s@),
{
    proof {
        lemma_vec_len(s);
    }
    let mut out: Vec<u8> = Vec::new();
    let mut i: usize = 0;
    let mut lvl: usize = 0;
    while i < s.len()
        invariant
            i <= s@.len(),
            s@.len() <= usize::MAX,
            lvl <= i,
            out@ + purify_from(s@, i as int, lvl as int) == purify_spec(s@),
        decreases s@.len() - i,
    {
        let ghost o0 = out@;
        let c = s[i];
        let cl = lex_class(c);
        if cl == LexType::WhiteSpace || cl == LexType::SepChar {
            out.push(32);
            i = i + 1;
            proof {
                assert(o0 + purify_from(s@, i - 1, lvl as int) =~= out@ + purify_from(s@, i as int, lvl as int));
            }
        } else if cl == LexType::Alpha || cl == LexType::Numeric {
            out.push(c);
            i = i + 1;
            proof {
                assert(o0 + purify_from(s@, i - 1, lvl as int) =~= out@ + purify_from(s@, i as int, lvl as int));
            }
        } else if c == LEFT_BRACE {
            if lvl == 0 && i + 1 < s.len() && s[i + 1] == BACKSLASH {
                let ghost r = purify_special(s@, i + 1, 1);
                proof {
                    lemma_purify_special(s@, i + 1, 1);
                }
                let (p, l) = purify_special_exec(s, i + 1, 1, &mut out);
                proof {
                    assert(o0 + purify_from(s@, i as int, 0) =~= out@ + purify_from(s@, if r.0 > i + 1 { r.0 } else { i + 2 }, r.1));
                }
                i = if p > i + 1 { p } else { i + 2 };
                lvl = l;
            } else {
                lvl = lvl + 1;
                i = i + 1;
            }
        } else if c == RIGHT_BRACE {
            if lvl > 0 {
                lvl = lvl - 1;
            }
            i = i + 1;
        } else {
            i = i + 1;
        }
    }
    proof {
        assert(out@ + purify_from(s@, i as int, lvl as int) =~= out@);
    }
    out
}

fn purify_special_exec(s: &Vec<u8>, p: usize, lvl: usize, out: &mut Vec<u8>) -> (r: (usize, usize))
    requires
        p <= s@.len(),
        lvl <= p,
        s@.len() <= usize::MAX,
    ensures
        r.0 == purify_special(s@, p as int, lvl as int).0,
        r.1 == purify_special(s@, p as int, lvl as int).1,
        final(out)@ == old(out)@ + purify_special(s@, p as int, lvl as int).2,
        p <= r.0 <= s@.len(),
        r.1 <= r.0,
{
    let mut q = p;
    let mut l = lvl;
    let ghost o0 = out@;
    while q < s.len() && l > 0
        invariant
            p <= q <= s@.len(),
            s@.len() <= usize::MAX,
            l <= q,
            purify_special(s@, p as int, lvl as int).0 == purify_special(s@, q as int, l as int).0,
            purify_special(s@, p as int, lvl as int).1 == purify_special(s@, q as int, l as int).1,
            o0 + purify_special(s@, p as int, lvl as int).2 == out@ + purify_special(s@, q as int, l as int).2,
        decreases s@.len() - q,
    {
        let ghost o1 = out@;
        let ghost q0 = q as int;
        let ghost l0 = l as int;
        let y = q + 1;
        let e = alpha_end_exec(s, if y <= s.len() { y } else { s.len() });
        proof {
            lemma_alpha_end(s@, y as int);
        }
        match control_seq(s, y, e) {
            Some(code) => {
                out.push(s[y]);
                if code == 2 || code == 3 || code == 4 || code == 5 || code == 12 {
                    out.push(s[y + 1]);
                }
            },
            None => {},
        }
        proof {
            assert(out@ =~= o1 + purify_cs(s@, y as int, e as int));
        }
        let mut k = e;
        let ghost o2 = out@;
        proof {
            lemma_purify_inner(s@, e as int, l as int);
        }
        while k < s.len() && l > 0 && s[k] != BACKSLASH
            invariant
                e <= k <= s@.len(),
                s@.len() <= usize::MAX,
                l <= k,
                purify_inner(s@, e as int, l0) == {
                    let r = purify_inner(s@, k as int, l as int);
                    (r.0, r.1, out@.subrange(o2.len() as int, out@.len() as int) + r.2)
                },
                out@.subrange(0, o2.len() as int) == o2,
                o2.len() <= out@.len(),
            decreases s@.len() - k,
        {
            let c = s[k];
            let cl = lex_class(c);
            let ghost o3 = out@;
            if cl == LexType::Alpha || cl == LexType::Numeric {
                out.push(c);
            } else if c == RIGHT_BRACE {
                l = l - 1;
            } else if c == LEFT_BRACE {
                l = l + 1;
            }
            proof {
                assert(out@.subrange(0, o2.len() as int) =~= o2);
                assert(out@.subrange(o2.len() as int, out@.len() as int) =~= o3.subrange(o2.len() as int, o3.len() as int) + (if cl == LexType::Alpha || cl == LexType::Numeric { seq![c] } else { Seq::empty() }));
            }
            k = k + 1;
        }
        proof {
            assert(out@ =~= o2 + purify_inner(s@, e as int, l0).2);
            assert(o1 + purify_special(s@, q0, l0).2 =~= out@ + purify_special(s@, k as int, l as int).2);
        }
        q = k;
    }
    (q, l)
}

/// Skips white space from `p`.
pub open spec fn white_end(s: Seq<u8>, p: int) -> int
    decreases s.len() - p,
{
    if p < 0 || p >= s.len() || !is_white(s[p]) {
        p
    } else {
        white_end(s, p + 1)
    }
}

pub proof fn lemma_white_end(s: Seq<u8>, p: int)
    requires
        0 <= p,
    ensures
        p <= white_end(s, p),
        white_end(s, p) <= if p > s.len() { p } else { s.len() as int },
    decreases s.len() - p,
{
    if p < s.len() && is_white(s[p]) {
        lemma_white_end(s, p + 1);
    }
}

fn white_end_exec(s: &Vec<u8>, p: usize) -> (r: usize)
    requires
        p <= s@.len(),
    ensures
        r == white_end(s@, p as int),
        p <= r <= s@.len(),
{
    let mut q = p;
    while q < s.len() && lex_class(s[q]) == LexType::WhiteSpace
        invariant
            p <= q <= s@.len(),
            white_end(s@, p as int) == white_end(s@, q as int),
        decreases s@.len() - q,
    {
        q = q + 1;
    }
    q
}

/// The width that `width$` gives a known control sequence `s[y..e]`: fixed
/// widths for `\ss`, `\ae`, `\oe`, `\AE` and `\OE`, else the width of its
/// first letter; unknown ones have no width.
pub open spec fn width_cs(s: Seq<u8>, y: int, e: int) -> int {
    match control_seq_spec(s.subrange(y, e)) {
        Some(code) => if code == 12 {
            500
        } else if code == 4 {
            722
        } else if code == 2 {
            778
        } else if code == 5 {
            903
        } else if code == 3 {
            1014
        } else {
            char_width_spec(s[y])
        },
        None => 0,
    }
}

/// The rest of a special character after its control sequence, for
/// `width$`: the widths of the bytes up to the next backslash or the end of
/// the group.
pub open spec fn width_inner(s: Seq<u8>, p: int, lvl: int) -> (int, int, int)
    decreases s.len() - p,
{
    if p < 0 || p >= s.len() || lvl <= 0 || s[p] == BACKSLASH {
        (p, lvl, 0)
    } else {
        let c = s[p];
        let (w, l) = if c == RIGHT_BRACE {
            (0, lvl - 1)
        } else if c == LEFT_BRACE {
            (0, lvl + 1)
        } else {
            (char_width_spec(c), lvl)
        };
        let r = width_inner(s, p + 1, l);
        (r.0, r.1, w + r.2)
    }
}

pub proof fn lemma_width_inner(s: Seq<u8>, p: int, lvl: int)
    requires
        0 <= p,
        0 <= lvl,
    ensures
        p <= width_inner(s, p, lvl).0,
        width_inner(s, p, lvl).0 <= if p > s.len() { p } else { s.len() as int },
        0 <= width_inner(s, p, lvl).1,
        0 <= width_inner(s, p, lvl).2 <= 1028 * (width_inner(s, p, lvl).0 - p),
    decreases s.len() - p,
{
    if p < s.len() && lvl > 0 && s[p] != BACKSLASH {
        let c = s[p];
        if c == RIGHT_BRACE {
            lemma_width_inner(s, p + 1, lvl - 1);
        } else if c == LEFT_BRACE {
            lemma_width_inner(s, p + 1, lvl + 1);
        } else {
            lemma_width_inner(s, p + 1, lvl);
        }
    }
}

/// One control sequence of a special character, for `width$`, from the
/// backslash at `p`: a control sequence that is not a word (such as `\"`)
/// is passed over; white space after the name is skipped.
pub open spec fn width_cs_step(s: Seq<u8>, p: int, lvl: int) -> (int, int, int) {
    let y = p + 1;
    let e = alpha_end(s, y);
    let (q, w) = if e < s.len() && e == y {
        (e + 1, 0)
    } else {
        (e, width_cs(s, y, e))
    };
    let q2 = white_end(s, q);
    let r = width_inner(s, q2, lvl);
    (r.0, r.1, w + r.2)
}

pub proof fn lemma_width_cs_step(s: Seq<u8>, p: int, lvl: int)
    requires
        0 <= p < s.len(),
        0 <= lvl,
    ensures
        p < width_cs_step(s, p, lvl).0 <= s.len(),
        0 <= width_cs_step(s, p, lvl).1,
        0 <= width_cs_step(s, p, lvl).2 <= 1028 * (width_cs_step(s, p, lvl).0 - p),
{
    let y = p + 1;
    lemma_alpha_end(s, y);
    let e = alpha_end(s, y);
    let q = if e < s.len() && e == y { e + 1 } else { e };
    lemma_white_end(s, q);
    let q2 = white_end(s, q);
    lemma_width_inner(s, q2, lvl);
    let w = if e < s.len() && e == y { 0 } else { width_cs(s, y, e) };
    assert(0 <= w <= 1014);
    assert(w <= 1028 * (q2 - p)) by (nonlinear_arith)
        requires
            w <= 1014,
            q2 >= p + 1,
    ;
}

/// A special character for `width$`, from position `p` at depth `lvl`.
pub open spec fn width_special(s: Seq<u8>, p: int, lvl: int) -> (int, int, int)
    decreases s.len() - p,
{
    if p < 0 || p >= s.len() || lvl <= 0 {
        (p, lvl, 0)
    } else {
        proof {
            lemma_width_cs_step(s, p, lvl);
        }
        let r1 = width_cs_step(s, p, lvl);
        let r2 = width_special(s, r1.0, r1.1);
        (r2.0, r2.1, r1.2 + r2.2)
    }
}

pub proof fn lemma_width_special(s: Seq<u8>, p: int, lvl: int)
    requires
        0 <= p,
        0 <= lvl,
    ensures
        p <= width_special(s, p, lvl).0,
        width_special(s, p, lvl).0 <= if p > s.len() { p } else { s.len() as int },
        0 <= width_special(s, p, lvl).1,
        0 <= width_special(s, p, lvl).2 <= 1028 * (width_special(s, p, lvl).0 - p),
    decreases s.len() - p,
{
    if p < s.len() && lvl > 0 {
        lemma_width_cs_step(s, p, lvl);
        let r1 = width_cs_step(s, p, lvl);
        lemma_width_special(s, r1.0, r1.1);
    }
}

/// `width$` from position `i` at depth `lvl`.
pub open spec fn width_from(s: Seq<u8>, i: int, lvl: int) -> int
    decreases s.len() - i,
{
    if i < 0 || i >= s.len() || lvl < 0 {
        0
    } else {
        let c = s[i];
        if c == LEFT_BRACE {
            if lvl + 1 == 1 && i + 1 < s.len() && s[i + 1] == BACKSLASH {
                proof {
                    lemma_width_special(s, i + 1, lvl + 1);
                }
                let r = width_special(s, i + 1, lvl + 1);
                r.2 + width_from(s, if r.0 > i + 1 { r.0 } else { i + 2 }, r.1)
            } else {
                char_width_spec(LEFT_BRACE) + width_from(s, i + 1, lvl + 1)
            }
        } else if c == RIGHT_BRACE {
            char_width_spec(RIGHT_BRACE) + width_from(s, i + 1, if lvl > 0 { lvl - 1 } else { lvl })
        } else {
            char_width_spec(c) + width_from(s, i + 1, lvl)
        }
    }
}

/// `width$`: the width of `s` in hundredths of a point, after the fonts of
/// plain TeX.
pub open spec fn width_spec(s: Seq<u8>) -> int {
    width_from(s, 0, 0)
}

pub proof fn lemma_width_from(s: Seq<u8>, i: int, lvl: int)
    requires
        0 <= i,
        0 <= lvl,
    ensures
        0 <= width_from(s, i, lvl) <= 1028 * (if i < s.len() { s.len() - i } else { 0 }),
    decreases s.len() - i,
{
    if i < s.len() {
        let c = s[i];
        if c == LEFT_BRACE && lvl + 1 == 1 && i + 1 < s.len() && s[i + 1] == BACKSLASH {
            lemma_width_special(s, i + 1, lvl + 1);
            let r = width_special(s, i + 1, lvl + 1);
            let nx = if r.0 > i + 1 { r.0 } else { i + 2 };
            lemma_width_from(s, nx, r.1);
            assert(1028 * (r.0 - (i + 1)) + 1028 * (if nx < s.len() { s.len() - nx } else { 0 }) <= 1028 * (s.len() - i)) by (nonlinear_arith)
                requires
                    r.0 <= s.len(),
                    nx >= r.0,
                    nx >= i + 2,
            ;
        } else if c == LEFT_BRACE {
            lemma_width_from(s, i + 1, lvl + 1);
        } else if c == RIGHT_BRACE {
            lemma_width_from(s, i + 1, if lvl > 0 { lvl - 1 } else { lvl });
        } else {
            lemma_width_from(s, i + 1, lvl);
        }
    }
}

/// The widths of the characters of `s`, added up.
pub open spec fn width_sum(s: Seq<u8>) -> int
    decreases s.len(),
{
    if s.len() == 0 {
        0
    } else {
        char_width_spec(s[0]) + width_sum(s.drop_first())
    }
}

proof fn lemma_width_plain_from(s: Seq<u8>, i: int, lvl: int)
    requires
        0 <= i <= s.len(),
        0 <= lvl,
        forall|k: int| 0 <= k < s.len() ==> s[k] != LEFT_BRACE,
    ensures
        width_from(s, i, lvl) == width_sum(s.subrange(i, s.len() as int)),
    decreases s.len() - i,
{
    if i < s.len() {
        let c = s[i];
        let nl = if c == RIGHT_BRACE && lvl > 0 { lvl - 1 } else { lvl };
        lemma_width_plain_from(s, i + 1, nl);
        assert(s.subrange(i, s.len() as int).drop_first() =~= s.subrange(i + 1, s.len() as int));
        assert(s.subrange(i, s.len() as int)[0] == c);
    } else {
        assert(s.subrange(i, s.len() as int) =~= Seq::<u8>::empty());
    }
}

/// The width of text without special characters (no left brace at all) is
/// the sum of the widths of its characters.
pub proof fn law_width_plain_text(s: Seq<u8>)
    requires
        forall|k: int| 0 <= k < s.len() ==> s[k] != LEFT_BRACE,
    ensures
        width_spec(s) == width_sum(s),
{
    lemma_width_plain_from(s, 0, 0);
    assert(s.subrange(0, s.len() as int) =~= s);
}

/// The letters and digits of `t`, in order.
pub open spec fn alnum_chars(t: Seq<u8>) -> Seq<u8>
    decreases t.len(),
{
    if t.len() == 0 {
        Seq::empty()
    } else {
        let c = t[0];
        (if lex_class_spec(c) == LexType::Alpha || lex_class_spec(c) == LexType::Numeric {
            seq![c]
        } else {
            Seq::<u8>::empty()
        }) + alnum_chars(t.drop_first())
    }
}

proof fn lemma_purify_inner_plain(s: Seq<u8>, p: int, e: int)
    requires
        0 <= p <= e < s.len(),
        s[e] == RIGHT_BRACE,
        forall|k: int| p <= k < e ==> #[trigger] s[k] != LEFT_BRACE && s[k] != RIGHT_BRACE && s[k] != BACKSLASH,
    ensures
        purify_inner(s, p, 1) == (e + 1, 0int, alnum_chars(s.subrange(p, e))),
    decreases e - p,
{
    if p < e {
        lemma_purify_inner_plain(s, p + 1, e);
        assert(s.subrange(p, e).drop_first() =~= s.subrange(p + 1, e));
        assert(s.subrange(p, e)[0] == s[p]);
    } else {
        assert(s.subrange(p, e) =~= Seq::<u8>::empty());
        assert(purify_inner(s, e + 1, 0) == (e + 1, 0int, Seq::<u8>::empty()));
        assert(purify_inner(s, e, 1) == (e + 1, 0int, Seq::<u8>::empty() + Seq::<u8>::empty()));
        assert(Seq::<u8>::empty() + Seq::<u8>::empty() =~= Seq::<u8>::empty());
    }
}

/// A special character at the top of a string (`{\name text}`, where the
/// text starts with no letter and holds no braces or backslash) purifies to
/// what `purify$` keeps of its control sequence (see `purify_cs`: its
/// letters for the known ones, nothing for the others) and the letters and
/// digits of its text.
pub proof fn law_purify_special_char(name: Seq<u8>, t: Seq<u8>)
    requires
        name.len() >= 1,
        forall|k: int| 0 <= k < name.len() ==> lex_class_spec(#[trigger] name[k]) == LexType::Alpha,
        forall|k: int| 0 <= k < t.len() ==> #[trigger] t[k] != LEFT_BRACE && t[k] != RIGHT_BRACE && t[k] != BACKSLASH,
        t.len() > 0 ==> lex_class_spec(t[0]) != LexType::Alpha,
    ensures
        purify_spec(seq![LEFT_BRACE, BACKSLASH] + name + t + seq![RIGHT_BRACE]) == purify_cs(name, 0, name.len() as int)
            + alnum_chars(t),
{
    let s = seq![LEFT_BRACE, BACKSLASH] + name + t + seq![RIGHT_BRACE];
    let e: int = 2 + name.len() as int;
    let end: int = e + t.len() as int;
    assert(s.len() == end + 1);
    assert forall|k: int| 2 <= k < e implies lex_class_spec(#[trigger] s[k]) == LexType::Alpha by {
        assert(s[k] == name[k - 2]);
    }
    assert(s[end] == RIGHT_BRACE);
    assert(lex_class_spec(RIGHT_BRACE) != LexType::Alpha);
    if t.len() > 0 {
        assert(s[e] == t[0]);
    }
    lemma_alpha_end_name(s, 2, e);
    assert(s.subrange(2, e) =~= name);
    assert(name.subrange(0, name.len() as int) =~= name);
    assert(s[2] == name[0]);
    if name.len() >= 2 {
        assert(s[3] == name[1]);
    }
    assert(purify_cs(s, 2, e) == purify_cs(name, 0, name.len() as int));
    assert forall|k: int| e <= k < end implies #[trigger] s[k] != LEFT_BRACE && s[k] != RIGHT_BRACE && s[k] != BACKSLASH by {
        assert(s[k] == t[k - e]);
    }
    lemma_purify_inner_plain(s, e, end);
    assert(s.subrange(e, end) =~= t);
    assert(purify_special(s, end + 1, 0) == (end + 1, 0int, Seq::<u8>::empty()));
    let cs = purify_cs(s, 2, e);
    assert(purify_special(s, 1, 1) == (end + 1, 0int, cs + alnum_chars(t) + Seq::<u8>::empty()));
    assert(s[0] == LEFT_BRACE && s[1] == BACKSLASH);
    assert(purify_from(s, s.len() as int, 0) == Seq::<u8>::empty());
    assert(cs + alnum_chars(t) + Seq::<u8>::empty() + Seq::<u8>::empty() =~= cs + alnum_chars(t));
}

proof fn lemma_alpha_end_name(s: Seq<u8>, p: int, e: int)
    requires
        0 <= p <= e < s.len(),
        forall|k: int| p <= k < e ==> lex_class_spec(#[trigger] s[k]) == LexType::Alpha,
        lex_class_spec(s[e]) != LexType::Alpha,
    ensures
        alpha_end(s, p) == e,
    decreases e - p,
{
    if p < e {
        lemma_alpha_end_name(s, p + 1, e);
    }
}

proof fn lemma_width_inner_plain(s: Seq<u8>, p: int, e: int)
    requires
        0 <= p <= e,
        e + 1 == s.len(),
        s[e] == RIGHT_BRACE,
        forall|k: int| p <= k < e ==> #[trigger] s[k] != LEFT_BRACE && s[k] != RIGHT_BRACE && s[k] != BACKSLASH,
    ensures
        width_inner(s, p, 1) == (s.len() as int, 0int, width_sum(s.subrange(p, e))),
    decreases e - p,
{
    if p < e {
        lemma_width_inner_plain(s, p + 1, e);
        assert(s.subrange(p, e).drop_first() =~= s.subrange(p + 1, e));
    } else {
        assert(s.subrange(p, e) =~= Seq::<u8>::empty());
        assert(width_inner(s, e + 1, 0) == (e + 1, 0int, 0int));
    }
}

/// A special character at the top of a string (`{\name text}`, where the
/// text starts with neither a letter nor white space and holds no braces
/// or backslash) is as wide as its control sequence and its text: the
/// width of `name` as `width$` gives it (see `width_cs`) plus the widths of
/// the characters of the text.
pub proof fn law_width_special_char(name: Seq<u8>, t: Seq<u8>)
    requires
        name.len() >= 1,
        forall|k: int| 0 <= k < name.len() ==> lex_class_spec(#[trigger] name[k]) == LexType::Alpha,
        forall|k: int| 0 <= k < t.len() ==> #[trigger] t[k] != LEFT_BRACE && t[k] != RIGHT_BRACE && t[k] != BACKSLASH,
        t.len() > 0 ==> !is_white(t[0]) && lex_class_spec(t[0]) != LexType::Alpha,
    ensures
        width_spec(seq![LEFT_BRACE, BACKSLASH] + name + t + seq![RIGHT_BRACE]) == width_cs(name, 0, name.len() as int)
            + width_sum(t),
{
    let s = seq![LEFT_BRACE, BACKSLASH] + name + t + seq![RIGHT_BRACE];
    let e: int = 2 + name.len() as int;
    let end: int = e + t.len() as int;
    assert(s.len() == end + 1);
    assert forall|k: int| 2 <= k < e implies lex_class_spec(#[trigger] s[k]) == LexType::Alpha by {
        assert(s[k] == name[k - 2]);
    }
    assert(s[end] == RIGHT_BRACE);
    assert(lex_class_spec(RIGHT_BRACE) != LexType::Alpha);
    if t.len() > 0 {
        assert(s[e] == t[0]);
    }
    assert(lex_class_spec(s[e]) != LexType::Alpha);
    lemma_alpha_end_name(s, 2, e);
    assert(s.subrange(2, e) =~= name);
    assert(name.subrange(0, name.len() as int) =~= name);
    assert(s[2] == name[0]);
    assert(width_cs(s, 2, e) == width_cs(name, 0, name.len() as int));
    assert(!is_white(s[e]));
    assert(white_end(s, e) == e);
    assert forall|k: int| e <= k < end implies #[trigger] s[k] != LEFT_BRACE && s[k] != RIGHT_BRACE && s[k] != BACKSLASH by {
        assert(s[k] == t[k - e]);
    }
    lemma_width_inner_plain(s, e, end);
    assert(s.subrange(e, end) =~= t);
    assert(width_cs_step(s, 1, 1) == (s.len() as int, 0int, width_cs(name, 0, name.len() as int) + width_sum(t)));
    assert(width_special(s, s.len() as int, 0) == (s.len() as int, 0int, 0int));
    assert(width_special(s, 1, 1) == (s.len() as int, 0int, width_cs(name, 0, name.len() as int) + width_sum(t)));
    assert(s[0] == LEFT_BRACE && s[1] == BACKSLASH);
    assert(width_from(s, s.len() as int, 0) == 0);
}

/// `width$`.
pub fn width(s: &Vec<u8>) -> (r: i32)
    requires
        width_spec(s@) <= i32::MAX,
    ensures
        r == width_spec(s@),
{
    proof {
        lemma_vec_len(s);
        lemma_width_from(s@, 0, 0);
    }
    let mut w: i32 = 0;
    let mut i: usize = 0;
    let mut lvl: usize = 0;
    while i < s.len()
        invariant
            i <= s@.len(),
            width_spec(s@) <= i32::MAX,
            lvl <= i,
            0 <= w,
            w + width_from(s@, i as int, lvl as int) == width_spec(s@),
        decreases s@.len() - i,
    {
        proof {
            lemma_width_from(s@, i as int, lvl as int);
            let c = s@[i as int];
            let nl: int = if c == LEFT_BRACE { lvl + 1 } else if c == RIGHT_BRACE && lvl > 0 { lvl - 1 } else { lvl as int };
            lemma_width_from(s@, i + 1, nl);
        }
        let c = s[i];
        if c == LEFT_BRACE {
            if lvl == 0 && i + 1 < s.len() && s[i + 1] == BACKSLASH {
                proof {
                    lemma_width_special(s@, i as int + 1, 1);
                    let r = width_special(s@, i + 1, 1);
                    lemma_width_from(s@, if r.0 > i + 1 { r.0 } else { i + 2 }, r.1);
                }
                let (p, l, ww) = width_special_exec(s, i + 1, 1);
                w = w + ww;
                i = if p > i + 1 { p } else { i + 2 };
                lvl = l;
            } else {
                w = w + char_width(LEFT_BRACE);
                lvl = lvl + 1;
                i = i + 1;
            }
        } else if c == RIGHT_BRACE {
            w = w + char_width(RIGHT_BRACE);
            if lvl > 0 {
                lvl = lvl - 1;
            }
            i = i + 1;
        } else {
            w = w + char_width(c);
            i = i + 1;
        }
    }
    w
}

fn width_special_exec(s: &Vec<u8>, p: usize, lvl: usize) -> (r: (usize, usize, i32))
    requires
        p <= s@.len(),
        lvl <= p,
        width_special(s@, p as int, lvl as int).2 <= i32::MAX,
    ensures
        r.0 == width_special(s@, p as int, lvl as int).0,
        r.1 == width_special(s@, p as int, lvl as int).1,
        r.2 == width_special(s@, p as int, lvl as int).2,
        p <= r.0 <= s@.len(),
        r.1 <= r.0,
{
    proof {
        lemma_width_special(s@, p as int, lvl as int);
    }
    let mut q = p;
    let mut l = lvl;
    let mut w: i32 = 0;
    while q < s.len() && l > 0
        invariant
            p <= q <= s@.len(),
            width_special(s@, p as int, lvl as int).2 <= i32::MAX,
            l <= q,
            0 <= w,
            width_special(s@, p as int, lvl as int).0 == width_special(s@, q as int, l as int).0,
            width_special(s@, p as int, lvl as int).1 == width_special(s@, q as int, l as int).1,
            width_special(s@, p as int, lvl as int).2 == w + width_special(s@, q as int, l as int).2,
        decreases s@.len() - q,
    {
        proof {
            lemma_width_cs_step(s@, q as int, l as int);
            let st = width_cs_step(s@, q as int, l as int);
            lemma_width_special(s@, st.0, st.1);
        }
        let ghost st = width_cs_step(s@, q as int, l as int);
        let y = q + 1;
        let e = alpha_end_exec(s, y);
        let (q1, w1): (usize, i32) = if e < s.len() && e == y {
            (e + 1, 0)
        } else {
            let cw = match control_seq(s, y, e) {
                Some(code) => if code == 12 {
                    500
                } else if code == 4 {
                    722
                } else if code == 2 {
                    778
                } else if code == 5 {
                    903
                } else if code == 3 {
                    1014
                } else {
                    char_width(s[y])
                },
                None => 0,
            };
            (e, cw)
        };
        let q2 = white_end_exec(s, q1);
        let mut k = q2;
        let mut w2: i32 = 0;
        proof {
            lemma_width_inner(s@, q2 as int, l as int);
        }
        let ghost l0 = l as int;
        while k < s.len() && l > 0 && s[k] != BACKSLASH
            invariant
                q2 <= k <= s@.len(),
                width_inner(s@, q2 as int, l0).2 <= i32::MAX,
                l <= k,
                0 <= w2,
                width_inner(s@, q2 as int, l0).0 == width_inner(s@, k as int, l as int).0,
                width_inner(s@, q2 as int, l0).1 == width_inner(s@, k as int, l as int).1,
                width_inner(s@, q2 as int, l0).2 == w2 + width_inner(s@, k as int, l as int).2,
            decreases s@.len() - k,
        {
            proof {
                let c = s@[k as int];
                let nl: int = if c == RIGHT_BRACE { l - 1 } else if c == LEFT_BRACE { l + 1 } else { l as int };
                lemma_width_inner(s@, k + 1, nl);
            }
            let c = s[k];
            if c == RIGHT_BRACE {
                l = l - 1;
            } else if c == LEFT_BRACE {
                l = l + 1;
            } else {
                w2 = w2 + char_width(c);
            }
            k = k + 1;
        }
        proof {
            assert(st == (k as int, l as int, w1 + w2));
        }
        w = w + w1 + w2;
        q = k;
    }
    (q, l, w)
}

/// The position where `name_scan_for_and` stops scanning from `p` (with
/// `pw` telling whether the previous byte was white space, and `lvl` the
/// brace depth): after an "and" between white space at depth 0, or at the
/// end.
pub open spec fn and_scan(s: Seq<u8>, p: int, lvl: int, pw: bool) -> int
    decreases s.len() - p,
{
    if p < 0 || p >= s.len() || lvl < 0 {
        p
    } else {
        let c = s[p];
        if c == 97 || c == 65 {
            let q = p + 1;
            if pw && q <= s.len() - 3 && (s[q] == 110 || s[q] == 78) && (s[q + 1] == 100 || s[q + 1]
                == 68) && is_white(s[q + 2]) {
                q + 2
            } else {
                and_scan(s, q, lvl, false)
            }
        } else if c == LEFT_BRACE {
            proof {
                lemma_skip_group(s, p + 1, lvl + 1);
            }
            let r = skip_group(s, p + 1, lvl + 1);
            and_scan(s, r.0, r.1, false)
        } else if c == RIGHT_BRACE {
            and_scan(s, p + 1, if lvl > 0 { lvl - 1 } else { lvl }, false)
        } else {
            and_scan(s, p + 1, lvl, is_white(c))
        }
    }
}

/// The brace depth where `and_scan` stops.
pub open spec fn and_scan_level(s: Seq<u8>, p: int, lvl: int, pw: bool) -> int
    decreases s.len() - p,
{
    if p < 0 || p >= s.len() || lvl < 0 {
        lvl
    } else {
        let c = s[p];
        if c == 97 || c == 65 {
            let q = p + 1;
            if pw && q <= s.len() - 3 && (s[q] == 110 || s[q] == 78) && (s[q + 1] == 100 || s[q + 1]
                == 68) && is_white(s[q + 2]) {
                lvl
            } else {
                and_scan_level(s, q, lvl, false)
            }
        } else if c == LEFT_BRACE {
            proof {
                lemma_skip_group(s, p + 1, lvl + 1);
            }
            let r = skip_group(s, p + 1, lvl + 1);
            and_scan_level(s, r.0, r.1, false)
        } else if c == RIGHT_BRACE {
            and_scan_level(s, p + 1, if lvl > 0 { lvl - 1 } else { lvl }, false)
        } else {
            and_scan_level(s, p + 1, lvl, is_white(c))
        }
    }
}

pub proof fn lemma_and_scan(s: Seq<u8>, p: int, lvl: int, pw: bool)
    requires
        0 <= p,
        0 <= lvl,
    ensures
        p <= and_scan(s, p, lvl, pw),
        and_scan(s, p, lvl, pw) <= if p > s.len() { p } else { s.len() as int },
        p < s.len() ==> p < and_scan(s, p, lvl, pw),
    decreases s.len() - p,
{
    if p < s.len() {
        let c = s[p];
        if c == 97 || c == 65 {
            lemma_and_scan(s, p + 1, lvl, false);
        } else if c == LEFT_BRACE {
            lemma_skip_group(s, p + 1, lvl + 1);
            let r = skip_group(s, p + 1, lvl + 1);
            lemma_and_scan(s, r.0, r.1, false);
        } else if c == RIGHT_BRACE {
            lemma_and_scan(s, p + 1, if lvl > 0 { lvl - 1 } else { lvl }, false);
        } else {
            lemma_and_scan(s, p + 1, lvl, is_white(c));
        }
    }
}

/// The number of names in `s` from position `p`.
pub open spec fn num_names_from(s: Seq<u8>, p: int) -> int
    decreases s.len() - p,
{
    if p < 0 || p >= s.len() {
        0
    } else {
        proof {
            lemma_and_scan(s, p, 0, false);
        }
        1 + num_names_from(s, and_scan(s, p, 0, false))
    }
}

/// `num.names$`: how many names `s` holds, the names being separated by the
/// word "and" (in any case) between white space, outside braces.
pub open spec fn num_names_spec(s: Seq<u8>) -> int {
    num_names_from(s, 0)
}

/// Scans from `p` past the next "and"; see `and_scan`. Returns where the
/// scan stops and the brace depth there.
pub fn name_scan_for_and(s: &Vec<u8>, p: usize) -> (r: (usize, usize))
    requires
        p <= s@.len(),
    ensures
        r.0 == and_scan(s@, p as int, 0, false),
        r.1 == and_scan_level(s@, p as int, 0, false),
        p <= r.0 <= s@.len(),
        r.1 <= r.0,
{
    proof {
        lemma_vec_len(s);
        lemma_and_scan(s@, p as int, 0, false);
    }
    let mut q = p;
    let mut lvl: usize = 0;
    let mut pw = false;
    while q < s.len()
        invariant
            p <= q <= s@.len(),
            s@.len() <= usize::MAX,
            lvl <= q,
            and_scan(s@, p as int, 0, false) == and_scan(s@, q as int, lvl as int, pw),
            and_scan_level(s@, p as int, 0, false) == and_scan_level(s@, q as int, lvl as int, pw),
        decreases s@.len() - q,
    {
        let c = s[q];
        if c == 97 || c == 65 {
            q = q + 1;
            if pw && s.len() >= 3 && q <= s.len() - 3 && (s[q] == 110 || s[q] == 78) && (s[q + 1] == 100
                || s[q + 1] == 68) && lex_class(s[q + 2]) == LexType::WhiteSpace {
                return (q + 2, lvl);
            }
            pw = false;
        } else if c == LEFT_BRACE {
            let (j, l) = skip_group_exec(s, q + 1, lvl + 1);
            q = j;
            lvl = l;
            pw = false;
        } else if c == RIGHT_BRACE {
            if lvl > 0 {
                lvl = lvl - 1;
            }
            q = q + 1;
            pw = false;
        } else {
            pw = lex_class(c) == LexType::WhiteSpace;
            q = q + 1;
        }
    }
    (q, lvl)
}

/// `num.names$`.
pub fn num_names(s: &Vec<u8>) -> (r: i32)
    requires
        s@.len() < i32::MAX,
    ensures
        r == num_names_spec(s@),
{
    let mut p: usize = 0;
    let mut n: i32 = 0;
    while p < s.len()
        invariant
            p <= s@.len(),
            s@.len() < i32::MAX,
            0 <= n <= p,
            num_names_spec(s@) == n + num_names_from(s@, p as int),
        decreases s@.len() - p,
    {
        let (q, _) = name_scan_for_and(s, p);
        proof {
            lemma_and_scan(s@, p as int, 0, false);
        }
        p = q;
        n = n + 1;
    }
    n
}

} // verus!
