//! `change.case$`: a string converted to lower case, to upper case, or to
//! the case of a title (lower case but for the first letter and the letter
//! after a colon and white space). Text in braces is left alone, except in
//! a special character (a group at depth 1 that starts with a backslash),
//! whose letters are converted and whose control sequence becomes that of
//! the other case (`\oe` and `\OE`, ...); in upper case `\i`, `\j` and
//! `\ss` become `I`, `J` and `SS`.
use vstd::prelude::*;
use crate::bibtex::lex::{lex_class, LexType, control_seq, control_seq_spec, is_white, is_letter, lower_case, upper_case};
use crate::bibtex::text::{LEFT_BRACE, RIGHT_BRACE, BACKSLASH};

verus! {

pub const COLON: u8 = 58;

/// How a string is converted.
#[derive(Clone, Copy, Debug, PartialEq, Eq, Structural)]
pub enum ConversionType {
    TitleLowers,
    AllLowers,
    AllUppers,
    BadConversion,
}

/// The conversion that the one-byte string `spec` names (`t`, `l` or `u`,
/// in either case); any other string is a bad conversion.
pub open spec fn conversion_of(spec: Seq<u8>) -> ConversionType {
    if spec.len() != 1 {
        ConversionType::BadConversion
    } else if spec[0] == 116 || spec[0] == 84 {
        ConversionType::TitleLowers
    } else if spec[0] == 108 || spec[0] == 76 {
        ConversionType::AllLowers
    } else if spec[0] == 117 || spec[0] == 85 {
        ConversionType::AllUppers
    } else {
        ConversionType::BadConversion
    }
}

pub open spec fn lower_byte(c: u8) -> u8 {
    if 65 <= c <= 90 {
        (c + 32) as u8
    } else {
        c
    }
}

pub open spec fn upper_byte(c: u8) -> u8 {
    if 97 <= c <= 122 {
        (c - 32) as u8
    } else {
        c
    }
}

/// A byte converted: title and lower case lower it, upper case raises it.
pub open spec fn conv_byte(ty: ConversionType, c: u8) -> u8 {
    match ty {
        ConversionType::TitleLowers => lower_byte(c),
        ConversionType::AllLowers => lower_byte(c),
        ConversionType::AllUppers => upper_byte(c),
        ConversionType::BadConversion => c,
    }
}

pub open spec fn conv_seq(ty: ConversionType, s: Seq<u8>) -> Seq<u8> {
    s.map_values(|c: u8| conv_byte(ty, c))
}

/// Where the run of letters from `p` ends.
pub open spec fn letters_from(s: Seq<u8>, p: int) -> int
    decreases s.len() - p,
{
    if 0 <= p < s.len() && is_letter(s[p]) {
        letters_from(s, p + 1)
    } else {
        p
    }
}

/// Where the run of white space from `p` ends.
pub open spec fn white_from(s: Seq<u8>, p: int) -> int
    decreases s.len() - p,
{
    if 0 <= p < s.len() && is_white(s[p]) {
        white_from(s, p + 1)
    } else {
        p
    }
}

/// The text of a special character from `p` at depth `lvl`, up to the next
/// backslash or the end of the group: where it stops and the depth there.
pub open spec fn special_text_end(s: Seq<u8>, p: int, lvl: int) -> (int, int)
    decreases s.len() - p,
{
    if p < 0 || p >= s.len() || lvl <= 0 || s[p] == BACKSLASH {
        (p, lvl)
    } else if s[p] == RIGHT_BRACE {
        special_text_end(s, p + 1, lvl - 1)
    } else if s[p] == LEFT_BRACE {
        special_text_end(s, p + 1, lvl + 1)
    } else {
        special_text_end(s, p + 1, lvl)
    }
}

pub proof fn lemma_runs(s: Seq<u8>, p: int, lvl: int)
    requires
        0 <= p,
    ensures
        p <= letters_from(s, p) <= if p > s.len() { p } else { s.len() as int },
        p <= white_from(s, p) <= if p > s.len() { p } else { s.len() as int },
        p <= special_text_end(s, p, lvl).0 <= if p > s.len() { p } else { s.len() as int },
        lvl > 0 ==> 0 <= special_text_end(s, p, lvl).1,
    decreases s.len() - p,
{
    if p < s.len() {
        lemma_runs(s, p + 1, lvl);
        lemma_runs(s, p + 1, lvl - 1);
        lemma_runs(s, p + 1, lvl + 1);
    }
}

/// A control word of a special character, converted: the bytes written, and
/// whether the white space after it is dropped. Lower and title case lower
/// the names of upper-case letters (`\OE`, `\AE`, `\AA`, `\O`, `\L`); upper
/// case raises those of lower-case ones (`\oe`, `\ae`, `\aa`, `\o`, `\l`)
/// and writes `\i`, `\j` and `\ss` as plain letters, without the backslash
/// and the white space after them.
pub open spec fn control_word_out(ty: ConversionType, name: Seq<u8>) -> (Seq<u8>, bool) {
    match control_seq_spec(name) {
        Some(code) => match ty {
            ConversionType::AllUppers => {
                if code == 10 || code == 8 || code == 2 || code == 4 || code == 6 {
                    (seq![BACKSLASH] + conv_seq(ty, name), false)
                } else if code == 0 || code == 1 || code == 12 {
                    (conv_seq(ty, name), true)
                } else {
                    (seq![BACKSLASH] + name, false)
                }
            },
            ConversionType::BadConversion => (seq![BACKSLASH] + name, false),
            _ => {
                if code == 11 || code == 9 || code == 3 || code == 5 || code == 7 {
                    (seq![BACKSLASH] + conv_seq(ty, name), false)
                } else {
                    (seq![BACKSLASH] + name, false)
                }
            },
        },
        None => (seq![BACKSLASH] + name, false),
    }
}

/// A special character converted, from the backslash at `p` at depth
/// `lvl`: the bytes written, where it ends, and the depth there. Each
/// control word is converted as `control_word_out` says, and the text after
/// it up to the next backslash (or the end of the group) is converted.
pub open spec fn special_char(s: Seq<u8>, ty: ConversionType, p: int, lvl: int) -> (Seq<u8>, int, int)
    decreases s.len() - p,
{
    if p < 0 || p >= s.len() || lvl <= 0 {
        (Seq::empty(), p, lvl)
    } else {
        let q = letters_from(s, p + 1);
        let w = control_word_out(ty, s.subrange(p + 1, q));
        let x = if w.1 { white_from(s, q) } else { q };
        let g = special_text_end(s, x, lvl);
        proof {
            lemma_runs(s, p + 1, lvl);
            lemma_runs(s, q, lvl);
            lemma_runs(s, x, lvl);
        }
        let rest = special_char(s, ty, g.0, g.1);
        (w.0 + conv_seq(ty, s.subrange(x, g.0)) + rest.0, rest.1, rest.2)
    }
}

pub proof fn lemma_special_char(s: Seq<u8>, ty: ConversionType, p: int, lvl: int)
    requires
        0 <= p,
        0 <= lvl,
    ensures
        p <= special_char(s, ty, p, lvl).1 <= if p > s.len() { p } else { s.len() as int },
        0 <= special_char(s, ty, p, lvl).2,
        p < s.len() && lvl > 0 ==> p < special_char(s, ty, p, lvl).1,
    decreases s.len() - p,
{
    if 0 <= p < s.len() && lvl > 0 {
        let q = letters_from(s, p + 1);
        let w = control_word_out(ty, s.subrange(p + 1, q));
        let x = if w.1 { white_from(s, q) } else { q };
        lemma_runs(s, p + 1, lvl);
        lemma_runs(s, q, lvl);
        lemma_runs(s, x, lvl);
        let g = special_text_end(s, x, lvl);
        lemma_special_char(s, ty, g.0, g.1);
    }
}

/// Converting a string: the position, the bytes written, the brace depth,
/// whether the last byte other than white space at depth 0 was a colon,
/// and whether a right brace had no left one.
pub struct CaseState {
    pub i: int,
    pub out: Seq<u8>,
    pub lvl: int,
    pub prev_colon: bool,
    pub unbalanced: bool,
}

/// Whether a title keeps the case of a letter (or special character) at
/// `i`: at the start, and after a colon and white space.
pub open spec fn title_keeps(s: Seq<u8>, i: int, prev_colon: bool) -> bool {
    i == 0 || (prev_colon && is_white(s[i - 1]))
}

/// One step of the conversion at position `st.i`.
pub open spec fn case_step(s: Seq<u8>, ty: ConversionType, st: CaseState) -> CaseState {
    let c = s[st.i];
    if c == LEFT_BRACE {
        if st.lvl == 0 && st.i + 4 <= s.len() && s[st.i + 1] == BACKSLASH && !(ty == ConversionType::TitleLowers
            && title_keeps(s, st.i, st.prev_colon)) {
            let sc = special_char(s, ty, st.i + 1, 1);
            CaseState { i: sc.1, out: st.out.push(c) + sc.0, lvl: sc.2, prev_colon: false, ..st }
        } else {
            CaseState { i: st.i + 1, out: st.out.push(c), lvl: st.lvl + 1, prev_colon: false, ..st }
        }
    } else if c == RIGHT_BRACE {
        CaseState {
            i: st.i + 1,
            out: st.out.push(c),
            lvl: if st.lvl == 0 { 0 } else { st.lvl - 1 },
            prev_colon: false,
            unbalanced: st.unbalanced || st.lvl == 0,
        }
    } else if st.lvl == 0 {
        if ty == ConversionType::TitleLowers {
            let d = if title_keeps(s, st.i, st.prev_colon) { c } else { lower_byte(c) };
            let pc = if c == COLON { true } else if !is_white(c) { false } else { st.prev_colon };
            CaseState { i: st.i + 1, out: st.out.push(d), prev_colon: pc, ..st }
        } else {
            CaseState { i: st.i + 1, out: st.out.push(conv_byte(ty, c)), ..st }
        }
    } else {
        CaseState { i: st.i + 1, out: st.out.push(c), ..st }
    }
}

pub proof fn lemma_case_step(s: Seq<u8>, ty: ConversionType, st: CaseState)
    requires
        0 <= st.i < s.len(),
        0 <= st.lvl,
    ensures
        st.i < case_step(s, ty, st).i <= s.len(),
        0 <= case_step(s, ty, st).lvl,
{
    lemma_special_char(s, ty, st.i + 1, 1);
}

/// The conversion run from `st` to the end of `s`.
pub open spec fn case_run(s: Seq<u8>, ty: ConversionType, st: CaseState) -> CaseState
    decreases s.len() - st.i,
{
    if st.i < 0 || st.i >= s.len() || st.lvl < 0 {
        st
    } else {
        proof {
            lemma_case_step(s, ty, st);
        }
        case_run(s, ty, case_step(s, ty, st))
    }
}

/// `s` converted by `ty`: the bytes, and whether its braces are unbalanced.
pub open spec fn change_case_spec(s: Seq<u8>, ty: ConversionType) -> (Seq<u8>, bool) {
    let st = case_run(s, ty, CaseState { i: 0, out: Seq::empty(), lvl: 0, prev_colon: false, unbalanced: false });
    (st.out, st.unbalanced || st.lvl > 0)
}

proof fn lemma_case_run_plain(s: Seq<u8>, ty: ConversionType, i: int, out: Seq<u8>, pc: bool)
    requires
        ty == ConversionType::AllLowers || ty == ConversionType::AllUppers,
        0 <= i <= s.len(),
        forall|k: int| 0 <= k < s.len() ==> s[k] != LEFT_BRACE && s[k] != RIGHT_BRACE,
    ensures
        case_run(s, ty, CaseState { i, out, lvl: 0, prev_colon: pc, unbalanced: false }) == (CaseState {
            i: s.len() as int,
            out: out + conv_seq(ty, s.subrange(i, s.len() as int)),
            lvl: 0,
            prev_colon: pc,
            unbalanced: false,
        }),
    decreases s.len() - i,
{
    if i < s.len() {
        let out1 = out.push(conv_byte(ty, s[i]));
        lemma_case_run_plain(s, ty, i + 1, out1, pc);
        assert(out1 + conv_seq(ty, s.subrange(i + 1, s.len() as int)) =~= out + conv_seq(ty, s.subrange(i, s.len() as int)));
    } else {
        assert(out + conv_seq(ty, s.subrange(i, s.len() as int)) =~= out);
    }
}

/// Text without braces is converted to lower or upper case byte by byte,
/// and its braces are balanced.
pub proof fn law_change_case_plain_text(s: Seq<u8>, ty: ConversionType)
    requires
        ty == ConversionType::AllLowers || ty == ConversionType::AllUppers,
        forall|k: int| 0 <= k < s.len() ==> s[k] != LEFT_BRACE && s[k] != RIGHT_BRACE,
    ensures
        change_case_spec(s, ty) == (conv_seq(ty, s), false),
{
    lemma_case_run_plain(s, ty, 0, Seq::empty(), false);
    assert(Seq::<u8>::empty() + conv_seq(ty, s.subrange(0, s.len() as int)) =~= conv_seq(ty, s));
}

proof fn lemma_letters_from_name(s: Seq<u8>, p: int, e: int)
    requires
        0 <= p <= e < s.len(),
        forall|k: int| p <= k < e ==> is_letter(#[trigger] s[k]),
        !is_letter(s[e]),
    ensures
        letters_from(s, p) == e,
    decreases e - p,
{
    if p < e {
        lemma_letters_from_name(s, p + 1, e);
    }
}

proof fn lemma_special_text_plain(s: Seq<u8>, p: int, e: int)
    requires
        0 <= p <= e,
        e + 1 == s.len(),
        s[e] == RIGHT_BRACE,
        forall|k: int| p <= k < e ==> #[trigger] s[k] != LEFT_BRACE && s[k] != RIGHT_BRACE && s[k] != BACKSLASH,
    ensures
        special_text_end(s, p, 1) == (s.len() as int, 0int),
    decreases e - p,
{
    if p < e {
        lemma_special_text_plain(s, p + 1, e);
    } else {
        assert(special_text_end(s, e + 1, 0) == (e + 1, 0int));
    }
}

/// A special character (`{\name text}`, where the text starts with
/// neither a letter nor white space and holds no braces or backslash) at
/// the start of a string converted to lower or upper case: its control
/// word is written as `control_word_out` says (the names of the special
/// letters change case, `\i`, `\j` and `\ss` lose their backslash in upper
/// case, other control words stay as they are), and its text is converted.
pub proof fn law_change_case_special_char(name: Seq<u8>, t: Seq<u8>, ty: ConversionType)
    requires
        ty == ConversionType::AllLowers || ty == ConversionType::AllUppers,
        name.len() >= 1,
        forall|k: int| 0 <= k < name.len() ==> is_letter(#[trigger] name[k]),
        forall|k: int| 0 <= k < t.len() ==> #[trigger] t[k] != LEFT_BRACE && t[k] != RIGHT_BRACE && t[k] != BACKSLASH,
        t.len() > 0 ==> !is_white(t[0]) && !is_letter(t[0]),
    ensures
        change_case_spec(seq![LEFT_BRACE, BACKSLASH] + name + t + seq![RIGHT_BRACE], ty) == (
            seq![LEFT_BRACE] + control_word_out(ty, name).0 + conv_seq(ty, t) + seq![RIGHT_BRACE],
            false,
        ),
{
    let s = seq![LEFT_BRACE, BACKSLASH] + name + t + seq![RIGHT_BRACE];
    let e: int = 2 + name.len() as int;
    let end: int = e + t.len() as int;
    assert(s.len() == end + 1);
    assert forall|k: int| 2 <= k < e implies is_letter(#[trigger] s[k]) by {
        assert(s[k] == name[k - 2]);
    }
    assert(s[end] == RIGHT_BRACE);
    if t.len() > 0 {
        assert(s[e] == t[0]);
    }
    assert(!is_letter(s[e]));
    lemma_letters_from_name(s, 2, e);
    assert(s.subrange(2, e) =~= name);
    let w = control_word_out(ty, name);
    assert(!is_white(s[e]));
    assert(white_from(s, e) == e);
    assert forall|k: int| e <= k < end implies #[trigger] s[k] != LEFT_BRACE && s[k] != RIGHT_BRACE && s[k] != BACKSLASH by {
        assert(s[k] == t[k - e]);
    }
    lemma_special_text_plain(s, e, end);
    assert(s.subrange(e, s.len() as int) =~= t + seq![RIGHT_BRACE]);
    assert(conv_seq(ty, t + seq![RIGHT_BRACE]) =~= conv_seq(ty, t) + seq![RIGHT_BRACE]);
    assert(special_char(s, ty, s.len() as int, 0).0 =~= Seq::<u8>::empty());
    let sc = special_char(s, ty, 1, 1);
    assert(sc.0 =~= w.0 + conv_seq(ty, t) + seq![RIGHT_BRACE]);
    assert(sc.1 == s.len() && sc.2 == 0);
    let st0 = CaseState { i: 0, out: Seq::empty(), lvl: 0, prev_colon: false, unbalanced: false };
    assert(s[0] == LEFT_BRACE && s[1] == BACKSLASH);
    let st1 = case_step(s, ty, st0);
    assert(st1.out =~= seq![LEFT_BRACE] + w.0 + conv_seq(ty, t) + seq![RIGHT_BRACE]);
    assert(st1.i == s.len() && st1.lvl == 0 && !st1.unbalanced);
    assert(case_run(s, ty, st1) == st1);
}

/// The conversion that `spec` names (see `conversion_of`).
pub fn conversion_type(spec: &Vec<u8>) -> (r: ConversionType)
    ensures
        r == conversion_of(spec@),
{
    if spec.len() != 1 {
        ConversionType::BadConversion
    } else if spec[0] == 116 || spec[0] == 84 {
        ConversionType::TitleLowers
    } else if spec[0] == 108 || spec[0] == 76 {
        ConversionType::AllLowers
    } else if spec[0] == 117 || spec[0] == 85 {
        ConversionType::AllUppers
    } else {
        ConversionType::BadConversion
    }
}

/// Converts the bytes of `out` from `start` on.
fn convert_tail(ty: ConversionType, out: &mut Vec<u8>, start: usize)
    requires
        start <= old(out)@.len(),
    ensures
        final(out)@ == old(out)@.take(start as int) + conv_seq(ty, old(out)@.skip(start as int)),
{
    let n = out.len();
    let ghost o = out@;
    match ty {
        ConversionType::AllUppers => {
            upper_case(out, start, n - start);
        },
        ConversionType::BadConversion => {},
        _ => {
            lower_case(out, start, n - start);
        },
    }
    proof {
        assert(out@ =~= o.take(start as int) + conv_seq(ty, o.skip(start as int))) by {
            assert forall|k: int| 0 <= k < out@.len() implies #[trigger] out@[k] == (o.take(start as int) + conv_seq(ty, o.skip(start as int)))[k] by {
                if k >= start {
                    assert(o.skip(start as int)[k - start] == o[k]);
                }
            }
        }
    }
}

/// Appends `s[a..b]` to `out`.
fn append_range(s: &Vec<u8>, a: usize, b: usize, out: &mut Vec<u8>)
    requires
        a <= b <= s@.len(),
    ensures
        final(out)@ == old(out)@ + s@.subrange(a as int, b as int),
{
    let mut j = a;
    while j < b
        invariant
            a <= j <= b <= s@.len(),
            out@ == old(out)@ + s@.subrange(a as int, j as int),
        decreases b - j,
    {
        out.push(s[j]);
        proof {
            assert(s@.subrange(a as int, j + 1) =~= s@.subrange(a as int, j as int).push(s@[j as int]));
        }
        j = j + 1;
    }
}

/// Appends `s[a..b]` converted by `ty` to `out`.
fn append_converted(ty: ConversionType, s: &Vec<u8>, a: usize, b: usize, out: &mut Vec<u8>)
    requires
        a <= b <= s@.len(),
    ensures
        final(out)@ == old(out)@ + conv_seq(ty, s@.subrange(a as int, b as int)),
{
    let start = out.len();
    let ghost o = out@;
    append_range(s, a, b, out);
    let ghost o2 = out@;
    convert_tail(ty, out, start);
    proof {
        assert(o2.take(start as int) =~= o);
        assert(o2.skip(start as int) =~= s@.subrange(a as int, b as int));
    }
}

/// Writes the control word `s[a..b]` converted (see `control_word_out`);
/// returns whether the white space after it is dropped.
fn control_word_exec(s: &Vec<u8>, ty: ConversionType, a: usize, b: usize, out: &mut Vec<u8>) -> (r: bool)
    requires
        a <= b <= s@.len(),
    ensures
        final(out)@ == old(out)@ + control_word_out(ty, s@.subrange(a as int, b as int)).0,
        r == control_word_out(ty, s@.subrange(a as int, b as int)).1,
{
    let code = control_seq(s, a, b);
    let mut backslash = true;
    let mut convert = false;
    let mut drop_white = false;
    match code {
        Some(c) => match ty {
            ConversionType::AllUppers => {
                if c == 10 || c == 8 || c == 2 || c == 4 || c == 6 {
                    convert = true;
                } else if c == 0 || c == 1 || c == 12 {
                    convert = true;
                    backslash = false;
                    drop_white = true;
                }
            },
            ConversionType::BadConversion => {},
            _ => {
                if c == 11 || c == 9 || c == 3 || c == 5 || c == 7 {
                    convert = true;
                }
            },
        },
        None => {},
    }
    let ghost o = out@;
    if backslash {
        out.push(BACKSLASH);
    }
    let ghost o1 = out@;
    if convert {
        append_converted(ty, s, a, b, out);
    } else {
        append_range(s, a, b, out);
    }
    proof {
        let w = control_word_out(ty, s@.subrange(a as int, b as int));
        if backslash {
            assert(o1 == o + seq![BACKSLASH]);
        } else {
            assert(o1 == o);
        }
        assert(out@ =~= o + w.0);
    }
    drop_white
}

/// Writes one control word of a special character, and the text after
/// it, from the backslash at `q0` at depth `lvl`; returns where the next
/// one starts and the depth there.
fn special_step(s: &Vec<u8>, ty: ConversionType, q0: usize, lvl: usize, out: &mut Vec<u8>) -> (r: (usize, usize))
    requires
        q0 < s@.len(),
        s@.len() < usize::MAX,
        0 < lvl <= q0 + 1,
    ensures
        old(out)@ + special_char(s@, ty, q0 as int, lvl as int).0 == final(out)@ + special_char(s@, ty, r.0 as int, r.1 as int).0,
        special_char(s@, ty, q0 as int, lvl as int).1 == special_char(s@, ty, r.0 as int, r.1 as int).1,
        special_char(s@, ty, q0 as int, lvl as int).2 == special_char(s@, ty, r.0 as int, r.1 as int).2,
        q0 < r.0 <= s@.len(),
        r.1 <= r.0 + 1,
{
    let n = s.len();
    let ghost st_out = out@;
    let mut q = q0 + 1;
    while q < n && is_letter_exec(s[q])
        invariant
            q0 < q <= n,
            n == s@.len(),
            letters_from(s@, q0 + 1) == letters_from(s@, q as int),
        decreases n - q,
    {
        q = q + 1;
    }
    let drop_white = control_word_exec(s, ty, q0 + 1, q, out);
    let ghost w = control_word_out(ty, s@.subrange(q0 + 1, q as int));
    let mut x = q;
    if drop_white {
        while x < n && lex_class(s[x]) == LexType::WhiteSpace
            invariant
                q <= x <= n,
                n == s@.len(),
                white_from(s@, q as int) == white_from(s@, x as int),
            decreases n - x,
        {
            x = x + 1;
        }
    }
    let mut y = x;
    let mut l = lvl;
    while y < n && l > 0 && s[y] != BACKSLASH
        invariant
            x <= y <= n,
            n == s@.len(),
            n < usize::MAX,
            l <= y + 1,
            special_text_end(s@, x as int, lvl as int) == special_text_end(s@, y as int, l as int),
        decreases n - y,
    {
        if s[y] == RIGHT_BRACE {
            l = l - 1;
        } else if s[y] == LEFT_BRACE {
            l = l + 1;
        }
        y = y + 1;
    }
    append_converted(ty, s, x, y, out);
    proof {
        lemma_runs(s@, q0 + 1, lvl as int);
        lemma_runs(s@, q as int, lvl as int);
        lemma_runs(s@, x as int, lvl as int);
        assert(out@ == st_out + w.0 + conv_seq(ty, s@.subrange(x as int, y as int)));
    }
    (y, l)
}

/// Writes the special character whose backslash is at `p` (at depth 1) to
/// `out`; returns where it ends and the depth there.
fn special_char_exec(s: &Vec<u8>, ty: ConversionType, p: usize, out: &mut Vec<u8>) -> (r: (usize, usize))
    requires
        p < s@.len(),
        s@.len() < usize::MAX,
    ensures
        final(out)@ == old(out)@ + special_char(s@, ty, p as int, 1).0,
        r.0 == special_char(s@, ty, p as int, 1).1,
        r.1 == special_char(s@, ty, p as int, 1).2,
        r.1 <= r.0 + 1,
{
    let n = s.len();
    let ghost sc0 = special_char(s@, ty, p as int, 1);
    let mut q0 = p;
    let mut lvl: usize = 1;
    proof {
        assert(old(out)@ + sc0.0 == out@ + special_char(s@, ty, q0 as int, lvl as int).0);
    }
    while q0 < n && lvl > 0
        invariant
            n == s@.len(),
            n < usize::MAX,
            q0 <= n,
            lvl <= q0 + 1,
            old(out)@ + sc0.0 == out@ + special_char(s@, ty, q0 as int, lvl as int).0,
            sc0.1 == special_char(s@, ty, q0 as int, lvl as int).1,
            sc0.2 == special_char(s@, ty, q0 as int, lvl as int).2,
        decreases n - q0,
    {
        let ghost o = out@;
        let (y, l) = special_step(s, ty, q0, lvl, out);
        proof {
            assert(old(out)@ + sc0.0 == o + special_char(s@, ty, q0 as int, lvl as int).0);
            assert(o + special_char(s@, ty, q0 as int, lvl as int).0 == out@ + special_char(s@, ty, y as int, l as int).0);
        }
        q0 = y;
        lvl = l;
    }
    proof {
        assert(special_char(s@, ty, q0 as int, lvl as int).0 =~= Seq::<u8>::empty());
        assert(out@ =~= old(out)@ + sc0.0);
    }
    (q0, lvl)
}

fn is_letter_exec(c: u8) -> (r: bool)
    ensures
        r == is_letter(c),
{
    (65 <= c && c <= 90) || (97 <= c && c <= 122)
}

/// The result of `change.case$`.
pub struct CaseChange {
    /// The converted string.
    pub text: Vec<u8>,
    /// The conversion string was none of `t`, `l` and `u` (then the string
    /// is left as it is).
    pub bad_conversion: bool,
    /// The braces of the string are unbalanced.
    pub unbalanced: bool,
}

/// `change.case$`: converts `s` as the one-byte string `spec` says (`t`
/// for a title, `l` for lower case, `u` for upper case).
pub fn change_case(s: &Vec<u8>, spec: &Vec<u8>) -> (r: CaseChange)
    requires
        s@.len() < usize::MAX - 2,
    ensures
        r.bad_conversion == (conversion_of(spec@) == ConversionType::BadConversion),
        r.text@ == change_case_spec(s@, conversion_of(spec@)).0,
        r.unbalanced == change_case_spec(s@, conversion_of(spec@)).1,
{
    let ty = conversion_type(spec);
    let n = s.len();
    let mut i: usize = 0;
    let mut out: Vec<u8> = Vec::new();
    let mut lvl: usize = 0;
    let mut prev_colon = false;
    let mut unbalanced = false;
    let ghost st0 = CaseState { i: 0, out: Seq::empty(), lvl: 0, prev_colon: false, unbalanced: false };
    proof {
        assert(out@ =~= st0.out);
    }
    while i < n
        invariant
            n == s@.len(),
            n < usize::MAX - 2,
            i <= n,
            lvl <= i + 1,
            case_run(s@, ty, st0) == case_run(s@, ty, CaseState { i: i as int, out: out@, lvl: lvl as int, prev_colon, unbalanced }),
        decreases n - i,
    {
        let ghost st = CaseState { i: i as int, out: out@, lvl: lvl as int, prev_colon, unbalanced };
        let ghost next = case_step(s@, ty, st);
        proof {
            lemma_case_step(s@, ty, st);
        }
        let c = s[i];
        if c == LEFT_BRACE {
            let keeps = i == 0 || (prev_colon && lex_class(s[i - 1]) == LexType::WhiteSpace);
            if lvl == 0 && i + 4 <= n && s[i + 1] == BACKSLASH && !(ty == ConversionType::TitleLowers && keeps) {
                out.push(c);
                let (e, l) = special_char_exec(s, ty, i + 1, &mut out);
                i = e;
                lvl = l;
            } else {
                out.push(c);
                i = i + 1;
                lvl = lvl + 1;
            }
            prev_colon = false;
        } else if c == RIGHT_BRACE {
            if lvl == 0 {
                unbalanced = true;
            } else {
                lvl = lvl - 1;
            }
            out.push(c);
            prev_colon = false;
            i = i + 1;
        } else if lvl == 0 {
            if ty == ConversionType::TitleLowers {
                let keeps = i == 0 || (prev_colon && lex_class(s[i - 1]) == LexType::WhiteSpace);
                let d = if keeps || c < 65 || c > 90 { c } else { c + 32 };
                out.push(d);
                if c == COLON {
                    prev_colon = true;
                } else if lex_class(c) != LexType::WhiteSpace {
                    prev_colon = false;
                }
            } else {
                let d = match ty {
                    ConversionType::AllUppers => if 97 <= c && c <= 122 { c - 32 } else { c },
                    ConversionType::BadConversion => c,
                    _ => if 65 <= c && c <= 90 { c + 32 } else { c },
                };
                out.push(d);
            }
            i = i + 1;
        } else {
            out.push(c);
            i = i + 1;
        }
        proof {
            assert(out@ =~= next.out);
        }
    }
    CaseChange { text: out, bad_conversion: ty == ConversionType::BadConversion, unbalanced: unbalanced || lvl > 0 }
}

} // verus!
