//! Names in BibTeX (`format.name$`): a name is split into tokens, the
//! tokens into the First, von, Last and Jr parts, and a format string says
//! how the parts are written.
use vstd::prelude::*;
use crate::bibtex::lex::{lex_class, lex_class_spec, LexType, control_seq, control_seq_spec};
use crate::bibtex::text::{skip_group, lemma_skip_group, skip_group_exec, and_scan, and_scan_level, lemma_and_scan, name_scan_for_and, num_names_from, num_names_spec, LEFT_BRACE, RIGHT_BRACE, BACKSLASH};
use crate::bibtex::lex::is_white;

verus! {

pub const COMMA: u8 = 44;
pub const TIE: u8 = 126;
pub const SPACE: u8 = 32;
pub const PERIOD: u8 = 46;

/// Where the tokenizer is in a name: the position, the bytes of the tokens
/// so far (`sv`, without the bytes between tokens), where each token starts
/// in `sv`, the separator before each token, the separator seen since the
/// last token, the commas, whether a new token would start at the next
/// byte, the brace depth, and what was wrong with the name.
pub struct TokState {
    pub i: int,
    pub sv: Seq<u8>,
    pub toks: Seq<int>,
    pub seps: Seq<u8>,
    pub pending: u8,
    pub commas: int,
    pub comma1: int,
    pub comma2: int,
    pub starting: bool,
    pub lvl: int,
    pub too_many_commas: bool,
    pub unbalanced: bool,
}

/// The state with a token started at the end of `sv`.
pub open spec fn start_token(st: TokState) -> TokState {
    TokState { toks: st.toks.push(st.sv.len() as int), seps: st.seps.push(st.pending), ..st }
}

/// One step of the tokenizer at position `st.i` of `name`.
pub open spec fn tok_step(name: Seq<u8>, st: TokState) -> TokState {
    let c = name[st.i];
    if c == COMMA {
        if st.commas == 2 {
            TokState { i: st.i + 1, starting: true, too_many_commas: true, ..st }
        } else {
            TokState {
                i: st.i + 1,
                starting: true,
                commas: st.commas + 1,
                comma1: if st.commas == 0 { st.toks.len() as int } else { st.comma1 },
                comma2: if st.commas == 1 { st.toks.len() as int } else { st.comma2 },
                pending: COMMA,
                ..st
            }
        }
    } else if c == LEFT_BRACE {
        let s1 = if st.starting { start_token(st) } else { st };
        let g = skip_group(name, st.i + 1, st.lvl + 1);
        TokState { i: g.0, sv: s1.sv + name.subrange(st.i, g.0), lvl: g.1, starting: false, ..s1 }
    } else if c == RIGHT_BRACE {
        let s1 = if st.starting { start_token(st) } else { st };
        TokState { i: st.i + 1, starting: false, unbalanced: true, ..s1 }
    } else if lex_class_spec(c) == LexType::WhiteSpace {
        TokState { i: st.i + 1, starting: true, pending: if st.starting { st.pending } else { SPACE }, ..st }
    } else if lex_class_spec(c) == LexType::SepChar {
        TokState { i: st.i + 1, starting: true, pending: if st.starting { st.pending } else { c }, ..st }
    } else {
        let s1 = if st.starting { start_token(st) } else { st };
        TokState { i: st.i + 1, sv: s1.sv.push(c), starting: false, ..s1 }
    }
}

pub proof fn lemma_tok_step(name: Seq<u8>, st: TokState)
    requires
        0 <= st.i < name.len(),
        0 <= st.lvl,
    ensures
        st.i < tok_step(name, st).i <= name.len(),
        0 <= tok_step(name, st).lvl,
{
    if name[st.i] == LEFT_BRACE {
        lemma_skip_group(name, st.i + 1, st.lvl + 1);
    }
}

/// The tokenizer run from `st` to the end of `name`.
pub open spec fn tok_run(name: Seq<u8>, st: TokState) -> TokState
    decreases name.len() - st.i,
{
    if st.i < 0 || st.i >= name.len() || st.lvl < 0 {
        st
    } else {
        proof {
            lemma_tok_step(name, st);
        }
        tok_run(name, tok_step(name, st))
    }
}

/// The state in which the tokenizer starts, at brace depth `lvl`.
pub open spec fn tok_init(lvl: int) -> TokState {
    TokState {
        i: 0,
        sv: Seq::empty(),
        toks: Seq::empty(),
        seps: Seq::empty(),
        pending: 0,
        commas: 0,
        comma1: 0,
        comma2: 0,
        starting: true,
        lvl,
        too_many_commas: false,
        unbalanced: false,
    }
}

/// A name split into tokens.
pub struct NameTokens {
    /// The bytes of the tokens, one after another.
    pub sv: Vec<u8>,
    /// Where each token starts in `sv`, and where the last one ends.
    pub toks: Vec<usize>,
    /// The separator before each token (that of the first is 0).
    pub seps: Vec<u8>,
    pub commas: u8,
    pub comma1: usize,
    pub comma2: usize,
    /// The brace depth at the end.
    pub lvl: usize,
    pub too_many_commas: bool,
    pub unbalanced: bool,
}

/// Whether `t` holds the tokens of the state `st` (with the end of the last
/// token added to the starts).
pub open spec fn tokens_of(t: NameTokens, st: TokState) -> bool {
    &&& t.sv@ == st.sv
    &&& t.toks@.map_values(|x: usize| x as int) == st.toks.push(st.sv.len() as int)
    &&& t.seps@ == st.seps
    &&& t.commas == st.commas
    &&& t.comma1 == st.comma1
    &&& t.comma2 == st.comma2
    &&& t.lvl == st.lvl
    &&& t.too_many_commas == st.too_many_commas
    &&& t.unbalanced == st.unbalanced
}

/// Splits a name into tokens, starting at brace depth `lvl`: tokens are
/// separated by white space, `~`, `-` and commas outside braces; a group in
/// braces belongs to the token it stands in.
pub fn tokenize_name(name: &Vec<u8>, lvl: usize) -> (r: NameTokens)
    requires
        lvl + name@.len() < usize::MAX,
    ensures
        tokens_of(r, tok_run(name@, tok_init(lvl as int))),
        r.toks@.len() == r.seps@.len() + 1,
        r.toks@.len() <= name@.len() + 1,
        forall|a: int, b: int| 0 <= a <= b < r.toks@.len() ==> #[trigger] r.toks@[a] <= #[trigger] r.toks@[b] <= r.sv@.len(),
        r.commas <= 2,
        r.comma1 <= r.seps@.len(),
        r.comma2 <= r.seps@.len(),
        r.lvl <= lvl + name@.len(),
{
    let n = name.len();
    let mut i: usize = 0;
    let mut sv: Vec<u8> = Vec::new();
    let mut toks: Vec<usize> = Vec::new();
    let mut seps: Vec<u8> = Vec::new();
    let mut pending: u8 = 0;
    let mut commas: u8 = 0;
    let mut comma1: usize = 0;
    let mut comma2: usize = 0;
    let mut starting = true;
    let mut level: usize = lvl;
    let mut too_many_commas = false;
    let mut unbalanced = false;
    let ghost st0 = tok_init(lvl as int);
    proof {
        assert(toks@.map_values(|x: usize| x as int) =~= st0.toks);
    }
    while i < n
        invariant
            n == name@.len(),
            lvl + n < usize::MAX,
            i <= n,
            commas <= 2,
            toks@.len() <= i,
            sv@.len() <= i,
            level <= lvl + i,
            seps@.len() == toks@.len(),
            forall|a: int, b: int| 0 <= a <= b < toks@.len() ==> #[trigger] toks@[a] <= #[trigger] toks@[b] <= sv@.len(),
            comma1 <= toks@.len(),
            comma2 <= toks@.len(),
            tok_run(name@, st0) == tok_run(name@, TokState {
                i: i as int,
                sv: sv@,
                toks: toks@.map_values(|x: usize| x as int),
                seps: seps@,
                pending,
                commas: commas as int,
                comma1: comma1 as int,
                comma2: comma2 as int,
                starting,
                lvl: level as int,
                too_many_commas,
                unbalanced,
            }),
        decreases n - i,
    {
        let ghost st = TokState {
            i: i as int,
            sv: sv@,
            toks: toks@.map_values(|x: usize| x as int),
            seps: seps@,
            pending,
            commas: commas as int,
            comma1: comma1 as int,
            comma2: comma2 as int,
            starting,
            lvl: level as int,
            too_many_commas,
            unbalanced,
        };
        let ghost next = tok_step(name@, st);
        proof {
            lemma_tok_step(name@, st);
        }
        let c = name[i];
        if c == COMMA {
            if commas == 2 {
                too_many_commas = true;
            } else {
                if commas == 0 {
                    comma1 = toks.len();
                } else {
                    comma2 = toks.len();
                }
                commas = commas + 1;
                pending = COMMA;
            }
            i = i + 1;
            starting = true;
        } else if c == LEFT_BRACE {
            if starting {
                toks.push(sv.len());
                seps.push(pending);
            }
            sv.push(c);
            i = i + 1;
            level = level + 1;
            while level > 0 && i < n
                invariant
                    n == name@.len(),
                    lvl + n < usize::MAX,
                    0 <= st.i < i <= n,
                    0 <= level <= lvl + i,
                    sv@.len() <= i,
                    skip_group(name@, st.i + 1, st.lvl + 1) == skip_group(name@, i as int, level as int),
                    sv@ == (if st.starting { start_token(st) } else { st }).sv + name@.subrange(st.i, i as int),
                decreases n - i,
            {
                let d = name[i];
                if d == RIGHT_BRACE {
                    level = level - 1;
                } else if d == LEFT_BRACE {
                    level = level + 1;
                }
                sv.push(d);
                proof {
                    assert(name@.subrange(st.i, i + 1) =~= name@.subrange(st.i, i as int).push(d));
                }
                i = i + 1;
            }
            starting = false;
        } else if c == RIGHT_BRACE {
            if starting {
                toks.push(sv.len());
                seps.push(pending);
            }
            unbalanced = true;
            i = i + 1;
            starting = false;
        } else {
            let cls = lex_class(c);
            if cls == LexType::WhiteSpace {
                if !starting {
                    pending = SPACE;
                }
                i = i + 1;
                starting = true;
            } else if cls == LexType::SepChar {
                if !starting {
                    pending = c;
                }
                i = i + 1;
                starting = true;
            } else {
                if starting {
                    toks.push(sv.len());
                    seps.push(pending);
                }
                sv.push(c);
                i = i + 1;
                starting = false;
            }
        }
        proof {
            assert(toks@.map_values(|x: usize| x as int) =~= next.toks);
            assert(sv@ =~= next.sv);
            assert(seps@ =~= next.seps);
        }
    }
    let ghost fin = tok_run(name@, st0);
    toks.push(sv.len());
    proof {
        assert(toks@.map_values(|x: usize| x as int) =~= fin.toks.push(fin.sv.len() as int));
    }
    NameTokens { sv, toks, seps, commas, comma1, comma2, lvl: level, too_many_commas, unbalanced }
}

pub open spec fn is_upper(c: u8) -> bool {
    65 <= c <= 90
}

pub open spec fn is_lower(c: u8) -> bool {
    97 <= c <= 122
}

/// The end of the run of ASCII letters of `s` from `p`, before `e`.
pub open spec fn letters_end(s: Seq<u8>, p: int, e: int) -> int
    decreases e - p,
{
    if p < 0 || p >= e || p >= s.len() || !(is_upper(s[p]) || is_lower(s[p])) {
        p
    } else {
        letters_end(s, p + 1, e)
    }
}

/// Where a group that is open `lvl` deep at `p` ends, before `e`.
pub open spec fn group_end(s: Seq<u8>, p: int, e: int, lvl: int) -> int
    decreases e - p,
{
    if p < 0 || p >= e || p >= s.len() || lvl <= 0 {
        p
    } else if s[p] == RIGHT_BRACE {
        group_end(s, p + 1, e, lvl - 1)
    } else if s[p] == LEFT_BRACE {
        group_end(s, p + 1, e, lvl + 1)
    } else {
        group_end(s, p + 1, e, lvl)
    }
}

/// Whether the first letter of the rest of a group (open `lvl` deep at
/// `p`) is lower case; false where it has none.
pub open spec fn lower_in_group(s: Seq<u8>, p: int, e: int, lvl: int) -> bool
    decreases e - p,
{
    if p < 0 || p >= e || p >= s.len() || lvl <= 0 {
        false
    } else if is_upper(s[p]) {
        false
    } else if is_lower(s[p]) {
        true
    } else if s[p] == RIGHT_BRACE {
        lower_in_group(s, p + 1, e, lvl - 1)
    } else if s[p] == LEFT_BRACE {
        lower_in_group(s, p + 1, e, lvl + 1)
    } else {
        lower_in_group(s, p + 1, e, lvl)
    }
}

pub proof fn lemma_letters_end(s: Seq<u8>, p: int, e: int)
    requires
        0 <= p <= e <= s.len(),
    ensures
        p <= letters_end(s, p, e) <= e,
    decreases e - p,
{
    if p < e && (is_upper(s[p]) || is_lower(s[p])) {
        lemma_letters_end(s, p + 1, e);
    }
}

pub proof fn lemma_group_end(s: Seq<u8>, p: int, e: int, lvl: int)
    requires
        0 <= p <= e <= s.len(),
    ensures
        p <= group_end(s, p, e, lvl) <= e,
    decreases e - p,
{
    if p < e && lvl > 0 {
        if s[p] == RIGHT_BRACE {
            lemma_group_end(s, p + 1, e, lvl - 1);
        } else if s[p] == LEFT_BRACE {
            lemma_group_end(s, p + 1, e, lvl + 1);
        } else {
            lemma_group_end(s, p + 1, e, lvl);
        }
    }
}

/// Whether the control sequence code of a special character stands for a
/// lower-case letter (`\i`, `\j`, `\oe`, `\ae`, `\aa`, `\o`, `\l`, `\ss`).
pub open spec fn lower_control_seq(code: u8) -> bool {
    code == 0 || code == 1 || code == 2 || code == 4 || code == 6 || code == 8 || code == 10 || code == 12
}

/// Whether the token `s[p..e]` belongs to the von part: its first letter
/// outside groups is lower case. A group is passed over, but a special
/// character (a group that starts with a backslash) decides by its control
/// sequence, or, for an unknown one, by the first letter in it.
pub open spec fn von_scan(s: Seq<u8>, p: int, e: int) -> bool
    decreases e - p,
{
    if p < 0 || p >= e || e > s.len() {
        false
    } else if is_upper(s[p]) {
        false
    } else if is_lower(s[p]) {
        true
    } else if s[p] == LEFT_BRACE {
        let q = p + 1;
        if q + 2 < e && s[q] == BACKSLASH {
            proof {
                lemma_letters_end(s, q + 1, e);
            }
            let z = letters_end(s, q + 1, e);
            match control_seq_spec(s.subrange(q + 1, z)) {
                Some(code) => lower_control_seq(code),
                None => lower_in_group(s, z, e, 1),
            }
        } else {
            proof {
                lemma_group_end(s, q, e, 1);
            }
            von_scan(s, group_end(s, q, e, 1), e)
        }
    } else {
        von_scan(s, p + 1, e)
    }
}

fn is_letter_byte(c: u8) -> (r: bool)
    ensures
        r == (is_upper(c) || is_lower(c)),
{
    (65 <= c && c <= 90) || (97 <= c && c <= 122)
}

/// Whether the token `sv[start..end]` belongs to the von part (see
/// `von_scan`).
pub fn von_token_found(sv: &Vec<u8>, start: usize, end: usize) -> (r: bool)
    requires
        start <= end <= sv@.len(),
    ensures
        r == von_scan(sv@, start as int, end as int),
{
    let mut p = start;
    while p < end
        invariant
            start <= p <= end <= sv@.len(),
            von_scan(sv@, start as int, end as int) == von_scan(sv@, p as int, end as int),
        decreases end - p,
    {
        let c = sv[p];
        if 65 <= c && c <= 90 {
            return false;
        } else if 97 <= c && c <= 122 {
            return true;
        } else if c == LEFT_BRACE {
            let q = p + 1;
            if end >= 2 && q < end - 2 && sv[q] == BACKSLASH {
                let y = q + 1;
                let mut z = y;
                while z < end && is_letter_byte(sv[z])
                    invariant
                        y <= z <= end <= sv@.len(),
                        letters_end(sv@, y as int, end as int) == letters_end(sv@, z as int, end as int),
                    decreases end - z,
                {
                    z = z + 1;
                }
                match control_seq(sv, y, z) {
                    Some(code) => {
                        return code == 0 || code == 1 || code == 2 || code == 4 || code == 6 || code == 8
                            || code == 10 || code == 12;
                    },
                    None => {
                        assert(letters_end(sv@, z as int, end as int) == z);
                        assert(von_scan(sv@, p as int, end as int) == lower_in_group(sv@, z as int, end as int, 1));
                        let mut k = z;
                        let mut lvl: usize = 1;
                        while k < end && lvl > 0
                            invariant
                                1 <= z <= k <= end <= sv@.len(),
                                lvl <= k - z + 1,
                                von_scan(sv@, start as int, end as int) == lower_in_group(sv@, z as int, end as int, 1),
                                lower_in_group(sv@, z as int, end as int, 1) == lower_in_group(sv@, k as int, end as int, lvl as int),
                            decreases end - k,
                        {
                            let d = sv[k];
                            if 65 <= d && d <= 90 {
                                return false;
                            } else if 97 <= d && d <= 122 {
                                return true;
                            } else if d == RIGHT_BRACE {
                                lvl = lvl - 1;
                            } else if d == LEFT_BRACE {
                                lvl = lvl + 1;
                            }
                            k = k + 1;
                        }
                        return false;
                    },
                }
            } else {
                let mut k = q;
                let mut lvl: usize = 1;
                while k < end && lvl > 0
                    invariant
                        1 <= q <= k <= end <= sv@.len(),
                        lvl <= k - q + 1,
                        group_end(sv@, q as int, end as int, 1) == group_end(sv@, k as int, end as int, lvl as int),
                    decreases end - k,
                {
                    let d = sv[k];
                    if d == RIGHT_BRACE {
                        lvl = lvl - 1;
                    } else if d == LEFT_BRACE {
                        lvl = lvl + 1;
                    }
                    k = k + 1;
                }
                p = k;
            }
        } else {
            p = p + 1;
        }
    }
    false
}

/// Whether token `k` (of the tokens starting at `toks` in `sv`) belongs to
/// the von part.
pub open spec fn von_tok(sv: Seq<u8>, toks: Seq<int>, k: int) -> bool {
    von_scan(sv, toks[k], toks[k + 1])
}

/// The end of the von part that starts at token `vs`, looking back from
/// `ve`: one past the last von token after `vs` and before `ve`, else `ve`
/// stops at `vs`.
pub open spec fn von_end_from(sv: Seq<u8>, toks: Seq<int>, vs: int, ve: int) -> int
    decreases ve - vs,
{
    if ve <= vs {
        ve
    } else if von_tok(sv, toks, ve - 1) {
        ve
    } else {
        von_end_from(sv, toks, vs, ve - 1)
    }
}

/// The first von token from `k` among all but the last of `le` tokens, or
/// where the search stops.
pub open spec fn first_von(sv: Seq<u8>, toks: Seq<int>, k: int, le: int) -> int
    decreases le - k,
{
    if k >= le - 1 || von_tok(sv, toks, k) {
        k
    } else {
        first_von(sv, toks, k + 1, le)
    }
}

/// Moves the start of the last name back over tokens joined to it by a
/// hyphen (a separator other than the tie).
pub open spec fn back_over_hyphens(seps: Seq<u8>, vs: int) -> int
    decreases vs,
{
    if vs > 0 && lex_class_spec(seps[vs]) == LexType::SepChar && seps[vs] != TIE {
        back_over_hyphens(seps, vs - 1)
    } else {
        vs
    }
}

/// The parts of a name, as ranges of tokens: First is
/// `first_start..first_end`, von `von_start..von_end`, Last
/// `von_end..last_end` and Jr `last_end..jr_end`.
pub struct NameRanges {
    pub first_start: int,
    pub first_end: int,
    pub von_start: int,
    pub von_end: int,
    pub last_end: int,
    pub jr_end: int,
}

/// The parts of a name of `n` tokens. Without commas ("First von Last"),
/// the von part starts at the first token that starts with a lower-case
/// letter, the last token not counted; without such a token the Last part
/// is the last token with the ones joined to it by hyphens. With one comma
/// ("von Last, First") or two ("von Last, Jr, First") the commas split the
/// parts, and the von part is the tokens before the comma up to the last
/// lower-case one, the last token not counted.
pub open spec fn name_ranges(sv: Seq<u8>, toks: Seq<int>, seps: Seq<u8>, n: int, commas: int, comma1: int, comma2: int) -> NameRanges {
    if commas == 0 {
        let k = first_von(sv, toks, 0, n);
        if k < n - 1 {
            NameRanges {
                first_start: 0,
                first_end: k,
                von_start: k,
                von_end: von_end_from(sv, toks, k, n - 1),
                last_end: n,
                jr_end: n,
            }
        } else {
            let vs = back_over_hyphens(seps, k);
            NameRanges { first_start: 0, first_end: vs, von_start: vs, von_end: vs, last_end: n, jr_end: n }
        }
    } else if commas == 1 {
        NameRanges {
            first_start: comma1,
            first_end: n,
            von_start: 0,
            von_end: von_end_from(sv, toks, 0, comma1 - 1),
            last_end: comma1,
            jr_end: comma1,
        }
    } else {
        NameRanges {
            first_start: comma2,
            first_end: n,
            von_start: 0,
            von_end: von_end_from(sv, toks, 0, comma1 - 1),
            last_end: comma1,
            jr_end: comma2,
        }
    }
}

/// The well-formed tokens of a name: the starts (with the end of the last
/// token) rise within `sv`, and each token has its separator.
pub open spec fn tokens_wf(sv: Seq<u8>, toks: Seq<int>, seps: Seq<u8>) -> bool {
    &&& toks.len() >= 1
    &&& seps.len() == toks.len() - 1
    &&& forall|a: int, b: int| 0 <= a <= b < toks.len() ==> 0 <= #[trigger] toks[a] <= #[trigger] toks[b] <= sv.len()
}

fn von_tok_exec(sv: &Vec<u8>, toks: &Vec<usize>, k: usize) -> (r: bool)
    requires
        k < toks@.len() - 1,
        forall|a: int, b: int| 0 <= a <= b < toks@.len() ==> #[trigger] toks@[a] <= #[trigger] toks@[b] <= sv@.len(),
    ensures
        r == von_tok(sv@, toks@.map_values(|x: usize| x as int), k as int),
{
    let tl = toks.len();
    let k1 = k + 1;
    assert(toks@[k as int] <= toks@[k1 as int] <= sv@.len());
    von_token_found(sv, toks[k], toks[k1])
}

/// The ranges of the parts of a tokenized name (see `name_ranges`).
pub fn find_name_ranges(t: &NameTokens) -> (r: (i64, i64, i64, i64, i64, i64))
    requires
        t.toks@.len() >= 1,
        t.toks@.len() < i64::MAX,
        t.seps@.len() == t.toks@.len() - 1,
        forall|a: int, b: int| 0 <= a <= b < t.toks@.len() ==> #[trigger] t.toks@[a] <= #[trigger] t.toks@[b] <= t.sv@.len(),
        t.commas <= 2,
        t.comma1 <= t.toks@.len() - 1,
        t.comma2 <= t.toks@.len() - 1,
    ensures
        ({
            let g = name_ranges(t.sv@, t.toks@.map_values(|x: usize| x as int), t.seps@, t.toks@.len() - 1, t.commas as int, t.comma1 as int, t.comma2 as int);
            &&& r.0 as int == g.first_start
            &&& r.1 as int == g.first_end
            &&& r.2 as int == g.von_start
            &&& r.3 as int == g.von_end
            &&& r.4 as int == g.last_end
            &&& r.5 as int == g.jr_end
        }),
        r.1 <= t.toks@.len() - 1,
        r.3 <= t.toks@.len() - 1,
        r.4 <= t.toks@.len() - 1,
        r.5 <= t.toks@.len() - 1,
{
    let ghost tv = t.toks@.map_values(|x: usize| x as int);
    let n: usize = t.toks.len() - 1;
    if t.commas == 0 {
        let mut k: usize = 0;
        while n >= 1 && k < n - 1 && !von_tok_exec(&t.sv, &t.toks, k)
            invariant
                n == t.toks@.len() - 1,
                k <= if n >= 1 { n - 1 } else { 0 },
                tv == t.toks@.map_values(|x: usize| x as int),
                forall|a: int, b: int| 0 <= a <= b < t.toks@.len() ==> #[trigger] t.toks@[a] <= #[trigger] t.toks@[b] <= t.sv@.len(),
                first_von(t.sv@, tv, 0, n as int) == first_von(t.sv@, tv, k as int, n as int),
            decreases n - k,
        {
            k = k + 1;
        }
        if n >= 1 && k < n - 1 {
            let mut ve: usize = n - 1;
            while ve > k && !von_tok_exec(&t.sv, &t.toks, ve - 1)
                invariant
                    k < n,
                    k <= ve <= n - 1,
                    n == t.toks@.len() - 1,
                    tv == t.toks@.map_values(|x: usize| x as int),
                    forall|a: int, b: int| 0 <= a <= b < t.toks@.len() ==> #[trigger] t.toks@[a] <= #[trigger] t.toks@[b] <= t.sv@.len(),
                    von_end_from(t.sv@, tv, k as int, n - 1) == von_end_from(t.sv@, tv, k as int, ve as int),
                decreases ve - k,
            {
                ve = ve - 1;
            }
            (0, k as i64, k as i64, ve as i64, n as i64, n as i64)
        } else {
            let mut vs: usize = k;
            while vs > 0 && lex_class(t.seps[vs]) == LexType::SepChar && t.seps[vs] != TIE
                invariant
                    vs <= k,
                    k <= if n >= 1 { n - 1 } else { 0 },
                    n == t.toks@.len() - 1,
                    t.seps@.len() == n,
                    back_over_hyphens(t.seps@, k as int) == back_over_hyphens(t.seps@, vs as int),
                decreases vs,
            {
                vs = vs - 1;
            }
            (0, vs as i64, vs as i64, vs as i64, n as i64, n as i64)
        }
    } else {
        let c1 = t.comma1;
        let ve: i64 = if c1 == 0 {
            -1
        } else {
            let mut ve: usize = c1 - 1;
            while ve > 0 && !von_tok_exec(&t.sv, &t.toks, ve - 1)
                invariant
                    1 <= c1 <= n,
                    ve <= c1 - 1,
                    n == t.toks@.len() - 1,
                    tv == t.toks@.map_values(|x: usize| x as int),
                    forall|a: int, b: int| 0 <= a <= b < t.toks@.len() ==> #[trigger] t.toks@[a] <= #[trigger] t.toks@[b] <= t.sv@.len(),
                    von_end_from(t.sv@, tv, 0, c1 - 1) == von_end_from(t.sv@, tv, 0, ve as int),
                decreases ve,
            {
                ve = ve - 1;
            }
            ve as i64
        };
        if t.commas == 1 {
            (c1 as i64, n as i64, 0, ve, c1 as i64, c1 as i64)
        } else {
            (t.comma2 as i64, n as i64, 0, ve, c1 as i64, t.comma2 as i64)
        }
    }
}

/// Byte `p` of `s`, or 0 past its end.
pub open spec fn at(s: Seq<u8>, p: int) -> u8 {
    if 0 <= p < s.len() {
        s[p]
    } else {
        0
    }
}

/// The brace depth one up, and one down (as 32-bit numbers that wrap).
pub open spec fn up(l: i32) -> i32 {
    vstd::wrapping::i32_specs::wrapping_add(l, 1)
}

pub open spec fn down(l: i32) -> i32 {
    vstd::wrapping::i32_specs::wrapping_sub(l, 1)
}

/// Counts text characters of `s` from `y` (at most `enough` of them),
/// keeping track of the brace depth `lvl` (which goes on from one count to
/// the next): a special character counts as one. Returns the position, the
/// count and the depth.
pub open spec fn count_text(s: Seq<u8>, y: int, num: int, lvl: i32, enough: int) -> (int, int, i32)
    decreases s.len() - y,
{
    if y < 0 || y >= s.len() || num >= enough {
        (y, num, lvl)
    } else if s[y] == LEFT_BRACE {
        if up(lvl) == 1 && y + 1 < s.len() && s[y + 1] == BACKSLASH {
            proof {
                lemma_skip_group(s, y + 2, 1);
            }
            let g = skip_group(s, y + 2, 1);
            count_text(s, g.0, num + 1, g.1 as i32, enough)
        } else {
            count_text(s, y + 1, num + 1, up(lvl), enough)
        }
    } else if s[y] == RIGHT_BRACE {
        count_text(s, y + 1, num + 1, down(lvl), enough)
    } else {
        count_text(s, y + 1, num + 1, lvl, enough)
    }
}

/// Whether the output from `start` holds at least `enough` text
/// characters, and the brace depth after counting them.
pub open spec fn enough_text(s: Seq<u8>, start: int, lvl: i32, enough: int) -> (bool, i32) {
    let r = count_text(s, start, 0, lvl, enough);
    (r.1 >= enough, r.2)
}

/// What one token contributes to an abbreviated name part: its first
/// letter, or its first special character whole, from `p` (before `e`).
pub open spec fn token_initial(sv: Seq<u8>, p: int, e: int) -> Seq<u8>
    decreases e - p,
{
    if p < 0 || p >= e || e > sv.len() {
        Seq::empty()
    } else if is_upper(sv[p]) || is_lower(sv[p]) {
        seq![sv[p]]
    } else if p + 1 < e && sv[p] == LEFT_BRACE && sv[p + 1] == BACKSLASH {
        proof {
            lemma_group_end(sv, p + 2, e, 1);
        }
        sv.subrange(p, group_end(sv, p + 2, e, 1))
    } else {
        token_initial(sv, p + 1, e)
    }
}

/// A name part being written: the output, the brace depth, and the next
/// token.
pub struct PartState {
    pub out: Seq<u8>,
    pub lvl: i32,
    pub cur: int,
}

/// Writes tokens `cur..last` of a name part: whole (for a doubled letter
/// such as `ff`) or abbreviated, with what stands between tokens: the
/// separator given in the format, or else a period after an abbreviation
/// and the token's own `~` or `-`, or a tie (before the last token, and
/// after a short start) or a space.
pub open spec fn write_part(
    sv: Seq<u8>,
    toks: Seq<int>,
    seps: Seq<u8>,
    last: int,
    double: bool,
    use_default: bool,
    custom: Seq<u8>,
    out_start: int,
    st: PartState,
) -> PartState
    decreases last - st.cur,
{
    if st.cur >= last || st.cur < 0 || st.cur + 1 >= toks.len() {
        st
    } else {
        let tok = if double {
            sv.subrange(toks[st.cur], toks[st.cur + 1])
        } else {
            token_initial(sv, toks[st.cur], toks[st.cur + 1])
        };
        let out1 = st.out + tok;
        let cur = st.cur + 1;
        let next = if cur < last {
            if use_default {
                let out2 = if double { out1 } else { out1.push(PERIOD) };
                if lex_class_spec(seps[cur]) == LexType::SepChar {
                    PartState { out: out2.push(seps[cur]), lvl: st.lvl, cur }
                } else {
                    let e = enough_text(out2, out_start, st.lvl, 3);
                    let tie = cur == last - 1 || !e.0;
                    PartState {
                        out: out2.push(if tie { TIE } else { SPACE }),
                        lvl: if cur == last - 1 { st.lvl } else { e.1 },
                        cur,
                    }
                }
            } else {
                PartState { out: out1 + custom, lvl: st.lvl, cur }
            }
        } else {
            PartState { out: out1, lvl: st.lvl, cur }
        };
        write_part(sv, toks, seps, last, double, use_default, custom, out_start, next)
    }
}


/// Skips the rest of a nested group in the format string: from `p` at
/// depth `lvl` until the depth is back to 1 (or the end). Returns the
/// position and the depth.
pub open spec fn skip_nested(f: Seq<u8>, p: int, lvl: int) -> (int, int)
    decreases f.len() - p,
{
    if p < 0 || p >= f.len() || lvl <= 1 {
        (p, lvl)
    } else if f[p] == RIGHT_BRACE {
        skip_nested(f, p + 1, lvl - 1)
    } else if f[p] == LEFT_BRACE {
        skip_nested(f, p + 1, lvl + 1)
    } else {
        skip_nested(f, p + 1, lvl)
    }
}

pub proof fn lemma_skip_nested(f: Seq<u8>, p: int, lvl: int)
    requires
        0 <= p,
    ensures
        p <= skip_nested(f, p, lvl).0,
        skip_nested(f, p, lvl).0 <= if p > f.len() { p } else { f.len() as int },
    decreases f.len() - p,
{
    if p < f.len() && lvl > 1 {
        if f[p] == RIGHT_BRACE {
            lemma_skip_nested(f, p + 1, lvl - 1);
        } else if f[p] == LEFT_BRACE {
            lemma_skip_nested(f, p + 1, lvl + 1);
        } else {
            lemma_skip_nested(f, p + 1, lvl);
        }
    }
}

/// The tokens of a name and its parts, as the format reads them.
pub struct NameView {
    pub sv: Seq<u8>,
    pub toks: Seq<int>,
    pub seps: Seq<u8>,
    pub r: NameRanges,
}

/// Writing a group of the format string: the position, the depth in the
/// format, the output, the brace depth of the text count, and the next
/// token of the part.
pub struct WState {
    pub sp: int,
    pub sp_lvl: int,
    pub out: Seq<u8>,
    pub lvl: i32,
    pub cur: int,
}

/// One step of writing a group whose part ends before token `last`: a
/// letter at depth 1 stands for the part (followed by an optional
/// separator in braces); other bytes are copied.
pub open spec fn write_step(f: Seq<u8>, nv: NameView, last: int, double: bool, out_start: int, w: WState) -> WState {
    let c = f[w.sp];
    if (is_upper(c) || is_lower(c)) && w.sp_lvl == 1 {
        let sp1 = w.sp + 1 + if double { 1int } else { 0int };
        if at(f, sp1) == LEFT_BRACE {
            let x1 = sp1 + 1;
            let k = skip_nested(f, x1, 2);
            let custom = if k.0 - 1 >= x1 { f.subrange(x1, k.0 - 1) } else { Seq::empty() };
            let part = write_part(nv.sv, nv.toks, nv.seps, last, double, false, custom, out_start, PartState { out: w.out, lvl: w.lvl, cur: w.cur });
            WState { sp: k.0, sp_lvl: k.1, out: part.out, lvl: part.lvl, cur: part.cur }
        } else {
            let part = write_part(nv.sv, nv.toks, nv.seps, last, double, true, Seq::empty(), out_start, PartState { out: w.out, lvl: w.lvl, cur: w.cur });
            WState { sp: sp1, sp_lvl: w.sp_lvl, out: part.out, lvl: part.lvl, cur: part.cur }
        }
    } else if c == RIGHT_BRACE {
        WState {
            sp: w.sp + 1,
            sp_lvl: w.sp_lvl - 1,
            out: if w.sp_lvl - 1 > 0 { w.out.push(RIGHT_BRACE) } else { w.out },
            ..w
        }
    } else if c == LEFT_BRACE {
        WState { sp: w.sp + 1, sp_lvl: w.sp_lvl + 1, out: w.out.push(LEFT_BRACE), ..w }
    } else {
        WState { sp: w.sp + 1, out: w.out.push(c), ..w }
    }
}

pub proof fn lemma_write_step(f: Seq<u8>, nv: NameView, last: int, double: bool, out_start: int, w: WState)
    requires
        0 <= w.sp < f.len(),
    ensures
        w.sp < write_step(f, nv, last, double, out_start, w).sp <= f.len() + 1,
{
    let c = f[w.sp];
    if (is_upper(c) || is_lower(c)) && w.sp_lvl == 1 {
        let sp1 = w.sp + 1 + if double { 1int } else { 0int };
        if at(f, sp1) == LEFT_BRACE {
            lemma_skip_nested(f, sp1 + 1, 2);
        }
    }
}

/// Writes a group of the format string, up to its closing brace.
pub open spec fn write_group(f: Seq<u8>, nv: NameView, last: int, double: bool, out_start: int, w: WState) -> WState
    decreases f.len() + 2 - w.sp,
{
    if w.sp_lvl <= 0 || w.sp < 0 || w.sp >= f.len() {
        w
    } else {
        proof {
            lemma_write_step(f, nv, last, double, out_start, w);
        }
        write_group(f, nv, last, double, out_start, write_step(f, nv, last, double, out_start, w))
    }
}

/// Reading a group of the format string before it is written: the
/// position, the depth, whether a letter was seen and whether it was
/// doubled, whether the group ended, whether it is to be written, the
/// tokens of the part it names, and whether a second letter was seen.
pub struct GState {
    pub sp: int,
    pub sp_lvl: int,
    pub alpha_found: bool,
    pub double: bool,
    pub end_of_group: bool,
    pub to_be_written: bool,
    pub cur: int,
    pub last: int,
    pub complaint: bool,
}

/// The tokens of the part that a letter names: f (First), v (von),
/// l (Last) or j (Jr), in either case.
pub open spec fn part_of(r: NameRanges, c: u8) -> Option<(int, int)> {
    if c == 102 || c == 70 {
        Some((r.first_start, r.first_end))
    } else if c == 118 || c == 86 {
        Some((r.von_start, r.von_end))
    } else if c == 108 || c == 76 {
        Some((r.von_end, r.last_end))
    } else if c == 106 || c == 74 {
        Some((r.last_end, r.jr_end))
    } else {
        None
    }
}

/// Whether two letters are the same but for case.
pub open spec fn same_letter(a: u8, b: u8) -> bool {
    a == b || a as int + 32 == b as int || a as int == b as int + 32
}

/// One step of reading a group: the first letter names the part (a
/// second one is an error), a doubled letter asks for whole tokens.
pub open spec fn scan_step(f: Seq<u8>, r: NameRanges, g: GState) -> GState {
    let c = f[g.sp];
    if is_upper(c) || is_lower(c) {
        let sp1 = g.sp + 1;
        if g.alpha_found {
            GState { sp: sp1, complaint: true, to_be_written: false, ..g }
        } else {
            match part_of(r, c) {
                Some(pr) => {
                    let double = same_letter(c, at(f, sp1)) && (is_upper(at(f, sp1)) || is_lower(at(f, sp1)));
                    GState {
                        sp: if double { sp1 + 1 } else { sp1 },
                        alpha_found: true,
                        double,
                        to_be_written: g.to_be_written && pr.0 != pr.1,
                        cur: pr.0,
                        last: pr.1,
                        ..g
                    }
                },
                None => GState { sp: sp1, alpha_found: true, complaint: true, to_be_written: false, ..g },
            }
        }
    } else if c == RIGHT_BRACE {
        GState { sp: g.sp + 1, sp_lvl: g.sp_lvl - 1, end_of_group: true, ..g }
    } else if c == LEFT_BRACE {
        let k = skip_nested(f, g.sp + 1, g.sp_lvl + 1);
        GState { sp: k.0, sp_lvl: k.1, ..g }
    } else {
        GState { sp: g.sp + 1, ..g }
    }
}

pub proof fn lemma_scan_step(f: Seq<u8>, r: NameRanges, g: GState)
    requires
        0 <= g.sp < f.len(),
    ensures
        g.sp < scan_step(f, r, g).sp <= f.len() + 1,
{
    if f[g.sp] == LEFT_BRACE {
        lemma_skip_nested(f, g.sp + 1, g.sp_lvl + 1);
    }
}

/// Reads a group up to its end (or the end of the format string).
pub open spec fn scan_group(f: Seq<u8>, r: NameRanges, g: GState) -> GState
    decreases f.len() + 2 - g.sp,
{
    if g.end_of_group || g.sp < 0 || g.sp >= f.len() {
        g
    } else {
        proof {
            lemma_scan_step(f, r, g);
        }
        scan_group(f, r, scan_step(f, r, g))
    }
}

/// A tie at the end of a written group becomes a space where the group
/// holds at least three text characters (a double tie loses one tie).
pub open spec fn tie_fix(out: Seq<u8>, out_start: int, lvl: i32) -> (Seq<u8>, i32) {
    if out.len() > 0 && out.last() == TIE {
        let o1 = out.drop_last();
        if at(o1, o1.len() - 1) != TIE {
            let e = enough_text(o1, out_start, lvl, 3);
            if !e.0 {
                (out, e.1)
            } else {
                (o1.push(SPACE), e.1)
            }
        } else {
            (o1, lvl)
        }
    } else {
        (out, lvl)
    }
}

/// Formatting a name: the position in the format string, the output, the
/// brace depth of the text count, the depth in the format string, the
/// current part, and what was wrong with the format.
pub struct FState {
    pub sp: int,
    pub out: Seq<u8>,
    pub lvl: i32,
    pub sp_lvl: int,
    pub cur: int,
    pub last: int,
    pub complaint: bool,
    pub unbalanced: bool,
}

/// One step of formatting: a group is read, and written where it names a
/// part that has tokens; other bytes at the top are copied.
pub open spec fn fmt_step(f: Seq<u8>, nv: NameView, st: FState) -> FState {
    let c = f[st.sp];
    if c == LEFT_BRACE {
        let g = scan_group(f, nv.r, GState {
            sp: st.sp + 1,
            sp_lvl: st.sp_lvl + 1,
            alpha_found: false,
            double: false,
            end_of_group: false,
            to_be_written: true,
            cur: st.cur,
            last: st.last,
            complaint: st.complaint,
        });
        if g.end_of_group && g.to_be_written {
            let out_start = st.out.len() as int;
            let w = write_group(f, nv, g.last, g.double, out_start, WState {
                sp: st.sp + 1,
                sp_lvl: 1,
                out: st.out,
                lvl: st.lvl,
                cur: g.cur,
            });
            let t = tie_fix(w.out, out_start, w.lvl);
            FState { sp: w.sp, out: t.0, lvl: t.1, sp_lvl: w.sp_lvl, cur: w.cur, last: g.last, complaint: g.complaint, ..st }
        } else {
            FState { sp: g.sp, sp_lvl: g.sp_lvl, cur: g.cur, last: g.last, complaint: g.complaint, ..st }
        }
    } else if c == RIGHT_BRACE {
        FState { sp: st.sp + 1, unbalanced: true, ..st }
    } else {
        FState { sp: st.sp + 1, out: st.out.push(c), ..st }
    }
}

pub proof fn lemma_fmt_step(f: Seq<u8>, nv: NameView, st: FState)
    requires
        0 <= st.sp < f.len(),
    ensures
        st.sp < fmt_step(f, nv, st).sp <= f.len() + 1,
{
    if f[st.sp] == LEFT_BRACE {
        let g0 = GState {
            sp: st.sp + 1,
            sp_lvl: st.sp_lvl + 1,
            alpha_found: false,
            double: false,
            end_of_group: false,
            to_be_written: true,
            cur: st.cur,
            last: st.last,
            complaint: st.complaint,
        };
        lemma_scan_group(f, nv.r, g0);
        let g = scan_group(f, nv.r, g0);
        if g.end_of_group && g.to_be_written {
            lemma_write_group(f, nv, g.last, g.double, st.out.len() as int, WState {
                sp: st.sp + 1,
                sp_lvl: 1,
                out: st.out,
                lvl: st.lvl,
                cur: g.cur,
            });
        }
    }
}

pub proof fn lemma_scan_group(f: Seq<u8>, r: NameRanges, g: GState)
    requires
        0 <= g.sp <= f.len() + 1,
    ensures
        g.sp <= scan_group(f, r, g).sp <= f.len() + 1,
    decreases f.len() + 2 - g.sp,
{
    if !(g.end_of_group || g.sp >= f.len()) {
        lemma_scan_step(f, r, g);
        lemma_scan_group(f, r, scan_step(f, r, g));
    }
}

pub proof fn lemma_write_group(f: Seq<u8>, nv: NameView, last: int, double: bool, out_start: int, w: WState)
    requires
        0 <= w.sp <= f.len() + 1,
    ensures
        w.sp <= write_group(f, nv, last, double, out_start, w).sp <= f.len() + 1,
    decreases f.len() + 2 - w.sp,
{
    if !(w.sp_lvl <= 0 || w.sp >= f.len()) {
        lemma_write_step(f, nv, last, double, out_start, w);
        lemma_write_group(f, nv, last, double, out_start, write_step(f, nv, last, double, out_start, w));
    }
}

/// Formatting from `st` to the end of the format string.
pub open spec fn fmt_run(f: Seq<u8>, nv: NameView, st: FState) -> FState
    decreases f.len() + 2 - st.sp,
{
    if st.sp < 0 || st.sp >= f.len() {
        st
    } else {
        proof {
            lemma_fmt_step(f, nv, st);
        }
        fmt_run(f, nv, fmt_step(f, nv, st))
    }
}

/// The formatted name: the output, the brace depth after it, whether the
/// format had a letter where none belongs, and whether its braces were
/// unbalanced.
pub open spec fn format_spec(f: Seq<u8>, nv: NameView, lvl: i32) -> (Seq<u8>, i32, bool, bool) {
    let st = fmt_run(f, nv, FState { sp: 0, out: Seq::empty(), lvl, sp_lvl: 0, cur: 0, last: 0, complaint: false, unbalanced: false });
    (st.out, st.lvl, st.complaint, st.unbalanced || st.sp_lvl > 0)
}


/// Whether the output from `start` holds at least `enough` text
/// characters; the brace depth `lvl` goes on from the last count.
pub fn enough_text_chars(s: &Vec<u8>, start: usize, lvl: &mut i32, enough: usize) -> (r: bool)
    requires
        start <= s@.len(),
    ensures
        r == enough_text(s@, start as int, *old(lvl), enough as int).0,
        *final(lvl) == enough_text(s@, start as int, *old(lvl), enough as int).1,
{
    let n = s.len();
    let mut y = start;
    let mut num: usize = 0;
    while y < n && num < enough
        invariant
            n == s@.len(),
            start <= y <= n,
            num <= enough,
            count_text(s@, start as int, 0, *old(lvl), enough as int) == count_text(s@, y as int, num as int, *lvl, enough as int),
        decreases n - y,
    {
        let c = s[y];
        if c == LEFT_BRACE {
            let l1 = lvl.wrapping_add(1);
            if l1 == 1 && y + 1 < n && s[y + 1] == BACKSLASH {
                let (p, q) = skip_group_exec(s, y + 2, 1);
                proof {
                    lemma_skip_group(s@, y + 2, 1);
                }
                y = p;
                *lvl = #[verifier::truncate] (q as i32);
            } else {
                y = y + 1;
                *lvl = l1;
            }
        } else if c == RIGHT_BRACE {
            *lvl = lvl.wrapping_sub(1);
            y = y + 1;
        } else {
            y = y + 1;
        }
        num = num + 1;
    }
    num >= enough
}

/// Appends what the token `sv[p..e]` contributes to an abbreviation (see
/// `token_initial`).
fn push_token_initial(sv: &Vec<u8>, p: usize, e: usize, out: &mut Vec<u8>)
    requires
        p <= e <= sv@.len(),
    ensures
        final(out)@ == old(out)@ + token_initial(sv@, p as int, e as int),
{
    let mut q = p;
    while q < e
        invariant
            p <= q <= e <= sv@.len(),
            token_initial(sv@, p as int, e as int) == token_initial(sv@, q as int, e as int),
            out@ == old(out)@,
        decreases e - q,
    {
        let c = sv[q];
        if (65 <= c && c <= 90) || (97 <= c && c <= 122) {
            out.push(c);
            proof {
                assert(out@ =~= old(out)@ + seq![c]);
            }
            return;
        }
        if q + 1 < e && c == LEFT_BRACE && sv[q + 1] == BACKSLASH {
            let mut k = q + 2;
            let mut lvl: usize = 1;
            proof {
                lemma_group_end(sv@, q + 2, e as int, 1);
            }
            while k < e && lvl > 0
                invariant
                    q + 2 <= k <= e <= sv@.len(),
                    lvl <= k - q - 1,
                    group_end(sv@, q + 2, e as int, 1) == group_end(sv@, k as int, e as int, lvl as int),
                decreases e - k,
            {
                let d = sv[k];
                if d == RIGHT_BRACE {
                    lvl = lvl - 1;
                } else if d == LEFT_BRACE {
                    lvl = lvl + 1;
                }
                k = k + 1;
            }
            let mut j = q;
            while j < k
                invariant
                    q <= j <= k <= e <= sv@.len(),
                    out@ == old(out)@ + sv@.subrange(q as int, j as int),
                decreases k - j,
            {
                out.push(sv[j]);
                proof {
                    assert(sv@.subrange(q as int, j + 1) =~= sv@.subrange(q as int, j as int).push(sv@[j as int]));
                }
                j = j + 1;
            }
            return;
        }
        q = q + 1;
    }
    proof {
        assert(out@ =~= old(out)@ + Seq::<u8>::empty());
    }
}

fn push_range(src: &Vec<u8>, a: usize, b: usize, out: &mut Vec<u8>)
    requires
        a <= b <= src@.len(),
    ensures
        final(out)@ == old(out)@ + src@.subrange(a as int, b as int),
{
    let mut j = a;
    while j < b
        invariant
            a <= j <= b <= src@.len(),
            out@ == old(out)@ + src@.subrange(a as int, j as int),
        decreases b - j,
    {
        out.push(src[j]);
        proof {
            assert(src@.subrange(a as int, j + 1) =~= src@.subrange(a as int, j as int).push(src@[j as int]));
        }
        j = j + 1;
    }
}

/// The tokens of a name are well formed: their starts (and the end of the
/// last one) rise within `sv`, and each has its separator.
pub open spec fn toks_ok(sv: Seq<u8>, toks: Seq<usize>, seps: Seq<u8>) -> bool {
    &&& toks.len() >= 1
    &&& seps.len() == toks.len() - 1
    &&& forall|a: int, b: int| 0 <= a <= b < toks.len() ==> #[trigger] toks[a] <= #[trigger] toks[b] <= sv.len()
}

/// Writes the tokens `cur..last` of a name part (see `write_part`); the
/// separator given in the format is `f[x1..x2]`.
fn write_part_exec(
    sv: &Vec<u8>,
    toks: &Vec<usize>,
    seps: &Vec<u8>,
    last: i64,
    double: bool,
    use_default: bool,
    f: &Vec<u8>,
    x1: usize,
    x2: usize,
    out_start: usize,
    out: &mut Vec<u8>,
    lvl: &mut i32,
    cur: &mut i64,
)
    requires
        toks_ok(sv@, toks@, seps@),
        last <= toks@.len() - 1,
        x1 <= x2 <= f@.len(),
        out_start <= old(out)@.len(),
    ensures
        old(out)@.len() <= final(out)@.len(),
        ({
            let p = write_part(
                sv@,
                toks@.map_values(|x: usize| x as int),
                seps@,
                last as int,
                double,
                use_default,
                f@.subrange(x1 as int, x2 as int),
                out_start as int,
                PartState { out: old(out)@, lvl: *old(lvl), cur: *old(cur) as int },
            );
            &&& final(out)@ == p.out
            &&& *final(lvl) == p.lvl
            &&& *final(cur) == p.cur
        }),
{
    let ghost tv = toks@.map_values(|x: usize| x as int);
    let ghost custom = f@.subrange(x1 as int, x2 as int);
    let ghost p0 = PartState { out: old(out)@, lvl: *old(lvl), cur: *old(cur) as int };
    let tl = toks.len();
    while *cur < last && *cur >= 0 && ((*cur as usize) < tl - 1)
        invariant
            tl == toks@.len(),
            toks_ok(sv@, toks@, seps@),
            last <= toks@.len() - 1,
            x1 <= x2 <= f@.len(),
            out_start <= out@.len(),
            old(out)@.len() <= out@.len(),
            tv == toks@.map_values(|x: usize| x as int),
            custom == f@.subrange(x1 as int, x2 as int),
            write_part(sv@, tv, seps@, last as int, double, use_default, custom, out_start as int, p0)
                == write_part(sv@, tv, seps@, last as int, double, use_default, custom, out_start as int, PartState { out: out@, lvl: *lvl, cur: *cur as int }),
        decreases last - *cur,
    {
        let ghost st = PartState { out: out@, lvl: *lvl, cur: *cur as int };
        let c = *cur as usize;
        let a = toks[c];
        let b = toks[c + 1];
        assert(tv[c as int] == a && tv[c + 1] == b);
        if double {
            push_range(sv, a, b, out);
        } else {
            push_token_initial(sv, a, b, out);
        }
        *cur = *cur + 1;
        if *cur < last {
            if use_default {
                if !double {
                    out.push(PERIOD);
                }
                let sc = seps[*cur as usize];
                if lex_class(sc) == LexType::SepChar {
                    out.push(sc);
                } else if *cur == last - 1 {
                    out.push(TIE);
                } else {
                    let e = enough_text_chars(out, out_start, lvl, 3);
                    out.push(if e { SPACE } else { TIE });
                }
            } else {
                push_range(f, x1, x2, out);
            }
        }
        proof {
            assert(st.cur + 1 < tv.len());
        }
    }
}

fn skip_nested_exec(f: &Vec<u8>, p: usize, lvl: i64) -> (r: (usize, i64))
    requires
        p <= f@.len(),
        f@.len() < 0x1000_0000_0000_0000,
        0 <= lvl < 0x2000_0000_0000_0000,
    ensures
        r.0 == skip_nested(f@, p as int, lvl as int).0,
        r.1 == skip_nested(f@, p as int, lvl as int).1,
        p <= r.0 <= f@.len(),
        0 <= r.1 <= lvl + (r.0 - p),
        lvl >= 1 ==> r.1 >= 1,
{
    let n = f.len();
    let mut q = p;
    let mut l = lvl;
    while l > 1 && q < n
        invariant
            n == f@.len(),
            n < 0x1000_0000_0000_0000,
            p <= q <= n,
            0 <= l <= lvl + (q - p),
            lvl >= 1 ==> l >= 1,
            lvl < 0x2000_0000_0000_0000,
            skip_nested(f@, p as int, lvl as int) == skip_nested(f@, q as int, l as int),
        decreases n - q,
    {
        if f[q] == RIGHT_BRACE {
            l = l - 1;
        } else if f[q] == LEFT_BRACE {
            l = l + 1;
        }
        q = q + 1;
    }
    (q, l)
}

fn at_exec(f: &Vec<u8>, p: usize) -> (r: u8)
    ensures
        r == at(f@, p as int),
{
    if p < f.len() {
        f[p]
    } else {
        0
    }
}

fn is_letter_u8(c: u8) -> (r: bool)
    ensures
        r == (is_upper(c) || is_lower(c)),
{
    (65 <= c && c <= 90) || (97 <= c && c <= 122)
}

/// The tokens and parts of a name, for writing it.
pub struct NameParts {
    pub sv: Vec<u8>,
    pub toks: Vec<usize>,
    pub seps: Vec<u8>,
    pub first_start: i64,
    pub first_end: i64,
    pub von_start: i64,
    pub von_end: i64,
    pub last_end: i64,
    pub jr_end: i64,
}

/// The plain values of a name's tokens and parts.
pub open spec fn parts_view(np: NameParts) -> NameView {
    NameView {
        sv: np.sv@,
        toks: np.toks@.map_values(|x: usize| x as int),
        seps: np.seps@,
        r: NameRanges {
            first_start: np.first_start as int,
            first_end: np.first_end as int,
            von_start: np.von_start as int,
            von_end: np.von_end as int,
            last_end: np.last_end as int,
            jr_end: np.jr_end as int,
        },
    }
}

/// The parts end no later than the last token.
pub open spec fn parts_ok(np: NameParts) -> bool {
    &&& toks_ok(np.sv@, np.toks@, np.seps@)
    &&& np.first_end <= np.toks@.len() - 1
    &&& np.von_end <= np.toks@.len() - 1
    &&& np.last_end <= np.toks@.len() - 1
    &&& np.jr_end <= np.toks@.len() - 1
}

/// Writes a group of the format string from `*sp` (see `write_group`).
fn write_group_exec(
    f: &Vec<u8>,
    np: &NameParts,
    last: i64,
    double: bool,
    out_start: usize,
    sp: &mut usize,
    sp_lvl: &mut i64,
    out: &mut Vec<u8>,
    lvl: &mut i32,
    cur: &mut i64,
)
    requires
        parts_ok(*np),
        last <= np.toks@.len() - 1,
        f@.len() < 0x1000_0000_0000_0000,
        f@.len() + 3 < usize::MAX,
        1 <= *old(sp) <= f@.len() + 1,
        *old(sp_lvl) == 1,
        out_start <= old(out)@.len(),
    ensures
        ({
            let w = write_group(f@, parts_view(*np), last as int, double, out_start as int, WState {
                sp: *old(sp) as int,
                sp_lvl: *old(sp_lvl) as int,
                out: old(out)@,
                lvl: *old(lvl),
                cur: *old(cur) as int,
            });
            &&& *final(sp) == w.sp
            &&& *final(sp_lvl) == w.sp_lvl
            &&& final(out)@ == w.out
            &&& *final(lvl) == w.lvl
            &&& *final(cur) == w.cur
        }),
        *final(sp) <= f@.len() + 1,
        0 <= *final(sp_lvl) <= *final(sp) + 1,
        out_start <= final(out)@.len(),
{
    let ghost nv = parts_view(*np);
    let ghost w0 = WState { sp: *sp as int, sp_lvl: *sp_lvl as int, out: out@, lvl: *lvl, cur: *cur as int };
    let n = f.len();
    while *sp_lvl > 0 && *sp < n
        invariant
            n == f@.len(),
            n < 0x1000_0000_0000_0000,
            n + 3 < usize::MAX,
            nv == parts_view(*np),
            parts_ok(*np),
            last <= np.toks@.len() - 1,
            1 <= *sp <= n + 1,
            0 <= *sp_lvl <= *sp + 1,
            out_start <= out@.len(),
            write_group(f@, nv, last as int, double, out_start as int, w0)
                == write_group(f@, nv, last as int, double, out_start as int, WState { sp: *sp as int, sp_lvl: *sp_lvl as int, out: out@, lvl: *lvl, cur: *cur as int }),
        decreases n + 2 - *sp,
    {
        let ghost w = WState { sp: *sp as int, sp_lvl: *sp_lvl as int, out: out@, lvl: *lvl, cur: *cur as int };
        proof {
            lemma_write_step(f@, nv, last as int, double, out_start as int, w);
        }
        let c = f[*sp];
        if is_letter_u8(c) && *sp_lvl == 1 {
            let sp1 = *sp + 1 + if double { 1 } else { 0 };
            if at_exec(f, sp1) == LEFT_BRACE {
                let x1 = sp1 + 1;
                let (k0, k1) = skip_nested_exec(f, x1, 2);
                let x2 = if k0 >= x1 + 1 { k0 - 1 } else { x1 };
                proof {
                    if !(k0 >= x1 + 1) {
                        assert(f@.subrange(x1 as int, x2 as int) =~= Seq::<u8>::empty());
                    }
                }
                write_part_exec(&np.sv, &np.toks, &np.seps, last, double, false, f, x1, x2, out_start, out, lvl, cur);
                *sp = k0;
                *sp_lvl = k1;
            } else {
                proof {
                    assert(f@.subrange(0, 0) =~= Seq::<u8>::empty());
                }
                write_part_exec(&np.sv, &np.toks, &np.seps, last, double, true, f, 0, 0, out_start, out, lvl, cur);
                *sp = sp1;
            }
        } else if c == RIGHT_BRACE {
            *sp_lvl = *sp_lvl - 1;
            *sp = *sp + 1;
            if *sp_lvl > 0 {
                out.push(RIGHT_BRACE);
            }
        } else if c == LEFT_BRACE {
            *sp_lvl = *sp_lvl + 1;
            *sp = *sp + 1;
            out.push(LEFT_BRACE);
        } else {
            out.push(c);
            *sp = *sp + 1;
        }
    }
}

fn part_of_exec(np: &NameParts, c: u8) -> (r: Option<(i64, i64)>)
    ensures
        match part_of(parts_view(*np).r, c) {
            Some(pr) => r == Some((pr.0 as i64, pr.1 as i64)),
            None => r is None,
        },
{
    if c == 102 || c == 70 {
        Some((np.first_start, np.first_end))
    } else if c == 118 || c == 86 {
        Some((np.von_start, np.von_end))
    } else if c == 108 || c == 76 {
        Some((np.von_end, np.last_end))
    } else if c == 106 || c == 74 {
        Some((np.last_end, np.jr_end))
    } else {
        None
    }
}

/// Reading a group of the format string, as executed.
struct GroupScan {
    sp: usize,
    sp_lvl: i64,
    alpha_found: bool,
    double: bool,
    end_of_group: bool,
    to_be_written: bool,
    cur: i64,
    last: i64,
    complaint: bool,
}

spec fn gview(g: GroupScan) -> GState {
    GState {
        sp: g.sp as int,
        sp_lvl: g.sp_lvl as int,
        alpha_found: g.alpha_found,
        double: g.double,
        end_of_group: g.end_of_group,
        to_be_written: g.to_be_written,
        cur: g.cur as int,
        last: g.last as int,
        complaint: g.complaint,
    }
}

/// The tokens of a part are those of one of the parts of the name, or the
/// ones the formatting started with.
spec fn part_bound(np: NameParts, cur0: i64, last0: i64, cur: i64, last: i64) -> bool {
    &&& (cur == cur0 || cur == np.first_start || cur == np.von_start || cur == np.von_end || cur == np.last_end)
    &&& (last == last0 || last == np.first_end || last == np.von_end || last == np.last_end || last == np.jr_end)
}

/// Reads a group of the format string (see `scan_group`).
fn scan_group_exec(f: &Vec<u8>, np: &NameParts, g: &mut GroupScan)
    requires
        f@.len() < 0x1000_0000_0000_0000,
        f@.len() + 3 < usize::MAX,
        old(g).sp <= f@.len() + 1,
        1 <= old(g).sp_lvl <= old(g).sp + 1,
        !old(g).alpha_found,
        !old(g).double,
        !old(g).end_of_group,
    ensures
        gview(*final(g)) == scan_group(f@, parts_view(*np).r, gview(*old(g))),
        final(g).sp <= f@.len() + 1,
        0 <= final(g).sp_lvl <= final(g).sp + 1,
        part_bound(*np, old(g).cur, old(g).last, final(g).cur, final(g).last),
{
    let ghost r0 = parts_view(*np).r;
    let ghost g0 = gview(*g);
    let n = f.len();
    while !g.end_of_group && g.sp < n
        invariant
            n == f@.len(),
            n < 0x1000_0000_0000_0000,
            n + 3 < usize::MAX,
            r0 == parts_view(*np).r,
            g.sp <= n + 1,
            0 <= g.sp_lvl <= g.sp + 1,
            !g.end_of_group ==> 1 <= g.sp_lvl,
            part_bound(*np, old(g).cur, old(g).last, g.cur, g.last),
            scan_group(f@, r0, g0) == scan_group(f@, r0, gview(*g)),
        decreases n + 2 - g.sp,
    {
        proof {
            lemma_scan_step(f@, r0, gview(*g));
        }
        let c = f[g.sp];
        if is_letter_u8(c) {
            let sp1 = g.sp + 1;
            if g.alpha_found {
                g.sp = sp1;
                g.complaint = true;
                g.to_be_written = false;
            } else {
                match part_of_exec(np, c) {
                    Some((a, b)) => {
                        let nx = at_exec(f, sp1);
                        let d = (nx == c || c as u16 + 32 == nx as u16 || c as u16 == nx as u16 + 32) && is_letter_u8(nx);
                        g.sp = if d { sp1 + 1 } else { sp1 };
                        g.alpha_found = true;
                        g.double = d;
                        g.to_be_written = g.to_be_written && a != b;
                        g.cur = a;
                        g.last = b;
                    },
                    None => {
                        g.sp = sp1;
                        g.alpha_found = true;
                        g.complaint = true;
                        g.to_be_written = false;
                    },
                }
            }
        } else if c == RIGHT_BRACE {
            g.sp = g.sp + 1;
            g.sp_lvl = g.sp_lvl - 1;
            g.end_of_group = true;
        } else if c == LEFT_BRACE {
            let (k0, k1) = skip_nested_exec(f, g.sp + 1, g.sp_lvl + 1);
            g.sp = k0;
            g.sp_lvl = k1;
        } else {
            g.sp = g.sp + 1;
        }
    }
}

/// Turns a tie at the end of a written group into a space (see `tie_fix`).
fn tie_fix_exec(out: &mut Vec<u8>, out_start: usize, lvl: &mut i32)
    requires
        out_start <= old(out)@.len(),
    ensures
        final(out)@ == tie_fix(old(out)@, out_start as int, *old(lvl)).0,
        *final(lvl) == tie_fix(old(out)@, out_start as int, *old(lvl)).1,
{
    let n = out.len();
    if n > 0 && out[n - 1] == TIE {
        let ghost o1 = out@.drop_last();
        let _ = out.pop();
        assert(out@ == o1);
        let before = if n >= 2 { out[n - 2] } else { 0 };
        assert(before == at(o1, o1.len() - 1));
        if before != TIE {
            let e = if out_start <= n - 1 {
                enough_text_chars(out, out_start, lvl, 3)
            } else {
                false
            };
            if !e {
                out.push(TIE);
                proof {
                    assert(out@ =~= old(out)@);
                }
            } else {
                out.push(SPACE);
            }
        }
    }
}

/// `figure_out_the_formatted_name`: writes a name by a format string (see
/// `format_spec`), starting from the brace depth `lvl` of the text counts.
/// Returns the output, the depth after it, whether the format had a stray
/// letter, and whether its braces were unbalanced.
pub fn figure_out_the_formatted_name(f: &Vec<u8>, np: &NameParts, lvl: i32) -> (r: (Vec<u8>, i32, bool, bool))
    requires
        parts_ok(*np),
        f@.len() < 0x1000_0000_0000_0000,
        f@.len() + 3 < usize::MAX,
    ensures
        ({
            let s = format_spec(f@, parts_view(*np), lvl);
            r.0@ == s.0 && r.1 == s.1 && r.2 == s.2 && r.3 == s.3
        }),
{
    let ghost nv = parts_view(*np);
    let ghost st0 = FState { sp: 0, out: Seq::empty(), lvl, sp_lvl: 0, cur: 0, last: 0, complaint: false, unbalanced: false };
    let n = f.len();
    let mut sp: usize = 0;
    let mut out: Vec<u8> = Vec::new();
    let mut l: i32 = lvl;
    let mut sp_lvl: i64 = 0;
    let mut cur: i64 = 0;
    let mut last: i64 = 0;
    let mut complaint = false;
    let mut unbalanced = false;
    proof {
        assert(out@ =~= st0.out);
    }
    while sp < n
        invariant
            n == f@.len(),
            n < 0x1000_0000_0000_0000,
            n + 3 < usize::MAX,
            nv == parts_view(*np),
            parts_ok(*np),
            sp <= n + 1,
            0 <= sp_lvl <= sp + 1,
            last <= np.toks@.len() - 1,
            fmt_run(f@, nv, st0) == fmt_run(f@, nv, FState {
                sp: sp as int,
                out: out@,
                lvl: l,
                sp_lvl: sp_lvl as int,
                cur: cur as int,
                last: last as int,
                complaint,
                unbalanced,
            }),
        decreases n + 2 - sp,
    {
        let ghost st = FState { sp: sp as int, out: out@, lvl: l, sp_lvl: sp_lvl as int, cur: cur as int, last: last as int, complaint, unbalanced };
        proof {
            lemma_fmt_step(f@, nv, st);
        }
        let c = f[sp];
        if c == LEFT_BRACE {
            let mut g = GroupScan {
                sp: sp + 1,
                sp_lvl: sp_lvl + 1,
                alpha_found: false,
                double: false,
                end_of_group: false,
                to_be_written: true,
                cur,
                last,
                complaint,
            };
            scan_group_exec(f, np, &mut g);
            if g.end_of_group && g.to_be_written {
                let out_start = out.len();
                let mut w_sp = sp + 1;
                let mut w_lvl: i64 = 1;
                let mut w_cur = g.cur;
                write_group_exec(f, np, g.last, g.double, out_start, &mut w_sp, &mut w_lvl, &mut out, &mut l, &mut w_cur);
                tie_fix_exec(&mut out, out_start, &mut l);
                sp = w_sp;
                sp_lvl = w_lvl;
                cur = w_cur;
                last = g.last;
                complaint = g.complaint;
            } else {
                sp = g.sp;
                sp_lvl = g.sp_lvl;
                cur = g.cur;
                last = g.last;
                complaint = g.complaint;
            }
        } else if c == RIGHT_BRACE {
            unbalanced = true;
            sp = sp + 1;
        } else {
            out.push(c);
            sp = sp + 1;
        }
    }
    (out, l, complaint, unbalanced || sp_lvl > 0)
}

/// Where the `n`th name of `s` lies: the names are scanned one after the
/// other from `p` (`num` scanned so far, the last one from `xptr`, the
/// brace depth `lvl` after it). Returns where the last scanned name starts
/// and where its scan stopped, how many names were scanned, and the depth.
pub open spec fn name_search(s: Seq<u8>, n: int, p: int, num: int, xptr: int, lvl: int) -> (int, int, int, int)
    decreases s.len() - p,
{
    if num < n && 0 <= p < s.len() {
        proof {
            lemma_and_scan(s, p, 0, false);
        }
        name_search(s, n, and_scan(s, p, 0, false), num + 1, p, and_scan_level(s, p, 0, false))
    } else {
        (xptr, p, num, lvl)
    }
}

/// Where a name ends once the white space, `~`, `-` and commas at its end
/// are dropped.
pub open spec fn trim_end(s: Seq<u8>, x: int, p: int) -> int
    decreases p,
{
    if p > x && 1 <= p <= s.len() && (lex_class_spec(s[p - 1]) == LexType::WhiteSpace || lex_class_spec(s[p - 1])
        == LexType::SepChar || s[p - 1] == COMMA) {
        trim_end(s, x, p - 1)
    } else {
        p
    }
}

/// Whether a comma is among what `trim_end` drops.
pub open spec fn comma_at_end(s: Seq<u8>, x: int, p: int) -> bool
    decreases p,
{
    if p > x && 1 <= p <= s.len() && (lex_class_spec(s[p - 1]) == LexType::WhiteSpace || lex_class_spec(s[p - 1])
        == LexType::SepChar || s[p - 1] == COMMA) {
        s[p - 1] == COMMA || comma_at_end(s, x, p - 1)
    } else {
        false
    }
}

/// An "and" that ends a scan stands at least four bytes on.
proof fn lemma_and_scan_far(s: Seq<u8>, p: int, lvl: int, pw: bool)
    requires
        0 <= p,
        0 <= lvl,
    ensures
        and_scan(s, p, lvl, pw) < s.len() ==> and_scan(s, p, lvl, pw) >= p + if pw { 3int } else { 4int },
    decreases s.len() - p,
{
    if p < s.len() {
        let c = s[p];
        if c == 97 || c == 65 {
            lemma_and_scan_far(s, p + 1, lvl, false);
        } else if c == LEFT_BRACE {
            lemma_skip_group(s, p + 1, lvl + 1);
            let r = skip_group(s, p + 1, lvl + 1);
            lemma_and_scan_far(s, r.0, r.1, false);
        } else if c == RIGHT_BRACE {
            lemma_and_scan_far(s, p + 1, if lvl > 0 { lvl - 1 } else { lvl }, false);
        } else {
            lemma_and_scan_far(s, p + 1, lvl, is_white(c));
        }
    }
}

proof fn lemma_and_scan_level(s: Seq<u8>, p: int, lvl: int, pw: bool)
    requires
        0 <= p,
        0 <= lvl,
    ensures
        0 <= and_scan_level(s, p, lvl, pw) <= lvl + if p > s.len() { 0 } else { s.len() - p },
    decreases s.len() - p,
{
    if p < s.len() {
        let c = s[p];
        if c == 97 || c == 65 {
            lemma_and_scan_level(s, p + 1, lvl, false);
        } else if c == LEFT_BRACE {
            lemma_skip_group(s, p + 1, lvl + 1);
            lemma_skip_group_level(s, p + 1, lvl + 1);
            let r = skip_group(s, p + 1, lvl + 1);
            lemma_and_scan_level(s, r.0, r.1, false);
        } else if c == RIGHT_BRACE {
            lemma_and_scan_level(s, p + 1, if lvl > 0 { lvl - 1 } else { lvl }, false);
        } else {
            lemma_and_scan_level(s, p + 1, lvl, is_white(c));
        }
    }
}

proof fn lemma_skip_group_level(s: Seq<u8>, j: int, lvl: int)
    requires
        0 <= j,
        0 <= lvl,
    ensures
        skip_group(s, j, lvl).1 <= lvl + (skip_group(s, j, lvl).0 - j),
    decreases s.len() - j,
{
    if j < s.len() && lvl > 0 {
        if s[j] == RIGHT_BRACE {
            lemma_skip_group_level(s, j + 1, lvl - 1);
        } else if s[j] == LEFT_BRACE {
            lemma_skip_group_level(s, j + 1, lvl + 1);
        } else {
            lemma_skip_group_level(s, j + 1, lvl);
        }
    }
}

proof fn lemma_name_search(s: Seq<u8>, n: int, p: int, num: int, xptr: int, lvl: int)
    requires
        0 <= xptr <= p <= s.len(),
        0 <= lvl <= s.len(),
        xptr < p ==> (p < s.len() ==> p >= xptr + 4),
    ensures
        ({
            let r = name_search(s, n, p, num, xptr, lvl);
            &&& 0 <= r.0 <= r.1 <= s.len()
            &&& 0 <= r.3 <= s.len()
            &&& r.0 < r.1 ==> (r.1 < s.len() ==> r.1 >= r.0 + 4)
        }),
    decreases s.len() - p,
{
    if num < n && 0 <= p < s.len() {
        lemma_and_scan(s, p, 0, false);
        lemma_and_scan_far(s, p, 0, false);
        lemma_and_scan_level(s, p, 0, false);
        name_search_step_bound(s, p);
        lemma_name_search(s, n, and_scan(s, p, 0, false), num + 1, p, and_scan_level(s, p, 0, false));
    }
}

proof fn name_search_step_bound(s: Seq<u8>, p: int)
    requires
        0 <= p < s.len(),
    ensures
        and_scan_level(s, p, 0, false) <= s.len(),
{
    lemma_and_scan_level(s, p, 0, false);
}

/// Which name of `s` the `n`th is, as `format.name$` takes it: where it
/// starts and ends (the white space, ties, hyphens and commas at its end
/// dropped), the brace depth where its scan stopped, and whether `s` holds
/// fewer than `n` names (then the last one is taken). For `n` below 1 the
/// name is empty.
pub open spec fn chosen_name(s: Seq<u8>, n: int) -> (int, int, int, bool) {
    let r = name_search(s, n, 0, 0, 0, 0);
    let p = if r.0 < r.1 && r.1 < s.len() { r.1 - 4 } else { r.1 };
    (r.0, trim_end(s, r.0, p), r.3, r.2 < n)
}

/// Whether the `n`th name of `s` ended in a comma.
pub open spec fn chosen_comma_at_end(s: Seq<u8>, n: int) -> bool {
    let r = name_search(s, n, 0, 0, 0, 0);
    let p = if r.0 < r.1 && r.1 < s.len() { r.1 - 4 } else { r.1 };
    comma_at_end(s, r.0, p)
}

/// The tokens of the `n`th name of `s`.
pub open spec fn chosen_tokens(s: Seq<u8>, n: int) -> TokState {
    let c = chosen_name(s, n);
    tok_run(s.subrange(c.0, c.1), tok_init(c.2))
}

/// The tokens and parts of the `n`th name of `s`, as the format reads them.
pub open spec fn chosen_view(s: Seq<u8>, n: int) -> NameView {
    let t = chosen_tokens(s, n);
    let toks = t.toks.push(t.sv.len() as int);
    NameView {
        sv: t.sv,
        toks,
        seps: t.seps,
        r: name_ranges(t.sv, toks, t.seps, toks.len() - 1, t.commas, t.comma1, t.comma2),
    }
}

/// A name written by `format.name$`, and what was wrong on the way.
pub struct FormattedName {
    /// The formatted name.
    pub text: Vec<u8>,
    /// The names string holds fewer names than the one asked for.
    pub too_few_names: bool,
    /// The name ended in a comma.
    pub comma_at_end: bool,
    /// The name has more than two commas (those after the second are
    /// dropped).
    pub too_many_commas: bool,
    /// The name has a right brace without its left one.
    pub name_unbalanced: bool,
    /// The format string has a letter at brace depth 1 that names no part,
    /// or a second one in a group.
    pub format_letter: bool,
    /// The braces of the format string are unbalanced.
    pub format_unbalanced: bool,
}

/// `format.name$`: writes the `n`th name of `names` (names are separated
/// by "and") by the format string `format`.
pub fn format_name(names: &Vec<u8>, n: i32, format: &Vec<u8>) -> (r: FormattedName)
    requires
        names@.len() < 0x4000_0000,
        format@.len() < 0x4000_0000,
    ensures
        ({
            let c = chosen_name(names@, n as int);
            let t = chosen_tokens(names@, n as int);
            let out = format_spec(format@, chosen_view(names@, n as int), t.lvl as i32);
            &&& r.text@ == out.0
            &&& r.format_letter == out.2
            &&& r.format_unbalanced == out.3
            &&& r.too_few_names == c.3
            &&& r.comma_at_end == chosen_comma_at_end(names@, n as int)
            &&& r.too_many_commas == t.too_many_commas
            &&& r.name_unbalanced == t.unbalanced
        }),
{
    let len = names.len();
    let mut p: usize = 0;
    let mut num: i32 = 0;
    let mut xptr: usize = 0;
    let mut lvl: usize = 0;
    proof {
        lemma_name_search(names@, n as int, 0, 0, 0, 0);
    }
    while num < n && p < len
        invariant
            len == names@.len(),
            len < 0x4000_0000,
            xptr <= p <= len,
            lvl <= len,
            0 <= num,
            xptr < p ==> (p < len ==> p >= xptr + 4),
            name_search(names@, n as int, 0, 0, 0, 0) == name_search(names@, n as int, p as int, num as int, xptr as int, lvl as int),
        decreases len - p,
    {
        let (q, l) = name_scan_for_and(names, p);
        proof {
            lemma_and_scan_far(names@, p as int, 0, false);
            lemma_and_scan_level(names@, p as int, 0, false);
        }
        num = num + 1;
        xptr = p;
        p = q;
        lvl = l;
    }
    let ghost srch = name_search(names@, n as int, 0, 0, 0, 0);
    assert(srch == (xptr as int, p as int, num as int, lvl as int));
    let too_few_names = num < n;
    let e0: usize = if xptr < p && p < len { p - 4 } else { p };
    let mut e: usize = e0;
    let mut comma_end = false;
    while e > xptr && (lex_class(names[e - 1]) == LexType::WhiteSpace || lex_class(names[e - 1]) == LexType::SepChar
        || names[e - 1] == COMMA)
        invariant
            len == names@.len(),
            xptr <= e <= e0 <= len,
            trim_end(names@, xptr as int, e0 as int) == trim_end(names@, xptr as int, e as int),
            comma_at_end(names@, xptr as int, e0 as int) == (comma_end || comma_at_end(names@, xptr as int, e as int)),
        decreases e,
    {
        if names[e - 1] == COMMA {
            comma_end = true;
        }
        e = e - 1;
    }
    let ghost ch = chosen_name(names@, n as int);
    assert(trim_end(names@, xptr as int, e as int) == e as int);
    assert(!comma_at_end(names@, xptr as int, e as int));
    assert(ch == (xptr as int, e as int, lvl as int, too_few_names));
    assert(comma_end == chosen_comma_at_end(names@, n as int));
    let mut name: Vec<u8> = Vec::new();
    push_range(names, xptr, e, &mut name);
    assert(name@ == names@.subrange(ch.0, ch.1));
    let t = tokenize_name(&name, lvl);
    let ghost tst = chosen_tokens(names@, n as int);
    assert(tokens_of(t, tst));
    let rg = find_name_ranges(&t);
    let tl = t.lvl;
    let too_many_commas = t.too_many_commas;
    let name_unbalanced = t.unbalanced;
    let np = NameParts {
        sv: t.sv,
        toks: t.toks,
        seps: t.seps,
        first_start: rg.0,
        first_end: rg.1,
        von_start: rg.2,
        von_end: rg.3,
        last_end: rg.4,
        jr_end: rg.5,
    };
    assert(parts_view(np) == chosen_view(names@, n as int));
    assert(tl as i32 == tst.lvl as i32);
    let (text, _l, format_letter, format_unbalanced) = figure_out_the_formatted_name(format, &np, tl as i32);
    FormattedName {
        text,
        too_few_names,
        comma_at_end: comma_end,
        too_many_commas,
        name_unbalanced,
        format_letter,
        format_unbalanced,
    }
}

/// The search for a name counts the names it passes, up to the one asked
/// for.
proof fn lemma_name_search_count(s: Seq<u8>, n: int, p: int, num: int, xptr: int, lvl: int)
    requires
        0 <= p,
    ensures
        name_search(s, n, p, num, xptr, lvl).2 == if num < n {
            num + if n - num < num_names_from(s, p) { n - num } else { num_names_from(s, p) }
        } else {
            num
        },
        0 <= num_names_from(s, p),
    decreases s.len() - p,
{
    if p < s.len() {
        lemma_and_scan(s, p, 0, false);
        lemma_name_search_count(s, n, and_scan(s, p, 0, false), num + 1, p, and_scan_level(s, p, 0, false));
    }
}

/// A byte of a word of a name: not a comma, brace, white space or `~`/`-`.
pub open spec fn word_byte(c: u8) -> bool {
    c != COMMA && c != LEFT_BRACE && c != RIGHT_BRACE && lex_class_spec(c) != LexType::WhiteSpace && lex_class_spec(c)
        != LexType::SepChar
}

/// A nonempty run of word bytes.
pub open spec fn plain_word(w: Seq<u8>) -> bool {
    w.len() >= 1 && forall|k: int| 0 <= k < w.len() ==> word_byte(#[trigger] w[k])
}

/// The tokenizer reads the word bytes from `st.i` to `e` into one token
/// (a new one where it was about to start one).
proof fn lemma_tok_word(name: Seq<u8>, st: TokState, e: int)
    requires
        0 <= st.i < e <= name.len(),
        0 <= st.lvl,
        forall|k: int| st.i <= k < e ==> word_byte(#[trigger] name[k]),
    ensures
        tok_run(name, st) == tok_run(
            name,
            TokState {
                i: e,
                sv: st.sv + name.subrange(st.i, e),
                toks: if st.starting { st.toks.push(st.sv.len() as int) } else { st.toks },
                seps: if st.starting { st.seps.push(st.pending) } else { st.seps },
                starting: false,
                ..st
            },
        ),
    decreases e - st.i,
{
    let c = name[st.i];
    assert(word_byte(c));
    let s1 = if st.starting { start_token(st) } else { st };
    let nx = TokState { i: st.i + 1, sv: s1.sv.push(c), starting: false, ..s1 };
    assert(tok_step(name, st) == nx);
    if st.i + 1 < e {
        lemma_tok_word(name, nx, e);
        assert(nx.sv + name.subrange(st.i + 1, e) =~= st.sv + name.subrange(st.i, e));
    } else {
        assert(nx.sv =~= st.sv + name.subrange(st.i, e));
    }
    let w = TokState {
        i: e,
        sv: st.sv + name.subrange(st.i, e),
        toks: if st.starting { st.toks.push(st.sv.len() as int) } else { st.toks },
        seps: if st.starting { st.seps.push(st.pending) } else { st.seps },
        starting: false,
        ..st
    };
    if st.i + 1 < e {
        assert(TokState { i: e, sv: nx.sv + name.subrange(st.i + 1, e), toks: nx.toks, seps: nx.seps, starting: false, ..nx } == w);
    } else {
        assert(nx == w);
    }
}

/// A name of three words with a comma after each of the first two ("Last,
/// Jr, First") has one token per word, the first comma after the first
/// token and the second after the second: its Jr part is the middle word
/// and its First part the last word (see `law_commas_split_the_parts`).
pub proof fn law_three_words_two_commas(x: Seq<u8>, y: Seq<u8>, z: Seq<u8>, lvl: int)
    requires
        plain_word(x),
        plain_word(y),
        plain_word(z),
        0 <= lvl,
    ensures
        ({
            let t = tok_run(x + seq![COMMA] + y + seq![COMMA] + z, tok_init(lvl));
            &&& t.commas == 2
            &&& t.comma1 == 1
            &&& t.comma2 == 2
            &&& t.toks.len() == 3
            &&& !t.too_many_commas
        }),
{
    let name = x + seq![COMMA] + y + seq![COMMA] + z;
    let a = x.len() as int;
    let b = y.len() as int;
    let c = z.len() as int;
    assert(name.len() == a + b + c + 2);
    assert forall|k: int| 0 <= k < a implies word_byte(#[trigger] name[k]) by {
        assert(name[k] == x[k]);
    }
    assert forall|k: int| a + 1 <= k < a + 1 + b implies word_byte(#[trigger] name[k]) by {
        assert(name[k] == y[k - a - 1]);
    }
    assert forall|k: int| a + b + 2 <= k < a + b + 2 + c implies word_byte(#[trigger] name[k]) by {
        assert(name[k] == z[k - a - b - 2]);
    }
    assert(name[a] == COMMA);
    assert(name[a + 1 + b] == COMMA);
    let s0 = tok_init(lvl);
    lemma_tok_word(name, s0, a);
    let s1 = TokState {
        i: a,
        sv: s0.sv + name.subrange(0, a),
        toks: s0.toks.push(s0.sv.len() as int),
        seps: s0.seps.push(s0.pending),
        starting: false,
        ..s0
    };
    assert(s1.toks.len() == 1);
    let s2 = tok_step(name, s1);
    assert(s2.i == a + 1 && s2.commas == 1 && s2.comma1 == 1 && s2.starting && s2.toks.len() == 1);
    lemma_tok_word(name, s2, a + 1 + b);
    let s3 = TokState {
        i: a + 1 + b,
        sv: s2.sv + name.subrange(a + 1, a + 1 + b),
        toks: s2.toks.push(s2.sv.len() as int),
        seps: s2.seps.push(s2.pending),
        starting: false,
        ..s2
    };
    let s4 = tok_step(name, s3);
    assert(s4.i == a + b + 2 && s4.commas == 2 && s4.comma1 == 1 && s4.comma2 == 2 && s4.starting && s4.toks.len() == 2);
    lemma_tok_word(name, s4, a + b + 2 + c);
    let s5 = TokState {
        i: a + b + 2 + c,
        sv: s4.sv + name.subrange(a + b + 2, a + b + 2 + c),
        toks: s4.toks.push(s4.sv.len() as int),
        seps: s4.seps.push(s4.pending),
        starting: false,
        ..s4
    };
    assert(tok_run(name, s5) == s5);
    assert(s5.toks.len() == 3);
}

/// The commas of a name split its parts as `format.name$` reads them. With
/// one comma ("von Last, First") the tokens before the comma are the von and
/// Last parts, those after it the First part, and the Jr part is empty. With
/// two ("von Last, Jr, First") the tokens between the commas are the Jr
/// part and only those after the second comma the First part.
pub proof fn law_commas_split_the_parts(s: Seq<u8>, n: int)
    ensures
        ({
            let t = chosen_tokens(s, n);
            let v = chosen_view(s, n);
            let m = v.toks.len() - 1;
            &&& m == t.toks.len()
            &&& t.commas == 1 ==> {
                &&& part_of(v.r, 102) == Some((t.comma1, m))
                &&& part_of(v.r, 106) == Some((t.comma1, t.comma1))
                &&& part_of(v.r, 118) matches Some((a, _b)) && a == 0
                &&& part_of(v.r, 108) matches Some((_a, b)) && b == t.comma1
            }
            &&& t.commas == 2 ==> {
                &&& part_of(v.r, 102) == Some((t.comma2, m))
                &&& part_of(v.r, 106) == Some((t.comma1, t.comma2))
                &&& part_of(v.r, 118) matches Some((a, _b)) && a == 0
                &&& part_of(v.r, 108) matches Some((_a, b)) && b == t.comma1
            }
        }),
{
}

/// `format.name$` finds too few names in `s` exactly when `num.names$`
/// counts fewer names in `s` than the one asked for.
pub proof fn law_too_few_names_agrees_with_count(s: Seq<u8>, n: int)
    ensures
        chosen_name(s, n).3 <==> num_names_spec(s) < n,
{
    lemma_name_search_count(s, n, 0, 0, 0, 0);
}

} // verus!
