//! Reading the database (`.bib`) file: its lines, white space that runs on
//! across line breaks, and the values of fields.
//!
//! The input is modelled as a stream of bytes: the rest of the current line,
//! then each following line (without its trailing white space) after a
//! space that stands for the line break. A line break is white space to
//! every function here.
use vstd::prelude::*;
use crate::bibtex::lex::{lex_class, LexType, is_white, lower_case};
use crate::bibtex::scan::{Scanner, Stop, ScanResult, stops, advance, lemma_advance};
use crate::bibtex::hash::StrTable;
use crate::bibtex::cite::lower_key;
use crate::bibtex::text::{white_end, lemma_white_end, LEFT_BRACE, RIGHT_BRACE};

verus! {

pub const SPACE: u8 = 32;
pub const DOUBLE_QUOTE: u8 = 34;
pub const HASH_SIGN: u8 = 35;
pub const COMMA: u8 = 44;
/// The kind of the strings that name macros.
pub const MACRO_ILK: u8 = 13;

/// What can go wrong while reading the value of a field.
#[derive(Clone, Copy, Debug, PartialEq, Eq, Structural)]
pub enum FieldError {
    /// The value does not fit in the buffer.
    TooLong,
    /// A right brace that closes nothing.
    UnbalancedBraces,
    /// The file ends inside the value.
    EndOfFile,
    /// No field part where one is expected.
    MissingFieldPart,
    /// This byte follows a macro name, where only white space, `#`, `,` or
    /// the closing delimiter of the entry may.
    ByteFollowsFieldPart(u8),
    /// The hash table has no room for the value.
    HashOverflow,
}

/// The input after a byte was taken: white space there, line breaks
/// included, is squeezed into one space appended to `out` (`store`), or
/// skipped; the file may not end there.
pub open spec fn squeeze(rest: Seq<u8>, store: bool, out: Seq<u8>, bs: int) -> Result<(Seq<u8>, Seq<u8>), FieldError> {
    if rest.len() > 0 && !is_white(rest[0]) {
        Ok((rest, out))
    } else if store && out.len() >= bs {
        Err(FieldError::TooLong)
    } else if white_end(rest, 0) >= rest.len() {
        Err(FieldError::EndOfFile)
    } else {
        Ok((rest.subrange(white_end(rest, 0), rest.len() as int), if store { out.push(SPACE) } else { out }))
    }
}

/// The value between braces (or quotes) goes on from `rest`, at brace
/// depth `depth`, up to the closing `delim` at depth 0: each byte is
/// appended to `out` (`store`), white space squeezed, and the input after
/// `delim` is returned with the output. At depth 0 a right brace that is
/// not `delim` is an error; the output may not grow beyond `bs` bytes.
pub open spec fn brace_loop(rest: Seq<u8>, depth: nat, delim: u8, store: bool, out: Seq<u8>, bs: int) -> Result<(Seq<u8>, Seq<u8>), FieldError>
    decreases rest.len(),
{
    if rest.len() == 0 {
        Err(FieldError::EndOfFile)
    } else if depth == 0 && rest[0] == delim {
        Ok((rest.drop_first(), out))
    } else if depth == 0 && rest[0] == RIGHT_BRACE {
        Err(FieldError::UnbalancedBraces)
    } else if store && out.len() >= bs {
        Err(FieldError::TooLong)
    } else {
        let d: nat = if rest[0] == LEFT_BRACE {
            depth + 1
        } else if rest[0] == RIGHT_BRACE {
            (depth - 1) as nat
        } else {
            depth
        };
        let o = if store { out.push(rest[0]) } else { out };
        proof {
            lemma_white_end(rest.drop_first(), 0);
        }
        match squeeze(rest.drop_first(), store, o, bs) {
            Ok((r2, o2)) => brace_loop(r2, d, delim, store, o2, bs),
            Err(e) => Err(e),
        }
    }
}

/// Two spaces at the end of `o` become one.
pub open spec fn single_space_end(o: Seq<u8>) -> Seq<u8> {
    if o.len() > 1 && o.last() == SPACE && o[o.len() - 2] == SPACE {
        o.drop_last()
    } else {
        o
    }
}

/// A value in braces or quotes: `rest[0]` is the opening delimiter, `delim`
/// the closing one. White space right after the opening delimiter is
/// squeezed into `out` whether or not the value is stored, without making
/// two spaces in a row.
pub open spec fn balanced(rest: Seq<u8>, delim: u8, store: bool, out: Seq<u8>, bs: int) -> Result<(Seq<u8>, Seq<u8>), FieldError> {
    match squeeze(rest.drop_first(), true, out, bs) {
        Ok((r2, o)) => brace_loop(r2, 0, delim, store, single_space_end(o), bs),
        Err(e) => Err(e),
    }
}

/// A line without its trailing white space.
pub open spec fn trimmed(l: Seq<u8>) -> Seq<u8>
    decreases l.len(),
{
    if l.len() > 0 && is_white(l.last()) {
        trimmed(l.drop_last())
    } else {
        l
    }
}

/// The lines from the `i`-th on, each trimmed and preceded by a space for
/// the line break before it.
pub open spec fn lines_from(lines: Seq<Vec<u8>>, i: int) -> Seq<u8>
    decreases lines.len() - i,
{
    if 0 <= i < lines.len() {
        seq![SPACE] + trimmed(lines[i]@) + lines_from(lines, i + 1)
    } else {
        Seq::empty()
    }
}

/// Where the first line of `b` ends: at its first line feed or carriage
/// return, or at the end of `b`.
pub open spec fn line_end(b: Seq<u8>, i: int) -> int
    decreases b.len() - i,
{
    if i >= b.len() || b[i] == 10 || b[i] == 13 {
        i
    } else {
        line_end(b, i + 1)
    }
}

/// The lines of the file `b`: each ends at a line feed or a carriage return,
/// which is not part of it; nothing follows the last line break.
pub open spec fn lines_of(b: Seq<u8>) -> Seq<Seq<u8>>
    decreases b.len(),
{
    if b.len() == 0 {
        Seq::empty()
    } else {
        let e = line_end(b, 0);
        proof {
            lemma_line_end(b, 0);
        }
        if e >= b.len() {
            seq![b]
        } else {
            seq![b.subrange(0, e)] + lines_of(b.subrange(e + 1, b.len() as int))
        }
    }
}

pub proof fn lemma_line_end(b: Seq<u8>, i: int)
    requires
        0 <= i <= b.len(),
    ensures
        i <= line_end(b, i) <= b.len(),
        line_end(b, i) < b.len() ==> (b[line_end(b, i)] == 10 || b[line_end(b, i)] == 13),
        forall|k: int| i <= k < line_end(b, i) ==> #[trigger] b[k] != 10 && b[k] != 13,
    decreases b.len() - i,
{
    if i < b.len() && b[i] != 10 && b[i] != 13 {
        lemma_line_end(b, i + 1);
    }
}

proof fn lemma_line_end_shift(b: Seq<u8>, s: int, i: int)
    requires
        0 <= s <= i <= b.len(),
    ensures
        line_end(b.subrange(s, b.len() as int), i - s) == line_end(b, i) - s,
    decreases b.len() - i,
{
    if i < b.len() && b[i] != 10 && b[i] != 13 {
        lemma_line_end_shift(b, s, i + 1);
    }
}

/// Splits the bytes of a file into its lines.
pub fn split_lines(b: &Vec<u8>) -> (r: Vec<Vec<u8>>)
    ensures
        r@.len() == lines_of(b@).len(),
        forall|i: int| 0 <= i < r@.len() ==> #[trigger] r@[i]@ == lines_of(b@)[i],
{
    let mut r: Vec<Vec<u8>> = Vec::new();
    let mut start: usize = 0;
    let n = b.len();
    proof {
        assert(b@.subrange(0, n as int) =~= b@);
    }
    while start < n
        invariant
            n == b@.len(),
            start <= n,
            r@.len() + lines_of(b@.subrange(start as int, n as int)).len() == lines_of(b@).len(),
            forall|i: int| 0 <= i < r@.len() ==> #[trigger] r@[i]@ == lines_of(b@)[i],
            forall|i: int|
                0 <= i < lines_of(b@.subrange(start as int, n as int)).len() ==> lines_of(b@)[r@.len() + i]
                    == #[trigger] lines_of(b@.subrange(start as int, n as int))[i],
        decreases n - start,
    {
        let ghost rest = b@.subrange(start as int, n as int);
        let mut e = start;
        while e < n && b[e] != 10 && b[e] != 13
            invariant
                n == b@.len(),
                start <= e <= n,
                line_end(b@, start as int) == line_end(b@, e as int),
            decreases n - e,
        {
            e = e + 1;
        }
        proof {
            lemma_line_end_shift(b@, start as int, start as int);
            assert(line_end(rest, 0) == e - start);
        }
        let mut line: Vec<u8> = Vec::new();
        let mut k = start;
        while k < e
            invariant
                start <= k <= e <= n,
                n == b@.len(),
                line@ == b@.subrange(start as int, k as int),
            decreases e - k,
        {
            line.push(b[k]);
            k = k + 1;
        }
        let ghost r0 = r@;
        let next_start = if e < n { e + 1 } else { n };
        proof {
            let tail = b@.subrange(next_start as int, n as int);
            assert(rest.subrange(0, e - start) =~= line@);
            if e < n {
                assert(rest.subrange(e - start + 1, rest.len() as int) =~= tail);
            } else {
                assert(rest =~= line@);
                assert(tail =~= Seq::<u8>::empty());
            }
            assert(lines_of(rest) =~= seq![line@] + lines_of(tail));
        }
        r.push(line);
        start = next_start;
        proof {
            let tail = b@.subrange(start as int, n as int);
            assert(lines_of(rest)[0] == line@);
            assert forall|i: int| 0 <= i < r@.len() implies #[trigger] r@[i]@ == lines_of(b@)[i] by {
                if i < r0.len() {
                    assert(r@[i] == r0[i]);
                } else {
                    assert(lines_of(b@)[r0.len() as int] == lines_of(rest)[0]);
                }
            }
            assert forall|i: int| 0 <= i < lines_of(tail).len() implies lines_of(b@)[r@.len() + i]
                == #[trigger] lines_of(tail)[i] by {
                assert(lines_of(tail)[i] == lines_of(rest)[i + 1]);
                assert(lines_of(b@)[r0.len() as int + (i + 1)] == lines_of(rest)[i + 1]);
            }
        }
    }
    proof {
        assert(b@.subrange(start as int, n as int) =~= Seq::<u8>::empty());
    }
    r
}

/// The database file being read: its current line in `scan` (with
/// `scan.buf_ptr2` at the next byte to read) and all its lines, of which
/// `next` have been read; `next` is also the number of the current line.
pub struct BibInput {
    pub scan: Scanner,
    pub lines: Vec<Vec<u8>>,
    pub next: usize,
}

impl BibInput {
    pub open spec fn wf(&self) -> bool {
        &&& self.scan.wf()
        &&& self.next <= self.lines@.len()
    }

    /// What is left to read.
    pub open spec fn stream(&self) -> Seq<u8> {
        self.scan.buffer@.subrange(self.scan.buf_ptr2 as int, self.scan.last as int) + lines_from(
            self.lines@,
            self.next as int,
        )
    }

    /// A database file with the given lines, none of them read yet.
    pub fn new(lines: Vec<Vec<u8>>) -> (r: BibInput)
        ensures
            r.wf(),
            r.lines@ == lines@,
            r.next == 0,
            r.stream() == lines_from(lines@, 0),
    {
        let mut buffer: Vec<u8> = Vec::new();
        buffer.push(0);
        let r = BibInput { scan: Scanner { buffer, last: 0, buf_ptr1: 0, buf_ptr2: 0 }, lines, next: 0 };
        proof {
            assert(r.scan.buffer@.subrange(0, 0) =~= Seq::<u8>::empty());
            assert(r.stream() =~= lines_from(lines@, 0));
        }
        r
    }

    /// Reads the next line into the buffer, without its trailing white
    /// space; false at the end of the file, where the buffer is left empty.
    pub fn input_ln(&mut self) -> (r: bool)
        requires
            old(self).wf(),
        ensures
            final(self).wf(),
            final(self).lines@ == old(self).lines@,
            r == (old(self).next < old(self).lines@.len()),
            final(self).scan.buf_ptr2 == 0,
            r ==> final(self).next == old(self).next + 1,
            r ==> final(self).scan.buffer@.subrange(0, final(self).scan.last as int) == trimmed(
                old(self).lines@[old(self).next as int]@,
            ),
            r ==> final(self).stream() == lines_from(old(self).lines@, old(self).next as int).drop_first(),
            !r ==> final(self).next == old(self).next && final(self).scan.last == 0,
            !r ==> final(self).stream() == Seq::<u8>::empty(),
    {
        if self.next >= self.lines.len() {
            self.scan.last = 0;
            self.scan.buf_ptr1 = 0;
            self.scan.buf_ptr2 = 0;
            proof {
                assert(self.scan.buffer@.subrange(0, 0) =~= Seq::<u8>::empty());
                assert(lines_from(self.lines@, self.next as int) =~= Seq::<u8>::empty());
            }
            return false;
        }
        let i = self.next;
        let mut buf: Vec<u8> = Vec::new();
        let mut t: usize;
        {
            let line = &self.lines[i];
            t = line.len();
            proof {
                assert(line@.subrange(0, t as int) =~= line@);
            }
            while t > 0 && lex_class(line[t - 1]) == LexType::WhiteSpace
                invariant
                    t <= line@.len(),
                    trimmed(line@) == trimmed(line@.subrange(0, t as int)),
                decreases t,
            {
                proof {
                    assert(line@.subrange(0, t as int).drop_last() =~= line@.subrange(0, t - 1));
                }
                t = t - 1;
            }
            proof {
                assert(trimmed(line@.subrange(0, t as int)) == line@.subrange(0, t as int));
            }
            let mut k: usize = 0;
            while k < t
                invariant
                    k <= t <= line@.len(),
                    buf@ == line@.subrange(0, k as int),
                decreases t - k,
            {
                buf.push(line[k]);
                k = k + 1;
            }
        }
        buf.push(0);
        self.scan.buffer = buf;
        self.scan.last = t;
        self.scan.buf_ptr1 = 0;
        self.scan.buf_ptr2 = 0;
        self.next = i + 1;
        proof {
            assert(self.scan.buffer@.subrange(0, t as int) =~= trimmed(self.lines@[i as int]@));
            assert(lines_from(self.lines@, i as int).drop_first() =~= self.stream());
        }
        true
    }

    /// Skips white space, line breaks included; false where only white
    /// space is left in the file.
    pub fn eat_bib_white_space(&mut self) -> (r: bool)
        requires
            old(self).wf(),
        ensures
            final(self).wf(),
            final(self).lines@ == old(self).lines@,
            final(self).stream() == old(self).stream().subrange(
                white_end(old(self).stream(), 0),
                old(self).stream().len() as int,
            ),
            r == (white_end(old(self).stream(), 0) < old(self).stream().len()),
            r ==> final(self).scan.buf_ptr2 < final(self).scan.last,
    {
        let ghost s0 = self.stream();
        let ghost mut k: int = 0;
        proof {
            assert(s0.subrange(0, s0.len() as int) =~= s0);
        }
        loop
            invariant
                self.wf(),
                self.lines@ == old(self).lines@,
                s0 == old(self).stream(),
                0 <= k <= s0.len(),
                self.stream() == s0.subrange(k, s0.len() as int),
                white_end(s0, 0) == white_end(s0, k),
            decreases self.lines@.len() - self.next,
        {
            let ghost p = self.scan.buf_ptr2 as int;
            let ghost last = self.scan.last as int;
            let ghost buf = self.scan.buffer@;
            let ghost st = self.stream();
            let found = self.scan.scan_white_space();
            let ghost q = self.scan.buf_ptr2 as int;
            proof {
                lemma_advance(buf, p, last, Stop::NotWhite);
                assert(st == s0.subrange(k, s0.len() as int));
                assert(st.len() == (last - p) + lines_from(self.lines@, self.next as int).len());
                assert forall|j: int| k <= j < k + (q - p) implies is_white(#[trigger] s0[j]) by {
                    assert(j - k < st.len());
                    assert(s0[j] == st[j - k]);
                    assert(st[j - k] == buf.subrange(p, last)[j - k]);
                    assert(buf[p + (j - k)] == buf.subrange(p, last)[j - k]);
                }
                lemma_white_run(s0, k, k + (q - p));
                assert(self.stream() =~= st.subrange(q - p, st.len() as int));
                assert(self.stream() =~= s0.subrange(k + (q - p), s0.len() as int));
                k = k + (q - p);
            }
            if found {
                proof {
                    assert(s0[k] == self.stream()[0]);
                    assert(self.stream()[0] == buf[q]);
                }
                return true;
            }
            proof {
                assert(self.scan.buffer@.subrange(q, q) =~= Seq::<u8>::empty());
                assert(self.stream() =~= lines_from(self.lines@, self.next as int));
            }
            let ghost st2 = self.stream();
            let more = self.input_ln();
            if !more {
                proof {
                    assert(k == s0.len());
                }
                return false;
            }
            proof {
                assert(st2[0] == SPACE);
                assert(s0[k] == st2[0]);
                assert(self.stream() =~= s0.subrange(k + 1, s0.len() as int));
                k = k + 1;
            }
        }
    }
}

/// The table is well formed and each macro it holds has a string number
/// as its value.
pub open spec fn macros_wf(t: StrTable) -> bool {
    &&& t.wf()
    &&& forall|k: int|
        #[trigger] t.occupied(k) && t.ilk_of(k) == MACRO_ILK ==> 0 <= t.info_of(k) < t.string_view().len()
}

/// The text of a macro from its `t`-th byte appended to `out`: a run of
/// white space becomes one space, and none where `out` already ends with
/// one; the output may not grow beyond `bs` bytes.
pub open spec fn macro_text(out: Seq<u8>, text: Seq<u8>, t: int, bs: int) -> Result<Seq<u8>, FieldError>
    decreases text.len() - t,
{
    if t < 0 || t >= text.len() {
        Ok(out)
    } else if !is_white(text[t]) {
        if out.len() >= bs {
            Err(FieldError::TooLong)
        } else {
            macro_text(out.push(text[t]), text, t + 1, bs)
        }
    } else if out.len() > 0 && out.last() != SPACE {
        if out.len() >= bs {
            Err(FieldError::TooLong)
        } else {
            macro_text(out.push(SPACE), text, t + 1, bs)
        }
    } else {
        macro_text(out, text, t + 1, bs)
    }
}

/// A macro's text appended to `out`; at the start of a value, white space
/// that begins the text becomes one space.
pub open spec fn expand_macro(out: Seq<u8>, text: Seq<u8>, bs: int) -> Result<Seq<u8>, FieldError> {
    if out.len() == 0 && text.len() > 0 && is_white(text[0]) {
        if out.len() >= bs {
            Err(FieldError::TooLong)
        } else {
            macro_text(seq![SPACE], text, white_end(text, 1), bs)
        }
    } else {
        macro_text(out, text, 0, bs)
    }
}

/// White space (line breaks included) after a field part is skipped; the
/// file may not end there.
pub open spec fn then_white(res: Result<(Seq<u8>, Seq<u8>), FieldError>) -> Result<(Seq<u8>, Seq<u8>), FieldError> {
    match res {
        Ok((r2, o)) => if white_end(r2, 0) >= r2.len() {
            Err(FieldError::EndOfFile)
        } else {
            Ok((r2.subrange(white_end(r2, 0), r2.len() as int), o))
        },
        Err(e) => Err(e),
    }
}

pub open spec fn is_digit(c: u8) -> bool {
    48 <= c <= 57
}

/// Whether the field part at the start of `s` is a macro name (not a value
/// in braces or quotes, nor a number).
pub open spec fn is_macro_part(s: Seq<u8>) -> bool {
    s[0] != LEFT_BRACE && s[0] != DOUBLE_QUOTE && !is_digit(s[0])
}

/// The end of the name at the start of `s`.
pub open spec fn name_end(s: Seq<u8>) -> int {
    advance(s, 0, s.len() as int, Stop::NotIdChar)
}

/// One field part at the start of `s`, and the white space after it: a
/// value in braces or quotes, a number, or the name of a macro followed by
/// white space, `,`, `#` or the closing delimiter `outer` of the entry.
/// Where `store` holds, the part is appended to `out`: a macro only where
/// it is defined (`found`) and not the one being defined (`own`), as its
/// `text`.
pub open spec fn field_part(s: Seq<u8>, store: bool, outer: u8, out: Seq<u8>, bs: int, found: bool, own: bool, text: Seq<u8>) -> Result<(Seq<u8>, Seq<u8>), FieldError> {
    let c = s[0];
    if c == LEFT_BRACE {
        then_white(balanced(s, RIGHT_BRACE, store, out, bs))
    } else if c == DOUBLE_QUOTE {
        then_white(balanced(s, DOUBLE_QUOTE, store, out, bs))
    } else if is_digit(c) {
        let n = advance(s, 0, s.len() as int, Stop::NotDigit);
        if store && out.len() + n > bs {
            Err(FieldError::TooLong)
        } else {
            then_white(Ok((s.subrange(n, s.len() as int), if store { out + s.subrange(0, n) } else { out })))
        }
    } else {
        let j = name_end(s);
        if j == 0 {
            Err(FieldError::MissingFieldPart)
        } else if !(j >= s.len() || is_white(s[j]) || s[j] == COMMA || s[j] == outer || s[j] == HASH_SIGN) {
            Err(FieldError::ByteFollowsFieldPart(s[j]))
        } else if store && found && !own {
            match expand_macro(out, text, bs) {
                Ok(o) => then_white(Ok((s.subrange(j, s.len() as int), o))),
                Err(e) => Err(e),
            }
        } else {
            then_white(Ok((s.subrange(j, s.len() as int), out)))
        }
    }
}

/// The macro that a name at the start of `s` would be looked up as.
pub open spec fn part_key(s: Seq<u8>) -> (Seq<u8>, u8) {
    (lower_key(s.subrange(0, name_end(s))), MACRO_ILK)
}

/// One field part at the start of `s`, its macro (if any) looked up in `t`.
pub open spec fn part_of(s: Seq<u8>, store: bool, outer: u8, out: Seq<u8>, bs: int, t: StrTable, defining: Option<usize>) -> Result<(Seq<u8>, Seq<u8>), FieldError> {
    let key = part_key(s);
    let found = t.view().contains_key(key);
    let own = found && defining == Some(t.view()[key] as usize);
    let text = t.string_view()[t.info_of(t.view()[key]) as int];
    field_part(s, store, outer, out, bs, found, own, text)
}

/// A field value at the start of `s`: field parts joined by `#` (with
/// white space around it), appended to `out`. Also returned: the input
/// after it, and the macros looked up (after `keys`), in order.
pub open spec fn parts(s: Seq<u8>, store: bool, outer: u8, out: Seq<u8>, keys: Seq<(Seq<u8>, u8)>, bs: int, t: StrTable, defining: Option<usize>) -> Result<(Seq<u8>, Seq<u8>, Seq<(Seq<u8>, u8)>), FieldError>
    decreases s.len(),
{
    if s.len() == 0 {
        Err(FieldError::EndOfFile)
    } else {
        proof {
            lemma_part_len(s, store, outer, out, bs, t, defining);
        }
        match part_of(s, store, outer, out, bs, t, defining) {
            Ok((r2, o)) => {
                let k2 = if store && is_macro_part(s) { keys.push(part_key(s)) } else { keys };
                if r2.len() > 0 && r2[0] == HASH_SIGN {
                    let r3 = r2.drop_first();
                    let w = white_end(r3, 0);
                    proof {
                        lemma_white_end(r3, 0);
                    }
                    if w >= r3.len() {
                        Err(FieldError::EndOfFile)
                    } else {
                        parts(r3.subrange(w, r3.len() as int), store, outer, o, k2, bs, t, defining)
                    }
                } else {
                    Ok((r2, o, k2))
                }
            },
            Err(e) => Err(e),
        }
    }
}

/// A value stored for an entry loses a space at each end.
pub open spec fn entry_value(o: Seq<u8>) -> Seq<u8> {
    let o1 = if o.len() > 0 && o.last() == SPACE { o.drop_last() } else { o };
    if o1.len() > 0 && o1[0] == SPACE { o1.drop_first() } else { o1 }
}

/// Where a field value goes: into the preamble, as the value of the macro
/// in the given slot, or into a field of the current entry.
#[derive(Clone, Copy, Debug, PartialEq, Eq, Structural)]
pub enum FieldTarget {
    Preamble,
    Macro(usize),
    EntryField,
}

/// The macro being defined, if any.
pub open spec fn defining_of(target: FieldTarget) -> Option<usize> {
    match target {
        FieldTarget::Macro(m) => Some(m),
        _ => None,
    }
}

/// The kind of the strings that are field values.
pub const TEXT_ILK: u8 = 0;

/// A field value read: its slot in the table (where it was stored) and the
/// warnings of the macro names in it, in order.
pub struct FieldValue {
    pub loc: Option<usize>,
    pub notes: Vec<MacroNotes>,
}

pub proof fn lemma_squeeze_len(rest: Seq<u8>, store: bool, out: Seq<u8>, bs: int)
    ensures
        squeeze(rest, store, out, bs) matches Ok((r2, o)) ==> r2.len() <= rest.len(),
{
    lemma_white_end(rest, 0);
}

pub proof fn lemma_brace_loop_len(rest: Seq<u8>, depth: nat, delim: u8, store: bool, out: Seq<u8>, bs: int)
    ensures
        brace_loop(rest, depth, delim, store, out, bs) matches Ok((r2, o)) ==> r2.len() < rest.len(),
    decreases rest.len(),
{
    if rest.len() > 0 && !(depth == 0 && rest[0] == delim) && !(depth == 0 && rest[0] == RIGHT_BRACE) && !(store && out.len() >= bs) {
        let d: nat = if rest[0] == LEFT_BRACE {
            depth + 1
        } else if rest[0] == RIGHT_BRACE {
            (depth - 1) as nat
        } else {
            depth
        };
        let o = if store { out.push(rest[0]) } else { out };
        lemma_squeeze_len(rest.drop_first(), store, o, bs);
        lemma_white_end(rest.drop_first(), 0);
        match squeeze(rest.drop_first(), store, o, bs) {
            Ok((r2, o2)) => {
                lemma_brace_loop_len(r2, d, delim, store, o2, bs);
            },
            Err(e) => {},
        }
    }
}

pub proof fn lemma_part_len(s: Seq<u8>, store: bool, outer: u8, out: Seq<u8>, bs: int, t: StrTable, defining: Option<usize>)
    requires
        s.len() > 0,
    ensures
        part_of(s, store, outer, out, bs, t, defining) matches Ok((r2, o)) ==> r2.len() <= s.len(),
{
    lemma_squeeze_len(s.drop_first(), true, out, bs);
    match squeeze(s.drop_first(), true, out, bs) {
        Ok((r2, o)) => {
            lemma_brace_loop_len(r2, 0, RIGHT_BRACE, store, single_space_end(o), bs);
            lemma_brace_loop_len(r2, 0, DOUBLE_QUOTE, store, single_space_end(o), bs);
            match brace_loop(r2, 0, RIGHT_BRACE, store, single_space_end(o), bs) {
                Ok((r3, o3)) => {
                    lemma_white_end(r3, 0);
                },
                Err(e) => {},
            }
            match brace_loop(r2, 0, DOUBLE_QUOTE, store, single_space_end(o), bs) {
                Ok((r3, o3)) => {
                    lemma_white_end(r3, 0);
                },
                Err(e) => {},
            }
        },
        Err(e) => {},
    }
    lemma_advance(s, 0, s.len() as int, Stop::NotDigit);
    lemma_advance(s, 0, s.len() as int, Stop::NotIdChar);
    let n = advance(s, 0, s.len() as int, Stop::NotDigit);
    let j = name_end(s);
    lemma_white_end(s.subrange(n, s.len() as int), 0);
    lemma_white_end(s.subrange(j, s.len() as int), 0);
}

/// The warnings `m` are those that looking up the macro `key` in `t`
/// gives while the macro in slot `defining` is being defined: it may be
/// undefined, or (where it is defined) the one being defined.
pub open spec fn notes_agree(m: MacroNotes, t: StrTable, key: (Seq<u8>, u8), defining: Option<usize>) -> bool {
    &&& m.undefined == !t.view().contains_key(key)
    &&& t.view().contains_key(key) ==> m.own_definition == (defining == Some(t.view()[key] as usize))
}

/// The warnings that a macro name in a stored value gives.
#[derive(Clone, Copy, Debug, PartialEq, Eq, Structural)]
pub struct MacroNotes {
    /// The macro is the one being defined.
    pub own_definition: bool,
    /// No such macro is defined.
    pub undefined: bool,
}

/// A scan inside the current line goes as far in the input: the line
/// break (or the end of the file) ends it.
pub proof fn lemma_advance_stream(buf: Seq<u8>, p: int, last: int, rest: Seq<u8>, i: int, stop: Stop)
    requires
        0 <= p <= last <= buf.len(),
        0 <= i <= last - p,
        rest.len() == 0 || stops(stop, rest[0]),
    ensures
        advance(buf, p + i, last, stop) - p == advance(buf.subrange(p, last) + rest, i, (last - p) + rest.len(), stop),
    decreases last - p - i,
{
    let s = buf.subrange(p, last) + rest;
    if i < last - p {
        assert(s[i] == buf[p + i]);
        if !stops(stop, buf[p + i]) {
            lemma_advance_stream(buf, p, last, rest, i + 1, stop);
        }
    } else if rest.len() > 0 {
        assert(s[i] == rest[0]);
    }
}

impl BibInput {
    /// After a byte was taken: squeezes the white space (or line break)
    /// that follows into one space in `ex` (`store`), or skips it.
    fn squeeze_white(&mut self, store: bool, ex: &mut Vec<u8>, buf_size: usize) -> (r: Result<(), FieldError>)
        requires
            old(self).wf(),
            old(ex)@.len() <= buf_size,
        ensures
            final(self).wf(),
            final(self).lines@ == old(self).lines@,
            final(ex)@.len() <= buf_size,
            match squeeze(old(self).stream(), store, old(ex)@, buf_size as int) {
                Ok((r2, o)) => {
                    &&& r is Ok
                    &&& final(self).stream() == r2
                    &&& final(ex)@ == o
                    &&& final(self).scan.buf_ptr2 < final(self).scan.last
                },
                Err(e) => r == Err::<(), FieldError>(e),
            },
    {
        let ghost s0 = self.stream();
        if self.scan.buf_ptr2 < self.scan.last && lex_class(self.scan.buffer[self.scan.buf_ptr2]) != LexType::WhiteSpace {
            proof {
                assert(s0[0] == self.scan.buffer@[self.scan.buf_ptr2 as int]);
            }
            return Ok(());
        }
        proof {
            if s0.len() > 0 {
                assert(self.scan.buf_ptr2 == self.scan.last ==> s0[0] == SPACE);
                assert(self.scan.buf_ptr2 < self.scan.last ==> s0[0] == self.scan.buffer@[self.scan.buf_ptr2 as int]);
            }
        }
        if store {
            self.compress_bib_white(ex, buf_size)
        } else if self.eat_bib_white_space() {
            Ok(())
        } else {
            Err(FieldError::EndOfFile)
        }
    }

    /// `compress_bib_white`: appends one space to `ex` for the white space
    /// (line breaks included) that is next in the input, and skips it; the
    /// file may not end there.
    pub fn compress_bib_white(&mut self, ex: &mut Vec<u8>, buf_size: usize) -> (r: Result<(), FieldError>)
        requires
            old(self).wf(),
            old(ex)@.len() <= buf_size,
        ensures
            final(self).wf(),
            final(self).lines@ == old(self).lines@,
            final(ex)@.len() <= buf_size,
            ({
                let s = old(self).stream();
                if old(ex)@.len() >= buf_size {
                    r == Err::<(), FieldError>(FieldError::TooLong)
                } else if white_end(s, 0) >= s.len() {
                    r == Err::<(), FieldError>(FieldError::EndOfFile)
                } else {
                    &&& r is Ok
                    &&& final(ex)@ == old(ex)@.push(SPACE)
                    &&& final(self).stream() == s.subrange(white_end(s, 0), s.len() as int)
                    &&& final(self).scan.buf_ptr2 < final(self).scan.last
                }
            }),
    {
        if ex.len() == buf_size {
            return Err(FieldError::TooLong);
        }
        ex.push(SPACE);
        if self.eat_bib_white_space() {
            Ok(())
        } else {
            Err(FieldError::EndOfFile)
        }
    }

    /// Reads a value in braces or quotes, whose opening delimiter is the
    /// next byte, up to the closing `right_str_delim`, appending it to `ex`
    /// where `store` holds (see `balanced`).
    pub fn scan_balanced_braces(&mut self, right_str_delim: u8, store: bool, ex: &mut Vec<u8>, buf_size: usize) -> (r: Result<(), FieldError>)
        requires
            old(self).wf(),
            old(self).scan.buf_ptr2 < old(self).scan.last,
            old(ex)@.len() <= buf_size,
            old(self).stream().len() < usize::MAX,
        ensures
            final(self).wf(),
            final(self).lines@ == old(self).lines@,
            final(ex)@.len() <= buf_size,
            match balanced(old(self).stream(), right_str_delim, store, old(ex)@, buf_size as int) {
                Ok((r2, o)) => {
                    &&& r is Ok
                    &&& final(self).stream() == r2
                    &&& final(ex)@ == o
                },
                Err(e) => r == Err::<(), FieldError>(e),
            },
    {
        let ghost s0 = self.stream();
        let ghost res = balanced(s0, right_str_delim, store, ex@, buf_size as int);
        self.scan.buf_ptr2 = self.scan.buf_ptr2 + 1;
        proof {
            assert(self.stream() =~= s0.drop_first());
            lemma_white_end(s0.drop_first(), 0);
        }
        let first = self.squeeze_white(true, ex, buf_size);
        if first.is_err() {
            return first;
        }
        let n = ex.len();
        if n > 1 && ex[n - 1] == SPACE && ex[n - 2] == SPACE {
            ex.pop();
        }
        let mut depth: usize = 0;
        loop
            invariant
                self.wf(),
                self.lines@ == old(self).lines@,
                ex@.len() <= buf_size,
                self.scan.buf_ptr2 < self.scan.last,
                depth + self.stream().len() <= s0.len(),
                s0.len() < usize::MAX,
                s0 == old(self).stream(),
                res == balanced(s0, right_str_delim, store, old(ex)@, buf_size as int),
                res == brace_loop(self.stream(), depth as nat, right_str_delim, store, ex@, buf_size as int),
            decreases self.stream().len(),
        {
            let ghost st = self.stream();
            let c = self.scan.buffer[self.scan.buf_ptr2];
            proof {
                assert(st[0] == c);
            }
            if depth == 0 && c == right_str_delim {
                self.scan.buf_ptr2 = self.scan.buf_ptr2 + 1;
                proof {
                    assert(self.stream() =~= st.drop_first());
                }
                return Ok(());
            }
            if depth == 0 && c == RIGHT_BRACE {
                return Err(FieldError::UnbalancedBraces);
            }
            if store {
                if ex.len() == buf_size {
                    return Err(FieldError::TooLong);
                }
                ex.push(c);
            }
            if c == LEFT_BRACE {
                depth = depth + 1;
            } else if c == RIGHT_BRACE {
                depth = depth - 1;
            }
            self.scan.buf_ptr2 = self.scan.buf_ptr2 + 1;
            proof {
                assert(self.stream() =~= st.drop_first());
                lemma_white_end(st.drop_first(), 0);
            }
            let step = self.squeeze_white(store, ex, buf_size);
            if step.is_err() {
                return step;
            }
        }
    }
}

/// Appends the text of a macro to `ex` (see `expand_macro`).
fn append_macro_text(ex: &mut Vec<u8>, text: &Vec<u8>, buf_size: usize) -> (r: Result<(), FieldError>)
    requires
        old(ex)@.len() <= buf_size,
    ensures
        final(ex)@.len() <= buf_size,
        match expand_macro(old(ex)@, text@, buf_size as int) {
            Ok(o) => r is Ok && final(ex)@ == o,
            Err(e) => r == Err::<(), FieldError>(e),
        },
{
    let ghost res = expand_macro(ex@, text@, buf_size as int);
    let n = text.len();
    let mut t: usize = 0;
    if ex.len() == 0 && n > 0 && lex_class(text[0]) == LexType::WhiteSpace {
        if ex.len() == buf_size {
            return Err(FieldError::TooLong);
        }
        ex.push(SPACE);
        t = 1;
        while t < n && lex_class(text[t]) == LexType::WhiteSpace
            invariant
                1 <= t <= n,
                n == text@.len(),
                white_end(text@, 1) == white_end(text@, t as int),
            decreases n - t,
        {
            t = t + 1;
        }
        proof {
            assert(ex@ =~= seq![SPACE]);
        }
    }
    while t < n
        invariant
            t <= n,
            n == text@.len(),
            ex@.len() <= buf_size,
            res == expand_macro(old(ex)@, text@, buf_size as int),
            res == macro_text(ex@, text@, t as int, buf_size as int),
        decreases n - t,
    {
        let c = text[t];
        if lex_class(c) != LexType::WhiteSpace {
            if ex.len() == buf_size {
                return Err(FieldError::TooLong);
            }
            ex.push(c);
        } else if ex.len() > 0 && ex[ex.len() - 1] != SPACE {
            if ex.len() == buf_size {
                return Err(FieldError::TooLong);
            }
            ex.push(SPACE);
        }
        t = t + 1;
    }
    Ok(())
}

impl BibInput {
    /// A number at the start of the input, appended to `ex` where `store`
    /// holds.
    fn digits_part(&mut self, store: bool, ex: &mut Vec<u8>, buf_size: usize) -> (r: Result<(), FieldError>)
        requires
            old(self).wf(),
            old(self).scan.buf_ptr2 < old(self).scan.last,
            old(ex)@.len() <= buf_size,
        ensures
            final(self).wf(),
            final(self).lines@ == old(self).lines@,
            final(ex)@.len() <= buf_size,
            ({
                let s = old(self).stream();
                let n = advance(s, 0, s.len() as int, Stop::NotDigit);
                if store && old(ex)@.len() + n > buf_size {
                    r == Err::<(), FieldError>(FieldError::TooLong)
                } else {
                    &&& r is Ok
                    &&& final(self).stream() == s.subrange(n, s.len() as int)
                    &&& final(ex)@ == if store { old(ex)@ + s.subrange(0, n) } else { old(ex)@ }
                }
            }),
    {
        let ghost s = self.stream();
        let ghost rest = lines_from(self.lines@, self.next as int);
        let ghost buf = self.scan.buffer@;
        let ghost p = self.scan.buf_ptr2 as int;
        let ghost last = self.scan.last as int;
        proof {
            if rest.len() > 0 {
                assert(rest[0] == SPACE);
            }
        }
        let _ = self.scan.scan_nonneg_integer();
        proof {
            lemma_advance_stream(buf, p, last, rest, 0, Stop::NotDigit);
            lemma_advance(buf, p, last, Stop::NotDigit);
            assert(self.stream() =~= s.subrange(self.scan.buf_ptr2 - p, s.len() as int));
        }
        let ghost n = self.scan.buf_ptr2 - p;
        if store {
            let mut k = self.scan.buf_ptr1;
            let e = self.scan.buf_ptr2;
            let ghost o0 = ex@;
            let ghost st = self.stream();
            while k < e
                invariant
                    self.wf(),
                    self.lines@ == old(self).lines@,
                    self.stream() == st,
                    st == s.subrange(n, s.len() as int),
                    s == old(self).stream(),
                    o0 == old(ex)@,
                    n == advance(s, 0, s.len() as int, Stop::NotDigit),
                    store,
                    0 <= p <= k <= e <= last,
                    e == p + n,
                    last < buf.len(),
                    self.scan.buffer@ == buf,
                    ex@ == o0 + buf.subrange(p, k as int),
                    ex@.len() <= buf_size,
                decreases e - k,
            {
                if ex.len() == buf_size {
                    return Err(FieldError::TooLong);
                }
                ex.push(self.scan.buffer[k]);
                proof {
                    assert(buf.subrange(p, k as int + 1) =~= buf.subrange(p, k as int).push(buf[k as int]));
                }
                k = k + 1;
            }
            proof {
                assert(buf.subrange(p, e as int) =~= s.subrange(0, n));
            }
        }
        Ok(())
    }

    /// A macro name at the start of the input, looked up in lower case and
    /// its text appended to `ex` where `store` holds (see `field_part`).
    fn macro_part(
        &mut self,
        table: &mut StrTable,
        store: bool,
        right_outer_delim: u8,
        defining: Option<usize>,
        ex: &mut Vec<u8>,
        buf_size: usize,
    ) -> (r: Result<MacroNotes, FieldError>)
        requires
            old(self).wf(),
            old(self).scan.buf_ptr2 < old(self).scan.last,
            !is_digit(old(self).scan.buffer@[old(self).scan.buf_ptr2 as int]),
            old(ex)@.len() <= buf_size,
            macros_wf(*old(table)),
        ensures
            final(self).wf(),
            final(self).lines@ == old(self).lines@,
            final(ex)@.len() <= buf_size,
            macros_wf(*final(table)),
            final(table).view() == old(table).view(),
            final(table).string_view() == old(table).string_view(),
            final(table).max() == old(table).max(),
            final(table).size() == old(table).size(),
            forall|k: int| #[trigger] final(table).info_of(k) == old(table).info_of(k),
            forall|k: int|
                #[trigger] old(table).occupied(k) ==> final(table).occupied(k) && final(table).text_of(k)
                    == old(table).text_of(k) && final(table).ilk_of(k) == old(table).ilk_of(k),
            ({
                let s = old(self).stream();
                let t = *old(table);
                let j = name_end(s);
                let key = (lower_key(s.subrange(0, j)), MACRO_ILK);
                let found = t.view().contains_key(key);
                let own = found && defining == Some(t.view()[key] as usize);
                let text = t.string_view()[t.info_of(t.view()[key]) as int];
                if j == 0 {
                    r == Err::<MacroNotes, FieldError>(FieldError::MissingFieldPart)
                } else if !(j >= s.len() || is_white(s[j]) || s[j] == COMMA || s[j] == right_outer_delim || s[j] == HASH_SIGN) {
                    r == Err::<MacroNotes, FieldError>(FieldError::ByteFollowsFieldPart(s[j]))
                } else {
                    let res = if store && found && !own { expand_macro(old(ex)@, text, buf_size as int) } else { Ok(old(ex)@) };
                    match res {
                        Ok(o) => {
                            &&& r matches Ok(n)
                            &&& final(self).stream() == s.subrange(j, s.len() as int)
                            &&& final(ex)@ == o
                            &&& n.undefined == (store && !found)
                            &&& (found || !store) ==> n.own_definition == (store && own)
                        },
                        Err(e) => r == Err::<MacroNotes, FieldError>(e),
                    }
                }
            }),
    {
        let ghost s = self.stream();
        let ghost t0 = *table;
        let ghost rest = lines_from(self.lines@, self.next as int);
        let ghost buf = self.scan.buffer@;
        let ghost p = self.scan.buf_ptr2 as int;
        let ghost last = self.scan.last as int;
        proof {
            if rest.len() > 0 {
                assert(rest[0] == SPACE);
            }
        }
        let sr = self.scan.scan_identifier(COMMA, right_outer_delim, HASH_SIGN);
        proof {
            lemma_advance_stream(buf, p, last, rest, 0, Stop::NotIdChar);
            lemma_advance(buf, p, last, Stop::NotIdChar);
        }
        let p1 = self.scan.buf_ptr1;
        let p2 = self.scan.buf_ptr2;
        let ghost j = name_end(s);
        proof {
            assert(p2 - p == j);
            if p2 < last {
                assert(s[j] == buf[p2 as int]);
            } else if rest.len() > 0 {
                assert(s[j] == SPACE);
            }
            assert(self.stream() =~= s.subrange(j, s.len() as int));
        }
        match sr {
            ScanResult::IdNull => {
                return Err(FieldError::MissingFieldPart);
            },
            ScanResult::OtherCharAdjacent => {
                return Err(FieldError::ByteFollowsFieldPart(self.scan.buffer[p2]));
            },
            _ => {},
        }
        let mut notes = MacroNotes { own_definition: false, undefined: false };
        if store {
            let len = p2 - p1;
            lower_case(&mut self.scan.buffer, p1, len);
            let ghost key = (lower_key(s.subrange(0, j)), MACRO_ILK);
            proof {
                assert(self.scan.buffer@.subrange(p1 as int, p1 + len) =~= key.0);
                assert(self.stream() =~= s.subrange(j, s.len() as int));
            }
            let (loc, found) = table.str_lookup(&self.scan.buffer, p1, len, MACRO_ILK, false);
            proof {
                lemma_macros_wf_kept(t0, *table);
            }
            let mut store_token = true;
            match defining {
                Some(d) => {
                    if d == loc {
                        notes.own_definition = true;
                        store_token = false;
                    }
                },
                None => {},
            }
            if !found {
                notes.undefined = true;
                store_token = false;
            }
            if store_token {
                proof {
                    t0.lemma_view_has(key);
                }
                let info = table.ilk_info(loc);
                let text = table.string(info as usize);
                let m = append_macro_text(ex, &text, buf_size);
                if m.is_err() {
                    return Err(m.unwrap_err());
                }
            }
        }
        Ok(notes)
    }

    /// `scan_a_field_token_and_eat_white`: reads one field part and the
    /// white space after it (see `field_part`). A macro name in a stored
    /// value is looked up in lower case among the macros of `table`;
    /// `defining` is the slot of the macro whose definition is being read,
    /// if any. The warnings it gives are returned.
    pub fn scan_a_field_token_and_eat_white(
        &mut self,
        table: &mut StrTable,
        store: bool,
        right_outer_delim: u8,
        defining: Option<usize>,
        ex: &mut Vec<u8>,
        buf_size: usize,
    ) -> (r: Result<Option<MacroNotes>, FieldError>)
        requires
            old(self).wf(),
            old(self).scan.buf_ptr2 < old(self).scan.last,
            old(ex)@.len() <= buf_size,
            old(self).stream().len() < usize::MAX,
            macros_wf(*old(table)),
        ensures
            final(self).wf(),
            final(self).lines@ == old(self).lines@,
            final(ex)@.len() <= buf_size,
            macros_wf(*final(table)),
            final(table).view() == old(table).view(),
            final(table).string_view() == old(table).string_view(),
            final(table).max() == old(table).max(),
            final(table).size() == old(table).size(),
            forall|k: int| #[trigger] final(table).info_of(k) == old(table).info_of(k),
            forall|k: int|
                #[trigger] old(table).occupied(k) ==> final(table).occupied(k) && final(table).text_of(k)
                    == old(table).text_of(k) && final(table).ilk_of(k) == old(table).ilk_of(k),
            ({
                let s = old(self).stream();
                let t = *old(table);
                let key = (lower_key(s.subrange(0, name_end(s))), MACRO_ILK);
                let found = t.view().contains_key(key);
                let own = found && defining == Some(t.view()[key] as usize);
                let text = t.string_view()[t.info_of(t.view()[key]) as int];
                match field_part(s, store, right_outer_delim, old(ex)@, buf_size as int, found, own, text) {
                    Ok((r2, o)) => {
                        &&& r matches Ok(n)
                        &&& final(self).stream() == r2
                        &&& final(ex)@ == o
                        &&& n.is_some() == (store && is_macro_part(s))
                        &&& n matches Some(m) ==> notes_agree(m, t, key, defining)
                        &&& final(self).scan.buf_ptr2 < final(self).scan.last
                    },
                    Err(e) => r == Err::<Option<MacroNotes>, FieldError>(e),
                }
            }),
    {
        let ghost s = self.stream();
        let c = self.scan.buffer[self.scan.buf_ptr2];
        proof {
            assert(s[0] == c);
        }
        let mut notes: Option<MacroNotes> = None;
        if c == LEFT_BRACE || c == DOUBLE_QUOTE {
            let delim = if c == LEFT_BRACE { RIGHT_BRACE } else { DOUBLE_QUOTE };
            let b = self.scan_balanced_braces(delim, store, ex, buf_size);
            if b.is_err() {
                return Err(b.unwrap_err());
            }
        } else if 48 <= c && c <= 57 {
            let d = self.digits_part(store, ex, buf_size);
            if d.is_err() {
                return Err(d.unwrap_err());
            }
        } else {
            let m = self.macro_part(table, store, right_outer_delim, defining, ex, buf_size);
            match m {
                Ok(n) => {
                    if store {
                        notes = Some(n);
                    }
                },
                Err(e) => {
                    return Err(e);
                },
            }
        }
        if !self.eat_bib_white_space() {
            return Err(FieldError::EndOfFile);
        }
        Ok(notes)
    }
}

impl BibInput {
    /// `scan_and_store_the_field_value_and_eat_white`: reads a field value
    /// (see `parts`) and the white space after it, with `outer` the closing
    /// delimiter of the entry. Where `store` holds, the value (for an entry
    /// without a space at either end) is stored in `table` as a text string
    /// and goes to `target`: its string number is appended to `preamble`,
    /// or becomes the value of the macro being defined; its slot is
    /// returned with the warnings of the macro names in it.
    pub fn scan_and_store_the_field_value_and_eat_white(
        &mut self,
        table: &mut StrTable,
        store: bool,
        outer: u8,
        target: FieldTarget,
        preamble: &mut Vec<usize>,
        buf_size: usize,
    ) -> (r: Result<FieldValue, FieldError>)
        requires
            old(self).wf(),
            old(self).scan.buf_ptr2 < old(self).scan.last,
            old(self).stream().len() < usize::MAX,
            macros_wf(*old(table)),
            old(table).string_view().len() < i32::MAX,
            target matches FieldTarget::Macro(m) ==> m <= old(table).max(),
        ensures
            final(self).wf(),
            final(self).lines@ == old(self).lines@,
            macros_wf(*final(table)),
            final(table).max() == old(table).max(),
            ({
                let t = *old(table);
                let defining = defining_of(target);
                match parts(old(self).stream(), store, outer, Seq::empty(), Seq::empty(), buf_size as int, t, defining) {
                    Ok((r2, o, keys)) => {
                        let v = if target == FieldTarget::EntryField { entry_value(o) } else { o };
                        let e = (v, TEXT_ILK);
                        if store && !t.view().contains_key(e) && !t.has_room() {
                            r == Err::<FieldValue, FieldError>(FieldError::HashOverflow)
                        } else {
                            &&& r matches Ok(fv)
                            &&& final(self).stream() == r2
                            &&& fv.notes@.len() == keys.len()
                            &&& forall|i: int| 0 <= i < keys.len() ==> notes_agree(#[trigger] fv.notes@[i], t, keys[i], defining)
                            &&& if !store {
                                &&& fv.loc is None
                                &&& final(table).view() == t.view()
                                &&& final(table).string_view() == t.string_view()
                                &&& forall|k: int| #[trigger] final(table).info_of(k) == t.info_of(k)
                                &&& final(preamble)@ == old(preamble)@
                            } else {
                                &&& fv.loc matches Some(loc)
                                &&& final(table).view() == t.view().insert(e, loc as int)
                                &&& final(table).string_view()[final(table).text_of(loc as int)] == v
                                &&& final(preamble)@ == if target == FieldTarget::Preamble {
                                    old(preamble)@.push(final(table).text_of(loc as int) as usize)
                                } else {
                                    old(preamble)@
                                }
                                &&& forall|k: int| 0 <= k <= t.max() && defining != Some(k as usize) ==> #[trigger] final(table).info_of(k) == t.info_of(k)
                                &&& target matches FieldTarget::Macro(m) ==> final(table).info_of(m as int) == final(table).text_of(loc as int)
                            }
                        }
                    },
                    Err(e) => r == Err::<FieldValue, FieldError>(e),
                }
            }),
    {
        let ghost t0 = *table;
        let ghost defining = defining_of(target);
        let ghost s0 = self.stream();
        let ghost res = parts(s0, store, outer, Seq::empty(), Seq::empty(), buf_size as int, t0, defining);
        let ghost mut keys: Seq<(Seq<u8>, u8)> = Seq::empty();
        let def = match target {
            FieldTarget::Macro(m) => Some(m),
            _ => None,
        };
        let mut ex: Vec<u8> = Vec::new();
        let mut notes: Vec<MacroNotes> = Vec::new();
        loop
            invariant_except_break
                res == parts(self.stream(), store, outer, ex@, keys, buf_size as int, t0, defining),
            invariant
                self.wf(),
                self.lines@ == old(self).lines@,
                self.scan.buf_ptr2 < self.scan.last,
                self.stream().len() <= s0.len(),
                s0.len() < usize::MAX,
                s0 == old(self).stream(),
                t0 == *old(table),
                macros_wf(t0),
                macros_wf(*table),
                table.view() == t0.view(),
                table.string_view() == t0.string_view(),
                table.max() == t0.max(),
                table.size() == t0.size(),
                forall|k: int| #[trigger] table.info_of(k) == t0.info_of(k),
                forall|k: int|
                    #[trigger] t0.occupied(k) ==> table.occupied(k) && table.text_of(k) == t0.text_of(k) && table.ilk_of(k)
                        == t0.ilk_of(k),
                def == defining,
                defining == defining_of(target),
                ex@.len() <= buf_size,
                res == parts(s0, store, outer, Seq::empty(), Seq::empty(), buf_size as int, t0, defining),
                notes@.len() == keys.len(),
                forall|i: int| 0 <= i < keys.len() ==> notes_agree(#[trigger] notes@[i], t0, keys[i], defining),
            ensures
                res == Ok::<(Seq<u8>, Seq<u8>, Seq<(Seq<u8>, u8)>), FieldError>((self.stream(), ex@, keys)),
            decreases self.stream().len(),
        {
            let ghost st = self.stream();
            let ghost tc = *table;
            let ghost ex0 = ex@;
            proof {
                assert(st.len() > 0);
                lemma_part_len(st, store, outer, ex@, buf_size as int, t0, defining);
                assert(part_of(st, store, outer, ex0, buf_size as int, tc, defining) == part_of(st, store, outer, ex0, buf_size as int, t0, defining));
            }
            let step = self.scan_a_field_token_and_eat_white(table, store, outer, def, &mut ex, buf_size);
            match step {
                Ok(n) => {
                    proof {
                        let pr = part_of(st, store, outer, ex0, buf_size as int, t0, defining);
                        assert(pr is Ok);
                        assert(self.stream() == pr->Ok_0.0);
                        assert(ex@ == pr->Ok_0.1);
                    }
                    match n {
                        Some(m) => {
                            notes.push(m);
                            proof {
                                keys = keys.push(part_key(st));
                            }
                        },
                        None => {},
                    }
                },
                Err(e) => {
                    return Err(e);
                },
            }
            let ghost st2 = self.stream();
            if self.scan.buffer[self.scan.buf_ptr2] != HASH_SIGN {
                proof {
                    assert(st2[0] == self.scan.buffer@[self.scan.buf_ptr2 as int]);
                }
                break;
            }
            proof {
                assert(st2[0] == HASH_SIGN);
            }
            self.scan.buf_ptr2 = self.scan.buf_ptr2 + 1;
            proof {
                assert(self.stream() =~= st2.drop_first());
                lemma_white_end(st2.drop_first(), 0);
            }
            if !self.eat_bib_white_space() {
                return Err(FieldError::EndOfFile);
            }
        }
        let ghost o = ex@;
        if !store {
            return Ok(FieldValue { loc: None, notes });
        }
        let mut len = ex.len();
        let entry = match target {
            FieldTarget::EntryField => true,
            _ => false,
        };
        if entry && len > 0 && ex[len - 1] == SPACE {
            len = len - 1;
        }
        let x: usize = if entry && len > 0 && ex[0] == SPACE { 1 } else { 0 };
        let ghost v = if entry { entry_value(o) } else { o };
        proof {
            assert(ex@.subrange(x as int, len as int) =~= v);
        }
        let room = table.has_free_slot();
        proof {
            table.lemma_room_iff();
            t0.lemma_room_iff();
        }
        let (loc, found) = table.str_lookup(&ex, x, len - x, TEXT_ILK, room);
        proof {
            if found || !room {
                lemma_macros_wf_kept(t0, *table);
            }
        }
        if !found && !room {
            return Err(FieldError::HashOverflow);
        }
        proof {
            if found {
                assert(t0.view().insert((v, TEXT_ILK), loc as int) =~= t0.view());
            } else {
                lemma_macros_wf_insert(t0, *table, (v, TEXT_ILK), loc as int);
            }
            table.lemma_view_has((v, TEXT_ILK));
        }
        let txt = table.hash_text(loc);
        match target {
            FieldTarget::Preamble => {
                preamble.push(txt);
            },
            FieldTarget::Macro(m) => {
                let ghost t1 = *table;
                table.set_ilk_info(m, txt as i32);
                proof {
                    lemma_macros_wf_set(t1, *table, m as int, txt as int);
                }
            },
            FieldTarget::EntryField => {},
        }
        Ok(FieldValue { loc: Some(loc), notes })
    }
}

/// A table that holds the same strings in the same slots, with the same
/// values, still has a string number as the value of each macro.
pub proof fn lemma_macros_wf_kept(t0: StrTable, t1: StrTable)
    requires
        macros_wf(t0),
        t1.wf(),
        t1.view() == t0.view(),
        t1.string_view() == t0.string_view(),
        forall|k: int| #[trigger] t1.info_of(k) == t0.info_of(k),
        forall|k: int|
            #[trigger] t0.occupied(k) ==> t1.occupied(k) && t1.text_of(k) == t0.text_of(k) && t1.ilk_of(k)
                == t0.ilk_of(k),
    ensures
        macros_wf(t1),
{
    assert forall|k: int| #[trigger] t1.occupied(k) && t1.ilk_of(k) == MACRO_ILK implies 0 <= t1.info_of(k)
        < t1.string_view().len() by {
        t1.lemma_view_at(k);
        let e = t1.entry(k);
        t0.lemma_view_has(e);
        assert(t0.occupied(k));
        assert(t0.info_of(k) == t1.info_of(k));
    }
}

/// Storing a string of another kind keeps the macros' values string
/// numbers.
pub proof fn lemma_macros_wf_insert(t0: StrTable, t1: StrTable, e: (Seq<u8>, u8), loc: int)
    requires
        macros_wf(t0),
        t1.wf(),
        e.1 != MACRO_ILK,
        t1.view() == t0.view().insert(e, loc),
        t1.ilk_of(loc) == e.1,
        t1.string_view().len() >= t0.string_view().len(),
        forall|k: int| #[trigger] t1.info_of(k) == t0.info_of(k),
        forall|k: int|
            #[trigger] t0.occupied(k) ==> t1.occupied(k) && t1.text_of(k) == t0.text_of(k) && t1.ilk_of(k)
                == t0.ilk_of(k),
    ensures
        macros_wf(t1),
{
    assert forall|k: int| #[trigger] t1.occupied(k) && t1.ilk_of(k) == MACRO_ILK implies 0 <= t1.info_of(k)
        < t1.string_view().len() by {
        t1.lemma_view_at(k);
        let x = t1.entry(k);
        if x == e {
            assert(k == loc);
        } else {
            assert(t0.view().contains_key(x));
            t0.lemma_view_has(x);
            assert(t1.view()[x] == t0.view()[x]);
            assert(t0.occupied(k));
        }
    }
}

/// Setting the value of a slot to a string number keeps the macros'
/// values string numbers.
pub proof fn lemma_macros_wf_set(t0: StrTable, t1: StrTable, m: int, v: int)
    requires
        macros_wf(t0),
        t1.wf(),
        0 <= v < t0.string_view().len(),
        t1.info_of(m) == v,
        t1.string_view() == t0.string_view(),
        t1.max() == t0.max(),
        forall|k: int| 0 <= k <= t0.max() && k != m ==> #[trigger] t1.info_of(k) == t0.info_of(k),
        forall|k: int| #[trigger] t1.occupied(k) == t0.occupied(k),
        forall|k: int| #[trigger] t1.ilk_of(k) == t0.ilk_of(k),
    ensures
        macros_wf(t1),
{
    assert forall|k: int| #[trigger] t1.occupied(k) && t1.ilk_of(k) == MACRO_ILK implies 0 <= t1.info_of(k)
        < t1.string_view().len() by {
        if k != m {
            assert(t0.occupied(k));
            t0.lemma_view_at(k);
            t0.lemma_view_has(t0.entry(k));
            assert(t1.info_of(k) == t0.info_of(k));
        }
    }
}

/// No two spaces in a row.
pub open spec fn no_double_space(o: Seq<u8>) -> bool {
    forall|i: int, j: int| 0 <= i && j == i + 1 && j < o.len() ==> !(#[trigger] o[i] == SPACE && #[trigger] o[j] == SPACE)
}

/// Neither end is a space.
pub open spec fn no_edge_space(o: Seq<u8>) -> bool {
    o.len() > 0 ==> o[0] != SPACE && o.last() != SPACE
}

proof fn lemma_no_double_push(o: Seq<u8>, c: u8)
    requires
        no_double_space(o),
        c != SPACE || o.len() == 0 || o.last() != SPACE,
    ensures
        no_double_space(o.push(c)),
{
    let o2 = o.push(c);
    assert forall|i: int, j: int| 0 <= i && j == i + 1 && j < o2.len() implies !(#[trigger] o2[i] == SPACE && #[trigger] o2[j] == SPACE) by {
        if j < o.len() {
            assert(o2[i] == o[i] && o2[j] == o[j]);
        }
    }
}

proof fn lemma_no_double_prefix(o: Seq<u8>, n: int)
    requires
        no_double_space(o),
        0 <= n <= o.len(),
    ensures
        no_double_space(o.subrange(0, n)),
{
    let o2 = o.subrange(0, n);
    assert forall|i: int, j: int| 0 <= i && j == i + 1 && j < o2.len() implies !(#[trigger] o2[i] == SPACE && #[trigger] o2[j] == SPACE) by {
        assert(o2[i] == o[i] && o2[j] == o[j]);
    }
}

/// The input after white space is skipped starts with something else.
proof fn lemma_squeeze_starts(rest: Seq<u8>, store: bool, out: Seq<u8>, bs: int)
    ensures
        squeeze(rest, store, out, bs) matches Ok((r2, o)) ==> r2.len() > 0 && !is_white(r2[0]),
{
    lemma_white_end(rest, 0);
    let w = white_end(rest, 0);
    if w < rest.len() {
        lemma_white_end_stops(rest, 0);
        assert(rest.subrange(w, rest.len() as int)[0] == rest[w]);
    }
}

proof fn lemma_white_end_stops(s: Seq<u8>, p: int)
    requires
        0 <= p,
    ensures
        white_end(s, p) < s.len() ==> !is_white(s[white_end(s, p)]),
    decreases s.len() - p,
{
    if p < s.len() && is_white(s[p]) {
        lemma_white_end_stops(s, p + 1);
    }
}

/// Storing a value in braces keeps the output free of double spaces, where
/// the input goes on with something other than white space.
proof fn lemma_brace_loop_no_double(rest: Seq<u8>, depth: nat, delim: u8, out: Seq<u8>, bs: int)
    requires
        no_double_space(out),
        rest.len() > 0 ==> !is_white(rest[0]),
    ensures
        brace_loop(rest, depth, delim, true, out, bs) matches Ok((r2, o)) ==> no_double_space(o),
    decreases rest.len(),
{
    if rest.len() > 0 && !(depth == 0 && rest[0] == delim) && !(depth == 0 && rest[0] == RIGHT_BRACE) && !(out.len() >= bs) {
        let d: nat = if rest[0] == LEFT_BRACE {
            depth + 1
        } else if rest[0] == RIGHT_BRACE {
            (depth - 1) as nat
        } else {
            depth
        };
        let o = out.push(rest[0]);
        lemma_no_double_push(out, rest[0]);
        lemma_squeeze_starts(rest.drop_first(), true, o, bs);
        lemma_white_end(rest.drop_first(), 0);
        match squeeze(rest.drop_first(), true, o, bs) {
            Ok((r2, o2)) => {
                if o2 != o {
                    lemma_no_double_push(o, SPACE);
                }
                lemma_brace_loop_no_double(r2, d, delim, o2, bs);
            },
            Err(e) => {},
        }
    }
}

/// Skipping a value in braces reads as far as storing it does.
proof fn lemma_brace_loop_skip(rest: Seq<u8>, depth: nat, delim: u8, out: Seq<u8>, out2: Seq<u8>, bs: int)
    ensures
        brace_loop(rest, depth, delim, true, out, bs) matches Ok((r2, o)) ==> brace_loop(rest, depth, delim, false, out2, bs) matches Ok((r3, o3)) && r3 == r2,
    decreases rest.len(),
{
    if rest.len() > 0 && !(depth == 0 && rest[0] == delim) && !(depth == 0 && rest[0] == RIGHT_BRACE) && !(out.len() >= bs) {
        let d: nat = if rest[0] == LEFT_BRACE {
            depth + 1
        } else if rest[0] == RIGHT_BRACE {
            (depth - 1) as nat
        } else {
            depth
        };
        let o = out.push(rest[0]);
        lemma_white_end(rest.drop_first(), 0);
        match squeeze(rest.drop_first(), true, o, bs) {
            Ok((r2, o2)) => {
                lemma_brace_loop_skip(r2, d, delim, o2, out2, bs);
            },
            Err(e) => {},
        }
    }
}

proof fn lemma_macro_text_no_double(out: Seq<u8>, text: Seq<u8>, t: int, bs: int)
    requires
        no_double_space(out),
    ensures
        macro_text(out, text, t, bs) matches Ok(o) ==> no_double_space(o),
    decreases text.len() - t,
{
    if 0 <= t < text.len() {
        if !is_white(text[t]) {
            if out.len() < bs {
                lemma_no_double_push(out, text[t]);
                lemma_macro_text_no_double(out.push(text[t]), text, t + 1, bs);
            }
        } else if out.len() > 0 && out.last() != SPACE {
            if out.len() < bs {
                lemma_no_double_push(out, SPACE);
                lemma_macro_text_no_double(out.push(SPACE), text, t + 1, bs);
            }
        } else {
            lemma_macro_text_no_double(out, text, t + 1, bs);
        }
    }
}

proof fn lemma_part_no_double(s: Seq<u8>, outer: u8, out: Seq<u8>, bs: int, t: StrTable, defining: Option<usize>)
    requires
        no_double_space(out),
        s.len() > 0,
    ensures
        part_of(s, true, outer, out, bs, t, defining) matches Ok((r2, o)) ==> no_double_space(o),
{
    let c = s[0];
    if c == LEFT_BRACE || c == DOUBLE_QUOTE {
        let delim = if c == LEFT_BRACE { RIGHT_BRACE } else { DOUBLE_QUOTE };
        lemma_squeeze_starts(s.drop_first(), true, out, bs);
        match squeeze(s.drop_first(), true, out, bs) {
            Ok((r2, o)) => {
                if o != out {
                    assert(o == out.push(SPACE));
                    if out.len() > 0 && out.last() == SPACE {
                        assert(single_space_end(o) =~= out);
                    } else {
                        lemma_no_double_push(out, SPACE);
                        assert(single_space_end(o) == o);
                    }
                } else if single_space_end(o) != o {
                    lemma_no_double_prefix(o, o.len() - 1);
                    assert(o.drop_last() =~= o.subrange(0, o.len() - 1));
                }
                lemma_brace_loop_no_double(r2, 0, delim, single_space_end(o), bs);
            },
            Err(e) => {},
        }
    } else if is_digit(c) {
        let n = advance(s, 0, s.len() as int, Stop::NotDigit);
        lemma_advance(s, 0, s.len() as int, Stop::NotDigit);
        let o = out + s.subrange(0, n);
        assert forall|i: int, j: int| 0 <= i && j == i + 1 && j < o.len() implies !(#[trigger] o[i] == SPACE && #[trigger] o[j] == SPACE) by {
            if j < out.len() {
                assert(o[i] == out[i] && o[j] == out[j]);
            } else {
                assert(o[j] == s[j - out.len()]);
            }
        }
    } else {
        let key = part_key(s);
        let text = t.string_view()[t.info_of(t.view()[key]) as int];
        if out.len() == 0 && text.len() > 0 && is_white(text[0]) {
            assert(no_double_space(seq![SPACE]));
            lemma_macro_text_no_double(seq![SPACE], text, white_end(text, 1), bs);
        } else {
            lemma_macro_text_no_double(out, text, 0, bs);
        }
    }
}

proof fn lemma_parts_no_double(s: Seq<u8>, outer: u8, out: Seq<u8>, keys: Seq<(Seq<u8>, u8)>, bs: int, t: StrTable, defining: Option<usize>)
    requires
        no_double_space(out),
    ensures
        parts(s, true, outer, out, keys, bs, t, defining) matches Ok((r2, o, k)) ==> no_double_space(o),
    decreases s.len(),
{
    if s.len() > 0 {
        lemma_part_len(s, true, outer, out, bs, t, defining);
        lemma_part_no_double(s, outer, out, bs, t, defining);
        match part_of(s, true, outer, out, bs, t, defining) {
            Ok((r2, o)) => {
                let k2 = if is_macro_part(s) { keys.push(part_key(s)) } else { keys };
                if r2.len() > 0 && r2[0] == HASH_SIGN {
                    let r3 = r2.drop_first();
                    lemma_white_end(r3, 0);
                    let w = white_end(r3, 0);
                    if w < r3.len() {
                        lemma_parts_no_double(r3.subrange(w, r3.len() as int), outer, o, k2, bs, t, defining);
                    }
                }
            },
            Err(e) => {},
        }
    }
}

/// Law: a field value that is stored has no two spaces in a row, and the
/// value stored for an entry begins and ends with something other than a
/// space.
pub proof fn law_stored_value_single_spaced(s: Seq<u8>, outer: u8, bs: int, t: StrTable, defining: Option<usize>)
    ensures
        parts(s, true, outer, Seq::empty(), Seq::empty(), bs, t, defining) matches Ok((r2, o, k)) ==> {
            &&& no_double_space(o)
            &&& no_double_space(entry_value(o))
            &&& no_edge_space(entry_value(o))
        },
{
    let e: Seq<u8> = Seq::empty();
    assert(no_double_space(e));
    lemma_parts_no_double(s, outer, e, Seq::empty(), bs, t, defining);
    match parts(s, true, outer, e, Seq::empty(), bs, t, defining) {
        Ok((r2, o, k)) => {
            let o1 = if o.len() > 0 && o.last() == SPACE { o.drop_last() } else { o };
            lemma_no_double_prefix(o, o1.len() as int);
            assert(o1 =~= o.subrange(0, o1.len() as int));
            let v = entry_value(o);
            if o1.len() > 0 && o1[0] == SPACE {
                assert(v =~= o1.subrange(1, o1.len() as int));
                assert forall|i: int, j: int| 0 <= i && j == i + 1 && j < v.len() implies !(#[trigger] v[i] == SPACE && #[trigger] v[j] == SPACE) by {
                    assert(v[i] == o1[i + 1] && v[j] == o1[j + 1]);
                }
                if v.len() > 0 {
                    assert(v[0] == o1[1]);
                    assert(!(o1[0] == SPACE && o1[1] == SPACE));
                }
            }
            if v.len() > 0 && o.len() > 0 && o.last() == SPACE {
                assert(!(o[o.len() - 2] == SPACE && o[o.len() - 1] == SPACE));
            }
        },
        Err(_) => {},
    }
}

/// Law: skipping a value in braces or quotes reads exactly as far as
/// storing it does, wherever storing it succeeds.
pub proof fn law_skip_reads_as_far_as_store(s: Seq<u8>, delim: u8, out: Seq<u8>, bs: int)
    ensures
        balanced(s, delim, true, out, bs) matches Ok((r2, o)) ==> balanced(s, delim, false, out, bs) matches Ok((r3, o3)) && r3 == r2,
{
    match squeeze(s.drop_first(), true, out, bs) {
        Ok((r2, o)) => {
            lemma_brace_loop_skip(r2, 0, delim, single_space_end(o), single_space_end(o), bs);
        },
        Err(_) => {},
    }
}

/// White space from `i` to `j` is skipped as a whole.
pub proof fn lemma_white_run(s: Seq<u8>, i: int, j: int)
    requires
        0 <= i <= j <= s.len(),
        forall|k: int| i <= k < j ==> is_white(#[trigger] s[k]),
    ensures
        white_end(s, i) == white_end(s, j),
    decreases j - i,
{
    if i < j {
        lemma_white_run(s, i + 1, j);
    }
}

} // verus!
