//! Writing the `.bbl` file: text is gathered in an output buffer, and lines
//! longer than 79 bytes are broken at white space, the rest going on in a
//! line indented by two spaces.
use vstd::prelude::*;
use crate::bibtex::lex::{lex_class, LexType, is_white};

verus! {

pub const MAX_PRINT_LINE: usize = 79;
pub const MIN_PRINT_LINE: usize = 3;

/// `buf` without the white space at its end.
pub open spec fn trim_white(buf: Seq<u8>) -> Seq<u8>
    decreases buf.len(),
{
    if buf.len() > 0 && is_white(buf.last()) {
        trim_white(buf.drop_last())
    } else {
        buf
    }
}

/// What writing the line `buf` adds to the file: the line without its
/// white space at the end, and a newline; nothing where the line is white
/// space only (but not empty).
pub open spec fn line_out(buf: Seq<u8>) -> Seq<u8> {
    if buf.len() == 0 {
        seq![10u8]
    } else if trim_white(buf).len() == 0 {
        Seq::empty()
    } else {
        trim_white(buf).push(10)
    }
}

/// `output_bbl_line`: writes the line in `out_buf` to `bbl` and empties
/// the buffer.
pub fn output_bbl_line(out_buf: &mut Vec<u8>, bbl: &mut Vec<u8>)
    ensures
        final(bbl)@ == old(bbl)@ + line_out(old(out_buf)@),
        final(out_buf)@.len() == 0,
{
    let ghost b0 = out_buf@;
    if out_buf.len() != 0 {
        while out_buf.len() > 0 && lex_class(out_buf[out_buf.len() - 1]) == LexType::WhiteSpace
            invariant
                trim_white(b0) == trim_white(out_buf@),
                b0.len() > 0,
            decreases out_buf@.len(),
        {
            let ghost before = out_buf@;
            out_buf.pop();
            proof {
                assert(out_buf@ =~= before.drop_last());
            }
        }
        proof {
            assert(trim_white(out_buf@) == out_buf@);
        }
        if out_buf.len() == 0 {
            proof {
                assert(bbl@ =~= old(bbl)@ + line_out(b0));
            }
            return;
        }
        let mut i: usize = 0;
        let n = out_buf.len();
        while i < n
            invariant
                n == out_buf@.len(),
                i <= n,
                bbl@ == old(bbl)@ + out_buf@.take(i as int),
            decreases n - i,
        {
            bbl.push(out_buf[i]);
            proof {
                assert(out_buf@.take(i + 1) =~= out_buf@.take(i as int).push(out_buf@[i as int]));
            }
            i = i + 1;
        }
        proof {
            assert(out_buf@.take(n as int) =~= out_buf@);
        }
    }
    bbl.push(10);
    out_buf.clear();
    proof {
        assert(bbl@ =~= old(bbl)@ + line_out(b0));
    }
}

/// Where a line too long is broken: the last white space at or below
/// position 79 and from position 3 on; else the first after position 79
/// (with the white space right after it); `None` where there is none.
pub open spec fn back_to_white(buf: Seq<u8>, p: int) -> int
    decreases p,
{
    if p < 3 || is_white(buf[p]) {
        p
    } else {
        back_to_white(buf, p - 1)
    }
}

pub open spec fn on_to_white(buf: Seq<u8>, p: int) -> int
    decreases buf.len() - p,
{
    if p >= buf.len() || is_white(buf[p]) {
        p
    } else {
        on_to_white(buf, p + 1)
    }
}

pub open spec fn over_white(buf: Seq<u8>, p: int) -> int
    decreases buf.len() - p,
{
    if p + 1 < buf.len() && is_white(buf[p + 1]) {
        over_white(buf, p + 1)
    } else {
        p
    }
}

pub open spec fn break_point(buf: Seq<u8>) -> Option<int> {
    let p = back_to_white(buf, 79);
    if p >= 3 {
        Some(p)
    } else {
        let q = on_to_white(buf, 80);
        if q >= buf.len() {
            None
        } else {
            Some(over_white(buf, q))
        }
    }
}

proof fn lemma_break_point(buf: Seq<u8>)
    requires
        buf.len() > 79,
    ensures
        break_point(buf) matches Some(p) ==> 3 <= p < buf.len(),
{
    lemma_back(buf, 79);
    lemma_on(buf, 80);
    let q = on_to_white(buf, 80);
    if q < buf.len() {
        lemma_over(buf, q);
    }
}

proof fn lemma_back(buf: Seq<u8>, p: int)
    requires
        2 <= p < buf.len(),
    ensures
        2 <= back_to_white(buf, p) <= p,
    decreases p,
{
    if !(p < 3 || is_white(buf[p])) {
        lemma_back(buf, p - 1);
    }
}

proof fn lemma_on(buf: Seq<u8>, p: int)
    requires
        p >= 0,
    ensures
        p <= on_to_white(buf, p),
        on_to_white(buf, p) <= if p > buf.len() { p } else { buf.len() as int },
    decreases buf.len() - p,
{
    if !(p >= buf.len() || is_white(buf[p])) {
        lemma_on(buf, p + 1);
    }
}

proof fn lemma_over(buf: Seq<u8>, p: int)
    requires
        0 <= p < buf.len(),
    ensures
        p <= over_white(buf, p) < buf.len(),
    decreases buf.len() - p,
{
    if p + 1 < buf.len() && is_white(buf[p + 1]) {
        lemma_over(buf, p + 1);
    }
}

/// Breaking the lines of the buffer `buf`, writing to `out`: while the
/// buffer is longer than 79 bytes and has a break point, the part before
/// the break point is written as a line, and the buffer goes on with two
/// spaces and the part after it.
pub open spec fn break_lines(buf: Seq<u8>, out: Seq<u8>) -> (Seq<u8>, Seq<u8>)
    decreases buf.len(),
{
    if buf.len() <= 79 {
        (buf, out)
    } else {
        match break_point(buf) {
            None => (buf, out),
            Some(p) => {
                if 3 <= p < buf.len() {
                    break_lines(seq![32u8, 32u8] + buf.subrange(p + 1, buf.len() as int), out + line_out(buf.subrange(0, p)))
                } else {
                    (buf, out)
                }
            },
        }
    }
}

/// `add_out_pool`: appends `s` to the output buffer and writes the lines
/// that the buffer holds beyond 79 bytes (see `break_lines`) to `bbl`.
pub fn add_out_pool(out_buf: &mut Vec<u8>, s: &Vec<u8>, bbl: &mut Vec<u8>)
    ensures
        ({
            let r = break_lines(old(out_buf)@ + s@, old(bbl)@);
            final(out_buf)@ == r.0 && final(bbl)@ == r.1
        }),
{
    let mut i: usize = 0;
    let ghost b0 = out_buf@;
    while i < s.len()
        invariant
            i <= s@.len(),
            out_buf@ == b0 + s@.take(i as int),
        decreases s@.len() - i,
    {
        out_buf.push(s[i]);
        proof {
            assert(s@.take(i + 1) =~= s@.take(i as int).push(s@[i as int]));
        }
        i = i + 1;
    }
    proof {
        assert(s@.take(s@.len() as int) =~= s@);
    }
    let ghost target = break_lines(b0 + s@, old(bbl)@);
    loop
        invariant
            target == break_lines(out_buf@, bbl@),
            target == break_lines(old(out_buf)@ + s@, old(bbl)@),
        decreases out_buf@.len(),
    {
        let end = out_buf.len();
        if end <= MAX_PRINT_LINE {
            return;
        }
        proof {
            lemma_break_point(out_buf@);
            lemma_back(out_buf@, 79);
        }
        let mut p: usize = MAX_PRINT_LINE;
        while lex_class(out_buf[p]) != LexType::WhiteSpace && p >= MIN_PRINT_LINE
            invariant
                end == out_buf@.len(),
                end > 79,
                2 <= p <= 79,
                back_to_white(out_buf@, 79) == back_to_white(out_buf@, p as int),
            decreases p,
        {
            p = p - 1;
        }
        if p == MIN_PRINT_LINE - 1 {
            p = MAX_PRINT_LINE + 1;
            proof {
                lemma_on(out_buf@, 80);
            }
            while p < end && lex_class(out_buf[p]) != LexType::WhiteSpace
                invariant
                    end == out_buf@.len(),
                    80 <= p <= end,
                    on_to_white(out_buf@, 80) == on_to_white(out_buf@, p as int),
                decreases end - p,
            {
                p = p + 1;
            }
            if p == end {
                assert(break_point(out_buf@) is None);
                return;
            }
            proof {
                lemma_over(out_buf@, p as int);
            }
            while p + 1 < end && lex_class(out_buf[p + 1]) == LexType::WhiteSpace
                invariant
                    end == out_buf@.len(),
                    80 <= p < end,
                    over_white(out_buf@, on_to_white(out_buf@, 80)) == over_white(out_buf@, p as int),
                decreases end - p,
            {
                p = p + 1;
            }
        }
        let ghost buf = out_buf@;
        assert(break_point(buf) == Some(p as int));
        let mut line: Vec<u8> = Vec::new();
        let mut k: usize = 0;
        while k < p
            invariant
                k <= p < end,
                end == out_buf@.len(),
                buf == out_buf@,
                line@ == buf.take(k as int),
            decreases p - k,
        {
            line.push(out_buf[k]);
            proof {
                assert(buf.take(k + 1) =~= buf.take(k as int).push(buf[k as int]));
            }
            k = k + 1;
        }
        proof {
            assert(line@ =~= buf.subrange(0, p as int));
        }
        output_bbl_line(&mut line, bbl);
        let mut rest: Vec<u8> = vec![32u8, 32u8];
        let mut t: usize = p + 1;
        while t < end
            invariant
                p + 1 <= t <= end,
                end == out_buf@.len(),
                buf == out_buf@,
                rest@ == seq![32u8, 32u8] + buf.subrange(p + 1, t as int),
            decreases end - t,
        {
            rest.push(out_buf[t]);
            proof {
                assert(buf.subrange(p + 1, t + 1) =~= buf.subrange(p + 1, t as int).push(buf[t as int]));
            }
            t = t + 1;
        }
        *out_buf = rest;
    }
}

/// After `add_out_pool` the buffer is no longer than 79 bytes, or has no
/// break point; and the file only grows.
pub proof fn law_break_lines_done(buf: Seq<u8>, out: Seq<u8>)
    ensures
        break_lines(buf, out).0.len() <= 79 || break_point(break_lines(buf, out).0) is None,
        out.is_prefix_of(break_lines(buf, out).1),
    decreases buf.len(),
{
    if buf.len() > 79 {
        lemma_break_point(buf);
        if let Some(p) = break_point(buf) {
            let nb = seq![32u8, 32u8] + buf.subrange(p + 1, buf.len() as int);
            let no = out + line_out(buf.subrange(0, p));
            law_break_lines_done(nb, no);
            assert(out.is_prefix_of(no)) by {
                assert(no.subrange(0, out.len() as int) =~= out);
            }
            let fin = break_lines(nb, no).1;
            assert(out.is_prefix_of(fin)) by {
                assert(fin.subrange(0, no.len() as int) == no);
                assert forall|i: int| 0 <= i < out.len() implies fin[i] == out[i] by {
                    assert(fin.subrange(0, no.len() as int)[i] == no[i]);
                }
            }
        }
    }
}

} // verus!
