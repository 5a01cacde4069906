//! Helpers for writing CMaps: hex output and the runs of consecutive
//! mappings that make a `bfrange`.
use vstd::prelude::*;

verus! {

/// One entry of a CMap mapping table: its flags (the mapping type in the
/// low four bits; bit 4 where a subtable follows), the length of its code
/// and the code.
pub struct mapDef {
    pub flag: i32,
    pub len: usize,
    pub code: Vec<u8>,
    pub next: Option<Vec<mapDef>>,
}

/// Whether entry `k` continues the run of entry `k - 1`: a plain mapping of
/// type 1 or 4, with a code of the same length that differs from the one
/// before only in its last byte (position `n`), which is one more.
pub open spec fn continues_block(mtab: Seq<mapDef>, k: int, n: int) -> bool {
    let f = mtab[k].flag;
    &&& f & 16 == 0
    &&& (f & 0xf == 1 || f & 0xf == 4)
    &&& mtab[k - 1].len == mtab[k].len
    &&& mtab[k - 1].code@.subrange(0, n) == mtab[k].code@.subrange(0, n)
    &&& mtab[k - 1].code@[n] < 255
    &&& mtab[k - 1].code@[n] + 1 == mtab[k].code@[n]
}

/// How many entries from `k` on (below 256) continue the run.
pub open spec fn block_run(mtab: Seq<mapDef>, k: int, n: int) -> int
    decreases 256 - k,
{
    if k >= 256 || !continues_block(mtab, k, n) {
        0
    } else {
        1 + block_run(mtab, k + 1, n)
    }
}

/// Each code holds at least as many bytes as its length says.
pub open spec fn codes_fit(mtab: Seq<mapDef>) -> bool {
    forall|k: int| 0 <= k < mtab.len() ==> #[trigger] mtab[k].code@.len() >= mtab[k].len
}

proof fn lemma_block_run_bound(mtab: Seq<mapDef>, k: int, n: int)
    requires
        k <= 256,
    ensures
        0 <= block_run(mtab, k, n) <= 256 - k,
    decreases 256 - k,
{
    if k < 256 && continues_block(mtab, k, n) {
        lemma_block_run_bound(mtab, k + 1, n);
    }
}

/// The number of entries after entry `c` that continue its run.
pub fn block_count(mtab: &[mapDef], c: usize) -> (r: usize)
    requires
        mtab@.len() == 256,
        c < 256,
        mtab@[c as int].len >= 1,
        codes_fit(mtab@),
    ensures
        r == block_run(mtab@, c + 1, mtab@[c as int].len - 1),
{
    let n = mtab[c].len - 1;
    let ghost nn = n as int;
    let mut count: usize = 0;
    let mut k = c + 1;
    proof {
        lemma_block_run_bound(mtab@, k as int, nn);
    }
    while k < 256
        invariant
            c + 1 <= k <= 256,
            mtab@.len() == 256,
            n == mtab@[c as int].len - 1,
            nn == n as int,
            codes_fit(mtab@),
            count == k - (c + 1),
            block_run(mtab@, c + 1, nn) == count + block_run(mtab@, k as int, nn),
            k > c + 1 ==> mtab@[k - 1].len == n + 1,
            k == c + 1 ==> mtab@[k - 1].len == n + 1,
        decreases 256 - k,
    {
        let f = mtab[k].flag;
        if f & 16 != 0 || !(f & 0xf == 1 || f & 0xf == 4) || mtab[k - 1].len != mtab[k].len {
            return count;
        }
        let prev = &mtab[k - 1].code;
        let cur = &mtab[k].code;
        let mut i: usize = 0;
        while i < n && prev[i] == cur[i]
            invariant
                i <= n,
                n < prev@.len(),
                n < cur@.len(),
                forall|j: int| 0 <= j < i ==> prev@[j] == cur@[j],
            decreases n - i,
        {
            i = i + 1;
        }
        let same = i == n;
        proof {
            if same {
                assert(prev@.subrange(0, nn) =~= cur@.subrange(0, nn));
            } else {
                assert(prev@.subrange(0, nn)[i as int] != cur@.subrange(0, nn)[i as int]);
            }
        }
        if !(same && prev[n] < 255 && prev[n] + 1 == cur[n]) {
            return count;
        }
        count = count + 1;
        k = k + 1;
    }
    count
}

/// An upper-case hex digit.
pub open spec fn hex_upper(d: int) -> u8 {
    if d < 10 {
        (48 + d) as u8
    } else {
        (55 + d) as u8
    }
}

/// Appends the two hex digits of `c` to `s`, which must leave room for
/// them below `lim`.
pub fn sputx(c: u8, s: &mut Vec<u8>, lim: usize)
    requires
        lim >= 2,
        old(s)@.len() <= lim - 2,
    ensures
        final(s)@ == old(s)@ + seq![hex_upper(c as int / 16), hex_upper(c as int % 16)],
{
    let hi = c >> 4;
    let lo = c & 0xf;
    assert(hi == c / 16 && lo == c % 16) by (bit_vector)
        requires
            hi == c >> 4,
            lo == c & 0xf,
    ;
    s.push(if hi < 10 { hi + 48 } else { hi + 55 });
    s.push(if lo < 10 { lo + 48 } else { lo + 55 });
    assert(s@ =~= old(s)@ + seq![hex_upper(c as int / 16), hex_upper(c as int % 16)]);
}

} // verus!
