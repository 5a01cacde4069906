//! The order of citations by their sort keys (`SORT`).
use vstd::prelude::*;
use vstd::multiset::Multiset;

verus! {

/// The byte of a sort key at the front of `a`; 127 ends a key, as does its
/// end.
pub open spec fn key_head(a: Seq<u8>) -> u8 {
    if a.len() > 0 {
        a[0]
    } else {
        127
    }
}

/// Compares two sort keys byte by byte: -1, 0 or 1. A key that ends first
/// is the smaller.
pub open spec fn key_compare(a: Seq<u8>, b: Seq<u8>) -> int
    decreases a.len(),
{
    let ca = key_head(a);
    let cb = key_head(b);
    if ca == 127 && cb == 127 {
        0
    } else if ca == 127 {
        -1
    } else if cb == 127 {
        1
    } else if ca < cb {
        -1
    } else if ca > cb {
        1
    } else {
        key_compare(a.drop_first(), b.drop_first())
    }
}

/// Whether citation `a` sorts before citation `b`: by sort key, and by
/// citation number where the keys are the same.
pub open spec fn cite_less(keys: Seq<Seq<u8>>, a: int, b: int) -> bool {
    key_compare(keys[a], keys[b]) < 0 || (key_compare(keys[a], keys[b]) == 0 && a < b)
}

proof fn lemma_key_order_antisym(a: Seq<u8>, b: Seq<u8>)
    ensures
        key_compare(a, b) == -key_compare(b, a),
        -1 <= key_compare(a, b) <= 1,
    decreases a.len(),
{
    if key_head(a) != 127 && key_head(b) != 127 && key_head(a) == key_head(b) {
        lemma_key_order_antisym(a.drop_first(), b.drop_first());
    }
}

proof fn lemma_key_order_trans(a: Seq<u8>, b: Seq<u8>, c: Seq<u8>)
    requires
        key_compare(a, b) <= 0,
        key_compare(b, c) <= 0,
    ensures
        key_compare(a, c) <= 0,
        key_compare(a, b) < 0 || key_compare(b, c) < 0 ==> key_compare(a, c) < 0,
    decreases a.len(),
{
    lemma_key_order_antisym(a, b);
    lemma_key_order_antisym(b, c);
    lemma_key_order_antisym(a, c);
    if key_head(a) != 127 && key_head(b) != 127 && key_head(c) != 127 && key_head(a) == key_head(b)
        && key_head(b) == key_head(c) {
        lemma_key_order_trans(a.drop_first(), b.drop_first(), c.drop_first());
    }
}

/// The order of citations is a strict total order.
pub proof fn lemma_cite_less_order(keys: Seq<Seq<u8>>, a: int, b: int, c: int)
    ensures
        !(cite_less(keys, a, b) && cite_less(keys, b, a)),
        a != b ==> cite_less(keys, a, b) || cite_less(keys, b, a),
        cite_less(keys, a, b) && cite_less(keys, b, c) ==> cite_less(keys, a, c),
{
    lemma_key_order_antisym(keys[a], keys[b]);
    lemma_key_order_antisym(keys[b], keys[c]);
    lemma_key_order_antisym(keys[a], keys[c]);
    if cite_less(keys, a, b) && cite_less(keys, b, c) {
        lemma_key_order_trans(keys[a], keys[b], keys[c]);
    }
}

/// Whether citation `arg1` sorts before citation `arg2` (two different
/// citations, each with its sort key in `keys`).
pub fn less_than(keys: &Vec<Vec<u8>>, arg1: usize, arg2: usize) -> (r: bool)
    requires
        arg1 < keys@.len(),
        arg2 < keys@.len(),
        arg1 != arg2,
    ensures
        r == cite_less(keys@.map_values(|k: Vec<u8>| k@), arg1 as int, arg2 as int),
{
    let k1 = &keys[arg1];
    let k2 = &keys[arg2];
    let ghost kv = keys@.map_values(|k: Vec<u8>| k@);
    assert(kv[arg1 as int] == k1@ && kv[arg2 as int] == k2@);
    let mut char_ptr: usize = 0;
    proof {
        assert(k1@.skip(0) =~= k1@);
        assert(k2@.skip(0) =~= k2@);
    }
    loop
        invariant
            char_ptr <= k1@.len(),
            char_ptr <= k2@.len(),
            kv == keys@.map_values(|k: Vec<u8>| k@),
            kv[arg1 as int] == k1@,
            kv[arg2 as int] == k2@,
            key_compare(k1@, k2@) == key_compare(k1@.skip(char_ptr as int), k2@.skip(char_ptr as int)),
        decreases k1@.len() - char_ptr,
    {
        let char1: u8 = if char_ptr < k1.len() { k1[char_ptr] } else { 127 };
        let char2: u8 = if char_ptr < k2.len() { k2[char_ptr] } else { 127 };
        assert(char1 == key_head(k1@.skip(char_ptr as int)));
        assert(char2 == key_head(k2@.skip(char_ptr as int)));
        if char1 == 127 {
            if char2 == 127 {
                return arg1 < arg2;
            } else {
                return true;
            }
        } else if char2 == 127 {
            return false;
        } else if char1 < char2 {
            return true;
        } else if char1 > char2 {
            return false;
        }
        proof {
            assert(k1@.skip(char_ptr as int).drop_first() =~= k1@.skip(char_ptr + 1));
            assert(k2@.skip(char_ptr as int).drop_first() =~= k2@.skip(char_ptr + 1));
        }
        char_ptr = char_ptr + 1;
    }
}

/// Whether the citations `s` are in order.
pub open spec fn cites_sorted(keys: Seq<Seq<u8>>, s: Seq<usize>) -> bool {
    forall|i: int, j: int| 0 <= i < j < s.len() ==> cite_less(keys, #[trigger] s[i] as int, #[trigger] s[j] as int)
}

/// The citations `s[lo..hi]` are in order.
pub open spec fn sorted_seg(keys: Seq<Seq<u8>>, s: Seq<usize>, lo: int, hi: int) -> bool {
    forall|i: int, j: int| lo <= i < j < hi ==> cite_less(keys, #[trigger] s[i] as int, #[trigger] s[j] as int)
}

/// No citation occurs twice in `s`.
pub open spec fn distinct_cites(s: Seq<usize>) -> bool {
    forall|i: int, j: int| 0 <= i < j < s.len() ==> #[trigger] s[i] != #[trigger] s[j]
}

/// Every citation of `s` has a sort key among the `n`.
pub open spec fn cites_below(s: Seq<usize>, n: int) -> bool {
    forall|i: int| 0 <= i < s.len() ==> #[trigger] s[i] < n
}

/// The citations `s[lo..hi]`, counted.
pub open spec fn seg(s: Seq<usize>, lo: int, hi: int) -> Multiset<usize> {
    s.subrange(lo, hi).to_multiset()
}

/// `s` and `t` differ only inside `lo..hi`.
pub open spec fn same_outside(s: Seq<usize>, t: Seq<usize>, lo: int, hi: int) -> bool {
    &&& s.len() == t.len()
    &&& forall|k: int| 0 <= k < s.len() && !(lo <= k < hi) ==> #[trigger] s[k] == t[k]
}

fn swap_cites(a: &mut Vec<usize>, i: usize, j: usize)
    requires
        i < old(a)@.len(),
        j < old(a)@.len(),
    ensures
        final(a)@ == old(a)@.update(i as int, old(a)@[j as int]).update(j as int, old(a)@[i as int]),
{
    let x = a[i];
    let y = a[j];
    a.set(i, y);
    a.set(j, x);
}

/// A swap inside `lo..hi` keeps what that range holds, and keeps the
/// citations distinct and known.
proof fn lemma_swap(s: Seq<usize>, i: int, j: int, lo: int, hi: int, n: int)
    requires
        0 <= lo <= i < hi <= s.len(),
        lo <= j < hi,
    ensures
        ({
            let t = s.update(i, s[j]).update(j, s[i]);
            &&& seg(t, lo, hi) == seg(s, lo, hi)
            &&& same_outside(s, t, lo, hi)
            &&& distinct_cites(s) ==> distinct_cites(t)
            &&& cites_below(s, n) ==> cites_below(t, n)
        }),
{
    broadcast use vstd::multiset::group_multiset_axioms;

    let t = s.update(i, s[j]).update(j, s[i]);
    let u = s.subrange(lo, hi);
    let u1 = u.update(i - lo, s[j]);
    let u2 = u1.update(j - lo, s[i]);
    assert(t.subrange(lo, hi) =~= u2);
    vstd::seq_lib::to_multiset_update(u, i - lo, s[j]);
    vstd::seq_lib::to_multiset_update(u1, j - lo, s[i]);
    assert(u1[j - lo] == s[j]);
    u.to_multiset_ensures();
    u1.to_multiset_ensures();
    assert(u[i - lo] == s[i]);
    assert(u.contains(s[i]));
    assert(u.to_multiset().count(s[i]) > 0);
    assert(u1[j - lo] == s[j]);
    assert(u1.contains(s[j]));
    assert(u1.to_multiset().count(s[j]) > 0);
    assert forall|x: usize| #[trigger] u2.to_multiset().count(x) == u.to_multiset().count(x) by {}
    assert(u2.to_multiset() =~= u.to_multiset());
    if distinct_cites(s) {
        assert forall|a: int, b: int| 0 <= a < b < t.len() implies #[trigger] t[a] != #[trigger] t[b] by {
            let a0 = if a == i { j } else if a == j { i } else { a };
            let b0 = if b == i { j } else if b == j { i } else { b };
            assert(t[a] == s[a0] && t[b] == s[b0]);
            if a0 < b0 {
                assert(s[a0] != s[b0]);
            } else {
                assert(s[b0] != s[a0]);
            }
        }
    }
    if cites_below(s, n) {
        assert forall|a: int| 0 <= a < t.len() implies #[trigger] t[a] < n by {
            let a0 = if a == i { j } else if a == j { i } else { a };
            assert(t[a] == s[a0]);
        }
    }
}

/// What a range holds is what its two parts hold.
proof fn lemma_seg_split(s: Seq<usize>, lo: int, mid: int, hi: int)
    requires
        0 <= lo <= mid <= hi <= s.len(),
    ensures
        seg(s, lo, hi) == seg(s, lo, mid).add(seg(s, mid, hi)),
{
    assert(s.subrange(lo, hi) =~= s.subrange(lo, mid) + s.subrange(mid, hi));
    vstd::seq_lib::lemma_multiset_commutative(s.subrange(lo, mid), s.subrange(mid, hi));
}

/// Reordering a part `a..b` of `lo..hi` keeps what `lo..hi` holds.
proof fn lemma_seg_frame(s: Seq<usize>, t: Seq<usize>, lo: int, a: int, b: int, hi: int)
    requires
        0 <= lo <= a <= b <= hi <= s.len(),
        same_outside(s, t, a, b),
        seg(t, a, b) == seg(s, a, b),
    ensures
        seg(t, lo, hi) == seg(s, lo, hi),
{
    lemma_seg_split(s, lo, a, hi);
    lemma_seg_split(s, a, b, hi);
    lemma_seg_split(t, lo, a, hi);
    lemma_seg_split(t, a, b, hi);
    assert(t.subrange(lo, a) =~= s.subrange(lo, a));
    assert(t.subrange(b, hi) =~= s.subrange(b, hi));
}

/// A citation of a reordered range was in the range before.
proof fn lemma_seg_member(s: Seq<usize>, t: Seq<usize>, a: int, b: int, k: int) -> (k0: int)
    requires
        0 <= a <= k < b <= s.len(),
        b <= t.len(),
        seg(t, a, b) == seg(s, a, b),
    ensures
        a <= k0 < b,
        s[k0] == t[k],
{
    let ts = t.subrange(a, b);
    let ss = s.subrange(a, b);
    assert(ts[k - a] == t[k]);
    assert(ts.contains(t[k]));
    ts.to_multiset_ensures();
    ss.to_multiset_ensures();
    assert(ts.to_multiset().count(t[k]) > 0);
    assert(ss.to_multiset().count(t[k]) > 0);
    assert(ss.contains(t[k]));
    let i = choose|i: int| 0 <= i < ss.len() && ss[i] == t[k];
    a + i
}

/// Sorts `cite_info[lo..hi]` where all of `cite_info` holds distinct
/// citations with sort keys: ranges of fewer than eleven by insertion,
/// longer ones by partitioning around the median of three of their
/// citations and sorting both sides.
fn sort_range(keys: &Vec<Vec<u8>>, cite_info: &mut Vec<usize>, lo: usize, hi: usize)
    requires
        lo <= hi <= old(cite_info)@.len(),
        cites_below(old(cite_info)@, keys@.len() as int),
        distinct_cites(old(cite_info)@),
    ensures
        same_outside(old(cite_info)@, final(cite_info)@, lo as int, hi as int),
        seg(final(cite_info)@, lo as int, hi as int) == seg(old(cite_info)@, lo as int, hi as int),
        sorted_seg(keys@.map_values(|k: Vec<u8>| k@), final(cite_info)@, lo as int, hi as int),
        cites_below(final(cite_info)@, keys@.len() as int),
        distinct_cites(final(cite_info)@),
    decreases hi - lo,
{
    let ghost kv = keys@.map_values(|k: Vec<u8>| k@);
    let ghost s0 = cite_info@;
    let ghost n = keys@.len() as int;
    if hi - lo < 11 {
        insertion_sort(keys, cite_info, lo, hi);
        return;
    }
    let left0 = lo + 4;
    let middle = lo + (hi - 1 - lo) / 2;
    let right0 = hi - 5;
    let ghost sl: int;
    let ghost sg: int;
    let ghost s1 = cite_info@;
    proof {
        lemma_cite_less_order(kv, s1[left0 as int] as int, s1[middle as int] as int, s1[right0 as int] as int);
        lemma_cite_less_order(kv, s1[middle as int] as int, s1[right0 as int] as int, s1[left0 as int] as int);
        lemma_cite_less_order(kv, s1[right0 as int] as int, s1[left0 as int] as int, s1[middle as int] as int);
        lemma_cite_less_order(kv, s1[left0 as int] as int, s1[right0 as int] as int, s1[middle as int] as int);
        lemma_cite_less_order(kv, s1[middle as int] as int, s1[left0 as int] as int, s1[right0 as int] as int);
        lemma_cite_less_order(kv, s1[right0 as int] as int, s1[middle as int] as int, s1[left0 as int] as int);
        assert(s1[left0 as int] != s1[middle as int]);
        assert(s1[middle as int] != s1[right0 as int]);
        assert(s1[left0 as int] != s1[right0 as int]);
    }
    let piv: usize;
    if less_than(keys, cite_info[left0], cite_info[middle]) {
        if less_than(keys, cite_info[middle], cite_info[right0]) {
            piv = middle;
            proof { sl = left0 as int; sg = right0 as int; }
        } else if less_than(keys, cite_info[left0], cite_info[right0]) {
            piv = right0;
            proof { sl = left0 as int; sg = middle as int; }
        } else {
            piv = left0;
            proof { sl = right0 as int; sg = middle as int; }
        }
    } else if less_than(keys, cite_info[right0], cite_info[middle]) {
        piv = middle;
        proof { sl = right0 as int; sg = left0 as int; }
    } else if less_than(keys, cite_info[right0], cite_info[left0]) {
        piv = right0;
        proof { sl = middle as int; sg = left0 as int; }
    } else {
        piv = left0;
        proof { sl = middle as int; sg = right0 as int; }
    }
    proof {
        lemma_swap(cite_info@, lo as int, piv as int, lo as int, hi as int, n);
    }
    swap_cites(cite_info, lo, piv);
    let partition = cite_info[lo];
    assert(cite_less(kv, cite_info@[sl] as int, partition as int));
    assert(cite_less(kv, partition as int, cite_info@[sg] as int));
    let mut left = lo + 1;
    let mut right = hi - 1;
    let ghost mut gl: int = sl;
    let ghost mut gg: int = sg;
    loop
        invariant
            kv == keys@.map_values(|k: Vec<u8>| k@),
            n == keys@.len(),
            lo + 11 <= hi <= cite_info@.len(),
            lo + 1 <= left <= right + 1,
            right < hi,
            cite_info@[lo as int] == partition,
            same_outside(s0, cite_info@, lo as int, hi as int),
            seg(cite_info@, lo as int, hi as int) == seg(s0, lo as int, hi as int),
            cites_below(cite_info@, n),
            distinct_cites(cite_info@),
            forall|k: int| lo + 1 <= k < left ==> cite_less(kv, #[trigger] cite_info@[k] as int, partition as int),
            forall|k: int| right < k < hi ==> cite_less(kv, partition as int, #[trigger] cite_info@[k] as int),
            lo + 1 <= gl <= right,
            cite_less(kv, cite_info@[gl] as int, partition as int),
            left <= gg < hi,
            cite_less(kv, partition as int, cite_info@[gg] as int),
        ensures
            left == right + 1,
        decreases right + 2 - left,
    {
        while less_than(keys, cite_info[left], partition)
            invariant
                kv == keys@.map_values(|k: Vec<u8>| k@),
                n == keys@.len(),
                lo + 1 <= left <= gg < hi <= cite_info@.len(),
                cite_info@[lo as int] == partition,
                cites_below(cite_info@, n),
                distinct_cites(cite_info@),
                cite_less(kv, partition as int, cite_info@[gg] as int),
                forall|k: int| lo + 1 <= k < left ==> cite_less(kv, #[trigger] cite_info@[k] as int, partition as int),
            decreases gg - left,
        {
            proof {
                lemma_cite_less_order(kv, partition as int, cite_info@[gg] as int, partition as int);
            }
            left = left + 1;
        }
        while less_than(keys, partition, cite_info[right])
            invariant
                kv == keys@.map_values(|k: Vec<u8>| k@),
                n == keys@.len(),
                lo + 1 <= gl <= right < hi <= cite_info@.len(),
                cite_info@[lo as int] == partition,
                cites_below(cite_info@, n),
                distinct_cites(cite_info@),
                cite_less(kv, cite_info@[gl] as int, partition as int),
                forall|k: int| right < k < hi ==> cite_less(kv, partition as int, #[trigger] cite_info@[k] as int),
            decreases right - gl,
        {
            proof {
                lemma_cite_less_order(kv, partition as int, cite_info@[gl] as int, partition as int);
            }
            right = right - 1;
        }
        proof {
            let s = cite_info@;
            assert(s[left as int] != partition);
            assert(s[right as int] != partition);
            lemma_cite_less_order(kv, s[left as int] as int, partition as int, s[left as int] as int);
            lemma_cite_less_order(kv, s[right as int] as int, partition as int, s[right as int] as int);
            if left > right + 1 {
                let k = right + 1;
                assert(cite_less(kv, s[k] as int, partition as int));
                assert(cite_less(kv, partition as int, s[k] as int));
                lemma_cite_less_order(kv, s[k] as int, partition as int, s[k] as int);
            }
            if left == right {
                lemma_cite_less_order(kv, s[left as int] as int, partition as int, s[left as int] as int);
            }
        }
        if left < right {
            let ghost s = cite_info@;
            proof {
                lemma_swap(s, left as int, right as int, lo as int, hi as int, n);
                lemma_seg_frame(s0, s.update(left as int, s[right as int]).update(right as int, s[left as int]), lo as int, lo as int, hi as int, hi as int);
            }
            swap_cites(cite_info, left, right);
            proof {
                gl = left as int;
                gg = right as int;
                assert(cite_less(kv, cite_info@[gl] as int, partition as int));
                assert(cite_less(kv, partition as int, cite_info@[gg] as int));
            }
            left = left + 1;
            right = right - 1;
        }
        if left == right + 1 {
            break;
        }
    }
    let ghost s2 = cite_info@;
    proof {
        lemma_swap(s2, lo as int, right as int, lo as int, hi as int, n);
    }
    swap_cites(cite_info, lo, right);
    let ghost s3 = cite_info@;
    proof {
        assert(s3[right as int] == partition);
        assert forall|k: int| lo <= k < right implies cite_less(kv, #[trigger] s3[k] as int, partition as int) by {
            if k == lo {
                assert(s3[k] == s2[right as int]);
            } else {
                assert(s3[k] == s2[k]);
            }
        }
        assert forall|k: int| right < k < hi implies cite_less(kv, partition as int, #[trigger] s3[k] as int) by {
            assert(s3[k] == s2[k]);
        }
    }
    sort_range(keys, cite_info, lo, right);
    let ghost s4 = cite_info@;
    sort_range(keys, cite_info, left, hi);
    let ghost s5 = cite_info@;
    proof {
        lemma_seg_frame(s3, s4, lo as int, lo as int, right as int, hi as int);
        lemma_seg_frame(s4, s5, lo as int, left as int, hi as int, hi as int);
        assert(s5[right as int] == partition);
        assert forall|k: int| lo <= k < right implies cite_less(kv, #[trigger] s5[k] as int, partition as int) by {
            let k0 = lemma_seg_member(s3, s4, lo as int, right as int, k);
            assert(s5[k] == s4[k]);
        }
        assert forall|k: int| left <= k < hi implies cite_less(kv, partition as int, #[trigger] s5[k] as int) by {
            let k0 = lemma_seg_member(s4, s5, left as int, hi as int, k);
            assert(s4[k0] == s3[k0]);
        }
        assert forall|i: int, j: int| lo <= i < j < hi implies cite_less(kv, #[trigger] s5[i] as int, #[trigger] s5[j] as int) by {
            if j < right {
                assert(s5[i] == s4[i] && s5[j] == s4[j]);
            } else if i > right {
            } else if i == right {
            } else if j == right {
            } else {
                lemma_cite_less_order(kv, s5[i] as int, partition as int, s5[j] as int);
            }
        }
    }
}

/// Sorts `cite_info[lo..hi]` by insertion (see `sort_range`).
fn insertion_sort(keys: &Vec<Vec<u8>>, cite_info: &mut Vec<usize>, lo: usize, hi: usize)
    requires
        lo <= hi <= old(cite_info)@.len(),
        cites_below(old(cite_info)@, keys@.len() as int),
        distinct_cites(old(cite_info)@),
    ensures
        same_outside(old(cite_info)@, final(cite_info)@, lo as int, hi as int),
        seg(final(cite_info)@, lo as int, hi as int) == seg(old(cite_info)@, lo as int, hi as int),
        sorted_seg(keys@.map_values(|k: Vec<u8>| k@), final(cite_info)@, lo as int, hi as int),
        cites_below(final(cite_info)@, keys@.len() as int),
        distinct_cites(final(cite_info)@),
{
    let ghost kv = keys@.map_values(|k: Vec<u8>| k@);
    let ghost s0 = cite_info@;
    let ghost n = keys@.len() as int;
    if hi - lo <= 1 {
        return;
    }
    let mut ip = lo + 1;
    while ip < hi
        invariant
            kv == keys@.map_values(|k: Vec<u8>| k@),
            n == keys@.len(),
            lo + 1 <= ip <= hi <= cite_info@.len(),
            same_outside(s0, cite_info@, lo as int, hi as int),
            seg(cite_info@, lo as int, hi as int) == seg(s0, lo as int, hi as int),
            cites_below(cite_info@, n),
            distinct_cites(cite_info@),
            sorted_seg(kv, cite_info@, lo as int, ip as int),
        decreases hi - ip,
    {
        let mut right = ip;
        while right > lo && !less_than(keys, cite_info[right - 1], cite_info[right])
            invariant
                kv == keys@.map_values(|k: Vec<u8>| k@),
                n == keys@.len(),
                lo <= right <= ip < hi <= cite_info@.len(),
                same_outside(s0, cite_info@, lo as int, hi as int),
                seg(cite_info@, lo as int, hi as int) == seg(s0, lo as int, hi as int),
                cites_below(cite_info@, n),
                distinct_cites(cite_info@),
                sorted_seg(kv, cite_info@, lo as int, right as int),
                sorted_seg(kv, cite_info@, right as int, ip + 1),
                forall|i: int, j: int|
                    lo <= i < right < j <= ip ==> cite_less(kv, #[trigger] cite_info@[i] as int, #[trigger] cite_info@[j] as int),
            decreases right,
        {
            let ghost s = cite_info@;
            proof {
                assert(s[right - 1] != s[right as int]);
                lemma_cite_less_order(kv, s[right - 1] as int, s[right as int] as int, s[right - 1] as int);
                lemma_swap(s, right - 1, right as int, lo as int, hi as int, n);
                lemma_seg_frame(s0, s.update(right - 1, s[right as int]).update(right as int, s[right - 1]), lo as int, lo as int, hi as int, hi as int);
            }
            swap_cites(cite_info, right - 1, right);
            let ghost t = cite_info@;
            proof {
                let r = right as int;
                assert(t[r - 1] == s[r] && t[r] == s[r - 1]);
                assert forall|i: int, j: int| r - 1 <= i < j < ip + 1 implies cite_less(kv, #[trigger] t[i] as int, #[trigger] t[j] as int) by {
                    if i == r - 1 && j == r {
                    } else if i == r - 1 {
                        assert(t[j] == s[j]);
                    } else {
                        assert(t[j] == s[j]);
                    }
                }
                assert forall|i: int, j: int| lo <= i < r - 1 < j <= ip implies cite_less(kv, #[trigger] t[i] as int, #[trigger] t[j] as int) by {
                    assert(t[i] == s[i]);
                    if j == r {
                    } else {
                        assert(t[j] == s[j]);
                    }
                }
                assert forall|i: int, j: int| lo <= i < j < r - 1 implies cite_less(kv, #[trigger] t[i] as int, #[trigger] t[j] as int) by {
                    assert(t[i] == s[i] && t[j] == s[j]);
                }
            }
            right = right - 1;
        }
        proof {
            let s = cite_info@;
            let r = right as int;
            if r > lo {
                assert(cite_less(kv, s[r - 1] as int, s[r] as int));
            }
            assert forall|i: int, j: int| lo <= i < j < ip + 1 implies cite_less(kv, #[trigger] s[i] as int, #[trigger] s[j] as int) by {
                if j < r {
                } else if i >= r {
                } else if j > r {
                } else if i < r - 1 {
                    lemma_cite_less_order(kv, s[i] as int, s[r - 1] as int, s[r] as int);
                }
            }
        }
        ip = ip + 1;
    }
}

/// The citations `s[lo..hi]` are distinct.
pub open spec fn distinct_in(s: Seq<usize>, lo: int, hi: int) -> bool {
    forall|i: int, j: int| lo <= i < j < hi ==> #[trigger] s[i] != #[trigger] s[j]
}

/// Every citation of `s[lo..hi]` has a sort key among the `n`.
pub open spec fn below_in(s: Seq<usize>, lo: int, hi: int, n: int) -> bool {
    forall|i: int| lo <= i < hi ==> #[trigger] s[i] < n
}

/// `quick_sort`: sorts the citations `cite_info[lo..hi]` (distinct numbers,
/// each with its sort key in `keys`) by `less_than`, leaving the rest of
/// `cite_info` as it is: ranges of fewer than eleven by insertion, longer
/// ones by partitioning around the median of three of their citations and
/// sorting both sides.
pub fn quick_sort(keys: &Vec<Vec<u8>>, cite_info: &mut Vec<usize>, lo: usize, hi: usize)
    requires
        lo <= hi <= old(cite_info)@.len(),
        below_in(old(cite_info)@, lo as int, hi as int, keys@.len() as int),
        distinct_in(old(cite_info)@, lo as int, hi as int),
    ensures
        same_outside(old(cite_info)@, final(cite_info)@, lo as int, hi as int),
        seg(final(cite_info)@, lo as int, hi as int) == seg(old(cite_info)@, lo as int, hi as int),
        sorted_seg(keys@.map_values(|k: Vec<u8>| k@), final(cite_info)@, lo as int, hi as int),
{
    let ghost s0 = cite_info@;
    let mut part: Vec<usize> = Vec::new();
    let mut k = lo;
    while k < hi
        invariant
            lo <= k <= hi <= cite_info@.len(),
            cite_info@ == s0,
            part@ == s0.subrange(lo as int, k as int),
        decreases hi - k,
    {
        part.push(cite_info[k]);
        proof {
            assert(s0.subrange(lo as int, k + 1) =~= s0.subrange(lo as int, k as int).push(s0[k as int]));
        }
        k = k + 1;
    }
    let m = part.len();
    let ghost p0 = part@;
    proof {
        assert forall|i: int, j: int| 0 <= i < j < p0.len() implies #[trigger] p0[i] != #[trigger] p0[j] by {
            assert(p0[i] == s0[lo + i] && p0[j] == s0[lo + j]);
        }
        assert forall|i: int| 0 <= i < p0.len() implies #[trigger] p0[i] < keys@.len() by {
            assert(p0[i] == s0[lo + i]);
        }
    }
    sort_range(keys, &mut part, 0, m);
    let ghost p1 = part@;
    let mut j: usize = 0;
    while j < m
        invariant
            j <= m,
            m == p1.len(),
            hi - lo == m,
            lo <= hi <= s0.len(),
            part@ == p1,
            cite_info@.len() == s0.len(),
            forall|q: int| 0 <= q < s0.len() && !(lo <= q < lo + j) ==> #[trigger] cite_info@[q] == s0[q],
            forall|q: int| 0 <= q < j ==> #[trigger] cite_info@[lo + q] == p1[q],
        decreases m - j,
    {
        cite_info.set(lo + j, part[j]);
        j = j + 1;
    }
    proof {
        let kv = keys@.map_values(|k: Vec<u8>| k@);
        assert forall|q: int| 0 <= q < m implies #[trigger] cite_info@.subrange(lo as int, hi as int)[q] == p1[q] by {
            assert(cite_info@[lo + q] == p1[q]);
        }
        assert(cite_info@.subrange(lo as int, hi as int) =~= p1);
        assert(p1.subrange(0, m as int) =~= p1);
        assert(p0.subrange(0, m as int) =~= p0);
        assert forall|a: int, b: int| lo <= a < b < hi implies cite_less(kv, #[trigger] cite_info@[a] as int, #[trigger] cite_info@[b] as int) by {
            assert(cite_info@[lo + (a - lo)] == p1[a - lo]);
            assert(cite_info@[lo + (b - lo)] == p1[b - lo]);
        }
    }
}

/// Sorts the citations `cite_info` (distinct numbers, each with its sort
/// key in `keys`) by `less_than`, with `quick_sort`.
pub fn sort_cites(keys: &Vec<Vec<u8>>, cite_info: Vec<usize>) -> (r: Vec<usize>)
    requires
        cites_below(cite_info@, keys@.len() as int),
        distinct_cites(cite_info@),
    ensures
        r@.to_multiset() == cite_info@.to_multiset(),
        cites_sorted(keys@.map_values(|k: Vec<u8>| k@), r@),
{
    let mut v = cite_info;
    let n = v.len();
    quick_sort(keys, &mut v, 0, n);
    proof {
        assert(v@.subrange(0, n as int) =~= v@);
        assert(cite_info@.subrange(0, n as int) =~= cite_info@);
    }
    v
}

/// Sort keys are ordered by their first differing byte, every byte but
/// 127 (which ends a key) compared as an unsigned number: where `a` and `b`
/// agree on their first `k` bytes (none of them 127) and `a[k] < b[k]`
/// (neither 127), `a` is the smaller; a key that is a proper prefix of the
/// other (up to a byte that is not 127) is the smaller too.
pub proof fn law_keys_ordered_by_first_difference(a: Seq<u8>, b: Seq<u8>, k: int)
    requires
        0 <= k <= a.len(),
        k < b.len(),
        forall|j: int| 0 <= j < k ==> a[j] == b[j] && a[j] != 127,
        b[k] != 127,
        k < a.len() ==> a[k] != 127 && a[k] < b[k],
    ensures
        key_compare(a, b) == -1,
        key_compare(b, a) == 1,
    decreases k,
{
    if k > 0 {
        assert(a[0] == b[0]);
        let a1 = a.drop_first();
        let b1 = b.drop_first();
        assert forall|j: int| 0 <= j < k - 1 implies a1[j] == b1[j] && a1[j] != 127 by {
            assert(a1[j] == a[j + 1] && b1[j] == b[j + 1]);
        }
        law_keys_ordered_by_first_difference(a1, b1, k - 1);
    }
}

/// Where the keys of two citations are ordered by their first differing
/// byte (see `law_keys_ordered_by_first_difference`), the citation with the
/// smaller key sorts first, whatever their numbers.
pub proof fn law_citations_ordered_by_key(keys: Seq<Seq<u8>>, x: int, y: int, k: int)
    requires
        0 <= x < keys.len(),
        0 <= y < keys.len(),
        0 <= k <= keys[x].len(),
        k < keys[y].len(),
        forall|j: int| 0 <= j < k ==> keys[x][j] == keys[y][j] && keys[x][j] != 127,
        keys[y][k] != 127,
        k < keys[x].len() ==> keys[x][k] != 127 && keys[x][k] < keys[y][k],
    ensures
        cite_less(keys, x, y),
        !cite_less(keys, y, x),
{
    law_keys_ordered_by_first_difference(keys[x], keys[y], k);
}

proof fn lemma_key_compare_self(a: Seq<u8>)
    ensures
        key_compare(a, a) == 0,
    decreases a.len(),
{
    if a.len() > 0 && a[0] != 127 {
        lemma_key_compare_self(a.drop_first());
    }
}

/// Citations with the same sort key keep the order of their numbers.
pub proof fn law_equal_keys_sort_by_number(keys: Seq<Seq<u8>>, x: int, y: int)
    requires
        0 <= x < keys.len(),
        0 <= y < keys.len(),
        keys[x] == keys[y],
    ensures
        cite_less(keys, x, y) == (x < y),
{
    lemma_key_compare_self(keys[x]);
}

} // verus!
