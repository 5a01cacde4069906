//! The citations of the `.aux` file: each cite key is stored in the hash
//! table twice, as it is written (kind `CITE_ILK`, with its number in the
//! cite list) and in lower case (kind `LC_CITE_ILK`, with the slot of the
//! first); two keys that differ only in case are an error.
use vstd::prelude::*;
use crate::bibtex::hash::StrTable;
use crate::bibtex::scan::{Scanner, Stop, advance, lemma_advance};
use crate::bibtex::lex::{lex_class, LexType, lower_case, is_white};
use crate::bibtex::case::lower_byte;
use crate::bibtex::text::{RIGHT_BRACE, lemma_vec_len};

verus! {

pub const CITE_ILK: u8 = 9;
pub const LC_CITE_ILK: u8 = 10;
pub const COMMA: u8 = 44;
pub const STAR: u8 = 42;

/// A key in lower case.
pub open spec fn lower_key(k: Seq<u8>) -> Seq<u8> {
    k.map_values(|c: u8| lower_byte(c))
}

/// The citations so far: the string numbers of the cited keys, in order,
/// and whether (and from which citation on) the whole database is cited.
pub struct Cites {
    pub cite_list: Vec<usize>,
    pub all_entries: bool,
    pub all_marker: usize,
}

/// The citations agree with the hash table: each cite key stored has its
/// number in the cite list, whose entry is its string, and its lower-case
/// form stored with its slot.
pub open spec fn cites_wf(t: StrTable, c: Cites) -> bool {
    &&& t.wf()
    &&& c.cite_list@.len() < i32::MAX
    &&& forall|k: Seq<u8>| #[trigger] t.view().contains_key((k, CITE_ILK)) ==> {
        let loc = t.view()[(k, CITE_ILK)];
        let i = t.info_of(loc);
        &&& 0 <= i < c.cite_list@.len()
        &&& c.cite_list@[i as int] == t.text_of(loc)
        &&& t.view().contains_key((lower_key(k), LC_CITE_ILK))
        &&& t.info_of(t.view()[(lower_key(k), LC_CITE_ILK)]) == loc
    }
}

/// What can go wrong in a `\citation` command.
#[derive(Clone, Copy, Debug, PartialEq, Eq, Structural)]
pub enum AuxError {
    /// The line ends before the right brace.
    NoRightBrace,
    /// A key holds white space.
    WhiteSpaceInArgument,
    /// Something follows the right brace.
    StuffAfterRightBrace,
    /// `*` (the whole database) is cited twice.
    MultipleAllEntries,
    /// A key differs only in case from one cited before.
    CaseMismatch,
    /// The hash table is full (a fatal error).
    HashOverflow,
}

/// A lower-case copy of `buf[a..b]`.
fn lower_copy(buf: &Vec<u8>, a: usize, b: usize) -> (r: Vec<u8>)
    requires
        a <= b <= buf@.len(),
    ensures
        r@ == lower_key(buf@.subrange(a as int, b as int)),
{
    let mut r: Vec<u8> = Vec::new();
    let mut i = a;
    while i < b
        invariant
            a <= i <= b <= buf@.len(),
            r@ == buf@.subrange(a as int, i as int),
        decreases b - i,
    {
        r.push(buf[i]);
        proof {
            assert(buf@.subrange(a as int, i + 1) =~= buf@.subrange(a as int, i as int).push(buf@[i as int]));
        }
        i = i + 1;
    }
    let n = r.len();
    let ghost r0 = r@;
    lower_case(&mut r, 0, n);
    proof {
        assert(r@ =~= lower_key(r0));
    }
    r
}

/// `find_cite_locs_for_this_cite_key`: looks `key` up as a cite key and
/// in lower case. Returns the slot of each and whether it was found; the
/// table does not change.
pub fn find_cite_locs_for_this_cite_key(t: &mut StrTable, key: &Vec<u8>) -> (r: (usize, bool, usize, bool))
    requires
        old(t).wf(),
    ensures
        final(t).wf(),
        final(t).view() == old(t).view(),
        final(t).string_view() == old(t).string_view(),
        final(t).max() == old(t).max(),
        final(t).size() == old(t).size(),
        forall|k: int| #[trigger] final(t).info_of(k) == old(t).info_of(k),
        forall|k: int|
            #[trigger] old(t).occupied(k) ==> final(t).occupied(k) && final(t).text_of(k) == old(t).text_of(k)
                && final(t).ilk_of(k) == old(t).ilk_of(k),
        r.1 == old(t).view().contains_key((key@, CITE_ILK)),
        r.1 ==> r.0 == old(t).view()[(key@, CITE_ILK)],
        r.3 == old(t).view().contains_key((lower_key(key@), LC_CITE_ILK)),
        r.3 ==> r.2 == old(t).view()[(lower_key(key@), LC_CITE_ILK)],
{
    proof {
        assert(key@.subrange(0, key@.len() as int) =~= key@);
    }
    let (cite_loc, cite_found) = t.str_lookup(key, 0, key.len(), CITE_ILK, false);
    let lc = lower_copy(key, 0, key.len());
    let (lc_loc, lc_found) = t.str_lookup(&lc, 0, lc.len(), LC_CITE_ILK, false);
    proof {
        assert(lc@.subrange(0, lc@.len() as int) =~= lc@);
    }
    (cite_loc, cite_found, lc_loc, lc_found)
}

/// The citations still agree with a table whose lookups give what they
/// gave.
proof fn lemma_cites_frame(t0: StrTable, t1: StrTable, c: Cites)
    requires
        cites_wf(t0, c),
        t1.wf(),
        t1.view() == t0.view(),
        forall|k: int| #[trigger] t1.info_of(k) == t0.info_of(k),
        forall|k: int| #[trigger] t0.occupied(k) ==> t1.occupied(k) && t1.text_of(k) == t0.text_of(k),
    ensures
        cites_wf(t1, c),
{
    assert forall|k: Seq<u8>| #[trigger] t1.view().contains_key((k, CITE_ILK)) implies {
        let loc = t1.view()[(k, CITE_ILK)];
        let i = t1.info_of(loc);
        &&& 0 <= i < c.cite_list@.len()
        &&& c.cite_list@[i as int] == t1.text_of(loc)
        &&& t1.view().contains_key((lower_key(k), LC_CITE_ILK))
        &&& t1.info_of(t1.view()[(lower_key(k), LC_CITE_ILK)]) == loc
    } by {
        t0.lemma_view_has((k, CITE_ILK));
        assert(t0.occupied(t0.view()[(k, CITE_ILK)]));
    }
}

/// `add_database_cite`: enters the cite key stored in slot `cite_loc`
/// (whose lower-case form is in slot `lc_loc`) as the next citation.
pub fn add_database_cite(t: &mut StrTable, c: &mut Cites, cite_loc: usize, lc_loc: usize)
    requires
        old(t).wf(),
        1 <= cite_loc <= old(t).max(),
        1 <= lc_loc <= old(t).max(),
        old(c).cite_list@.len() < i32::MAX - 1,
    ensures
        final(t).wf(),
        final(t).view() == old(t).view(),
        final(t).string_view() == old(t).string_view(),
        final(t).max() == old(t).max(),
        final(t).size() == old(t).size(),
        final(t).info_of(cite_loc as int) == (if cite_loc == lc_loc { cite_loc as i32 } else { old(c).cite_list@.len() as i32 }),
        final(t).info_of(lc_loc as int) == cite_loc as i32,
        forall|k: int| 0 <= k <= old(t).max() && k != cite_loc && k != lc_loc ==> #[trigger] final(t).info_of(k) == old(t).info_of(k),
        forall|k: int| #[trigger] final(t).occupied(k) == old(t).occupied(k),
        forall|k: int| #[trigger] final(t).text_of(k) == old(t).text_of(k),
        forall|k: int| #[trigger] final(t).ilk_of(k) == old(t).ilk_of(k),
        final(c).cite_list@ == old(c).cite_list@.push(old(t).text_of(cite_loc as int) as usize),
        final(c).all_entries == old(c).all_entries,
        final(c).all_marker == old(c).all_marker,
{
    let n = c.cite_list.len();
    let s = t.hash_text(cite_loc);
    c.cite_list.push(s);
    t.set_ilk_info(cite_loc, n as i32);
    t.set_ilk_info(lc_loc, cite_loc as i32);
}

/// Cites `key`: where its lower-case form is stored, the key must be
/// stored as it is (else the case differs from a key cited before);
/// otherwise both are stored and the key becomes the next citation.
pub fn cite_key(t: &mut StrTable, c: &mut Cites, key: &Vec<u8>) -> (r: Result<(), AuxError>)
    requires
        cites_wf(*old(t), *old(c)),
        old(c).cite_list@.len() < i32::MAX - 1,
    ensures
        cites_wf(*final(t), *final(c)),
        final(t).max() == old(t).max(),
        final(c).all_entries == old(c).all_entries,
        final(c).all_marker == old(c).all_marker,
        old(c).cite_list@.is_prefix_of(final(c).cite_list@),
        forall|x: (Seq<u8>, u8)| #[trigger] old(t).view().contains_key(x) ==> final(t).view().contains_key(x),
        ({
            let lc_known = old(t).view().contains_key((lower_key(key@), LC_CITE_ILK));
            let known = old(t).view().contains_key((key@, CITE_ILK));
            &&& (r == Err::<(), AuxError>(AuxError::CaseMismatch)) == (lc_known && !known)
            &&& (r == Err::<(), AuxError>(AuxError::HashOverflow)) == (!lc_known && old(t).size() + 2 > old(t).max())
            &&& r == Err::<(), AuxError>(AuxError::HashOverflow) ==> final(t).size() == final(t).max()
            &&& lc_known ==> final(t).size() == old(t).size()
            &&& r is Ok && !known ==> {
                &&& final(t).size() == old(t).size() + 2
                &&& forall|x: (Seq<u8>, u8)|
                    #[trigger] final(t).view().contains_key(x) == (old(t).view().contains_key(x) || x == (key@, CITE_ILK) || x == (
                    lower_key(key@), LC_CITE_ILK))
            }
            &&& r is Err ==> *final(c) == *old(c)
            &&& forall|x: (Seq<u8>, u8)| #[trigger] old(t).view().contains_key(x) ==> final(t).view()[x] == old(t).view()[x]
            &&& forall|k: int| #[trigger] old(t).occupied(k) ==> final(t).occupied(k) && final(t).text_of(k) == old(t).text_of(k)
            &&& (r is Err ==> r == Err::<(), AuxError>(AuxError::CaseMismatch) || r == Err::<(), AuxError>(AuxError::HashOverflow))
            &&& r is Ok ==> {
                &&& final(t).view().contains_key((key@, CITE_ILK))
                &&& final(c).cite_list@ == if known { old(c).cite_list@ } else { old(c).cite_list@.push(final(t).text_of(final(t).view()[(key@, CITE_ILK)]) as usize) }
            }
            &&& lc_known ==> *final(c) == *old(c) && final(t).view() == old(t).view()
        }),
{
    let ghost t0 = *t;
    let ghost c0 = *c;
    let lc = lower_copy(key, 0, key.len());
    proof {
        assert(key@.subrange(0, key@.len() as int) =~= key@);
        assert(lc@.subrange(0, lc@.len() as int) =~= lc@);
    }
    if !t.has_free_slot() {
        let (_l, lc_found) = t.str_lookup(&lc, 0, lc.len(), LC_CITE_ILK, false);
        let ghost ta = *t;
        if lc_found {
            let (_d, found) = t.str_lookup(key, 0, key.len(), CITE_ILK, false);
            proof {
                lemma_cites_frame(t0, ta, *c);
                lemma_cites_frame(ta, *t, *c);
            }
            if found {
                return Ok(());
            }
            return Err(AuxError::CaseMismatch);
        }
        proof {
            lemma_cites_frame(t0, ta, *c);
            if t0.size() < t0.max() {
                t0.lemma_room();
            }
            t.lemma_room_iff();
            t.lemma_taken();
        }
        return Err(AuxError::HashOverflow);
    }
    let (lc_loc, lc_found) = t.str_lookup(&lc, 0, lc.len(), LC_CITE_ILK, true);
    if lc_found {
        let ghost ta = *t;
        let (_d, found) = t.str_lookup(key, 0, key.len(), CITE_ILK, false);
        proof {
            lemma_cites_frame(t0, ta, *c);
            lemma_cites_frame(ta, *t, *c);
        }
        if found {
            return Ok(());
        }
        return Err(AuxError::CaseMismatch);
    }
    let ghost t1 = *t;
    proof {
        t1.lemma_room_iff();
    }
    if !t.has_free_slot() {
        proof {
            if t.size() < t.max() {
                t.lemma_room();
            }
            t.lemma_taken();
            assert forall|k: Seq<u8>| #[trigger] t.view().contains_key((k, CITE_ILK)) implies {
                let loc = t.view()[(k, CITE_ILK)];
                let i = t.info_of(loc);
                &&& 0 <= i < c.cite_list@.len()
                &&& c.cite_list@[i as int] == t.text_of(loc)
                &&& t.view().contains_key((lower_key(k), LC_CITE_ILK))
                &&& t.info_of(t.view()[(lower_key(k), LC_CITE_ILK)]) == loc
            } by {
                assert(t0.view().contains_key((k, CITE_ILK)));
                let loc = t0.view()[(k, CITE_ILK)];
                t0.lemma_view_has((k, CITE_ILK));
                assert(t0.occupied(loc));
                assert(lower_key(k) != lc@);
                let l2 = t0.view()[(lower_key(k), LC_CITE_ILK)];
                t0.lemma_view_has((lower_key(k), LC_CITE_ILK));
            }
        }
        return Err(AuxError::HashOverflow);
    }
    let (cite_loc, cite_found) = t.str_lookup(key, 0, key.len(), CITE_ILK, true);
    let ghost t2 = *t;
    proof {
        assert(!cite_found) by {
            if t0.view().contains_key((key@, CITE_ILK)) {
                assert(t0.view().contains_key((lower_key(key@), LC_CITE_ILK)));
            }
        }
        t1.lemma_view_has((lc@, LC_CITE_ILK));
        assert(t1.occupied(lc_loc as int));
        assert(cite_loc != lc_loc);
    }
    add_database_cite(t, c, cite_loc, lc_loc);
    proof {
        let tf = *t;
        let cf = *c;
        assert(tf.view() == t0.view().insert((lc@, LC_CITE_ILK), lc_loc as int).insert((key@, CITE_ILK), cite_loc as int));
        assert(tf.view()[(key@, CITE_ILK)] == cite_loc as int);
        t2.lemma_view_has((key@, CITE_ILK));
        assert(tf.view().contains_key((lc@, LC_CITE_ILK)));
        assert(tf.view()[(lc@, LC_CITE_ILK)] == lc_loc as int);
        assert(lc@ == lower_key(key@));
        assert(tf.info_of(cite_loc as int) == c0.cite_list@.len() as i32);
        assert(tf.info_of(lc_loc as int) == cite_loc as i32);
        assert(cf.cite_list@ == c0.cite_list@.push(t2.text_of(cite_loc as int) as usize));
        assert(tf.text_of(cite_loc as int) == t2.text_of(cite_loc as int));
        assert forall|k: Seq<u8>| #[trigger] tf.view().contains_key((k, CITE_ILK)) implies {
            let loc = tf.view()[(k, CITE_ILK)];
            let i = tf.info_of(loc);
            &&& 0 <= i < cf.cite_list@.len()
            &&& cf.cite_list@[i as int] == tf.text_of(loc)
            &&& tf.view().contains_key((lower_key(k), LC_CITE_ILK))
            &&& tf.info_of(tf.view()[(lower_key(k), LC_CITE_ILK)]) == loc
        } by {
            if k == key@ {
                assert(tf.view()[(k, CITE_ILK)] == cite_loc);
                assert(lower_key(k) == lc@);
                assert(cf.cite_list@[c0.cite_list@.len() as int] == t2.text_of(cite_loc as int) as usize);
            } else {
                assert(t0.view().contains_key((k, CITE_ILK)));
                let loc = t0.view()[(k, CITE_ILK)];
                t0.lemma_view_has((k, CITE_ILK));
                assert(t0.occupied(loc));
                assert(lower_key(k) != lc@);
                t0.lemma_view_has((lower_key(k), LC_CITE_ILK));
                let l2 = t0.view()[(lower_key(k), LC_CITE_ILK)];
                assert(t0.occupied(l2));
                assert(c0.cite_list@[t0.info_of(loc) as int] == t0.text_of(loc));
                assert(t1.occupied(loc) && t1.occupied(l2));
                assert(loc != lc_loc && l2 != lc_loc);
                assert(loc != cite_loc && l2 != cite_loc);
                assert(tf.view()[(k, CITE_ILK)] == loc);
                assert(tf.view()[(lower_key(k), LC_CITE_ILK)] == l2);
                assert(cf.cite_list@[t0.info_of(loc) as int] == c0.cite_list@[t0.info_of(loc) as int]);
                assert(1 <= loc <= t0.max() && 1 <= l2 <= t0.max());
                assert(tf.info_of(loc) == t2.info_of(loc));
                assert(t2.info_of(loc) == t0.info_of(loc));
                assert(tf.info_of(l2) == t0.info_of(l2));
                assert(tf.text_of(loc) == t0.text_of(loc));
            }
        }
        assert(c0.cite_list@.is_prefix_of(cf.cite_list@)) by {
            assert(cf.cite_list@.subrange(0, c0.cite_list@.len() as int) =~= c0.cite_list@);
        }
    }
    Ok(())
}

/// The keys of a `\citation` argument from position `p` (the left brace or
/// the comma before the next key), up to the right brace, and the error
/// that stops the reading, if any.
pub open spec fn cite_parse(buf: Seq<u8>, last: int, p: int) -> (Seq<Seq<u8>>, Option<AuxError>)
    decreases last - p,
{
    if p < 0 || p >= last {
        (Seq::empty(), Some(AuxError::NoRightBrace))
    } else if buf[p] == RIGHT_BRACE {
        (Seq::empty(), None)
    } else {
        let q = advance(buf, p + 1, last, Stop::Byte2White(RIGHT_BRACE, COMMA));
        if q >= last {
            (Seq::empty(), Some(AuxError::NoRightBrace))
        } else if is_white(buf[q]) {
            (Seq::empty(), Some(AuxError::WhiteSpaceInArgument))
        } else if last > q + 1 && buf[q] == RIGHT_BRACE {
            (Seq::empty(), Some(AuxError::StuffAfterRightBrace))
        } else {
            proof {
                lemma_advance(buf, p + 1, last, Stop::Byte2White(RIGHT_BRACE, COMMA));
            }
            let rest = cite_parse(buf, last, q);
            (seq![buf.subrange(p + 1, q)] + rest.0, rest.1)
        }
    }
}

/// Whether `k` is `*`, which cites the whole database.
pub open spec fn is_star(k: Seq<u8>) -> bool {
    k.len() == 1 && k[0] == STAR
}

/// Whether `keys` holds `*`.
pub open spec fn has_star(keys: Seq<Seq<u8>>) -> bool {
    exists|j: int| 0 <= j < keys.len() && is_star(#[trigger] keys[j])
}

/// Whether the key `k` is a cite key once the keys `before` of a command
/// are cited after the table `t0`: stored before, or among them.
pub open spec fn cited_with(t0: StrTable, before: Seq<Seq<u8>>, k: Seq<u8>) -> bool {
    t0.view().contains_key((k, CITE_ILK)) || before.contains(k)
}

/// Whether the lower-case form of `k` is stored once the keys `before` of
/// a command are cited after the table `t0`.
pub open spec fn lower_cited_with(t0: StrTable, before: Seq<Seq<u8>>, k: Seq<u8>) -> bool {
    t0.view().contains_key((lower_key(k), LC_CITE_ILK)) || exists|j: int|
        0 <= j < before.len() && !is_star(before[j]) && lower_key(#[trigger] before[j]) == lower_key(k)
}

/// The keys of `keys`, cited after the table `t0`, that become new
/// citations, in the order written: those neither `*` nor cited before.
pub open spec fn new_cites(t0: StrTable, keys: Seq<Seq<u8>>) -> Seq<Seq<u8>>
    decreases keys.len(),
{
    if keys.len() == 0 {
        Seq::empty()
    } else {
        let before = keys.drop_last();
        let k = keys.last();
        if is_star(k) || cited_with(t0, before, k) {
            new_cites(t0, before)
        } else {
            new_cites(t0, before).push(k)
        }
    }
}

/// The error of citing `k` after the keys `before` of the same command,
/// judged on the table `t0` before the command (`all0`: whether the whole
/// database was cited before it): a second `*`, a key that differs only in
/// case from one cited before, or a table without room for the key and its
/// lower-case form.
pub open spec fn cite_error(t0: StrTable, all0: bool, before: Seq<Seq<u8>>, k: Seq<u8>) -> Option<AuxError> {
    if is_star(k) {
        if all0 || has_star(before) {
            Some(AuxError::MultipleAllEntries)
        } else {
            None
        }
    } else if cited_with(t0, before, k) {
        None
    } else if lower_cited_with(t0, before, k) {
        Some(AuxError::CaseMismatch)
    } else if t0.size() + 2 * new_cites(t0, before).len() + 2 > t0.max() {
        Some(AuxError::HashOverflow)
    } else {
        None
    }
}

/// The number of keys of `keys` cited before the first one that fails;
/// all of them where none fails.
pub open spec fn cited_count(t0: StrTable, all0: bool, keys: Seq<Seq<u8>>) -> int
    decreases keys.len(),
{
    if keys.len() == 0 {
        0
    } else {
        let n = cited_count(t0, all0, keys.drop_last());
        if n < keys.len() - 1 {
            n
        } else if cite_error(t0, all0, keys.drop_last(), keys.last()) is Some {
            keys.len() - 1
        } else {
            keys.len() as int
        }
    }
}

/// Where the whole database is cited from, once the keys `keys` are cited
/// after a cite list of `n0` citations: the number of citations made when
/// the first `*` is read, unless the whole database was cited before
/// (`all0`) or no `*` is read (then `marker0`, as it was).
pub open spec fn marker_of(t0: StrTable, n0: int, all0: bool, marker0: int, keys: Seq<Seq<u8>>) -> int
    decreases keys.len(),
{
    if keys.len() == 0 {
        marker0
    } else {
        let before = keys.drop_last();
        if is_star(keys.last()) && !all0 && !has_star(before) {
            n0 + new_cites(t0, before).len()
        } else {
            marker_of(t0, n0, all0, marker0, before)
        }
    }
}

/// The entry `x` is stored for one of the keys `keys` (other than `*`): the
/// key as it is, or its lower-case form.
pub open spec fn stored_for(keys: Seq<Seq<u8>>, x: (Seq<u8>, u8)) -> bool {
    exists|j: int|
        0 <= j < keys.len() && !is_star(#[trigger] keys[j]) && (x == (keys[j], CITE_ILK) || x == (lower_key(keys[j]), LC_CITE_ILK))
}

/// The keys of `keys` before the `m`th all are cited, and the `m`th (if
/// any) fails: `m` is the number of keys cited.
proof fn lemma_cited_count(t0: StrTable, all0: bool, keys: Seq<Seq<u8>>, m: int)
    requires
        0 <= m <= keys.len(),
        forall|i: int| 0 <= i < m ==> cite_error(t0, all0, keys.take(i), #[trigger] keys[i]) is None,
        m < keys.len() ==> cite_error(t0, all0, keys.take(m), keys[m]) is Some,
    ensures
        cited_count(t0, all0, keys) == m,
    decreases keys.len(),
{
    if keys.len() > 0 {
        let b = keys.drop_last();
        let n = keys.len() - 1;
        assert forall|i: int| 0 <= i <= n implies #[trigger] keys.take(i) == b.take(i) by {
            assert(keys.take(i) =~= b.take(i));
        }
        assert(keys.take(n) =~= b);
        if m < keys.len() {
            if m < n {
                assert forall|i: int| 0 <= i < m implies cite_error(t0, all0, b.take(i), #[trigger] b[i]) is None by {
                    assert(keys[i] == b[i]);
                    assert(keys.take(i) == b.take(i));
                }
                assert(keys[m] == b[m]);
                assert(keys.take(m) == b.take(m));
                lemma_cited_count(t0, all0, b, m);
            } else {
                assert forall|i: int| 0 <= i < n implies cite_error(t0, all0, b.take(i), #[trigger] b[i]) is None by {
                    assert(keys[i] == b[i]);
                    assert(keys.take(i) == b.take(i));
                }
                lemma_cited_count(t0, all0, b, n);
            }
        } else {
            assert forall|i: int| 0 <= i < n implies cite_error(t0, all0, b.take(i), #[trigger] b[i]) is None by {
                assert(keys[i] == b[i]);
                assert(keys.take(i) == b.take(i));
            }
            lemma_cited_count(t0, all0, b, n);
            assert(cite_error(t0, all0, keys.take(n), keys[n]) is None);
        }
    }
}

/// Where a key `k` other than `*` is stored, once the keys `keys` are
/// stored: as it is where it is among them, in lower case where the lower
/// case of one of them is its lower case.
proof fn lemma_stored_key(keys: Seq<Seq<u8>>, k: Seq<u8>)
    requires
        !is_star(k),
    ensures
        stored_for(keys, (k, CITE_ILK)) == keys.contains(k),
        stored_for(keys, (lower_key(k), LC_CITE_ILK)) == exists|j: int|
            0 <= j < keys.len() && !is_star(keys[j]) && lower_key(#[trigger] keys[j]) == lower_key(k),
{
    if keys.contains(k) {
        let j = choose|j: int| 0 <= j < keys.len() && keys[j] == k;
        assert(!is_star(keys[j]));
    }
    if stored_for(keys, (k, CITE_ILK)) {
        let j = choose|j: int|
            0 <= j < keys.len() && !is_star(#[trigger] keys[j]) && ((k, CITE_ILK) == (keys[j], CITE_ILK) || (k, CITE_ILK) == (
            lower_key(keys[j]), LC_CITE_ILK));
        assert(keys[j] == k);
    }
    if exists|j: int| 0 <= j < keys.len() && !is_star(keys[j]) && lower_key(#[trigger] keys[j]) == lower_key(k) {
        let j = choose|j: int| 0 <= j < keys.len() && !is_star(keys[j]) && lower_key(#[trigger] keys[j]) == lower_key(k);
        assert((lower_key(k), LC_CITE_ILK) == (lower_key(keys[j]), LC_CITE_ILK));
    }
}

/// The entries stored for the keys `keys` and then `k`.
proof fn lemma_stored_push(keys: Seq<Seq<u8>>, k: Seq<u8>)
    ensures
        forall|x: (Seq<u8>, u8)|
            #[trigger] stored_for(keys.push(k), x) == (stored_for(keys, x) || (!is_star(k) && (x == (k, CITE_ILK) || x == (
            lower_key(k), LC_CITE_ILK)))),
{
    let nd = keys.push(k);
    assert forall|x: (Seq<u8>, u8)|
        #[trigger] stored_for(nd, x) == (stored_for(keys, x) || (!is_star(k) && (x == (k, CITE_ILK) || x == (lower_key(k),
        LC_CITE_ILK)))) by {
        if stored_for(keys, x) {
            let j = choose|j: int|
                0 <= j < keys.len() && !is_star(#[trigger] keys[j]) && (x == (keys[j], CITE_ILK) || x == (lower_key(keys[j]), LC_CITE_ILK));
            assert(nd[j] == keys[j]);
        }
        if !is_star(k) && (x == (k, CITE_ILK) || x == (lower_key(k), LC_CITE_ILK)) {
            assert(nd[keys.len() as int] == k);
        }
        if stored_for(nd, x) {
            let j = choose|j: int|
                0 <= j < nd.len() && !is_star(#[trigger] nd[j]) && (x == (nd[j], CITE_ILK) || x == (lower_key(nd[j]), LC_CITE_ILK));
            if j < keys.len() {
                assert(nd[j] == keys[j]);
            }
        }
    }
}

/// The citations `c` after citing the keys `done` of a command that
/// started from the table `t0` and the citations `c0`: the whole database
/// cited and from where, and the new citations in the cite list, each the
/// string of its slot in `t`.
pub open spec fn cites_after(t0: StrTable, c0: Cites, done: Seq<Seq<u8>>, t: StrTable, c: Cites) -> bool {
    let n0 = c0.cite_list@.len();
    let added = new_cites(t0, done);
    &&& c.all_entries == (c0.all_entries || has_star(done))
    &&& c.all_marker == marker_of(t0, n0 as int, c0.all_entries, c0.all_marker as int, done)
    &&& c.cite_list@.len() == n0 + added.len()
    &&& forall|i: int|
        0 <= i < added.len() ==> t.view().contains_key((#[trigger] added[i], CITE_ILK)) && c.cite_list@[n0 + i] == t.text_of(
            t.view()[(added[i], CITE_ILK)],
        )
}

/// The table `t` after citing the keys `done` of a command that started
/// from the table `t0`: it holds the entries of `t0` and those stored for
/// the keys, and two more strings for each new citation.
pub open spec fn table_after(t0: StrTable, done: Seq<Seq<u8>>, t: StrTable) -> bool {
    &&& t.size() == t0.size() + 2 * new_cites(t0, done).len()
    &&& forall|x: (Seq<u8>, u8)| #[trigger] t.view().contains_key(x) == (t0.view().contains_key(x) || stored_for(done, x))
}

/// Where the keys `done` read so far all are cited and the next key (if
/// any) fails, the keys cited are `done`.
proof fn lemma_count_at(t0: StrTable, all0: bool, keys: Seq<Seq<u8>>, done: Seq<Seq<u8>>)
    requires
        done.len() <= keys.len(),
        keys.take(done.len() as int) == done,
        forall|i: int| 0 <= i < done.len() ==> cite_error(t0, all0, done.take(i), #[trigger] done[i]) is None,
        done.len() < keys.len() ==> cite_error(t0, all0, done, keys[done.len() as int]) is Some,
    ensures
        cited_count(t0, all0, keys) == done.len(),
{
    let m = done.len() as int;
    assert forall|i: int| 0 <= i < m implies cite_error(t0, all0, keys.take(i), #[trigger] keys[i]) is None by {
        assert(keys.take(i) =~= done.take(i));
        assert(keys[i] == keys.take(m)[i]);
    }
    lemma_cited_count(t0, all0, keys, m);
}

/// Cites the key `k` (not `*`) of a command that started from the table
/// `t0` and the citations `c0`, after its keys `done`: fails exactly with
/// `cite_error`, and otherwise cites it.
fn cite_next(t: &mut StrTable, c: &mut Cites, k: &Vec<u8>, Ghost(t0): Ghost<StrTable>, Ghost(c0): Ghost<Cites>, Ghost(done): Ghost<Seq<Seq<u8>>>) -> (r: Result<(), AuxError>)
    requires
        cites_wf(*old(t), *old(c)),
        old(c).cite_list@.len() < i32::MAX - 1,
        !is_star(k@),
        old(t).max() == t0.max(),
        cites_after(t0, c0, done, *old(t), *old(c)),
        table_after(t0, done, *old(t)),
    ensures
        cites_wf(*final(t), *final(c)),
        final(t).max() == old(t).max(),
        old(c).cite_list@.is_prefix_of(final(c).cite_list@),
        forall|x: (Seq<u8>, u8)| #[trigger] old(t).view().contains_key(x) ==> final(t).view().contains_key(x),
        r matches Err(e) ==> cite_error(t0, c0.all_entries, done, k@) == Some(e) && cites_after(t0, c0, done, *final(t), *final(c))
            && (e != AuxError::HashOverflow ==> table_after(t0, done, *final(t))),
        r is Ok ==> cite_error(t0, c0.all_entries, done, k@) is None && cites_after(t0, c0, done.push(k@), *final(t), *final(c))
            && table_after(t0, done.push(k@), *final(t)),
{
    let ghost tb = *t;
    let ghost cb = *c;
    let ghost key = k@;
    let ghost nd = done.push(key);
    proof {
        lemma_stored_key(done, key);
        assert(tb.view().contains_key((key, CITE_ILK)) == cited_with(t0, done, key));
        assert(tb.view().contains_key((lower_key(key), LC_CITE_ILK)) == lower_cited_with(t0, done, key));
        assert(nd.drop_last() =~= done);
        lemma_stored_push(done, key);
    }
    let res = cite_key(t, c, k);
    proof {
        lemma_list_kept(tb, *t, cb, new_cites(t0, done), c0.cite_list@.len() as int);
        if res is Ok {
            if cited_with(t0, done, key) {
                assert(tb.view().contains_key((lower_key(key), LC_CITE_ILK)));
            }
            assert(has_star(nd) == has_star(done)) by {
                if has_star(nd) {
                    let i = choose|i: int| 0 <= i < nd.len() && is_star(#[trigger] nd[i]);
                    if i < done.len() {
                        assert(is_star(done[i]));
                    }
                }
                if has_star(done) {
                    let i = choose|i: int| 0 <= i < done.len() && is_star(#[trigger] done[i]);
                    assert(is_star(nd[i]));
                }
            }
            let n0 = c0.cite_list@.len() as int;
            let added = new_cites(t0, nd);
            if !cited_with(t0, done, key) {
                assert(added == new_cites(t0, done).push(key));
                assert(t.view().contains_key((key, CITE_ILK)));
                assert(c.cite_list@[n0 + new_cites(t0, done).len()] == t.text_of(t.view()[(key, CITE_ILK)]));
                assert forall|i: int| 0 <= i < added.len() implies t.view().contains_key((#[trigger] added[i], CITE_ILK)) && c.cite_list@[n0
                    + i] == t.text_of(t.view()[(added[i], CITE_ILK)]) by {
                    if i < new_cites(t0, done).len() {
                        assert(added[i] == new_cites(t0, done)[i]);
                        assert(c.cite_list@[n0 + i] == cb.cite_list@[n0 + i]);
                    }
                }
            }
        }
    }
    res
}

/// `aux_citation_command`: reads the keys of a `\citation{...}` command
/// from the left brace at `buf_ptr2` and cites each in order: a key not
/// cited before becomes the next citation, and the first `*` cites the
/// whole database from the citations made so far on (`all_marker`). The
/// first key that fails (`cite_error`, judged on the table before the
/// command and the keys before it) stops the command with its error, the
/// keys before it cited; otherwise a malformed argument gives its error,
/// after all keys before it are cited.
#[verifier::rlimit(50)]
#[verifier::spinoff_prover]
pub fn aux_citation_command(t: &mut StrTable, c: &mut Cites, sc: &mut Scanner) -> (r: Result<(), AuxError>)
    requires
        cites_wf(*old(t), *old(c)),
        old(sc).wf(),
        old(sc).buf_ptr2 < old(sc).last,
        old(c).cite_list@.len() + old(sc).last < i32::MAX - 1,
    ensures
        cites_wf(*final(t), *final(c)),
        final(t).max() == old(t).max(),
        old(c).cite_list@.is_prefix_of(final(c).cite_list@),
        forall|x: (Seq<u8>, u8)| #[trigger] old(t).view().contains_key(x) ==> final(t).view().contains_key(x),
        ({
            let p = cite_parse(old(sc).buffer@, old(sc).last as int, old(sc).buf_ptr2 as int);
            let n = cited_count(*old(t), old(c).all_entries, p.0);
            let done = p.0.take(n);
            let added = new_cites(*old(t), done);
            let n0 = old(c).cite_list@.len();
            &&& r == if n < p.0.len() {
                Err::<(), AuxError>(cite_error(*old(t), old(c).all_entries, done, p.0[n])->Some_0)
            } else {
                match p.1 {
                    Some(e) => Err::<(), AuxError>(e),
                    None => Ok::<(), AuxError>(()),
                }
            }
            &&& final(c).cite_list@.len() == n0 + added.len()
            &&& forall|i: int|
                0 <= i < added.len() ==> final(t).view().contains_key((#[trigger] added[i], CITE_ILK)) && final(c).cite_list@[n0 + i]
                    == final(t).text_of(final(t).view()[(added[i], CITE_ILK)])
            &&& final(c).all_entries == (old(c).all_entries || has_star(done))
            &&& final(c).all_marker == marker_of(*old(t), n0 as int, old(c).all_entries, old(c).all_marker as int, done)
            &&& r != Err::<(), AuxError>(AuxError::HashOverflow) ==> forall|x: (Seq<u8>, u8)|
                #[trigger] final(t).view().contains_key(x) == (old(t).view().contains_key(x) || stored_for(done, x))
        }),
{
    let ghost buf = sc.buffer@;
    let ghost last = sc.last as int;
    let ghost p0 = cite_parse(buf, last, sc.buf_ptr2 as int);
    let ghost mut done: Seq<Seq<u8>> = Seq::empty();
    let ghost t0 = *t;
    let ghost c0 = *c;
    let ghost all0 = c.all_entries;
    let ghost n0 = c.cite_list@.len() as int;
    proof {
        assert(c0.cite_list@.is_prefix_of(c.cite_list@)) by {
            assert(c.cite_list@.subrange(0, c0.cite_list@.len() as int) =~= c0.cite_list@);
        }
        assert(!has_star(done));
    }
    while sc.buffer[sc.buf_ptr2] != RIGHT_BRACE
        invariant
            t0 == *old(t),
            c0 == *old(c),
            all0 == c0.all_entries,
            n0 == c0.cite_list@.len(),
            buf == old(sc).buffer@,
            last == old(sc).last,
            p0 == cite_parse(old(sc).buffer@, old(sc).last as int, old(sc).buf_ptr2 as int),
            sc.wf(),
            sc.buffer@ == buf,
            sc.last == last,
            sc.buf_ptr2 < sc.last,
            cites_wf(*t, *c),
            t.max() == t0.max(),
            c0.cite_list@.is_prefix_of(c.cite_list@),
            c.cite_list@.len() <= c0.cite_list@.len() + sc.buf_ptr2,
            c0.cite_list@.len() + last < i32::MAX - 1,
            p0 == (done + cite_parse(buf, last, sc.buf_ptr2 as int).0, cite_parse(buf, last, sc.buf_ptr2 as int).1),
            forall|i: int| 0 <= i < done.len() ==> cite_error(t0, all0, done.take(i), #[trigger] done[i]) is None,
            cites_after(t0, c0, done, *t, *c),
            table_after(t0, done, *t),
        decreases sc.last - sc.buf_ptr2,
    {
        let ghost p = sc.buf_ptr2 as int;
        proof {
            assert(p0.0.take(done.len() as int) =~= done);
        }
        sc.buf_ptr2 = sc.buf_ptr2 + 1;
        if !sc.scan2_white(RIGHT_BRACE, COMMA) {
            proof {
                lemma_count_at(t0, all0, p0.0, done);
            }
            return Err(AuxError::NoRightBrace);
        }
        let p1 = sc.buf_ptr1;
        let p2 = sc.buf_ptr2;
        proof {
            lemma_advance(buf, p + 1, last, Stop::Byte2White(RIGHT_BRACE, COMMA));
        }
        if lex_class(sc.buffer[p2]) == LexType::WhiteSpace {
            proof {
                lemma_count_at(t0, all0, p0.0, done);
            }
            return Err(AuxError::WhiteSpaceInArgument);
        }
        if sc.last > p2 + 1 && sc.buffer[p2] == RIGHT_BRACE {
            proof {
                lemma_count_at(t0, all0, p0.0, done);
            }
            return Err(AuxError::StuffAfterRightBrace);
        }
        let ghost key = buf.subrange(p + 1, p2 as int);
        let ghost nd = done.push(key);
        proof {
            assert(cite_parse(buf, last, p) == (seq![key] + cite_parse(buf, last, p2 as int).0, cite_parse(buf, last, p2 as int).1));
            assert(p0.0 == done + (seq![key] + cite_parse(buf, last, p2 as int).0));
            assert(p0.0[done.len() as int] == key);
            assert(p0.0.take(done.len() as int + 1) =~= nd);
            assert(nd.drop_last() =~= done);
            assert(nd.last() == key);
            assert(nd.take(done.len() as int) =~= done);
            lemma_stored_push(done, key);
        }
        if p2 - p1 == 1 && sc.buffer[p1] == STAR {
            proof {
                assert(is_star(key));
            }
            if c.all_entries {
                proof {
                    assert(cite_error(t0, all0, done, key) == Some(AuxError::MultipleAllEntries));
                    lemma_count_at(t0, all0, p0.0, done);
                }
                return Err(AuxError::MultipleAllEntries);
            }
            c.all_entries = true;
            c.all_marker = c.cite_list.len();
            proof {
                lemma_star_step(t0, c0, done, key, *t, *c);
            }
        } else {
            let mut k: Vec<u8> = Vec::new();
            let mut i = p1;
            while i < p2
                invariant
                    p1 <= i <= p2 < sc.buffer@.len(),
                    k@ == sc.buffer@.subrange(p1 as int, i as int),
                decreases p2 - i,
            {
                k.push(sc.buffer[i]);
                proof {
                    assert(sc.buffer@.subrange(p1 as int, i + 1) =~= sc.buffer@.subrange(p1 as int, i as int).push(sc.buffer@[i as int]));
                }
                i = i + 1;
            }
            proof {
                assert(k@ == key);
            }
            let ghost cb = *c;
            let ghost tb = *t;
            let res = cite_next(t, c, &k, Ghost(t0), Ghost(c0), Ghost(done));
            proof {
                assert(c0.cite_list@.is_prefix_of(c.cite_list@)) by {
                    assert forall|j: int| 0 <= j < c0.cite_list@.len() implies c.cite_list@[j] == c0.cite_list@[j] by {
                        assert(cb.cite_list@[j] == c0.cite_list@[j]);
                    }
                }
            }
            match res {
                Err(e) => {
                    proof {
                        lemma_count_at(t0, all0, p0.0, done);
                        assert forall|x: (Seq<u8>, u8)| #[trigger] t0.view().contains_key(x) implies t.view().contains_key(x) by {
                            assert(tb.view().contains_key(x));
                        }
                    }
                    return Err(e);
                },
                Ok(()) => {},
            }
        }
        proof {
            assert forall|i: int| 0 <= i < nd.len() implies cite_error(t0, all0, nd.take(i), #[trigger] nd[i]) is None by {
                if i < done.len() {
                    assert(nd.take(i) =~= done.take(i));
                    assert(nd[i] == done[i]);
                }
            }
            assert(p0 == (nd + cite_parse(buf, last, p2 as int).0, cite_parse(buf, last, p2 as int).1)) by {
                assert(done + (seq![key] + cite_parse(buf, last, p2 as int).0) =~= nd + cite_parse(buf, last, p2 as int).0);
            }
            assert(has_star(nd) == (has_star(done) || is_star(key))) by {
                if has_star(nd) {
                    let i = choose|i: int| 0 <= i < nd.len() && is_star(#[trigger] nd[i]);
                    if i < done.len() {
                        assert(is_star(done[i]));
                    }
                }
                if has_star(done) {
                    let i = choose|i: int| 0 <= i < done.len() && is_star(#[trigger] done[i]);
                    assert(is_star(nd[i]));
                }
                if is_star(key) {
                    assert(is_star(nd[done.len() as int]));
                }
            }
            done = nd;
        }
    }
    proof {
        assert(cite_parse(buf, last, sc.buf_ptr2 as int).0 =~= Seq::<Seq<u8>>::empty());
        assert(p0.0 =~= done);
        assert(p0.0.take(done.len() as int) =~= done);
        lemma_count_at(t0, all0, p0.0, done);
    }
    Ok(())
}

/// Reading the first `*` after the keys `done` marks the whole database
/// cited from the citations made so far on.
proof fn lemma_star_step(t0: StrTable, c0: Cites, done: Seq<Seq<u8>>, key: Seq<u8>, t: StrTable, c: Cites)
    requires
        is_star(key),
        !c0.all_entries,
        !has_star(done),
        c.all_entries,
        c.all_marker == c.cite_list@.len(),
        c.cite_list@.len() == c0.cite_list@.len() + new_cites(t0, done).len(),
        forall|i: int|
            0 <= i < new_cites(t0, done).len() ==> t.view().contains_key((#[trigger] new_cites(t0, done)[i], CITE_ILK)) && c.cite_list@[
                c0.cite_list@.len() + i] == t.text_of(t.view()[(new_cites(t0, done)[i], CITE_ILK)]),
    ensures
        cites_after(t0, c0, done.push(key), t, c),
{
    let nd = done.push(key);
    assert(nd.drop_last() =~= done);
    assert(is_star(nd[done.len() as int]));
    assert(new_cites(t0, nd) == new_cites(t0, done));
}

/// The new citations of the keys before stay in the cite list and their
/// slots in the table through the citing of one more key.
proof fn lemma_list_kept(t1: StrTable, t2: StrTable, c1: Cites, added: Seq<Seq<u8>>, n0: int)
    requires
        t1.wf(),
        forall|i: int|
            0 <= i < added.len() ==> t1.view().contains_key((#[trigger] added[i], CITE_ILK)) && c1.cite_list@[n0 + i] == t1.text_of(
                t1.view()[(added[i], CITE_ILK)],
            ),
        forall|x: (Seq<u8>, u8)| #[trigger] t1.view().contains_key(x) ==> t2.view()[x] == t1.view()[x] && t2.view().contains_key(x),
        forall|k: int| #[trigger] t1.occupied(k) ==> t2.occupied(k) && t2.text_of(k) == t1.text_of(k),
    ensures
        forall|i: int|
            0 <= i < added.len() ==> t2.view().contains_key((#[trigger] added[i], CITE_ILK)) && c1.cite_list@[n0 + i] == t2.text_of(
                t2.view()[(added[i], CITE_ILK)],
            ),
{
    assert forall|i: int| 0 <= i < added.len() implies t2.view().contains_key((#[trigger] added[i], CITE_ILK)) && c1.cite_list@[n0 + i]
        == t2.text_of(t2.view()[(added[i], CITE_ILK)]) by {
        t1.lemma_view_has((added[i], CITE_ILK));
    }
}

/// Every cited key is found again: its lower-case form leads back to its
/// slot, and its number in the cite list holds its string.
pub proof fn law_cited_keys_are_found(t: StrTable, c: Cites, key: Seq<u8>)
    requires
        cites_wf(t, c),
        t.view().contains_key((key, CITE_ILK)),
    ensures
        t.view().contains_key((lower_key(key), LC_CITE_ILK)),
        t.info_of(t.view()[(lower_key(key), LC_CITE_ILK)]) == t.view()[(key, CITE_ILK)],
        c.cite_list@[t.info_of(t.view()[(key, CITE_ILK)]) as int] == t.text_of(t.view()[(key, CITE_ILK)]),
        t.string_view()[t.text_of(t.view()[(key, CITE_ILK)])] == key,
{
    t.lemma_view_has((key, CITE_ILK));
    crate::bibtex::hash::law_slot_holds_its_string(t, (key, CITE_ILK));
}

/// No two cited keys differ only in case.
pub proof fn law_cite_keys_differ_beyond_case(t: StrTable, c: Cites, k1: Seq<u8>, k2: Seq<u8>)
    requires
        cites_wf(t, c),
        t.view().contains_key((k1, CITE_ILK)),
        t.view().contains_key((k2, CITE_ILK)),
        lower_key(k1) == lower_key(k2),
    ensures
        k1 == k2,
{
    crate::bibtex::hash::law_slot_holds_its_string(t, (k1, CITE_ILK));
    crate::bibtex::hash::law_slot_holds_its_string(t, (k2, CITE_ILK));
}

} // verus!
