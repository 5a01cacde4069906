//! Cross references, once the database files are read: an entry that
//! cross-references another (by its `crossref` field) takes the fields that
//! it lacks from it, and a cross reference to an entry that does not exist,
//! or to one that is not kept, is dropped.
use vstd::prelude::*;
use crate::bibtex::hash::StrTable;
use crate::bibtex::cite::{find_cite_locs_for_this_cite_key, lower_key, LC_CITE_ILK, CITE_ILK};
use crate::bibtex::entries::{ReadCites, entry_kept, kept_result, keep_cited_entries};

verus! {

/// What the cross reference `text` leads to: where a key of that name (in
/// any case) is cited, the string of the key as it was cited and the number
/// of its citation.
pub open spec fn resolve(t: StrTable, text: Seq<u8>) -> Option<(int, int)> {
    let e = (lower_key(text), LC_CITE_ILK);
    if t.view().contains_key(e) {
        let cs = t.info_of(t.view()[e]) as int;
        Some((t.text_of(cs), t.info_of(cs) as int))
    } else {
        None
    }
}

/// Every lower-case cite key of `t` leads to a cited key: a slot holding a
/// string, whose number is that of one of the `n` citations.
pub open spec fn crossrefs_resolve(t: StrTable, n: int) -> bool {
    forall|s: Seq<u8>|
        #[trigger] t.view().contains_key((s, LC_CITE_ILK)) ==> {
            let cs = t.info_of(t.view()[(s, LC_CITE_ILK)]) as int;
            &&& 1 <= cs <= t.max()
            &&& 0 < t.text_of(cs) < t.string_view().len()
            &&& 0 <= t.info_of(cs) < n
        }
}

/// The fields are `n` rows of `nf` string numbers, each a string of `t` or
/// 0 (missing).
pub open spec fn fields_ok(t: StrTable, f: Seq<usize>, n: int, nf: int) -> bool {
    &&& f.len() == n * nf
    &&& forall|q: int| 0 <= q < f.len() ==> #[trigger] f[q] < t.string_view().len()
}

/// The cross reference of citation `c` (field `cr` of its row), where it
/// has one and it leads to a cited key.
pub open spec fn row_ref(t: StrTable, f: Seq<usize>, c: int, nf: int, cr: int) -> Option<(int, int)> {
    let x = f[c * nf + cr];
    if x == 0 {
        None
    } else {
        resolve(t, t.string_view()[x as int])
    }
}

/// Citation `c` takes from the entry it cross-references the fields from
/// `npd` on that it lacks, and its cross reference becomes the key of that
/// entry as cited.
pub open spec fn inherit_row(t: StrTable, f: Seq<usize>, c: int, nf: int, cr: int, npd: int) -> Seq<usize> {
    match row_ref(t, f, c, nf, cr) {
        None => f,
        Some((txt, par)) => Seq::new(
            f.len(),
            |q: int|
                if q == c * nf + cr {
                    txt as usize
                } else if c * nf + npd <= q < c * nf + nf && f[q] == 0 {
                    f[par * nf + (q - c * nf)]
                } else {
                    f[q]
                },
        ),
    }
}

/// The first `k` citations take the fields of the entries they
/// cross-reference, in order.
pub open spec fn inherit_upto(t: StrTable, f: Seq<usize>, k: int, nf: int, cr: int, npd: int) -> Seq<usize>
    decreases k,
{
    if k <= 0 {
        f
    } else {
        inherit_row(t, inherit_upto(t, f, k - 1, nf, cr, npd), k - 1, nf, cr, npd)
    }
}

proof fn lemma_row_index(c: int, j: int, n: int, nf: int)
    requires
        0 <= c < n,
        0 <= j < nf,
    ensures
        0 <= c * nf + j < n * nf,
        c * nf <= c * nf + j,
{
    assert(0 <= c * nf + j < n * nf) by (nonlinear_arith)
        requires
            0 <= c < n,
            0 <= j < nf,
    ;
}

/// Two places of rows `a` and `b` are the same only in the same row at
/// the same column.
proof fn lemma_rows_apart(a: int, ja: int, b: int, jb: int, nf: int)
    requires
        0 <= ja < nf,
        0 <= jb < nf,
        a * nf + ja == b * nf + jb,
    ensures
        a == b,
        ja == jb,
{
    assert(a == b) by (nonlinear_arith)
        requires
            0 <= ja < nf,
            0 <= jb < nf,
            a * nf + ja == b * nf + jb,
    ;
}

/// `t1` answers every lookup as `t0` does.
pub open spec fn same_lookups(t0: StrTable, t1: StrTable) -> bool {
    &&& t1.wf()
    &&& t1.view() == t0.view()
    &&& t1.string_view() == t0.string_view()
    &&& t1.max() == t0.max()
    &&& forall|k: int| #[trigger] t1.info_of(k) == t0.info_of(k)
    &&& forall|k: int| #[trigger] t0.occupied(k) ==> t1.text_of(k) == t0.text_of(k)
}

proof fn lemma_same_lookups(t0: StrTable, t1: StrTable, n: int, text: Seq<u8>)
    requires
        t0.wf(),
        crossrefs_resolve(t0, n),
        same_lookups(t0, t1),
    ensures
        crossrefs_resolve(t1, n),
        resolve(t1, text) == resolve(t0, text),
{
    assert forall|s: Seq<u8>| #[trigger] t1.view().contains_key((s, LC_CITE_ILK)) implies {
        let cs = t1.info_of(t1.view()[(s, LC_CITE_ILK)]) as int;
        &&& 1 <= cs <= t1.max()
        &&& 0 < t1.text_of(cs) < t1.string_view().len()
        &&& 0 <= t1.info_of(cs) < n
    } by {
        let cs = t0.info_of(t0.view()[(s, LC_CITE_ILK)]) as int;
        t0.lemma_occupied_iff(cs);
    }
    let e = (lower_key(text), LC_CITE_ILK);
    if t0.view().contains_key(e) {
        let cs = t0.info_of(t0.view()[e]) as int;
        t0.lemma_occupied_iff(cs);
    }
}

proof fn lemma_same_lookups_trans(t0: StrTable, t1: StrTable, t2: StrTable)
    requires
        same_lookups(t0, t1),
        same_lookups(t1, t2),
    ensures
        same_lookups(t0, t2),
{
    assert forall|k: int| #[trigger] t0.occupied(k) implies t2.text_of(k) == t0.text_of(k) by {
        t0.lemma_occupied_iff(k);
        t1.lemma_occupied_iff(k);
    }
}

/// The lookup of a cross reference: the string of the key as cited and the
/// number of its citation, where the key is cited.
fn resolve_exec(t: &mut StrTable, text: &Vec<u8>, Ghost(n): Ghost<int>) -> (r: Option<(usize, usize)>)
    requires
        old(t).wf(),
        crossrefs_resolve(*old(t), n),
    ensures
        same_lookups(*old(t), *final(t)),
        match resolve(*old(t), text@) {
            Some((txt, par)) => r == Some((txt as usize, par as usize)),
            None => r is None,
        },
{
    let (_cl, _cf, lc_loc, lc_found) = find_cite_locs_for_this_cite_key(t, text);
    if !lc_found {
        return None;
    }
    proof {
        old(t).lemma_view_has((lower_key(text@), LC_CITE_ILK));
    }
    let cs = t.ilk_info(lc_loc);
    let cs = cs as usize;
    proof {
        old(t).lemma_occupied_iff(cs as int);
        assert(old(t).occupied(cs as int));
    }
    let txt = t.hash_text(cs);
    let par = t.ilk_info(cs);
    Some((txt, par as usize))
}

/// The row of citation `c` after its cross reference is followed, up to
/// column `j` (exclusive) of the inherited fields.
spec fn inherit_partial(f: Seq<usize>, c: int, nf: int, cr: int, npd: int, j: int, txt: int, par: int) -> Seq<usize> {
    Seq::new(
        f.len(),
        |q: int|
            if q == c * nf + cr {
                txt as usize
            } else if c * nf + npd <= q < c * nf + j && f[q] == 0 {
                f[par * nf + (q - c * nf)]
            } else {
                f[q]
            },
    )
}

/// Fields through cross references, once the database is read: each citation in turn (`n` of them, with `nf` fields each) whose
/// cross reference (field `cr`) leads to a cited key takes the fields from
/// `npd` on that it lacks from that entry, and its cross reference becomes
/// the key as cited (see `inherit_upto`).
pub fn inherit_crossref_fields(t: &mut StrTable, fi: &mut Vec<usize>, n: usize, nf: usize, cr: usize, npd: usize)
    requires
        old(t).wf(),
        crossrefs_resolve(*old(t), n as int),
        fields_ok(*old(t), old(fi)@, n as int, nf as int),
        cr < npd <= nf,
    ensures
        same_lookups(*old(t), *final(t)),
        final(fi)@ == inherit_upto(*old(t), old(fi)@, n as int, nf as int, cr as int, npd as int),
        fields_ok(*old(t), final(fi)@, n as int, nf as int),
{
    let ghost t0 = *t;
    let ghost f0 = fi@;
    let mut c: usize = 0;
    proof {
        vstd::std_specs::vec::axiom_spec_len(&*fi);
    }
    while c < n
        invariant
            t0 == *old(t),
            t0.wf(),
            crossrefs_resolve(t0, n as int),
            same_lookups(t0, *t),
            cr < npd <= nf,
            c <= n,
            fi@.len() == n * nf,
            n * nf <= usize::MAX,
            fields_ok(t0, fi@, n as int, nf as int),
            fi@ == inherit_upto(t0, f0, c as int, nf as int, cr as int, npd as int),
        decreases n - c,
    {
        proof {
            lemma_row_index(c as int, cr as int, n as int, nf as int);
        }
        let ghost fc = fi@;
        let x = fi[c * nf + cr];
        if x != 0 {
            let key = t.string(x);
            proof {
                lemma_same_lookups(t0, *t, n as int, key@);
            }
            let ghost tb = *t;
            let r = resolve_exec(t, &key, Ghost(n as int));
            proof {
                lemma_same_lookups_trans(t0, tb, *t);
                assert(resolve(tb, key@) == resolve(t0, key@));
            }
            match r {
                Some((txt, par)) => {
                    proof {
                        assert(resolve(t0, key@) is Some);
                        assert(t0.view().contains_key((lower_key(key@), LC_CITE_ILK)));
                        let e = (lower_key(key@), LC_CITE_ILK);
                        let cs = t0.info_of(t0.view()[e]) as int;
                        assert(0 < t0.text_of(cs) < t0.string_view().len());
                        assert(0 <= t0.info_of(cs) < n);
                        t0.lemma_occupied_iff(cs);
                        t0.lemma_view_at(cs);
                        t0.lemma_view_has(t0.entry(cs));
                        assert(t0.text_of(cs) <= usize::MAX);
                        assert(resolve(t0, key@) == Some((t0.text_of(cs), t0.info_of(cs) as int)));
                        assert(txt == t0.text_of(cs));
                        assert(par < n);
                    }
                    fi.set(c * nf + cr, txt);
                    let mut j: usize = npd;
                    proof {
                        assert(fi@ =~= inherit_partial(fc, c as int, nf as int, cr as int, npd as int, npd as int, txt as int, par as int));
                    }
                    while j < nf
                        invariant
                            cr < npd <= j <= nf,
                            c < n,
                            par < n,
                            fc.len() == n * nf,
                            n * nf <= usize::MAX,
                            fi@ == inherit_partial(fc, c as int, nf as int, cr as int, npd as int, j as int, txt as int, par as int),
                        decreases nf - j,
                    {
                        proof {
                            lemma_row_index(c as int, j as int, n as int, nf as int);
                            lemma_row_index(par as int, j as int, n as int, nf as int);
                        }
                        let q = c * nf + j;
                        if fi[q] == 0 {
                            let v = fi[par * nf + j];
                            proof {
                                let pq = par * nf + j;
                                if pq == c * nf + cr {
                                    lemma_rows_apart(par as int, j as int, c as int, cr as int, nf as int);
                                }
                                if c * nf + npd <= pq < c * nf + j {
                                    lemma_rows_apart(par as int, j as int, c as int, pq - c * nf, nf as int);
                                }
                                assert(v == fc[pq]);
                                assert(fi@[q as int] == fc[q as int]);
                            }
                            fi.set(q, v);
                        } else {
                            proof {
                                assert(fi@[q as int] == fc[q as int]);
                            }
                        }
                        proof {
                            assert(fi@ =~= inherit_partial(fc, c as int, nf as int, cr as int, npd as int, j + 1, txt as int, par as int));
                        }
                        j = j + 1;
                    }
                    proof {
                        assert(fi@ =~= inherit_row(t0, fc, c as int, nf as int, cr as int, npd as int));
                        assert forall|q: int| 0 <= q < fi@.len() implies #[trigger] fi@[q] < t0.string_view().len() by {
                            let c0 = c as int;
                            let nf0 = nf as int;
                            if q != c0 * nf0 + cr && c0 * nf0 + npd <= q < c0 * nf0 + nf0 && fc[q] == 0 {
                                lemma_row_index(par as int, q - c0 * nf0, n as int, nf0);
                                assert(fc[par * nf0 + (q - c0 * nf0)] < t0.string_view().len());
                            }
                        }
                    }
                },
                None => {},
            }
        }
        proof {
            assert(fi@ == inherit_upto(t0, f0, c + 1, nf as int, cr as int, npd as int));
        }
        c = c + 1;
    }
}

/// A message about a cross reference: the cite key of the citation, and
/// the cross reference that leads nowhere (or to an entry that does not
/// exist), or the cite key of the entry it leads to, which has a cross
/// reference of its own.
#[derive(Clone, Copy, Debug, PartialEq, Eq, Structural)]
pub enum CrossrefNote {
    Nonexistent(usize, usize),
    Nested(usize, usize),
}

/// The cross reference of citation `c` checked: one that leads nowhere or
/// to a citation without an entry is dropped (and reported); one that
/// leads to an entry with a cross reference of its own is reported; one
/// that leads to an entry that is not kept (cited only through fewer than
/// `min` cross references, the whole database not being cited) is dropped.
pub open spec fn check_row(
    t: StrTable,
    f: Seq<usize>,
    types: Seq<usize>,
    info: Seq<i32>,
    cl: Seq<usize>,
    c: int,
    nf: int,
    cr: int,
    all: bool,
    om: int,
    min: i32,
) -> (Seq<usize>, Seq<CrossrefNote>) {
    let q = c * nf + cr;
    let x = f[q];
    if x == 0 {
        (f, Seq::empty())
    } else {
        match resolve(t, t.string_view()[x as int]) {
            None => (f.update(q, 0), seq![CrossrefNote::Nonexistent(cl[c], x)]),
            Some((_, par)) => if types[par] == 0 {
                (f.update(q, 0), seq![CrossrefNote::Nonexistent(cl[c], x)])
            } else {
                let nested = if f[par * nf + cr] != 0 {
                    seq![CrossrefNote::Nested(cl[c], cl[par])]
                } else {
                    Seq::empty()
                };
                (if !all && par >= om && info[par] < min { f.update(q, 0) } else { f }, nested)
            },
        }
    }
}

/// The cross references of the first `k` citations checked in order, and
/// the messages about them.
pub open spec fn check_upto(
    t: StrTable,
    f: Seq<usize>,
    types: Seq<usize>,
    info: Seq<i32>,
    cl: Seq<usize>,
    k: int,
    nf: int,
    cr: int,
    all: bool,
    om: int,
    min: i32,
) -> (Seq<usize>, Seq<CrossrefNote>)
    decreases k,
{
    if k <= 0 {
        (f, Seq::empty())
    } else {
        let prev = check_upto(t, f, types, info, cl, k - 1, nf, cr, all, om, min);
        let step = check_row(t, prev.0, types, info, cl, k - 1, nf, cr, all, om, min);
        (step.0, prev.1 + step.1)
    }
}

/// Checks the cross reference of each citation in turn (see `check_row`)
/// and returns the messages.
pub fn check_crossrefs(
    t: &mut StrTable,
    fi: &mut Vec<usize>,
    types: &Vec<usize>,
    info: &Vec<i32>,
    cl: &Vec<usize>,
    nf: usize,
    cr: usize,
    all_entries: bool,
    old_num_cites: usize,
    min_crossrefs: i32,
) -> (r: Vec<CrossrefNote>)
    requires
        old(t).wf(),
        crossrefs_resolve(*old(t), cl@.len() as int),
        fields_ok(*old(t), old(fi)@, cl@.len() as int, nf as int),
        types@.len() == cl@.len(),
        info@.len() == cl@.len(),
        cr < nf,
    ensures
        same_lookups(*old(t), *final(t)),
        ({
            let res = check_upto(
                *old(t),
                old(fi)@,
                types@,
                info@,
                cl@,
                cl@.len() as int,
                nf as int,
                cr as int,
                all_entries,
                old_num_cites as int,
                min_crossrefs,
            );
            final(fi)@ == res.0 && r@ == res.1
        }),
        fields_ok(*old(t), final(fi)@, cl@.len() as int, nf as int),
{
    let ghost t0 = *t;
    let ghost f0 = fi@;
    let n = cl.len();
    let mut notes: Vec<CrossrefNote> = Vec::new();
    let mut c: usize = 0;
    proof {
        vstd::std_specs::vec::axiom_spec_len(&*fi);
    }
    while c < n
        invariant
            t0 == *old(t),
            t0.wf(),
            n == cl@.len(),
            crossrefs_resolve(t0, n as int),
            same_lookups(t0, *t),
            types@.len() == n,
            info@.len() == n,
            cr < nf,
            c <= n,
            fi@.len() == n * nf,
            n * nf <= usize::MAX,
            fields_ok(t0, fi@, n as int, nf as int),
            ({
                let res = check_upto(t0, f0, types@, info@, cl@, c as int, nf as int, cr as int, all_entries, old_num_cites as int, min_crossrefs);
                fi@ == res.0 && notes@ == res.1
            }),
        decreases n - c,
    {
        proof {
            lemma_row_index(c as int, cr as int, n as int, nf as int);
        }
        let ghost fc = fi@;
        let ghost nc = notes@;
        let q = c * nf + cr;
        let x = fi[q];
        if x != 0 {
            let key = t.string(x);
            proof {
                lemma_same_lookups(t0, *t, n as int, key@);
            }
            let ghost tb = *t;
            let r = resolve_exec(t, &key, Ghost(n as int));
            proof {
                lemma_same_lookups_trans(t0, tb, *t);
                assert(resolve(tb, key@) == resolve(t0, key@));
            }
            match r {
                None => {
                    fi.set(q, 0);
                    notes.push(CrossrefNote::Nonexistent(cl[c], x));
                },
                Some((_txt, par)) => {
                    proof {
                        assert(resolve(t0, key@) is Some);
                        let e = (lower_key(key@), LC_CITE_ILK);
                        assert(t0.view().contains_key(e));
                        let cs = t0.info_of(t0.view()[e]) as int;
                        assert(0 <= t0.info_of(cs) < n);
                        assert(par < n);
                        lemma_row_index(par as int, cr as int, n as int, nf as int);
                    }
                    if types[par] == 0 {
                        fi.set(q, 0);
                        notes.push(CrossrefNote::Nonexistent(cl[c], x));
                    } else {
                        if fi[par * nf + cr] != 0 {
                            notes.push(CrossrefNote::Nested(cl[c], cl[par]));
                        }
                        if !all_entries && par >= old_num_cites && info[par] < min_crossrefs {
                            fi.set(q, 0);
                        }
                    }
                },
            }
        }
        proof {
            assert(fi@ =~= check_row(t0, fc, types@, info@, cl@, c as int, nf as int, cr as int, all_entries, old_num_cites as int, min_crossrefs).0);
            assert(notes@ =~= nc + check_row(t0, fc, types@, info@, cl@, c as int, nf as int, cr as int, all_entries, old_num_cites as int, min_crossrefs).1);
        }
        c = c + 1;
    }
    notes
}

proof fn lemma_check_upto_same(
    t0: StrTable,
    t1: StrTable,
    f: Seq<usize>,
    types: Seq<usize>,
    info: Seq<i32>,
    cl: Seq<usize>,
    k: int,
    nf: int,
    cr: int,
    all: bool,
    om: int,
    min: i32,
)
    requires
        t1.string_view() == t0.string_view(),
        forall|x: Seq<u8>| #[trigger] resolve(t1, x) == resolve(t0, x),
    ensures
        check_upto(t1, f, types, info, cl, k, nf, cr, all, om, min) == check_upto(t0, f, types, info, cl, k, nf, cr, all, om, min),
    decreases k,
{
    if k > 0 {
        lemma_check_upto_same(t0, t1, f, types, info, cl, k - 1, nf, cr, all, om, min);
        let prev = check_upto(t0, f, types, info, cl, k - 1, nf, cr, all, om, min);
        let x = prev.0[(k - 1) * nf + cr];
        assert(resolve(t1, t0.string_view()[x as int]) == resolve(t0, t0.string_view()[x as int]));
    }
}

proof fn lemma_kept_result_same(
    t0: StrTable,
    t2: StrTable,
    t3: StrTable,
    cl: Seq<usize>,
    ty: Seq<usize>,
    ci: Seq<i32>,
    f0: Seq<usize>,
    rc1: ReadCites,
    r0: Seq<usize>,
    r1: Seq<i32>,
    nf: int,
    om: int,
    all: bool,
    marker: int,
    exists: Seq<bool>,
    min: i32,
)
    requires
        t2.view() == t0.view(),
        t2.string_view() == t0.string_view(),
        t2.max() == t0.max(),
        forall|k: int| #[trigger] t2.info_of(k) == t0.info_of(k),
        kept_result(t2, t3, cl, ty, ci, f0, rc1, r0, r1, nf, om, all, marker, exists, min),
    ensures
        kept_result(t0, t3, cl, ty, ci, f0, rc1, r0, r1, nf, om, all, marker, exists, min),
{
    assert forall|k: int|
        0 <= k <= t0.max() && #[trigger] t3.info_of(k) != t0.info_of(k) implies exists|c: int|
            0 <= c < cl.len() && #[trigger] entry_kept(ty, ci, c, all, om, min) && crate::bibtex::entries::kept_count(ty, ci, c, all, om, min) < c
                && k == t0.view()[(t0.string_view()[cl[c] as int], CITE_ILK)] by {
        assert(t3.info_of(k) != t2.info_of(k));
    }
}

/// The cross-reference handling once the database files are read: the fields are inherited through cross
/// references (`inherit_upto`), the cross references are checked
/// (`check_upto`), and the citations to keep are kept (`kept_result`).
/// Returns the messages about cross references, the cite keys of the
/// citations without an entry, and, where the whole database is cited,
/// those of the citations whose entry does not exist.
pub fn process_crossrefs(
    t: &mut StrTable,
    rc: &mut ReadCites,
    num_fields: usize,
    crossref_num: usize,
    num_pre_defined_fields: usize,
    old_num_cites: usize,
    all_entries: bool,
    all_marker: usize,
    entry_exists: &Vec<bool>,
    min_crossrefs: i32,
) -> (r: (Vec<CrossrefNote>, Vec<usize>, Vec<i32>))
    requires
        old(t).wf(),
        crossref_num < num_pre_defined_fields <= num_fields,
        crossrefs_resolve(*old(t), old(rc).cite_list@.len() as int),
        fields_ok(*old(t), old(rc).field_info@, old(rc).cite_list@.len() as int, num_fields as int),
        old(rc).type_list@.len() == old(rc).cite_list@.len(),
        old(rc).cite_info@.len() == old(rc).cite_list@.len(),
        old(rc).cite_list@.len() < i32::MAX,
        all_marker <= old_num_cites <= entry_exists@.len(),
        old_num_cites <= old(rc).cite_list@.len(),
        forall|c: int| 0 <= c < old(rc).cite_list@.len() ==> #[trigger] old(rc).cite_list@[c] < old(t).string_view().len(),
        forall|c: int|
            0 <= c < old(rc).cite_list@.len() && entry_kept(old(rc).type_list@, old(rc).cite_info@, c, all_entries, old_num_cites as int, min_crossrefs)
                ==> old(t).view().contains_key((old(t).string_view()[#[trigger] old(rc).cite_list@[c] as int], CITE_ILK)),
        forall|a: int, b: int|
            0 <= a < b < old(rc).cite_list@.len() ==> old(t).string_view()[#[trigger] old(rc).cite_list@[a] as int]
                != old(t).string_view()[#[trigger] old(rc).cite_list@[b] as int],
    ensures
        ({
            let n = old(rc).cite_list@.len() as int;
            let nf = num_fields as int;
            let f1 = inherit_upto(*old(t), old(rc).field_info@, n, nf, crossref_num as int, num_pre_defined_fields as int);
            let f2 = check_upto(
                *old(t),
                f1,
                old(rc).type_list@,
                old(rc).cite_info@,
                old(rc).cite_list@,
                n,
                nf,
                crossref_num as int,
                all_entries,
                old_num_cites as int,
                min_crossrefs,
            );
            &&& r.0@ == f2.1
            &&& kept_result(
                *old(t),
                *final(t),
                old(rc).cite_list@,
                old(rc).type_list@,
                old(rc).cite_info@,
                f2.0,
                *final(rc),
                r.1@,
                r.2@,
                nf,
                old_num_cites as int,
                all_entries,
                all_marker as int,
                entry_exists@,
                min_crossrefs,
            )
        }),
{
    let ghost t0 = *t;
    let mut fi: Vec<usize> = Vec::new();
    std::mem::swap(&mut fi, &mut rc.field_info);
    inherit_crossref_fields(t, &mut fi, rc.cite_list.len(), num_fields, crossref_num, num_pre_defined_fields);
    let ghost t1 = *t;
    proof {
        lemma_same_lookups(t0, t1, rc.cite_list@.len() as int, Seq::empty());
        assert forall|q: int| 0 <= q < fi@.len() implies #[trigger] fi@[q] < t1.string_view().len() by {}
    }
    let notes = check_crossrefs(
        t,
        &mut fi,
        &rc.type_list,
        &rc.cite_info,
        &rc.cite_list,
        num_fields,
        crossref_num,
        all_entries,
        old_num_cites,
        min_crossrefs,
    );
    let ghost t2 = *t;
    proof {
        lemma_same_lookups_trans(t0, t1, t2);
        assert forall|x: Seq<u8>| #[trigger] resolve(t1, x) == resolve(t0, x) by {
            lemma_same_lookups(t0, t1, rc.cite_list@.len() as int, x);
        }
        let n = rc.cite_list@.len() as int;
        let f1 = inherit_upto(t0, old(rc).field_info@, n, num_fields as int, crossref_num as int, num_pre_defined_fields as int);
        lemma_check_upto_same(t0, t1, f1, rc.type_list@, rc.cite_info@, rc.cite_list@, n, num_fields as int, crossref_num as int, all_entries, old_num_cites as int, min_crossrefs);
    }
    let ghost fi_checked = fi@;
    rc.field_info = fi;
    let (missing, missing_all) = keep_cited_entries(
        t,
        rc,
        num_fields,
        old_num_cites,
        all_entries,
        all_marker,
        entry_exists,
        min_crossrefs,
    );
    proof {
        lemma_kept_result_same(
            t0,
            t2,
            *t,
            old(rc).cite_list@,
            old(rc).type_list@,
            old(rc).cite_info@,
            fi_checked,
            *rc,
            missing@,
            missing_all@,
            num_fields as int,
            old_num_cites as int,
            all_entries,
            all_marker as int,
            entry_exists@,
            min_crossrefs,
        );
    }
    (notes, missing, missing_all)
}

} // verus!
