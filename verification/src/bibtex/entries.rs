//! The end of the `read` command: once the database files are read, the
//! citations without an entry are reported, and only the entries that are
//! cited (or cited through enough cross references, or all of them where
//! the whole database is cited) are kept, in order, renumbered from 0.
use vstd::prelude::*;
use crate::bibtex::hash::StrTable;
use crate::bibtex::cite::CITE_ILK;

verus! {

/// What the reading of the database files left for each citation: its cite
/// key (a string number), the type of its entry (0 where no entry was
/// found), its number of cross references, and its fields (`num_fields`
/// string numbers per citation, 0 for a missing field).
pub struct ReadCites {
    pub cite_list: Vec<usize>,
    pub type_list: Vec<usize>,
    pub cite_info: Vec<i32>,
    pub field_info: Vec<usize>,
}

/// Whether the `c`th citation is kept: it has an entry, and the whole
/// database is cited, or it was cited before the database was read, or it
/// is cross-referenced at least `min` times.
pub open spec fn entry_kept(types: Seq<usize>, info: Seq<i32>, c: int, all: bool, old_num: int, min: i32) -> bool {
    types[c] != 0 && (all || c < old_num || info[c] >= min)
}

/// How many of the first `n` citations are kept.
pub open spec fn kept_count(types: Seq<usize>, info: Seq<i32>, n: int, all: bool, old_num: int, min: i32) -> int
    decreases n,
{
    if n <= 0 {
        0
    } else {
        kept_count(types, info, n - 1, all, old_num, min) + if entry_kept(types, info, n - 1, all, old_num, min) {
            1int
        } else {
            0int
        }
    }
}

/// The cite keys of the first `n` citations that have no entry, in order.
pub open spec fn missing_entries(cites: Seq<usize>, types: Seq<usize>, n: int) -> Seq<usize>
    decreases n,
{
    if n <= 0 {
        Seq::empty()
    } else {
        missing_entries(cites, types, n - 1) + if types[n - 1] == 0 {
            seq![cites[n - 1]]
        } else {
            Seq::empty()
        }
    }
}

/// The cite keys (kept in `info`) of the citations from `from` to `to`
/// whose entry was not found, where the whole database is cited.
pub open spec fn missing_all(info: Seq<i32>, exists: Seq<bool>, from: int, to: int) -> Seq<i32>
    decreases to - from,
{
    if to <= from {
        Seq::empty()
    } else {
        missing_all(info, exists, from, to - 1) + if !exists[to - 1] {
            seq![info[to - 1]]
        } else {
            Seq::empty()
        }
    }
}

/// The new number `k` is that of a kept citation among the first `n`.
pub open spec fn renumbered_from(types: Seq<usize>, info: Seq<i32>, n: int, all: bool, old_num: int, min: i32, k: int) -> bool {
    exists|c: int| 0 <= c < n && #[trigger] entry_kept(types, info, c, all, old_num, min) && kept_count(types, info, c, all, old_num, min) == k
}

proof fn lemma_kept_count_bound(types: Seq<usize>, info: Seq<i32>, n: int, all: bool, old_num: int, min: i32)
    requires
        0 <= n,
    ensures
        0 <= kept_count(types, info, n, all, old_num, min) <= n,
    decreases n,
{
    if n > 0 {
        lemma_kept_count_bound(types, info, n - 1, all, old_num, min);
    }
}

proof fn lemma_kept_count_mono(types: Seq<usize>, info: Seq<i32>, a: int, b: int, all: bool, old_num: int, min: i32)
    requires
        0 <= a <= b,
    ensures
        kept_count(types, info, a, all, old_num, min) <= kept_count(types, info, b, all, old_num, min),
    decreases b - a,
{
    if a < b {
        lemma_kept_count_mono(types, info, a, b - 1, all, old_num, min);
    }
}

proof fn lemma_row(c: int, j: int, n: int, nf: int)
    requires
        0 <= c < n,
        0 <= j < nf,
    ensures
        0 <= c * nf + j < n * nf,
        c * nf + nf <= n * nf,
{
    assert(0 <= c * nf + j < n * nf && c * nf + nf <= n * nf) by (nonlinear_arith)
        requires
            0 <= c < n,
            0 <= j < nf,
    ;
}

/// What `keep_cited_entries` leaves: of the `n` citations (keys `cl`,
/// entry types `ty`, cross-reference counts `ci`, fields `f0`, `nf` per
/// citation), those that `entry_kept` keeps, in order, renumbered from 0
/// (in `rc1`, and for the keys that move, in the table `t1`); and the
/// messages `r0` (citations without an entry) and `r1` (where the whole
/// database is cited, the citations from `marker` on whose entry does not
/// exist).
pub open spec fn kept_result(
    t0: StrTable,
    t1: StrTable,
    cl: Seq<usize>,
    ty: Seq<usize>,
    ci: Seq<i32>,
    f0: Seq<usize>,
    rc1: ReadCites,
    r0: Seq<usize>,
    r1: Seq<i32>,
    nf: int,
    om: int,
    all_entries: bool,
    marker: int,
    exists: Seq<bool>,
    min_crossrefs: i32,
) -> bool {
    let n = cl.len() as int;
    let kn = kept_count(ty, ci, n, all_entries, om, min_crossrefs);
    &&& rc1.cite_list@.len() == kn
    &&& rc1.type_list@.len() == kn
    &&& rc1.cite_info@.len() == kn
    &&& rc1.field_info@.len() == kn * nf
    &&& forall|c: int|
        0 <= c < n && #[trigger] entry_kept(ty, ci, c, all_entries, om, min_crossrefs) ==> {
            let k = kept_count(ty, ci, c, all_entries, om, min_crossrefs);
            &&& rc1.cite_list@[k] == cl[c]
            &&& rc1.type_list@[k] == ty[c]
            &&& forall|j: int| 0 <= j < nf ==> #[trigger] rc1.field_info@[k * nf + j] == f0[c * nf + j]
        }
    &&& forall|k: int| 0 <= k < kn ==> #[trigger] renumbered_from(ty, ci, n, all_entries, om, min_crossrefs, k)
    &&& forall|k: int| 0 <= k < kn ==> #[trigger] rc1.cite_info@[k] == k
    &&& r0 == missing_entries(cl, ty, n)
    &&& r1 == if all_entries { missing_all(ci, exists, marker, om) } else { Seq::empty() }
    &&& t1.wf()
    &&& t1.max() == t0.max()
    &&& t1.view() == t0.view()
    &&& t1.string_view() == t0.string_view()
    &&& forall|c: int|
        0 <= c < n && #[trigger] entry_kept(ty, ci, c, all_entries, om, min_crossrefs) && kept_count(ty, ci, c, all_entries, om, min_crossrefs) < c
            ==> t1.info_of(t0.view()[(t0.string_view()[cl[c] as int], CITE_ILK)]) == kept_count(ty, ci, c, all_entries, om, min_crossrefs)
    &&& forall|k: int|
        0 <= k <= t0.max() && #[trigger] t1.info_of(k) != t0.info_of(k) ==> exists|c: int|
            0 <= c < n && #[trigger] entry_kept(ty, ci, c, all_entries, om, min_crossrefs) && kept_count(ty, ci, c, all_entries, om, min_crossrefs) < c
                && k == t0.view()[(t0.string_view()[cl[c] as int], CITE_ILK)]
}

/// Once the database is read, keeps the citations that `entry_kept`
/// keeps, in order, each with its key, entry type and fields, renumbered
/// from 0 (its number in the cross-reference count becomes its new number,
/// and the cite key of a citation that moves is given its new number in
/// `t`). Returns the cite keys of the citations without an entry, and,
/// where the whole database is cited, those (from `cite_info`) of the
/// citations from `all_marker` on, before `old_num_cites`, whose entry does
/// not exist.
pub fn keep_cited_entries(
    t: &mut StrTable,
    rc: &mut ReadCites,
    num_fields: usize,
    old_num_cites: usize,
    all_entries: bool,
    all_marker: usize,
    entry_exists: &Vec<bool>,
    min_crossrefs: i32,
) -> (r: (Vec<usize>, Vec<i32>))
    requires
        old(t).wf(),
        old(rc).type_list@.len() == old(rc).cite_list@.len(),
        old(rc).cite_info@.len() == old(rc).cite_list@.len(),
        old(rc).field_info@.len() == old(rc).cite_list@.len() * num_fields,
        old(rc).cite_list@.len() < i32::MAX,
        all_marker <= old_num_cites <= entry_exists@.len(),
        old_num_cites <= old(rc).cite_list@.len(),
        forall|c: int| 0 <= c < old(rc).cite_list@.len() ==> #[trigger] old(rc).cite_list@[c] < old(t).string_view().len(),
        forall|c: int|
            0 <= c < old(rc).cite_list@.len() && entry_kept(old(rc).type_list@, old(rc).cite_info@, c, all_entries, old_num_cites as int, min_crossrefs)
                ==> old(t).view().contains_key((old(t).string_view()[#[trigger] old(rc).cite_list@[c] as int], CITE_ILK)),
        forall|a: int, b: int|
            0 <= a < b < old(rc).cite_list@.len() ==> old(t).string_view()[#[trigger] old(rc).cite_list@[a] as int]
                != old(t).string_view()[#[trigger] old(rc).cite_list@[b] as int],
    ensures
        kept_result(
            *old(t),
            *final(t),
            old(rc).cite_list@,
            old(rc).type_list@,
            old(rc).cite_info@,
            old(rc).field_info@,
            *final(rc),
            r.0@,
            r.1@,
            num_fields as int,
            old_num_cites as int,
            all_entries,
            all_marker as int,
            entry_exists@,
            min_crossrefs,
        ),
{
    let ghost t0 = *t;
    let ghost rc0 = *rc;
    let ghost cl0 = rc.cite_list@;
    let ghost ty0 = rc.type_list@;
    let ghost ci0 = rc.cite_info@;
    let ghost fi0 = rc.field_info@;
    let ghost om = old_num_cites as int;
    let n = rc.cite_list.len();
    let nf = num_fields;
    let mut cl: Vec<usize> = Vec::new();
    let mut tl: Vec<usize> = Vec::new();
    let mut ci: Vec<i32> = Vec::new();
    let mut fi: Vec<usize> = Vec::new();
    let mut missing: Vec<usize> = Vec::new();
    let mut c: usize = 0;
    while c < n
        invariant
            n == cl0.len(),
            nf == num_fields,
            *rc == rc0,
            cl0 == rc0.cite_list@,
            ty0 == rc0.type_list@,
            ci0 == rc0.cite_info@,
            fi0 == rc0.field_info@,
            om == old_num_cites as int,
            ty0.len() == n,
            ci0.len() == n,
            fi0.len() == n * nf,
            n < i32::MAX,
            c <= n,
            t0 == *old(t),
            t0.wf(),
            t.wf(),
            t.max() == t0.max(),
            t.view() == t0.view(),
            t.string_view() == t0.string_view(),
            forall|d: int| 0 <= d < n ==> #[trigger] cl0[d] < t0.string_view().len(),
            forall|d: int|
                0 <= d < n && entry_kept(ty0, ci0, d, all_entries, om, min_crossrefs) ==> t0.view().contains_key(
                    (t0.string_view()[#[trigger] cl0[d] as int], CITE_ILK),
                ),
            forall|a: int, b: int|
                0 <= a < b < n ==> t0.string_view()[#[trigger] cl0[a] as int] != t0.string_view()[#[trigger] cl0[b] as int],
            cl@.len() == kept_count(ty0, ci0, c as int, all_entries, om, min_crossrefs),
            tl@.len() == cl@.len(),
            ci@.len() == cl@.len(),
            fi@.len() == cl@.len() * nf,
            forall|d: int|
                0 <= d < c && #[trigger] entry_kept(ty0, ci0, d, all_entries, om, min_crossrefs) ==> {
                    let k = kept_count(ty0, ci0, d, all_entries, om, min_crossrefs);
                    &&& cl@[k] == cl0[d]
                    &&& tl@[k] == ty0[d]
                    &&& forall|j: int| 0 <= j < nf ==> #[trigger] fi@[k * nf + j] == fi0[d * nf + j]
                },
            forall|k: int| 0 <= k < cl@.len() ==> #[trigger] renumbered_from(ty0, ci0, c as int, all_entries, om, min_crossrefs, k),
            forall|k: int| 0 <= k < ci@.len() ==> #[trigger] ci@[k] == k,
            missing@ == missing_entries(cl0, ty0, c as int),
            forall|d: int|
                0 <= d < c && #[trigger] entry_kept(ty0, ci0, d, all_entries, om, min_crossrefs) && kept_count(
                    ty0,
                    ci0,
                    d,
                    all_entries,
                    om,
                    min_crossrefs,
                ) < d ==> t.info_of(t0.view()[(t0.string_view()[cl0[d] as int], CITE_ILK)]) == kept_count(
                    ty0,
                    ci0,
                    d,
                    all_entries,
                    om,
                    min_crossrefs,
                ),
            forall|k: int|
                0 <= k <= t0.max() && #[trigger] t.info_of(k) != t0.info_of(k) ==> exists|d: int|
                    0 <= d < c && #[trigger] entry_kept(ty0, ci0, d, all_entries, om, min_crossrefs) && kept_count(
                        ty0,
                        ci0,
                        d,
                        all_entries,
                        om,
                        min_crossrefs,
                    ) < d && k == t0.view()[(t0.string_view()[cl0[d] as int], CITE_ILK)],
        decreases n - c,
    {
        proof {
            lemma_kept_count_bound(ty0, ci0, c as int, all_entries, om, min_crossrefs);
        }
        let ty = rc.type_list[c];
        let ghost kc = kept_count(ty0, ci0, c as int, all_entries, om, min_crossrefs);
        let ghost tb = *t;
        let ghost nb = cl@.len();
        if ty == 0 {
            missing.push(rc.cite_list[c]);
            proof {
                assert(missing_entries(cl0, ty0, c + 1) == missing_entries(cl0, ty0, c as int) + seq![cl0[c as int]]);
            }
        } else if all_entries || c < old_num_cites || rc.cite_info[c] >= min_crossrefs {
            let x = cl.len();
            let ghost t1 = *t;
            if x < c {
                let key = t.string(rc.cite_list[c]);
                let (loc, found) = t.str_lookup(&key, 0, key.len(), CITE_ILK, false);
                proof {
                    assert(key@.subrange(0, key@.len() as int) =~= key@);
                    t1.lemma_view_has((key@, CITE_ILK));
                }
                t.set_ilk_info(loc, x as i32);
                proof {
                    let e = (t0.string_view()[cl0[c as int] as int], CITE_ILK);
                    assert(loc == t0.view()[e]);
                    assert(forall|k: int| 0 <= k <= t0.max() && k != loc ==> #[trigger] t.info_of(k) == tb.info_of(k));
                    assert forall|d: int|
                        0 <= d < c && #[trigger] entry_kept(ty0, ci0, d, all_entries, om, min_crossrefs) && kept_count(
                            ty0,
                            ci0,
                            d,
                            all_entries,
                            om,
                            min_crossrefs,
                        ) < d implies t.info_of(t0.view()[(t0.string_view()[cl0[d] as int], CITE_ILK)]) == kept_count(
                        ty0,
                        ci0,
                        d,
                        all_entries,
                        om,
                        min_crossrefs,
                    ) by {
                        let ed = (t0.string_view()[cl0[d] as int], CITE_ILK);
                        assert(t0.view().contains_key(ed));
                        t0.lemma_view_has(ed);
                        t0.lemma_view_has(e);
                        assert(ed != e);
                        crate::bibtex::hash::law_slots_distinct(t0, ed, e);
                    }
                }
            }
            cl.push(rc.cite_list[c]);
            tl.push(ty);
            ci.push(x as i32);
            let mut j: usize = 0;
            let ghost fi_start = fi@;
            while j < nf
                invariant
                    j <= nf,
                    nf == num_fields,
                    c < n,
                    fi0.len() == n * nf,
                    fi0 == rc.field_info@,
                    *rc == rc0,
                    fi_start.len() == x * nf,
                    fi@.len() == x * nf + j,
                    forall|q: int| 0 <= q < fi_start.len() ==> #[trigger] fi@[q] == fi_start[q],
                    forall|q: int| 0 <= q < j ==> #[trigger] fi@[x * nf + q] == fi0[c * nf + q],
                decreases nf - j,
            {
                proof {
                    lemma_row(c as int, j as int, n as int, nf as int);
                    vstd::std_specs::vec::axiom_spec_len(&rc.field_info);
                }
                fi.push(rc.field_info[c * nf + j]);
                j = j + 1;
            }
            proof {
                assert(fi@.len() == (x + 1) * nf) by (nonlinear_arith)
                    requires
                        fi@.len() == x * nf + nf,
                ;
                assert forall|d: int|
                    0 <= d < c + 1 && #[trigger] entry_kept(ty0, ci0, d, all_entries, om, min_crossrefs) implies {
                        let k = kept_count(ty0, ci0, d, all_entries, om, min_crossrefs);
                        &&& cl@[k] == cl0[d]
                        &&& tl@[k] == ty0[d]
                        &&& forall|jj: int| 0 <= jj < nf ==> #[trigger] fi@[k * nf + jj] == fi0[d * nf + jj]
                    } by {
                    let k = kept_count(ty0, ci0, d, all_entries, om, min_crossrefs);
                    if d < c {
                        lemma_kept_count_mono(ty0, ci0, d + 1, c as int, all_entries, om, min_crossrefs);
                        lemma_kept_count_bound(ty0, ci0, d, all_entries, om, min_crossrefs);
                        assert(kept_count(ty0, ci0, d + 1, all_entries, om, min_crossrefs) == k + 1);
                        assert(k < x);
                        assert forall|jj: int| 0 <= jj < nf implies #[trigger] fi@[k * nf + jj] == fi0[d * nf + jj] by {
                            assert(k * nf + jj < x * nf) by (nonlinear_arith)
                                requires
                                    0 <= k < x,
                                    0 <= jj < nf,
                            ;
                            assert(fi@[k * nf + jj] == fi_start[k * nf + jj]);
                        }
                    }
                }
                assert forall|k: int| 0 <= k < cl@.len() implies #[trigger] renumbered_from(ty0, ci0, c + 1, all_entries, om, min_crossrefs, k) by {
                    if k == x {
                        assert(entry_kept(ty0, ci0, c as int, all_entries, om, min_crossrefs));
                    } else {
                        assert(renumbered_from(ty0, ci0, c as int, all_entries, om, min_crossrefs, k));
                    }
                }
            }
        } else {
        }
        proof {
            if ty != 0 {
                assert(missing_entries(cl0, ty0, c + 1) =~= missing_entries(cl0, ty0, c as int));
            }
            assert forall|k: int| 0 <= k < cl@.len() implies #[trigger] renumbered_from(ty0, ci0, c + 1, all_entries, om, min_crossrefs, k) by {
                if k < nb {
                    assert(renumbered_from(ty0, ci0, c as int, all_entries, om, min_crossrefs, k));
                    let d = choose|d: int| 0 <= d < c && #[trigger] entry_kept(ty0, ci0, d, all_entries, om, min_crossrefs) && kept_count(ty0, ci0, d, all_entries, om, min_crossrefs) == k;
                    assert(0 <= d < c + 1);
                } else {
                    assert(entry_kept(ty0, ci0, c as int, all_entries, om, min_crossrefs));
                }
            }
            assert forall|k: int|
                0 <= k <= t0.max() && #[trigger] t.info_of(k) != t0.info_of(k) implies exists|d: int|
                    0 <= d < c + 1 && #[trigger] entry_kept(ty0, ci0, d, all_entries, om, min_crossrefs) && kept_count(ty0, ci0, d, all_entries, om, min_crossrefs) < d
                        && k == t0.view()[(t0.string_view()[cl0[d] as int], CITE_ILK)] by {
                if tb.info_of(k) != t0.info_of(k) {
                    let d = choose|d: int|
                        0 <= d < c && #[trigger] entry_kept(ty0, ci0, d, all_entries, om, min_crossrefs) && kept_count(ty0, ci0, d, all_entries, om, min_crossrefs) < d
                            && k == t0.view()[(t0.string_view()[cl0[d] as int], CITE_ILK)];
                    assert(0 <= d < c + 1);
                } else {
                    assert(entry_kept(ty0, ci0, c as int, all_entries, om, min_crossrefs));
                }
            }
        }
        c = c + 1;
    }
    let mut missing_all_v: Vec<i32> = Vec::new();
    if all_entries {
        let mut d = all_marker;
        while d < old_num_cites
            invariant
                all_marker <= d <= old_num_cites,
                old_num_cites <= entry_exists@.len(),
                old_num_cites <= n,
                *rc == rc0,
                ci0 == rc0.cite_info@,
                ci0.len() == n,
                missing_all_v@ == missing_all(ci0, entry_exists@, all_marker as int, d as int),
            decreases old_num_cites - d,
        {
            if !entry_exists[d] {
                missing_all_v.push(rc.cite_info[d]);
            }
            proof {
                assert(missing_all(ci0, entry_exists@, all_marker as int, d + 1) =~= missing_all(
                    ci0,
                    entry_exists@,
                    all_marker as int,
                    d as int,
                ) + if !entry_exists@[d as int] {
                    seq![ci0[d as int]]
                } else {
                    Seq::empty()
                });
            }
            d = d + 1;
        }
    }
    rc.cite_list = cl;
    rc.type_list = tl;
    rc.cite_info = ci;
    rc.field_info = fi;
    (missing, missing_all_v)
}

} // verus!
