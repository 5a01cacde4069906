//! Building the glyph tables of a TrueType subset from the source font: the
//! program of each kept glyph is copied, and the components of a composite
//! glyph are kept too, its references to them renumbered.
use vstd::prelude::*;
use crate::tt_glyf::{
    tt_glyphs, tt_glyph_desc, tt_find_glyph, find_glyph_spec, tt_add_glyph, fresh_desc, slot_is_used, NUM_SLOTS,
    GlyphTables, glyf_of, num_hmetrics_of, hmtx_of, loca_of, loca_entry, released, sorted_by_gid,
    is_default_width, tt_set_default_width, sort_glyphs_by_gid, tt_build_glyph_tables, lemma_glyf_of_take, lemma_glyf_of_mono,
};
use crate::tt_metrics::{tt_head_table, tt_hhea_table, tt_maxp_table};
use crate::tt_post::{be16_at, byte_at};
use crate::tt_metrics::{tt_longMetrics, metrics_fields, glyph_len, glyph_pos, byte_at_pos, be16_at_pos, loca_offset_of};

verus! {

/// Why the glyph tables of a subset cannot be built.
#[derive(Clone, Copy, Debug, PartialEq, Eq, Structural)]
pub enum BuildError {
    UnknownMetricDataFormat,
    UnknownIndexToLocFormat,
    /// A kept glyph that the font does not have.
    InvalidGlyphIndex(u16),
    /// Glyph data too short for its header or its component records.
    InvalidGlyphData(u16),
    /// A component (first) that the font does not have, in the composite
    /// glyph (second).
    InvalidComponent(u16, u16),
    /// Every new glyph id is taken.
    NoEmptySlot,
    /// The glyph programs do not fit in 32-bit offsets.
    TableTooLarge,
}

/// The flag of a component record telling that more records follow.
pub const MORE_COMPONENTS: u16 = 0x20;

/// The bytes of a component record after its flags and glyph index: two
/// arguments (words or bytes) and the scale, if any.
pub open spec fn component_tail(flags: u16) -> int {
    (if flags & 1 != 0 { 4int } else { 2int }) + (if flags & 8 != 0 {
        2int
    } else if flags & 0x40 != 0 {
        4int
    } else if flags & 0x80 != 0 {
        8int
    } else {
        0int
    })
}

fn component_tail_exec(flags: u16) -> (r: usize)
    ensures
        r == component_tail(flags),
        2 <= r <= 12,
{
    let a: usize = if flags & 1 != 0 { 4 } else { 2 };
    let b: usize = if flags & 8 != 0 {
        2
    } else if flags & 0x40 != 0 {
        4
    } else if flags & 0x80 != 0 {
        8
    } else {
        0
    };
    a + b
}

/// The positions of the component records of composite glyph data `d`
/// from `p` on, or `None` where a record does not fit in the data.
pub open spec fn components(d: Seq<u8>, p: int) -> Option<Seq<int>>
    decreases d.len() + 20 - p,
{
    if p < 0 || p + 4 > d.len() {
        None
    } else {
        let flags = be16_at(d, p) as u16;
        if flags & MORE_COMPONENTS == 0 {
            Some(seq![p])
        } else {
            match components(d, p + 4 + component_tail(flags)) {
                Some(r) => Some(seq![p] + r),
                None => None,
            }
        }
    }
}

/// The first fault of the component records from `p` on of the composite
/// glyph `gid`: a record that does not fit, or one that names a glyph the
/// font (of `num_glyphs` glyphs) does not have.
pub open spec fn walk_error(d: Seq<u8>, p: int, num_glyphs: int, gid: u16) -> Option<BuildError>
    decreases d.len() + 20 - p,
{
    if p < 0 || p + 4 > d.len() {
        Some(BuildError::InvalidGlyphData(gid))
    } else if be16_at(d, p + 2) >= num_glyphs {
        Some(BuildError::InvalidComponent(be16_at(d, p + 2) as u16, gid))
    } else if (be16_at(d, p) as u16) & MORE_COMPONENTS == 0 {
        None
    } else {
        walk_error(d, p + 4 + component_tail(be16_at(d, p) as u16), num_glyphs, gid)
    }
}

/// The faults of component records are data that does not fit or
/// components that the font does not have.
pub proof fn lemma_walk_error_kind(d: Seq<u8>, p: int, num_glyphs: int, gid: u16)
    ensures
        walk_error(d, p, num_glyphs, gid) matches Some(e) ==> e is InvalidGlyphData || e is InvalidComponent,
    decreases d.len() + 20 - p,
{
    if !(p < 0 || p + 4 > d.len()) && be16_at(d, p + 2) < num_glyphs && (be16_at(d, p) as u16) & MORE_COMPONENTS != 0 {
        lemma_walk_error_kind(d, p + 4 + component_tail(be16_at(d, p) as u16), num_glyphs, gid);
    }
}

/// `k` is one of the two bytes of the glyph reference of a record in `recs`.
pub open spec fn is_ref_byte(recs: Seq<int>, k: int) -> bool {
    exists|i: int| 0 <= i < recs.len() && (recs[i] + 2 == k || recs[i] + 3 == k)
}

/// `data` is `raw` with the glyph reference of each record in `recs`
/// renumbered to the new id of a kept glyph of `g` with that source id.
#[verifier::opaque]
pub open spec fn renumbered(raw: Seq<u8>, data: Seq<u8>, recs: Seq<int>, g: tt_glyphs) -> bool {
    &&& data.len() == raw.len()
    &&& forall|k: int| 0 <= k < raw.len() && !is_ref_byte(recs, k) ==> #[trigger] data[k] == raw[k]
    &&& forall|i: int| 0 <= i < recs.len() ==> #[trigger] ref_renumbered(raw, data, recs[i], g)
}

/// The glyph reference of the record at `p` names in `data` the new id of a
/// kept glyph of `g` whose source id it names in `raw`.
pub open spec fn ref_renumbered(raw: Seq<u8>, data: Seq<u8>, p: int, g: tt_glyphs) -> bool {
    exists|j: int| 0 <= j < g.gd@.len() && g.gd@[j].ogid == be16_at(raw, p + 2) && g.gd@[j].gid == be16_at(data, p + 2)
}

/// The glyphs of `g1` are those of `g0`, then fresh ones, each named by a
/// renumbered reference of `data` (at a record of `recs`).
#[verifier::opaque]
pub open spec fn grown_by_refs(g0: tt_glyphs, g1: tt_glyphs, raw: Seq<u8>, data: Seq<u8>, recs: Seq<int>) -> bool {
    &&& g1.gd@.len() >= g0.gd@.len()
    &&& g1.gd@.take(g0.gd@.len() as int) == g0.gd@
    &&& forall|j: int|
        g0.gd@.len() <= j < g1.gd@.len() ==> {
            &&& fresh_desc(#[trigger] g1.gd@[j], g1.gd@[j].ogid, g1.gd@[j].gid)
            &&& exists|i: int|
                0 <= i < recs.len() && be16_at(raw, recs[i] + 2) == g1.gd@[j].ogid && be16_at(data, recs[i] + 2)
                    == g1.gd@[j].gid
        }
}

/// Some kept glyph has the new id `last_gid`.
pub open spec fn has_last(g: tt_glyphs) -> bool {
    exists|j: int| 0 <= j < g.gd@.len() && #[trigger] g.gd@[j].gid == g.last_gid
}

/// The fields of `g1` other than the kept glyphs and the slots are those of
/// `g0`.
pub open spec fn same_settings(g0: tt_glyphs, g1: tt_glyphs) -> bool {
    &&& g1.emsize == g0.emsize
    &&& g1.dw == g0.dw
    &&& g1.default_advh == g0.default_advh
    &&& g1.default_tsb == g0.default_tsb
}

/// Some kept glyph of `g` has the new id `x`.
pub open spec fn has_gid(g: tt_glyphs, x: int) -> bool {
    exists|m: int| 0 <= m < g.gd@.len() && #[trigger] g.gd@[m].gid == x
}

/// The new ids taken in `g` were taken in `g0` or belong to kept glyphs.
pub open spec fn slots_from(g0: tt_glyphs, g: tt_glyphs) -> bool {
    forall|x: int| 0 <= x < 65536 && #[trigger] g.slot_used(x) ==> g0.slot_used(x) || has_gid(g, x)
}

/// Each glyph of `g` whose new id was free in `g0` took the lowest id free
/// when it was added: every id below it was taken in `g0` or is the new id
/// of a glyph of `g`.
pub open spec fn took_lowest(g0: tt_glyphs, g: tt_glyphs) -> bool {
    forall|k: int|
        0 <= k < g.gd@.len() && !g0.slot_used(#[trigger] g.gd@[k].gid as int) ==> forall|x: int|
            0 <= x < g.gd@[k].gid ==> g0.slot_used(x) || #[trigger] has_gid(g, x)
}

/// The new ids of the glyphs of `g1` stay, in place, in `g2`.
pub open spec fn gids_grow(g1: tt_glyphs, g2: tt_glyphs) -> bool {
    &&& g2.gd@.len() >= g1.gd@.len()
    &&& forall|m: int| 0 <= m < g1.gd@.len() ==> #[trigger] g2.gd@[m].gid == g1.gd@[m].gid
}

/// Nothing was added yet.
proof fn lemma_lowest_start(g: tt_glyphs)
    requires
        g.wf(),
    ensures
        took_lowest(g, g),
        slots_from(g, g),
{
}

/// Adding a glyph under the lowest id free in `g1` keeps the ids taken
/// from the bottom up.
proof fn lemma_lowest_add(g0: tt_glyphs, g1: tt_glyphs, g2: tt_glyphs, s: u16)
    requires
        took_lowest(g0, g1),
        slots_from(g0, g1),
        !g1.slot_used(s as int),
        forall|x: int| 0 <= x < s ==> g1.slot_used(x),
        g2.gd@.len() == g1.gd@.len() + 1,
        g2.gd@.take(g1.gd@.len() as int) == g1.gd@,
        g2.gd@[g1.gd@.len() as int].gid == s,
        forall|k: int| 0 <= k < 65536 ==> (#[trigger] g2.slot_used(k) == (k == s || g1.slot_used(k))),
    ensures
        took_lowest(g0, g2),
        slots_from(g0, g2),
{
    assert forall|m: int| 0 <= m < g1.gd@.len() implies #[trigger] g2.gd@[m] == g1.gd@[m] by {
        assert(g2.gd@.take(g1.gd@.len() as int)[m] == g2.gd@[m]);
    }
    assert forall|x: int| #[trigger] has_gid(g1, x) implies has_gid(g2, x) by {
        let m = choose|m: int| 0 <= m < g1.gd@.len() && #[trigger] g1.gd@[m].gid == x;
        assert(g2.gd@[m] == g1.gd@[m]);
    }
    let n = g1.gd@.len() as int;
    assert(has_gid(g2, s as int)) by {
        assert(g2.gd@[n].gid == s);
    }
    assert forall|x: int| 0 <= x < 65536 && #[trigger] g2.slot_used(x) implies g0.slot_used(x) || has_gid(g2, x) by {
        if x != s {
            assert(g1.slot_used(x));
        }
    }
    assert forall|k: int|
        0 <= k < g2.gd@.len() && !g0.slot_used(#[trigger] g2.gd@[k].gid as int) implies forall|x: int|
            0 <= x < g2.gd@[k].gid ==> g0.slot_used(x) || #[trigger] has_gid(g2, x) by {
        assert forall|x: int| 0 <= x < g2.gd@[k].gid implies g0.slot_used(x) || #[trigger] has_gid(g2, x) by {
            if k < n {
                assert(g2.gd@[k] == g1.gd@[k]);
                if !g0.slot_used(x) {
                    assert(has_gid(g1, x));
                }
            } else {
                assert(g1.slot_used(x));
                assert(x < 65536);
            }
        }
    }
}

/// Ids taken from the bottom up from `g0` to `g1` and from `g1` to `g2`
/// (which keeps the ids of `g1`) are taken from the bottom up from `g0` to
/// `g2`.
proof fn lemma_lowest_trans(g0: tt_glyphs, g1: tt_glyphs, g2: tt_glyphs)
    requires
        g1.wf(),
        took_lowest(g0, g1),
        slots_from(g0, g1),
        took_lowest(g1, g2),
        slots_from(g1, g2),
        gids_grow(g1, g2),
    ensures
        took_lowest(g0, g2),
        slots_from(g0, g2),
{
    assert forall|x: int| #[trigger] has_gid(g1, x) implies has_gid(g2, x) by {
        let m = choose|m: int| 0 <= m < g1.gd@.len() && #[trigger] g1.gd@[m].gid == x;
        assert(g2.gd@[m].gid == g1.gd@[m].gid);
    }
    assert forall|x: int| 0 <= x < 65536 && #[trigger] g2.slot_used(x) implies g0.slot_used(x) || has_gid(g2, x) by {
        if g1.slot_used(x) && !has_gid(g2, x) {
            if !g0.slot_used(x) {
                assert(has_gid(g1, x));
            }
        }
    }
    assert forall|k: int|
        0 <= k < g2.gd@.len() && !g0.slot_used(#[trigger] g2.gd@[k].gid as int) implies forall|x: int|
            0 <= x < g2.gd@[k].gid ==> g0.slot_used(x) || #[trigger] has_gid(g2, x) by {
        let y = g2.gd@[k].gid as int;
        assert forall|x: int| 0 <= x < y implies g0.slot_used(x) || #[trigger] has_gid(g2, x) by {
            if g1.slot_used(y) {
                assert(has_gid(g1, y));
                let m = choose|m: int| 0 <= m < g1.gd@.len() && #[trigger] g1.gd@[m].gid == y;
                assert(!g0.slot_used(g1.gd@[m].gid as int));
                if !g0.slot_used(x) {
                    assert(has_gid(g1, x));
                }
            } else {
                if !has_gid(g2, x) {
                    assert(g1.slot_used(x));
                    assert(x < 65536);
                    if !g0.slot_used(x) {
                        assert(has_gid(g1, x));
                    }
                }
            }
        }
    }
}

/// Ids taken from the bottom up stay so when the glyphs change but not
/// their new ids nor the taken ids.
proof fn lemma_lowest_same_gids(g0: tt_glyphs, g1: tt_glyphs, g2: tt_glyphs)
    requires
        took_lowest(g0, g1),
        g2.gd@.len() == g1.gd@.len(),
        forall|m: int| 0 <= m < g1.gd@.len() ==> #[trigger] g2.gd@[m].gid == g1.gd@[m].gid,
    ensures
        took_lowest(g0, g2),
        slots_from(g0, g1) && g2.used_slot@ == g1.used_slot@ ==> slots_from(g0, g2),
        g2.used_slot@ == g1.used_slot@ && g1.wf() ==> took_lowest(g1, g2) && slots_from(g1, g2),
{
    assert forall|x: int| #[trigger] has_gid(g1, x) implies has_gid(g2, x) by {
        let m = choose|m: int| 0 <= m < g1.gd@.len() && #[trigger] g1.gd@[m].gid == x;
        assert(g2.gd@[m].gid == x);
    }
    assert forall|x: int| #[trigger] has_gid(g2, x) implies has_gid(g1, x) by {
        let m = choose|m: int| 0 <= m < g2.gd@.len() && #[trigger] g2.gd@[m].gid == x;
        assert(g1.gd@[m].gid == x);
    }
    assert forall|k: int|
        0 <= k < g2.gd@.len() && !g0.slot_used(#[trigger] g2.gd@[k].gid as int) implies forall|x: int|
            0 <= x < g2.gd@[k].gid ==> g0.slot_used(x) || #[trigger] has_gid(g2, x) by {
        assert(g1.gd@[k].gid == g2.gd@[k].gid);
        assert forall|x: int| 0 <= x < g2.gd@[k].gid implies g0.slot_used(x) || #[trigger] has_gid(g2, x) by {
            if !g0.slot_used(x) {
                assert(has_gid(g1, x));
            }
        }
    }
    if slots_from(g0, g1) && g2.used_slot@ == g1.used_slot@ {
        assert forall|x: int| 0 <= x < 65536 && #[trigger] g2.slot_used(x) implies g0.slot_used(x) || has_gid(g2, x) by {
            assert(g1.slot_used(x));
            if !g0.slot_used(x) {
                assert(has_gid(g1, x));
            }
        }
    }
    if g2.used_slot@ == g1.used_slot@ && g1.wf() {
        assert forall|k: int|
            0 <= k < g2.gd@.len() && !g1.slot_used(#[trigger] g2.gd@[k].gid as int) implies forall|x: int|
                0 <= x < g2.gd@[k].gid ==> g1.slot_used(x) || #[trigger] has_gid(g2, x) by {
            assert(g1.slot_used(g1.gd@[k].gid as int));
        }
    }
}

/// Ids taken from the bottom up stay so in a reordering `g2` of the glyphs
/// of `g1`.
proof fn lemma_lowest_perm(g0: tt_glyphs, g1: tt_glyphs, g2: tt_glyphs)
    requires
        took_lowest(g0, g1),
        keeps_pairs(g1, g2),
        keeps_pairs(g2, g1),
    ensures
        took_lowest(g0, g2),
{
    assert forall|x: int| #[trigger] has_gid(g1, x) implies has_gid(g2, x) by {
        let m = choose|m: int| 0 <= m < g1.gd@.len() && #[trigger] g1.gd@[m].gid == x;
        assert(has_pair(g2, g1.gd@[m].gid, g1.gd@[m].ogid));
        let k = choose|k: int| 0 <= k < g2.gd@.len() && g2.gd@[k].gid == g1.gd@[m].gid && g2.gd@[k].ogid == g1.gd@[m].ogid;
        assert(g2.gd@[k].gid == x);
    }
    assert forall|k: int|
        0 <= k < g2.gd@.len() && !g0.slot_used(#[trigger] g2.gd@[k].gid as int) implies forall|x: int|
            0 <= x < g2.gd@[k].gid ==> g0.slot_used(x) || #[trigger] has_gid(g2, x) by {
        assert(has_pair(g1, g2.gd@[k].gid, g2.gd@[k].ogid));
        let m = choose|m: int| 0 <= m < g1.gd@.len() && g1.gd@[m].gid == g2.gd@[k].gid && g1.gd@[m].ogid == g2.gd@[k].ogid;
        assert forall|x: int| 0 <= x < g2.gd@[k].gid implies g0.slot_used(x) || #[trigger] has_gid(g2, x) by {
            assert(!g0.slot_used(g1.gd@[m].gid as int));
            if !g0.slot_used(x) {
                assert(has_gid(g1, x));
            }
        }
    }
}

/// A glyph added to `g0` to make `g` (one whose new id was free in `g0`)
/// shares its source id with no other glyph of `g`, unless a glyph of `g`
/// with that source id has the new id 0: a component already kept under a
/// new id other than 0 is not added again.
pub open spec fn added_once(g0: tt_glyphs, g: tt_glyphs) -> bool {
    forall|j: int, k: int|
        0 <= j < g.gd@.len() && 0 <= k < g.gd@.len() && j != k && !g0.slot_used(g.gd@[j].gid as int) && #[trigger] g.gd@[j].ogid
            == #[trigger] g.gd@[k].ogid ==> has_pair(g, 0, g.gd@[j].ogid)
}

/// A component record from `p` on, in the records of composite glyph data
/// `d` as far as they fit, names the source glyph `c`.
pub open spec fn names_component(d: Seq<u8>, p: int, c: int) -> bool
    decreases d.len() + 20 - p,
{
    if p < 0 || p + 4 > d.len() {
        false
    } else if be16_at(d, p + 2) == c {
        true
    } else if (be16_at(d, p) as u16) & MORE_COMPONENTS == 0 {
        false
    } else {
        names_component(d, p + 4 + component_tail(be16_at(d, p) as u16), c)
    }
}

/// Each glyph of `g` beyond those of `g0` is named by a component record of
/// the composite glyph data `d`.
pub open spec fn added_named_by(g0: tt_glyphs, g: tt_glyphs, d: Seq<u8>) -> bool {
    forall|j: int| g0.gd@.len() <= j < g.gd@.len() ==> names_component(d, 10, #[trigger] g.gd@[j].ogid as int)
}

/// The source glyph `child` is a component of the composite source glyph
/// `parent`.
#[verifier::opaque]
pub open spec fn is_component_of(font: Seq<u8>, glyf_pos: int, loca_pos: int, fmt: int, parent: int, child: int) -> bool {
    let raw = glyph_data(font, glyf_pos, loca_pos, fmt, parent);
    is_composite(raw) && names_component(raw, 10, child)
}

/// Every glyph added to `g0` to make `g` is a component of a glyph of `g`.
pub open spec fn added_are_components(g0: tt_glyphs, g: tt_glyphs, font: Seq<u8>, glyf_pos: int, loca_pos: int, fmt: int) -> bool {
    forall|j: int|
        0 <= j < g.gd@.len() && !g0.slot_used(#[trigger] g.gd@[j].gid as int) ==> exists|k: int|
            0 <= k < g.gd@.len() && is_component_of(font, glyf_pos, loca_pos, fmt, #[trigger] g.gd@[k].ogid as int, g.gd@[j].ogid as int)
}

/// The glyphs of `g1` keep their place and both their ids in `g2`.
pub open spec fn ids_grow(g1: tt_glyphs, g2: tt_glyphs) -> bool {
    &&& g2.gd@.len() >= g1.gd@.len()
    &&& forall|m: int|
        0 <= m < g1.gd@.len() ==> #[trigger] g2.gd@[m].gid == g1.gd@[m].gid && g2.gd@[m].ogid == g1.gd@[m].ogid
}

/// The glyphs of `g2` beyond those of `g1` have new ids that were free in
/// `g1`.
pub open spec fn fresh_beyond(g1: tt_glyphs, g2: tt_glyphs) -> bool {
    forall|k: int| g1.gd@.len() <= k < g2.gd@.len() ==> !g1.slot_used(#[trigger] g2.gd@[k].gid as int)
}

/// The new ids taken in `g0` are still taken in `g`.
pub open spec fn slots_kept(g0: tt_glyphs, g: tt_glyphs) -> bool {
    forall|x: int| 0 <= x < 65536 && #[trigger] g0.slot_used(x) ==> g.slot_used(x)
}

/// Looking a source id up among more glyphs finds, where the first glyphs
/// have it, what it finds among them.
proof fn lemma_find_prefix(g0: tt_glyphs, g1: tt_glyphs, c: u16)
    requires
        g1.gd@.len() >= g0.gd@.len(),
        g1.gd@.take(g0.gd@.len() as int) == g0.gd@,
    ensures
        find_glyph_spec(&g1, c) == 0 ==> find_glyph_spec(&g0, c) == 0,
{
    let n = g0.gd@.len() as int;
    crate::tt_glyf::lemma_first_index_of_char(g0.ogids(), c);
    crate::tt_glyf::lemma_first_index_of_char(g1.ogids(), c);
    if let Some(i) = crate::tt_glyf::first_index_of(g0.ogids(), c) {
        assert forall|k: int| 0 <= k < n implies #[trigger] g1.gd@[k] == g0.gd@[k] by {
            assert(g1.gd@.take(n)[k] == g1.gd@[k]);
        }
        assert(g0.ogids()[i] == g0.gd@[i].ogid);
        assert(g1.ogids()[i] == g1.gd@[i].ogid);
        assert forall|k: int| 0 <= k < i implies g1.ogids()[k] != c by {
            assert(g1.ogids()[k] == g1.gd@[k].ogid);
            assert(g0.ogids()[k] == g0.gd@[k].ogid);
        }
        let j = crate::tt_glyf::first_index_of(g1.ogids(), c)->0;
        if j < i {
            assert(g1.ogids()[j] != c);
        }
        assert(j == i);
    }
}

/// Adding a glyph under an id free in `g1` keeps the added glyphs fresh and
/// the taken ids taken.
proof fn lemma_fresh_add(g0: tt_glyphs, g1: tt_glyphs, g2: tt_glyphs, s: u16)
    requires
        slots_kept(g0, g1),
        fresh_beyond(g0, g1),
        !g1.slot_used(s as int),
        g2.gd@.len() == g1.gd@.len() + 1,
        g2.gd@.take(g1.gd@.len() as int) == g1.gd@,
        g2.gd@[g1.gd@.len() as int].gid == s,
        forall|k: int| 0 <= k < 65536 ==> (#[trigger] g2.slot_used(k) == (k == s || g1.slot_used(k))),
    ensures
        slots_kept(g0, g2),
        fresh_beyond(g0, g2),
{
    assert forall|k: int| g0.gd@.len() <= k < g2.gd@.len() implies !g0.slot_used(#[trigger] g2.gd@[k].gid as int) by {
        if k < g1.gd@.len() {
            assert(g2.gd@[k] == g2.gd@.take(g1.gd@.len() as int)[k]);
        } else {
            assert(!g0.slot_used(s as int));
        }
    }
}

/// Adding a glyph with source id `c` where the lookup of kept glyphs finds
/// none (or one with new id 0) keeps glyphs added once.
proof fn lemma_added_once_add(g0: tt_glyphs, g1: tt_glyphs, g2: tt_glyphs, c: u16)
    requires
        added_once(g0, g1),
        find_glyph_spec(&g1, c) == 0,
        g2.gd@.len() == g1.gd@.len() + 1,
        g2.gd@.take(g1.gd@.len() as int) == g1.gd@,
        g2.gd@[g1.gd@.len() as int].ogid == c,
    ensures
        added_once(g0, g2),
{
    let n = g1.gd@.len() as int;
    assert forall|m: int| 0 <= m < n implies #[trigger] g2.gd@[m] == g1.gd@[m] by {
        assert(g2.gd@.take(n)[m] == g2.gd@[m]);
    }
    crate::tt_glyf::lemma_first_index_of_char(g1.ogids(), c);
    if exists|k: int| 0 <= k < n && g1.gd@[k].ogid == c {
        let k = choose|k: int| 0 <= k < n && g1.gd@[k].ogid == c;
        assert(g1.ogids()[k] == c);
        let i = crate::tt_glyf::first_index_of(g1.ogids(), c)->0;
        assert(g1.ogids()[i] == g1.gd@[i].ogid);
        assert(g2.gd@[i] == g1.gd@[i]);
        assert(has_pair(g2, 0, c));
    }
    assert forall|j: int, k: int|
        0 <= j < g2.gd@.len() && 0 <= k < g2.gd@.len() && j != k && !g0.slot_used(g2.gd@[j].gid as int) && #[trigger] g2.gd@[j].ogid
            == #[trigger] g2.gd@[k].ogid implies has_pair(g2, 0, g2.gd@[j].ogid) by {
        if j < n && k < n {
            assert(g1.gd@[j].ogid == g1.gd@[k].ogid);
            assert(has_pair(g1, 0, g1.gd@[j].ogid));
            let q = choose|q: int| 0 <= q < g1.gd@.len() && g1.gd@[q].gid == 0 && g1.gd@[q].ogid == g1.gd@[j].ogid;
            assert(g2.gd@[q] == g1.gd@[q]);
        } else if j < n {
            assert(g1.gd@[j].ogid == c);
        } else {
            assert(g1.gd@[k].ogid == c);
        }
    }
}

/// Glyphs added once from `g0` to `g1` and from `g1` to `g2` are added once
/// from `g0` to `g2`, and each is a component of a glyph of `g2`.
proof fn lemma_added_trans(g0: tt_glyphs, g1: tt_glyphs, g2: tt_glyphs, font: Seq<u8>, glyf_pos: int, loca_pos: int, fmt: int)
    requires
        added_once(g0, g1),
        added_once(g1, g2),
        added_are_components(g0, g1, font, glyf_pos, loca_pos, fmt),
        added_are_components(g1, g2, font, glyf_pos, loca_pos, fmt),
        ids_grow(g1, g2),
        fresh_beyond(g1, g2),
        slots_kept(g0, g1),
        slots_kept(g1, g2),
    ensures
        added_once(g0, g2),
        added_are_components(g0, g2, font, glyf_pos, loca_pos, fmt),
        slots_kept(g0, g2),
{
    let n = g1.gd@.len() as int;
    assert forall|c: u16| #[trigger] has_pair(g1, 0, c) implies has_pair(g2, 0, c) by {
        let q = choose|q: int| 0 <= q < g1.gd@.len() && g1.gd@[q].gid == 0 && g1.gd@[q].ogid == c;
        assert(g2.gd@[q].gid == g1.gd@[q].gid);
    }
    assert forall|j: int, k: int|
        0 <= j < g2.gd@.len() && 0 <= k < g2.gd@.len() && j != k && !g0.slot_used(g2.gd@[j].gid as int) && #[trigger] g2.gd@[j].ogid
            == #[trigger] g2.gd@[k].ogid implies has_pair(g2, 0, g2.gd@[j].ogid) by {
        if j < n {
            assert(g2.gd@[j].gid == g1.gd@[j].gid && g2.gd@[j].ogid == g1.gd@[j].ogid);
            if k < n {
                assert(g2.gd@[k].ogid == g1.gd@[k].ogid);
                assert(has_pair(g1, 0, g1.gd@[j].ogid));
            } else {
                assert(!g1.slot_used(g2.gd@[k].gid as int));
            }
        } else {
            assert(!g1.slot_used(g2.gd@[j].gid as int));
        }
    }
    assert forall|j: int|
        0 <= j < g2.gd@.len() && !g0.slot_used(#[trigger] g2.gd@[j].gid as int) implies exists|k: int|
            0 <= k < g2.gd@.len() && is_component_of(font, glyf_pos, loca_pos, fmt, #[trigger] g2.gd@[k].ogid as int, g2.gd@[j].ogid as int) by {
        if j < n {
            assert(g2.gd@[j].gid == g1.gd@[j].gid && g2.gd@[j].ogid == g1.gd@[j].ogid);
            let k = choose|k: int|
                0 <= k < g1.gd@.len() && is_component_of(font, glyf_pos, loca_pos, fmt, #[trigger] g1.gd@[k].ogid as int, g1.gd@[j].ogid as int);
            assert(g2.gd@[k].gid == g1.gd@[k].gid);
            assert(g2.gd@[k].ogid == g1.gd@[k].ogid);
        } else {
            assert(!g1.slot_used(g2.gd@[j].gid as int));
        }
    }
}

/// Glyphs added once, each a component of a glyph, stay so when the glyphs
/// are reordered or released (`g2` holds the same pairs of ids as `g1`,
/// with distinct new ids).
proof fn lemma_added_perm(g0: tt_glyphs, g1: tt_glyphs, g2: tt_glyphs, font: Seq<u8>, glyf_pos: int, loca_pos: int, fmt: int)
    requires
        added_once(g0, g1),
        added_are_components(g0, g1, font, glyf_pos, loca_pos, fmt),
        keeps_pairs(g1, g2),
        keeps_pairs(g2, g1),
        forall|a: int, b: int| 0 <= a < b < g2.gd@.len() ==> #[trigger] g2.gd@[a].gid != #[trigger] g2.gd@[b].gid,
    ensures
        added_once(g0, g2),
        added_are_components(g0, g2, font, glyf_pos, loca_pos, fmt),
{
    assert forall|c: u16| #[trigger] has_pair(g1, 0, c) implies has_pair(g2, 0, c) by {
        let q = choose|q: int| 0 <= q < g1.gd@.len() && g1.gd@[q].gid == 0 && g1.gd@[q].ogid == c;
        assert(has_pair(g2, g1.gd@[q].gid, g1.gd@[q].ogid));
    }
    assert forall|j: int, k: int|
        0 <= j < g2.gd@.len() && 0 <= k < g2.gd@.len() && j != k && !g0.slot_used(g2.gd@[j].gid as int) && #[trigger] g2.gd@[j].ogid
            == #[trigger] g2.gd@[k].ogid implies has_pair(g2, 0, g2.gd@[j].ogid) by {
        assert(has_pair(g1, g2.gd@[j].gid, g2.gd@[j].ogid));
        assert(has_pair(g1, g2.gd@[k].gid, g2.gd@[k].ogid));
        let j1 = choose|q: int| 0 <= q < g1.gd@.len() && g1.gd@[q].gid == g2.gd@[j].gid && g1.gd@[q].ogid == g2.gd@[j].ogid;
        let k1 = choose|q: int| 0 <= q < g1.gd@.len() && g1.gd@[q].gid == g2.gd@[k].gid && g1.gd@[q].ogid == g2.gd@[k].ogid;
        if j < k {
            assert(g2.gd@[j].gid != g2.gd@[k].gid);
        } else {
            assert(g2.gd@[k].gid != g2.gd@[j].gid);
        }
        assert(j1 != k1);
        assert(g1.gd@[j1].ogid == g1.gd@[k1].ogid);
    }
    assert forall|j: int|
        0 <= j < g2.gd@.len() && !g0.slot_used(#[trigger] g2.gd@[j].gid as int) implies exists|k: int|
            0 <= k < g2.gd@.len() && is_component_of(font, glyf_pos, loca_pos, fmt, #[trigger] g2.gd@[k].ogid as int, g2.gd@[j].ogid as int) by {
        assert(has_pair(g1, g2.gd@[j].gid, g2.gd@[j].ogid));
        let j1 = choose|q: int| 0 <= q < g1.gd@.len() && g1.gd@[q].gid == g2.gd@[j].gid && g1.gd@[q].ogid == g2.gd@[j].ogid;
        let k1 = choose|k: int|
            0 <= k < g1.gd@.len() && is_component_of(font, glyf_pos, loca_pos, fmt, #[trigger] g1.gd@[k].ogid as int, g1.gd@[j1].ogid as int);
        assert(has_pair(g2, g1.gd@[k1].gid, g1.gd@[k1].ogid));
        let k = choose|q: int| 0 <= q < g2.gd@.len() && g2.gd@[q].gid == g1.gd@[k1].gid && g2.gd@[q].ogid == g1.gd@[k1].ogid;
        assert(is_component_of(font, glyf_pos, loca_pos, fmt, g2.gd@[k].ogid as int, g2.gd@[j].ogid as int));
    }
}

/// Glyphs added once, each a component of a glyph, stay so when the glyphs
/// change in place but not their ids.
proof fn lemma_added_relabel(g0: tt_glyphs, g1: tt_glyphs, g2: tt_glyphs, font: Seq<u8>, glyf_pos: int, loca_pos: int, fmt: int)
    requires
        added_once(g0, g1),
        added_are_components(g0, g1, font, glyf_pos, loca_pos, fmt),
        g2.gd@.len() == g1.gd@.len(),
        forall|m: int| 0 <= m < g1.gd@.len() ==> #[trigger] g2.gd@[m].gid == g1.gd@[m].gid && g2.gd@[m].ogid == g1.gd@[m].ogid,
    ensures
        added_once(g0, g2),
        added_are_components(g0, g2, font, glyf_pos, loca_pos, fmt),
{
    assert forall|c: u16| #[trigger] has_pair(g1, 0, c) implies has_pair(g2, 0, c) by {
        let q = choose|q: int| 0 <= q < g1.gd@.len() && g1.gd@[q].gid == 0 && g1.gd@[q].ogid == c;
        assert(g2.gd@[q].gid == g1.gd@[q].gid);
    }
    assert forall|j: int, k: int|
        0 <= j < g2.gd@.len() && 0 <= k < g2.gd@.len() && j != k && !g0.slot_used(g2.gd@[j].gid as int) && #[trigger] g2.gd@[j].ogid
            == #[trigger] g2.gd@[k].ogid implies has_pair(g2, 0, g2.gd@[j].ogid) by {
        assert(g2.gd@[j].gid == g1.gd@[j].gid);
        assert(g2.gd@[k].gid == g1.gd@[k].gid);
        assert(has_pair(g1, 0, g1.gd@[j].ogid));
    }
    assert forall|j: int|
        0 <= j < g2.gd@.len() && !g0.slot_used(#[trigger] g2.gd@[j].gid as int) implies exists|k: int|
            0 <= k < g2.gd@.len() && is_component_of(font, glyf_pos, loca_pos, fmt, #[trigger] g2.gd@[k].ogid as int, g2.gd@[j].ogid as int) by {
        assert(g2.gd@[j].gid == g1.gd@[j].gid);
        let k = choose|k: int|
            0 <= k < g1.gd@.len() && is_component_of(font, glyf_pos, loca_pos, fmt, #[trigger] g1.gd@[k].ogid as int, g1.gd@[j].ogid as int);
        assert(g2.gd@[k].gid == g1.gd@[k].gid);
    }
}

/// No new glyph can be kept: the table is full, or every new id is taken.
pub open spec fn no_room(g: tt_glyphs) -> bool {
    g.num_glyphs + 1 >= NUM_SLOTS || forall|k: int| 0 <= k < NUM_SLOTS ==> g.slot_used(k)
}

/// The lowest free new glyph id, where one is left and the table can take
/// another glyph; `None` where the table is full or every id is taken.
fn empty_slot(g: &tt_glyphs) -> (r: Option<u16>)
    requires
        g.wf(),
    ensures
        r is None <==> no_room(*g),
        r matches Some(s) ==> {
            &&& s < NUM_SLOTS
            &&& !g.slot_used(s as int)
            &&& forall|k: int| 0 <= k < s ==> g.slot_used(k)
            &&& g.num_glyphs + 1 < NUM_SLOTS
        },
{
    if g.num_glyphs + 1 >= NUM_SLOTS {
        return None;
    }
    let mut k: u16 = 0;
    while k < NUM_SLOTS
        invariant
            g.wf(),
            g.num_glyphs + 1 < NUM_SLOTS,
            k <= NUM_SLOTS,
            forall|j: int| 0 <= j < k ==> g.slot_used(j),
        decreases NUM_SLOTS - k,
    {
        if !slot_is_used(&g.used_slot, k) {
            assert(!g.slot_used(k as int));
            return Some(k);
        }
        k = k + 1;
    }
    None
}

/// Renumbers the component references of the composite glyph `gid`, whose
/// data is `data` (records from byte 10 on): each component is looked up
/// among the kept glyphs of `g`, and kept under the lowest free new id where
/// it is not found (or found under the new id 0); a component found under
/// another new id is referred to by that id and not added (`added_once`):
/// the lookup among the glyphs kept before the call gives 0 for each glyph
/// added, and each is named by a record of the data (`added_named_by`).
#[verifier::rlimit(60)]
pub fn fix_composite_glyph(g: &mut tt_glyphs, data: &mut Vec<u8>, gid: u16, num_glyphs: u16) -> (r: Result<(), BuildError>)
    requires
        old(g).wf(),
        old(data)@.len() >= 10,
        old(data)@.len() < usize::MAX - 16,
    ensures
        final(g).wf(),
        same_settings(*old(g), *final(g)),
        has_last(*old(g)) ==> has_last(*final(g)),
        final(g).gd@.len() >= old(g).gd@.len(),
        final(g).gd@.take(old(g).gd@.len() as int) == old(g).gd@,
        final(data)@.len() == old(data)@.len(),
        r matches Err(e) ==> e == BuildError::NoEmptySlot || walk_error(old(data)@, 10, num_glyphs as int, gid) == Some(e),
        r == Err::<(), BuildError>(BuildError::NoEmptySlot) ==> no_room(*final(g)),
        took_lowest(*old(g), *final(g)),
        slots_from(*old(g), *final(g)),
        slots_kept(*old(g), *final(g)),
        fresh_beyond(*old(g), *final(g)),
        added_once(*old(g), *final(g)),
        added_named_by(*old(g), *final(g), old(data)@),
        forall|j: int| old(g).gd@.len() <= j < final(g).gd@.len() ==> find_glyph_spec(old(g), #[trigger] final(g).gd@[j].ogid) == 0,
        r is Ok ==> {
            &&& walk_error(old(data)@, 10, num_glyphs as int, gid) is None
            &&& components(old(data)@, 10) matches Some(recs)
            &&& renumbered(old(data)@, final(data)@, recs, *final(g))
            &&& grown_by_refs(*old(g), *final(g), old(data)@, final(data)@, recs)
        },
{
    let ghost raw = data@;
    let ghost g0 = *g;
    let ghost mut done: Seq<int> = Seq::empty();
    let n = data.len();
    let mut p: usize = 10;
    proof {
        lemma_renumber_start(raw, *g);
        lemma_lowest_start(*g);
        assert(g.gd@.take(g0.gd@.len() as int) =~= g0.gd@);
    }
    loop
        invariant
            g.wf(),
            took_lowest(g0, *g),
            slots_from(g0, *g),
            same_settings(g0, *g),
            has_last(g0) ==> has_last(*g),
            g.gd@.len() >= g0.gd@.len(),
            g.gd@.take(g0.gd@.len() as int) == g0.gd@,
            g0 == *old(g),
            raw == old(data)@,
            n == raw.len(),
            data@.len() == n,
            10 <= p,
            n < usize::MAX - 16,
            forall|k: int| p <= k < n ==> #[trigger] data@[k] == raw[k],
            forall|i: int| 0 <= i < done.len() ==> 0 <= #[trigger] done[i] && done[i] + 4 <= p,
            walk_error(raw, 10, num_glyphs as int, gid) == walk_error(raw, p as int, num_glyphs as int, gid),
            components(raw, 10) == match components(raw, p as int) {
                Some(rest) => Some(done + rest),
                None => None::<Seq<int>>,
            },
            renumbered(raw, data@, done, *g),
            grown_by_refs(g0, *g, raw, data@, done),
            slots_kept(g0, *g),
            fresh_beyond(g0, *g),
            added_once(g0, *g),
            forall|j: int| g0.gd@.len() <= j < g.gd@.len() ==> names_component(raw, 10, #[trigger] g.gd@[j].ogid as int),
            forall|c: int| #[trigger] names_component(raw, p as int, c) ==> names_component(raw, 10, c),
            forall|j: int| g0.gd@.len() <= j < g.gd@.len() ==> find_glyph_spec(&g0, #[trigger] g.gd@[j].ogid) == 0,
        decreases n + 20 - p,
    {
        if p >= n || n - p < 4 {
            return Err(BuildError::InvalidGlyphData(gid));
        }
        let flags: u16 = data[p] as u16 * 256 + data[p + 1] as u16;
        let cgid: u16 = data[p + 2] as u16 * 256 + data[p + 3] as u16;
        proof {
            assert(flags == be16_at(raw, p as int));
            assert(cgid == be16_at(raw, p + 2));
        }
        if cgid >= num_glyphs {
            return Err(BuildError::InvalidComponent(cgid, gid));
        }
        let ghost g1 = *g;
        let mut new_gid = tt_find_glyph(g, cgid);
        let ghost mut wit: int = 0;
        if new_gid == 0 {
            match empty_slot(g) {
                None => {
                    return Err(BuildError::NoEmptySlot);
                },
                Some(s) => {
                    new_gid = tt_add_glyph(g, cgid, s);
                    proof {
                        lemma_lowest_add(g0, g1, *g, s);
                        lemma_added_once_add(g0, g1, *g, cgid);
                        lemma_fresh_add(g0, g1, *g, s);
                        assert(names_component(raw, p as int, cgid as int));
                        lemma_find_prefix(g0, g1, cgid);
                        assert forall|j: int| g0.gd@.len() <= j < g.gd@.len() implies names_component(raw, 10, #[trigger] g.gd@[j].ogid as int)
                            && find_glyph_spec(&g0, g.gd@[j].ogid) == 0 by {
                            if j < g1.gd@.len() {
                                assert(g.gd@[j] == g.gd@.take(g1.gd@.len() as int)[j]);
                            }
                        }
                        wit = g1.gd@.len() as int;
                        assert(g.gd@[wit].ogid == cgid && g.gd@[wit].gid == new_gid);
                    }
                },
            }
        } else {
            proof {
                crate::tt_glyf::lemma_first_index_of_char(g1.ogids(), cgid);
                match crate::tt_glyf::first_index_of(g1.ogids(), cgid) {
                    Some(j) => {
                        wit = j;
                        assert(g1.ogids()[j] == g1.gd@[j].ogid);
                    },
                    None => {},
                }
            }
        }
        let ghost d0 = data@;
        data.set(p + 2, (new_gid / 256) as u8);
        data.set(p + 3, (new_gid % 256) as u8);
        let tail = component_tail_exec(flags);
        let ghost done0 = done;
        proof {
            assert(be16_at(data@, p + 2) == new_gid);
            if g.gd@.len() == g1.gd@.len() {
                assert(g.gd@ == g1.gd@);
            }
            assert(g.gd@.take(g1.gd@.len() as int) =~= g1.gd@);
            lemma_renumber_step(raw, d0, data@, done0, p as int, g0, g1, *g, wit, cgid, new_gid);
            done = done.push(p as int);
        }
        if flags & MORE_COMPONENTS == 0 {
            proof {
                assert(done =~= done0 + seq![p as int]);
            }
            return Ok(());
        }
        let ghost p0 = p as int;
        p = p + 4 + tail;
        proof {
            assert forall|c: int| #[trigger] names_component(raw, p as int, c) implies names_component(raw, 10, c) by {
                assert(names_component(raw, p0, c));
            }
            assert(done =~= done0 + seq![(p - 4 - tail) as int]);
            match components(raw, p as int) {
                Some(rest) => {
                    assert(done + rest =~= done0 + (seq![(p - 4 - tail) as int] + rest));
                },
                None => {},
            }
        }
    }
}

/// Before any record, the data is renumbered and nothing was added.
proof fn lemma_renumber_start(raw: Seq<u8>, g: tt_glyphs)
    ensures
        renumbered(raw, raw, Seq::empty(), g),
        grown_by_refs(g, g, raw, raw, Seq::empty()),
{
    reveal(renumbered);
    reveal(grown_by_refs);
    assert(g.gd@.take(g.gd@.len() as int) =~= g.gd@);
}

/// One more record renumbered keeps the data renumbered and the glyphs
/// grown by its references.
proof fn lemma_renumber_step(
    raw: Seq<u8>,
    d0: Seq<u8>,
    d1: Seq<u8>,
    done0: Seq<int>,
    p: int,
    g0: tt_glyphs,
    g1: tt_glyphs,
    g2: tt_glyphs,
    wit: int,
    cgid: u16,
    new_gid: u16,
)
    requires
        renumbered(raw, d0, done0, g1),
        grown_by_refs(g0, g1, raw, d0, done0),
        0 <= p,
        p + 4 <= raw.len(),
        forall|k: int| p <= k < raw.len() ==> #[trigger] d0[k] == raw[k],
        forall|i: int| 0 <= i < done0.len() ==> 0 <= #[trigger] done0[i] && done0[i] + 4 <= p,
        d1.len() == d0.len(),
        d0.len() == raw.len(),
        forall|k: int| 0 <= k < d0.len() && k != p + 2 && k != p + 3 ==> #[trigger] d1[k] == d0[k],
        be16_at(d1, p + 2) == new_gid,
        be16_at(raw, p + 2) == cgid,
        g2.gd@.len() >= g1.gd@.len(),
        g2.gd@.take(g1.gd@.len() as int) == g1.gd@,
        forall|j: int|
            g1.gd@.len() <= j < g2.gd@.len() ==> fresh_desc(#[trigger] g2.gd@[j], cgid, new_gid),
        0 <= wit < g2.gd@.len(),
        g2.gd@[wit].ogid == cgid,
        g2.gd@[wit].gid == new_gid,
    ensures
        renumbered(raw, d1, done0.push(p), g2),
        grown_by_refs(g0, g2, raw, d1, done0.push(p)),
        g2.gd@.take(g0.gd@.len() as int) == g0.gd@,
{
    reveal(renumbered);
    reveal(grown_by_refs);
    let done = done0.push(p);
    assert forall|k: int| 0 <= k < raw.len() && !is_ref_byte(done, k) implies #[trigger] d1[k] == raw[k] by {
        assert(!is_ref_byte(done0, k)) by {
            if is_ref_byte(done0, k) {
                let i = choose|i: int| 0 <= i < done0.len() && (done0[i] + 2 == k || done0[i] + 3 == k);
                assert(done[i] == done0[i]);
            }
        }
        assert(k != p + 2 && k != p + 3) by {
            assert(done[done0.len() as int] == p);
        }
    }
    assert forall|i: int| 0 <= i < done.len() implies #[trigger] ref_renumbered(raw, d1, done[i], g2) by {
        if i < done0.len() {
            assert(done[i] == done0[i]);
            assert(ref_renumbered(raw, d0, done0[i], g1));
            let j = choose|j: int|
                0 <= j < g1.gd@.len() && g1.gd@[j].ogid == be16_at(raw, done0[i] + 2) && g1.gd@[j].gid
                    == be16_at(d0, done0[i] + 2);
            assert(g2.gd@[j] == g2.gd@.take(g1.gd@.len() as int)[j]);
            assert(d1[done0[i] + 2] == d0[done0[i] + 2]);
            assert(d1[done0[i] + 3] == d0[done0[i] + 3]);
        } else {
            assert(done[i] == p);
        }
    }
    assert forall|j: int| g0.gd@.len() <= j < g2.gd@.len() implies {
        &&& fresh_desc(#[trigger] g2.gd@[j], g2.gd@[j].ogid, g2.gd@[j].gid)
        &&& exists|i: int|
            0 <= i < done.len() && be16_at(raw, done[i] + 2) == g2.gd@[j].ogid && be16_at(d1, done[i] + 2)
                == g2.gd@[j].gid
    } by {
        if j < g1.gd@.len() {
            assert(g2.gd@[j] == g2.gd@.take(g1.gd@.len() as int)[j]);
            let i = choose|i: int|
                0 <= i < done0.len() && be16_at(raw, done0[i] + 2) == g1.gd@[j].ogid && be16_at(d0, done0[i] + 2)
                    == g1.gd@[j].gid;
            assert(done[i] == done0[i]);
            assert(d1[done0[i] + 2] == d0[done0[i] + 2]);
            assert(d1[done0[i] + 3] == d0[done0[i] + 3]);
        } else {
            assert(done[done0.len() as int] == p);
        }
    }
    assert(g2.gd@.take(g0.gd@.len() as int) =~= g0.gd@) by {
        assert forall|k: int| 0 <= k < g0.gd@.len() implies g2.gd@.take(g0.gd@.len() as int)[k] == g0.gd@[k] by {
            assert(g2.gd@[k] == g2.gd@.take(g1.gd@.len() as int)[k]);
            assert(g1.gd@[k] == g1.gd@.take(g0.gd@.len() as int)[k]);
        }
    }
}

/// The bytes `font[p..p + len]`, 0 past its end.
pub open spec fn bytes_at(font: Seq<u8>, p: int, len: int) -> Seq<u8> {
    Seq::new(len as nat, |k: int| byte_at(font, p + k) as u8)
}

/// The data of source glyph `ogid` is too long to be read into memory with
/// room to spare.
pub open spec fn too_long(font: Seq<u8>, loca_pos: int, fmt: int, ogid: int) -> bool {
    glyph_len(font, loca_pos, fmt, ogid) + 16 >= usize::MAX
}

/// The data of the source glyph `ogid`.
pub open spec fn glyph_data(font: Seq<u8>, glyf_pos: int, loca_pos: int, fmt: int, ogid: int) -> Seq<u8> {
    bytes_at(font, glyph_pos(font, glyf_pos, loca_pos, fmt, ogid), glyph_len(font, loca_pos, fmt, ogid))
}

/// Glyph data of a composite glyph: its number of contours is negative.
pub open spec fn is_composite(raw: Seq<u8>) -> bool {
    raw.len() >= 10 && be16_at(raw, 0) >= 0x8000
}

/// The program kept for glyph `n`: the glyph's data from the font, with
/// its component references renumbered to the glyphs of `g` where it is
/// composite.
pub open spec fn program_ok(n: tt_glyph_desc, font: Seq<u8>, glyf_pos: int, loca_pos: int, fmt: int, g: tt_glyphs) -> bool {
    let raw = glyph_data(font, glyf_pos, loca_pos, fmt, n.ogid as int);
    &&& n.length == raw.len()
    &&& n.data@.len() == raw.len()
    &&& if is_composite(raw) {
        components(raw, 10) matches Some(recs) && renumbered(raw, n.data@, recs, g)
    } else {
        n.data@ == raw
    }
}

/// The fault of the source glyph `ogid`, if any: one the font does not
/// have, data too short for the glyph header, or a fault of its component
/// records.
pub open spec fn source_glyph_error(ogid: u16, num_glyphs: int, font: Seq<u8>, glyf_pos: int, loca_pos: int, fmt: int) -> Option<BuildError> {
    let raw = glyph_data(font, glyf_pos, loca_pos, fmt, ogid as int);
    if ogid >= num_glyphs {
        Some(BuildError::InvalidGlyphIndex(ogid))
    } else if raw.len() != 0 && raw.len() < 10 {
        Some(BuildError::InvalidGlyphData(ogid))
    } else if is_composite(raw) {
        walk_error(raw, 10, num_glyphs, ogid)
    } else {
        None
    }
}

/// Some glyph of `g` has the new id `gid` and the source id `ogid`.
pub open spec fn has_pair(g: tt_glyphs, gid: u16, ogid: u16) -> bool {
    exists|k: int| 0 <= k < g.gd@.len() && g.gd@[k].gid == gid && g.gd@[k].ogid == ogid
}

/// Every glyph of `g1` has its ids in some glyph of `g2`.
pub open spec fn keeps_pairs(g1: tt_glyphs, g2: tt_glyphs) -> bool {
    forall|j: int| 0 <= j < g1.gd@.len() ==> #[trigger] has_pair(g2, g1.gd@[j].gid, g1.gd@[j].ogid)
}

/// References renumbered to glyphs of `g1` are renumbered to glyphs of any
/// `g2` that keeps their ids.
pub proof fn lemma_renumbered_keep(raw: Seq<u8>, data: Seq<u8>, recs: Seq<int>, g1: tt_glyphs, g2: tt_glyphs)
    requires
        renumbered(raw, data, recs, g1),
        keeps_pairs(g1, g2),
    ensures
        renumbered(raw, data, recs, g2),
{
    reveal(renumbered);
    assert forall|i: int| 0 <= i < recs.len() implies #[trigger] ref_renumbered(raw, data, recs[i], g2) by {
        assert(ref_renumbered(raw, data, recs[i], g1));
        let j = choose|j: int|
            0 <= j < g1.gd@.len() && g1.gd@[j].ogid == be16_at(raw, recs[i] + 2) && g1.gd@[j].gid
                == be16_at(data, recs[i] + 2);
        assert(has_pair(g2, g1.gd@[j].gid, g1.gd@[j].ogid));
        let k = choose|k: int| 0 <= k < g2.gd@.len() && g2.gd@[k].gid == g1.gd@[j].gid && g2.gd@[k].ogid == g1.gd@[j].ogid;
    }
}

/// Reads `font[p..p + len]`, 0 past its end.
fn read_bytes(font: &Vec<u8>, p: u32, len: u32) -> (r: Vec<u8>)
    ensures
        r@ == bytes_at(font@, p as int, len as int),
{
    let mut r: Vec<u8> = Vec::new();
    let mut k: u32 = 0;
    while k < len
        invariant
            k <= len,
            r@ == bytes_at(font@, p as int, k as int),
        decreases len - k,
    {
        let b = byte_at_pos(font, p as u64 + k as u64);
        r.push(b);
        proof {
            assert(r@ =~= bytes_at(font@, p as int, k + 1));
        }
        k = k + 1;
    }
    r
}

/// The kept program of a glyph whose data is `raw`: the data itself, or,
/// where it is composite, the data with its references renumbered to the
/// glyphs of `g`.
pub open spec fn program_of(raw: Seq<u8>, data: Seq<u8>, g: tt_glyphs) -> bool {
    &&& data.len() == raw.len()
    &&& if is_composite(raw) {
        components(raw, 10) matches Some(recs) && renumbered(raw, data, recs, g)
    } else {
        data == raw
    }
}

/// The glyph error that data `raw` of source glyph `gid` gives.
pub open spec fn data_error(raw: Seq<u8>, num_glyphs: int, gid: u16) -> Option<BuildError> {
    if raw.len() != 0 && raw.len() < 10 {
        Some(BuildError::InvalidGlyphData(gid))
    } else if is_composite(raw) {
        walk_error(raw, 10, num_glyphs, gid)
    } else {
        None
    }
}

/// Reads the data of source glyph `gid` (`len` bytes at `p` of the font)
/// and, where it is composite, keeps its components in `g` and renumbers
/// its references to them.
fn glyph_program(g: &mut tt_glyphs, font: &Vec<u8>, gid: u16, p: u32, len: u32, num_glyphs: u16) -> (r: Result<Vec<u8>, BuildError>)
    requires
        old(g).wf(),
    ensures
        final(g).wf(),
        same_settings(*old(g), *final(g)),
        has_last(*old(g)) ==> has_last(*final(g)),
        final(g).gd@.len() >= old(g).gd@.len(),
        final(g).gd@.take(old(g).gd@.len() as int) == old(g).gd@,
        r matches Err(e) ==> e == BuildError::NoEmptySlot || e == BuildError::TableTooLarge || data_error(bytes_at(font@, p as int, len as int), num_glyphs as int, gid) == Some(e),
        r == Err::<Vec<u8>, BuildError>(BuildError::NoEmptySlot) ==> no_room(*final(g)),
        r == Err::<Vec<u8>, BuildError>(BuildError::TableTooLarge) ==> len + 16 >= usize::MAX,
        took_lowest(*old(g), *final(g)),
        slots_from(*old(g), *final(g)),
        r matches Ok(data) ==> data_error(bytes_at(font@, p as int, len as int), num_glyphs as int, gid) is None,
        r matches Ok(data) ==> program_of(bytes_at(font@, p as int, len as int), data@, *final(g)),
        r is Ok ==> forall|k: int| old(g).gd@.len() <= k < final(g).gd@.len() ==> fresh_desc(#[trigger] final(g).gd@[k], final(g).gd@[k].ogid, final(g).gd@[k].gid),
        slots_kept(*old(g), *final(g)),
        fresh_beyond(*old(g), *final(g)),
        added_once(*old(g), *final(g)),
        final(g).gd@.len() > old(g).gd@.len() ==> is_composite(bytes_at(font@, p as int, len as int)),
        added_named_by(*old(g), *final(g), bytes_at(font@, p as int, len as int)),
{
    let ghost raw = bytes_at(font@, p as int, len as int);
    let ghost g0 = *g;
    proof {
        assert(g.gd@.take(g0.gd@.len() as int) =~= g0.gd@);
        lemma_lowest_start(*g);
    }
    if len == 0 {
        proof {
            assert(raw =~= Seq::<u8>::empty());
        }
        return Ok(Vec::new());
    }
    if len < 10 {
        return Err(BuildError::InvalidGlyphData(gid));
    }
    if len as u64 + 16 >= usize::MAX as u64 {
        return Err(BuildError::TableTooLarge);
    }
    let mut data = read_bytes(font, p, len);
    let contours: u16 = data[0] as u16 * 256 + data[1] as u16;
    proof {
        assert(contours == be16_at(raw, 0));
    }
    if contours >= 0x8000 {
        let f = fix_composite_glyph(g, &mut data, gid, num_glyphs);
        if f.is_err() {
            proof {
                lemma_walk_error_kind(raw, 10, num_glyphs as int, gid);
            }
            return Err(f.unwrap_err());
        }
        proof {
            reveal(grown_by_refs);
        }
    }
    Ok(data)
}

/// Copies the program of the kept glyph at position `i` from the font and
/// fills in its metrics (see `metrics_fields` and `program_ok`); where it
/// is composite, its components are kept too.
#[verifier::rlimit(80)]
#[verifier::spinoff_prover]
fn build_glyph(
    g: &mut tt_glyphs,
    i: usize,
    font: &Vec<u8>,
    hmtx: &Vec<tt_longMetrics>,
    vmtx: Option<&Vec<tt_longMetrics>>,
    advh: u16,
    tsb: i16,
    num_glyphs: u16,
    loca_pos: u32,
    glyf_pos: u32,
    fmt: i16,
) -> (r: Result<(), BuildError>)
    requires
        old(g).wf(),
        i < old(g).gd@.len(),
        fmt == 0 || fmt == 1,
        hmtx@.len() == num_glyphs,
        vmtx matches Some(v) ==> v@.len() == num_glyphs,
    ensures
        final(g).wf(),
        same_settings(*old(g), *final(g)),
        has_last(*old(g)) ==> has_last(*final(g)),
        final(g).gd@.len() >= old(g).gd@.len(),
        final(g).gd@[i as int].ogid == old(g).gd@[i as int].ogid,
        r matches Err(e) ==> e == BuildError::NoEmptySlot || e == BuildError::TableTooLarge
            || source_glyph_error(old(g).gd@[i as int].ogid, num_glyphs as int, font@, glyf_pos as int, loca_pos as int, fmt as int) == Some(e),
        r == Err::<(), BuildError>(BuildError::NoEmptySlot) ==> no_room(*final(g)),
        r == Err::<(), BuildError>(BuildError::TableTooLarge) ==> too_long(font@, loca_pos as int, fmt as int, old(g).gd@[i as int].ogid as int),
        took_lowest(*old(g), *final(g)),
        slots_from(*old(g), *final(g)),
        gids_grow(*old(g), *final(g)),
        r is Ok ==> source_glyph_error(old(g).gd@[i as int].ogid, num_glyphs as int, font@, glyf_pos as int, loca_pos as int, fmt as int) is None,
        r is Ok ==> forall|k: int| 0 <= k < old(g).gd@.len() && k != i ==> #[trigger] final(g).gd@[k] == old(g).gd@[k],
        r is Ok ==> forall|k: int| old(g).gd@.len() <= k < final(g).gd@.len() ==> fresh_desc(#[trigger] final(g).gd@[k], final(g).gd@[k].ogid, final(g).gd@[k].gid),
        r is Ok ==> metrics_fields(old(g).gd@[i as int], final(g).gd@[i as int], hmtx@, match vmtx { Some(v) => Some(v@), None => None::<Seq<tt_longMetrics>> }, advh, tsb, font@, glyf_pos as int, loca_pos as int, fmt as int),
        r is Ok ==> program_ok(final(g).gd@[i as int], font@, glyf_pos as int, loca_pos as int, fmt as int, *final(g)),
        r is Ok ==> keeps_pairs(*old(g), *final(g)),
        ids_grow(*old(g), *final(g)),
        slots_kept(*old(g), *final(g)),
        fresh_beyond(*old(g), *final(g)),
        added_once(*old(g), *final(g)),
        added_are_components(*old(g), *final(g), font@, glyf_pos as int, loca_pos as int, fmt as int),
{
    let ghost g0 = *g;
    proof {
        lemma_nothing_added(*g, font@, glyf_pos as int, loca_pos as int, fmt as int);
    }
    let gid = g.gd[i].ogid;
    let new_id = g.gd[i].gid;
    if gid >= num_glyphs {
        return Err(BuildError::InvalidGlyphIndex(gid));
    }
    let loc = loca_offset_of(font, loca_pos, fmt, gid as u32);
    let next = loca_offset_of(font, loca_pos, fmt, gid as u32 + 1);
    let len: u32 = if next >= loc { next - loc } else { (next as u64 + 0x1_0000_0000 - loc as u64) as u32 };
    let h = hmtx[gid as usize];
    let (adv_h, mut tsb_i) = match vmtx {
        Some(v) => (v[gid as usize].advance, v[gid as usize].sideBearing),
        None => (advh, tsb),
    };
    let mut llx = g.gd[i].llx;
    let mut lly = g.gd[i].lly;
    let mut urx = g.gd[i].urx;
    let mut ury = g.gd[i].ury;
    let p: u64 = (glyf_pos as u64 + loc as u64) % 0x1_0000_0000;
    let ghost raw = glyph_data(font@, glyf_pos as int, loca_pos as int, fmt as int, gid as int);
    proof {
        assert(raw == bytes_at(font@, p as int, len as int));
    }
    if len >= 10 {
        llx = be16_at_pos(font, p + 2) as i16;
        lly = be16_at_pos(font, p + 4) as i16;
        urx = be16_at_pos(font, p + 6) as i16;
        ury = be16_at_pos(font, p + 8) as i16;
        if vmtx.is_none() {
            tsb_i = (advh as i32 - tsb as i32 - ury as i32) as i16;
        }
    }
    let pr = glyph_program(g, font, gid, p as u32, len, num_glyphs);
    proof {
        assert(p as u32 as int == p as int);
        assert(bytes_at(font@, (p as u32) as int, len as int) == raw);
        lemma_added_children(g0, *g, i as int, (p as u32) as int, len as int, font@, glyf_pos as int, loca_pos as int, fmt as int);
    }
    let data = match pr {
        Ok(d) => d,
        Err(e) => {
            proof {
                assert(g.gd@[i as int] == g.gd@.take(g0.gd@.len() as int)[i as int]);
                assert forall|m: int| 0 <= m < g0.gd@.len() implies #[trigger] g.gd@[m].gid == g0.gd@[m].gid by {
                    assert(g.gd@[m] == g.gd@.take(g0.gd@.len() as int)[m]);
                }
            }
            return Err(e);
        },
    };
    let ghost g1 = *g;
    proof {
        assert(g1.gd@[i as int] == g1.gd@.take(g0.gd@.len() as int)[i as int]);
    }
    let d = tt_glyph_desc {
        gid: new_id,
        ogid: gid,
        advw: h.advance,
        advh: adv_h,
        lsb: h.sideBearing,
        tsb: tsb_i,
        llx,
        lly,
        urx,
        ury,
        length: len,
        data,
    };
    g.gd.set(i, d);
    proof {
        assert forall|m: int| 0 <= m < g1.gd@.len() implies #[trigger] g.gd@[m].gid == g1.gd@[m].gid by {}
        lemma_lowest_same_gids(g1, g1, *g);
        lemma_lowest_trans(g0, g1, *g);
        assert forall|m: int| 0 <= m < g0.gd@.len() implies #[trigger] g.gd@[m].gid == g0.gd@[m].gid by {
            assert(g1.gd@[m] == g1.gd@.take(g0.gd@.len() as int)[m]);
        }
        lemma_store_glyph(g0, g1, *g, i as int, raw, font@, glyf_pos as int, loca_pos as int, fmt as int);
        lemma_added_same_ids(g0, g1, *g, font@, glyf_pos as int, loca_pos as int, fmt as int);
    }
    Ok(())
}

/// A table to which nothing was added.
proof fn lemma_nothing_added(g: tt_glyphs, font: Seq<u8>, glyf_pos: int, loca_pos: int, fmt: int)
    requires
        g.wf(),
    ensures
        ids_grow(g, g),
        slots_kept(g, g),
        fresh_beyond(g, g),
        added_once(g, g),
        added_are_components(g, g, font, glyf_pos, loca_pos, fmt),
{
}

/// The glyphs added to `g0` for the components of its glyph at `i`, whose
/// data is the `blen` bytes at `bp` of the font, are components of that glyph.
proof fn lemma_added_children(g0: tt_glyphs, g1: tt_glyphs, i: int, bp: int, blen: int, font: Seq<u8>, glyf_pos: int, loca_pos: int, fmt: int)
    requires
        g0.wf(),
        0 <= i < g0.gd@.len(),
        g1.gd@.len() >= g0.gd@.len(),
        g1.gd@.take(g0.gd@.len() as int) == g0.gd@,
        fresh_beyond(g0, g1),
        bytes_at(font, bp, blen) == glyph_data(font, glyf_pos, loca_pos, fmt, g0.gd@[i].ogid as int),
        g1.gd@.len() > g0.gd@.len() ==> is_composite(bytes_at(font, bp, blen)),
        added_named_by(g0, g1, bytes_at(font, bp, blen)),
    ensures
        ids_grow(g0, g1),
        added_are_components(g0, g1, font, glyf_pos, loca_pos, fmt),
{
    assert forall|m: int| 0 <= m < g0.gd@.len() implies #[trigger] g1.gd@[m] == g0.gd@[m] by {
        assert(g1.gd@.take(g0.gd@.len() as int)[m] == g1.gd@[m]);
    }
    assert forall|j: int|
        0 <= j < g1.gd@.len() && !g0.slot_used(#[trigger] g1.gd@[j].gid as int) implies exists|k: int|
            0 <= k < g1.gd@.len() && is_component_of(font, glyf_pos, loca_pos, fmt, #[trigger] g1.gd@[k].ogid as int, g1.gd@[j].ogid as int) by {
        if j < g0.gd@.len() {
            assert(g1.gd@[j] == g0.gd@[j]);
            assert(g0.slot_used(g0.gd@[j].gid as int));
        } else {
            assert(g1.gd@[i] == g0.gd@[i]);
            reveal(is_component_of);
            assert(is_component_of(font, glyf_pos, loca_pos, fmt, g1.gd@[i].ogid as int, g1.gd@[j].ogid as int));
        }
    }
}

/// Glyphs added once, each a component of a glyph, stay so when the
/// glyphs change but not their ids.
proof fn lemma_added_same_ids(g0: tt_glyphs, g1: tt_glyphs, g2: tt_glyphs, font: Seq<u8>, glyf_pos: int, loca_pos: int, fmt: int)
    requires
        ids_grow(g0, g1),
        slots_kept(g0, g1),
        fresh_beyond(g0, g1),
        added_once(g0, g1),
        added_are_components(g0, g1, font, glyf_pos, loca_pos, fmt),
        g2.gd@.len() == g1.gd@.len(),
        g2.used_slot@ == g1.used_slot@,
        forall|m: int| 0 <= m < g1.gd@.len() ==> #[trigger] g2.gd@[m].gid == g1.gd@[m].gid && g2.gd@[m].ogid == g1.gd@[m].ogid,
    ensures
        ids_grow(g0, g2),
        slots_kept(g0, g2),
        fresh_beyond(g0, g2),
        added_once(g0, g2),
        added_are_components(g0, g2, font, glyf_pos, loca_pos, fmt),
{
    assert forall|m: int| 0 <= m < g0.gd@.len() implies #[trigger] g2.gd@[m].gid == g0.gd@[m].gid && g2.gd@[m].ogid == g0.gd@[m].ogid by {
        assert(g2.gd@[m].gid == g1.gd@[m].gid);
        assert(g1.gd@[m].gid == g0.gd@[m].gid);
    }
    assert forall|k: int| g0.gd@.len() <= k < g2.gd@.len() implies !g0.slot_used(#[trigger] g2.gd@[k].gid as int) by {
        assert(g2.gd@[k].gid == g1.gd@[k].gid);
    }
    assert forall|c: u16| #[trigger] has_pair(g1, 0, c) implies has_pair(g2, 0, c) by {
        let q = choose|q: int| 0 <= q < g1.gd@.len() && g1.gd@[q].gid == 0 && g1.gd@[q].ogid == c;
        assert(g2.gd@[q].gid == g1.gd@[q].gid);
    }
    assert forall|j: int, k: int|
        0 <= j < g2.gd@.len() && 0 <= k < g2.gd@.len() && j != k && !g0.slot_used(g2.gd@[j].gid as int) && #[trigger] g2.gd@[j].ogid
            == #[trigger] g2.gd@[k].ogid implies has_pair(g2, 0, g2.gd@[j].ogid) by {
        assert(g2.gd@[j].gid == g1.gd@[j].gid);
        assert(g2.gd@[k].gid == g1.gd@[k].gid);
        assert(has_pair(g1, 0, g1.gd@[j].ogid));
    }
    assert forall|j: int|
        0 <= j < g2.gd@.len() && !g0.slot_used(#[trigger] g2.gd@[j].gid as int) implies exists|k: int|
            0 <= k < g2.gd@.len() && is_component_of(font, glyf_pos, loca_pos, fmt, #[trigger] g2.gd@[k].ogid as int, g2.gd@[j].ogid as int) by {
        assert(g2.gd@[j].gid == g1.gd@[j].gid);
        let k = choose|k: int|
            0 <= k < g1.gd@.len() && is_component_of(font, glyf_pos, loca_pos, fmt, #[trigger] g1.gd@[k].ogid as int, g1.gd@[j].ogid as int);
        assert(g2.gd@[k].gid == g1.gd@[k].gid);
    }
}

/// Storing the built glyph at `i` keeps the table well formed and the ids
/// of its glyphs, and its program renumbered.
proof fn lemma_store_glyph(g0: tt_glyphs, g1: tt_glyphs, g2: tt_glyphs, i: int, raw: Seq<u8>, font: Seq<u8>, glyf_pos: int, loca_pos: int, fmt: int)
    requires
        g1.wf(),
        0 <= i < g0.gd@.len(),
        g1.gd@.len() >= g0.gd@.len(),
        g1.gd@.take(g0.gd@.len() as int) == g0.gd@,
        g2.gd@ == g1.gd@.update(i, g2.gd@[i]),
        g2.gd@[i].gid == g1.gd@[i].gid,
        g2.gd@[i].ogid == g1.gd@[i].ogid,
        g2.num_glyphs == g1.num_glyphs,
        g2.last_gid == g1.last_gid,
        g2.used_slot@ == g1.used_slot@,
        raw == glyph_data(font, glyf_pos, loca_pos, fmt, g2.gd@[i].ogid as int),
        g2.gd@[i].length == raw.len(),
        program_of(raw, g2.gd@[i].data@, g1),
    ensures
        g2.wf(),
        has_last(g1) ==> has_last(g2),
        keeps_pairs(g1, g2),
        keeps_pairs(g0, g2),
        program_ok(g2.gd@[i], font, glyf_pos, loca_pos, fmt, g2),
        forall|k: int| 0 <= k < g0.gd@.len() && k != i ==> #[trigger] g2.gd@[k] == g0.gd@[k],
{
    assert(g2.gids() =~= g1.gids());
    assert forall|j: int| 0 <= j < g1.gd@.len() implies #[trigger] has_pair(g2, g1.gd@[j].gid, g1.gd@[j].ogid) by {
        assert(g2.gd@[j].gid == g1.gd@[j].gid);
    }
    assert forall|j: int| 0 <= j < g0.gd@.len() implies #[trigger] has_pair(g2, g0.gd@[j].gid, g0.gd@[j].ogid) by {
        assert(g1.gd@.take(g0.gd@.len() as int)[j] == g1.gd@[j]);
        assert(g2.gd@[j].gid == g1.gd@[j].gid);
    }
    assert forall|k: int| 0 <= k < g0.gd@.len() && k != i implies #[trigger] g2.gd@[k] == g0.gd@[k] by {
        assert(g1.gd@.take(g0.gd@.len() as int)[k] == g1.gd@[k]);
    }
    if is_composite(raw) {
        let recs = components(raw, 10)->Some_0;
        lemma_renumbered_keep(raw, g2.gd@[i].data@, recs, g1, g2);
    }
    if has_last(g1) {
        let j = choose|j: int| 0 <= j < g1.gd@.len() && #[trigger] g1.gd@[j].gid == g1.last_gid;
        assert(g2.gd@[j].gid == g1.gd@[j].gid);
    }
}

/// The tables that `tt_build_glyph_tables` builds from the glyphs `s`
/// (sorted by new id, with their programs).
#[verifier::opaque]
pub open spec fn tables_of(s: Seq<tt_glyph_desc>, t: GlyphTables) -> bool {
    let la = s.last().advw;
    let fmt: int = if glyf_of(s).len() < 0x20000 { 0 } else { 1 };
    &&& t.num_hmetrics == num_hmetrics_of(s, la)
    &&& t.index_to_loc_format == fmt
    &&& t.glyf@ == glyf_of(s)
    &&& t.hmtx@ == hmtx_of(s, t.num_hmetrics as int, la as int)
    &&& t.loca@ == loca_of(s, fmt) + loca_entry(glyf_of(s).len() as int, fmt)
}

/// The tables `t` were built from glyphs `s` that `gf` holds released: the
/// glyphs were built (`built_ok`), and the default width of `gf` is that of
/// `s` for the em size `emsize`.
pub open spec fn tables_from_built(
    t: GlyphTables,
    g0: tt_glyphs,
    gf: tt_glyphs,
    emsize: int,
    font: Seq<u8>,
    hmtx: Seq<tt_longMetrics>,
    vm: Option<Seq<tt_longMetrics>>,
    advh: u16,
    tsb: i16,
    num_glyphs: int,
    glyf_pos: int,
    loca_pos: int,
    fmt: int,
) -> bool {
    exists|s: Seq<tt_glyph_desc>| #![trigger tables_of(s, t)] {
        &&& s.len() == gf.gd@.len()
        &&& tables_of(s, t)
        &&& is_default_width(s, emsize, gf.dw as int)
        &&& forall|i: int| 0 <= i < s.len() ==> released(s[i], #[trigger] gf.gd@[i])
        &&& forall|i: int| 0 <= i < s.len() ==> built_ok(#[trigger] s[i], g0, gf, font, hmtx, vm, advh, tsb, num_glyphs, glyf_pos, loca_pos, fmt)
    }
}

/// A glyph description as it was before its glyph was built: one of `g0`,
/// or a fresh one for a component.
pub open spec fn start_ok(o: tt_glyph_desc, g0: tt_glyphs) -> bool {
    g0.gd@.contains(o) || fresh_desc(o, o.ogid, o.gid)
}

/// Some kept glyph has the new id 0.
pub open spec fn has_notdef(g: tt_glyphs) -> bool {
    exists|j: int| 0 <= j < g.gd@.len() && #[trigger] g.gd@[j].gid == 0
}

/// The glyph `n` is built: its source glyph has no fault, its program is
/// kept (renumbered to the glyphs of `g`), and its metrics are those of
/// `metrics_fields` from its description before.
#[verifier::opaque]
pub open spec fn built_ok(
    n: tt_glyph_desc,
    g0: tt_glyphs,
    g: tt_glyphs,
    font: Seq<u8>,
    hmtx: Seq<tt_longMetrics>,
    vm: Option<Seq<tt_longMetrics>>,
    advh: u16,
    tsb: i16,
    num_glyphs: int,
    glyf_pos: int,
    loca_pos: int,
    fmt: int,
) -> bool {
    &&& source_glyph_error(n.ogid, num_glyphs, font, glyf_pos, loca_pos, fmt) is None
    &&& program_ok(n, font, glyf_pos, loca_pos, fmt, g)
    &&& exists|o: tt_glyph_desc|
        start_ok(o, g0) && o.gid == n.gid && o.ogid == n.ogid && #[trigger] metrics_fields(
            o,
            n,
            hmtx,
            vm,
            advh,
            tsb,
            font,
            glyf_pos,
            loca_pos,
            fmt,
        )
}

pub proof fn lemma_program_keep(n: tt_glyph_desc, font: Seq<u8>, glyf_pos: int, loca_pos: int, fmt: int, g1: tt_glyphs, g2: tt_glyphs)
    requires
        program_ok(n, font, glyf_pos, loca_pos, fmt, g1),
        keeps_pairs(g1, g2),
    ensures
        program_ok(n, font, glyf_pos, loca_pos, fmt, g2),
{
    let raw = glyph_data(font, glyf_pos, loca_pos, fmt, n.ogid as int);
    if is_composite(raw) {
        let recs = components(raw, 10)->Some_0;
        lemma_renumbered_keep(raw, n.data@, recs, g1, g2);
    }
}

pub proof fn lemma_keeps_trans(g1: tt_glyphs, g2: tt_glyphs, g3: tt_glyphs)
    requires
        keeps_pairs(g1, g2),
        keeps_pairs(g2, g3),
    ensures
        keeps_pairs(g1, g3),
{
    assert forall|j: int| 0 <= j < g1.gd@.len() implies #[trigger] has_pair(g3, g1.gd@[j].gid, g1.gd@[j].ogid) by {
        assert(has_pair(g2, g1.gd@[j].gid, g1.gd@[j].ogid));
        let k2 = choose|k: int| 0 <= k < g2.gd@.len() && g2.gd@[k].gid == g1.gd@[j].gid && g2.gd@[k].ogid == g1.gd@[j].ogid;
        assert(has_pair(g3, g2.gd@[k2].gid, g2.gd@[k2].ogid));
        let k3 = choose|k: int| 0 <= k < g3.gd@.len() && g3.gd@[k].gid == g2.gd@[k2].gid && g3.gd@[k].ogid == g2.gd@[k2].ogid;
    }
}

/// Two orderings of the same glyphs keep each other's ids.
pub proof fn lemma_perm_keeps(g1: tt_glyphs, g2: tt_glyphs)
    requires
        g1.gd@.to_multiset() == g2.gd@.to_multiset(),
    ensures
        keeps_pairs(g1, g2),
        keeps_pairs(g2, g1),
        forall|i: int| 0 <= i < g2.gd@.len() ==> g1.gd@.contains(#[trigger] g2.gd@[i]),
{
    broadcast use vstd::seq_lib::group_to_multiset_ensures;

    assert forall|j: int| 0 <= j < g1.gd@.len() implies #[trigger] has_pair(g2, g1.gd@[j].gid, g1.gd@[j].ogid) by {
        let x = g1.gd@[j];
        assert(g1.gd@.contains(x));
        assert(g1.gd@.to_multiset().count(x) > 0);
        assert(g2.gd@.contains(x));
        let k = choose|k: int| 0 <= k < g2.gd@.len() && g2.gd@[k] == x;
    }
    assert forall|j: int| 0 <= j < g2.gd@.len() implies #[trigger] has_pair(g1, g2.gd@[j].gid, g2.gd@[j].ogid) by {
        let x = g2.gd@[j];
        assert(g2.gd@.contains(x));
        assert(g2.gd@.to_multiset().count(x) > 0);
        assert(g1.gd@.contains(x));
        let k = choose|k: int| 0 <= k < g1.gd@.len() && g1.gd@[k] == x;
    }
    assert forall|i: int| 0 <= i < g2.gd@.len() implies g1.gd@.contains(#[trigger] g2.gd@[i]) by {
        let x = g2.gd@[i];
        assert(g2.gd@.contains(x));
        assert(g2.gd@.to_multiset().count(x) > 0);
    }
}

/// The size of the `glyf` table, where it fits in 32 bits.
fn glyf_size_fits(g: &tt_glyphs) -> (r: bool)
    requires
        forall|i: int| 0 <= i < g.gd@.len() ==> #[trigger] g.gd@[i].data@.len() == g.gd@[i].length,
    ensures
        r == (glyf_of(g.gd@).len() < 0x1_0000_0000),
{
    let ghost s = g.gd@;
    let n = g.gd.len();
    let mut total: u64 = 0;
    let mut i: usize = 0;
    proof {
        assert(s.take(0) =~= Seq::<tt_glyph_desc>::empty());
    }
    while i < n
        invariant
            n == s.len(),
            s == g.gd@,
            i <= n,
            total == glyf_of(s.take(i as int)).len(),
            total < 0x1_0000_0000,
            forall|k: int| 0 <= k < s.len() ==> #[trigger] s[k].data@.len() == s[k].length,
        decreases n - i,
    {
        proof {
            lemma_glyf_of_take(s, i as int);
        }
        let l = g.gd[i].length as u64;
        let pad: u64 = if l % 4 != 0 { 4 - l % 4 } else { 0 };
        total = total + l + pad;
        i = i + 1;
        if total >= 0x1_0000_0000 {
            proof {
                lemma_glyf_of_mono(s, i as int);
            }
            return false;
        }
    }
    proof {
        assert(s.take(n as int) =~= s);
    }
    true
}

/// `tt_build_tables`: builds the `hmtx`, `loca` and `glyf` tables of the
/// subset font. Reads the program of each kept glyph from the font file
/// `font` (bytes past its end read as 0), whose `loca` and `glyf` tables
/// start at `loca_pos` and `glyf_pos`, with its metrics from the tables as
/// read (`head`, `hhea`, `maxp`, `hmtx`, `vmtx` where the font has one,
/// and the typographic ascender and descender of `OS/2` where it has one);
/// the components of composite glyphs are kept too, under the lowest free
/// new ids (`took_lowest`), and their references renumbered. Only
/// components are added (`added_are_components`), each once: one already
/// kept under a new id other than 0 is referred to, not added again
/// (`added_once`); this holds whether or not the build succeeds. Chooses the
/// default width, sorts the glyphs by new id, and builds the tables
/// (`tables_of`); the subset has `last_gid + 1` glyphs, the count that the
/// tables carry for `maxp`.
#[verifier::rlimit(60)]
pub fn tt_build_tables(
    g: &mut tt_glyphs,
    font: &Vec<u8>,
    head: &tt_head_table,
    hhea: &tt_hhea_table,
    maxp: &tt_maxp_table,
    hmtx: &Vec<tt_longMetrics>,
    vmtx: Option<&Vec<tt_longMetrics>>,
    os2: Option<(i16, i16)>,
    loca_pos: u32,
    glyf_pos: u32,
) -> (r: Result<GlyphTables, BuildError>)
    requires
        old(g).wf(),
        has_last(*old(g)),
        has_notdef(*old(g)),
        hmtx@.len() == maxp.numGlyphs,
        vmtx matches Some(v) ==> v@.len() == maxp.numGlyphs,
    ensures
        (r == Err::<GlyphTables, BuildError>(BuildError::UnknownMetricDataFormat)) == (hhea.metricDataFormat != 0),
        (r == Err::<GlyphTables, BuildError>(BuildError::UnknownIndexToLocFormat)) == (hhea.metricDataFormat == 0
            && head.indexToLocFormat != 0 && head.indexToLocFormat != 1),
        r matches Err(e) ==> e == BuildError::UnknownMetricDataFormat || e == BuildError::UnknownIndexToLocFormat
            || e == BuildError::NoEmptySlot || e == BuildError::TableTooLarge || exists|k: int|
            0 <= k < final(g).gd@.len() && source_glyph_error(
                #[trigger] final(g).gd@[k].ogid,
                maxp.numGlyphs as int,
                font@,
                glyf_pos as int,
                loca_pos as int,
                head.indexToLocFormat as int,
            ) == Some(e),
        r == Err::<GlyphTables, BuildError>(BuildError::NoEmptySlot) ==> no_room(*final(g)),
        took_lowest(*old(g), *final(g)),
        added_once(*old(g), *final(g)),
        added_are_components(*old(g), *final(g), font@, glyf_pos as int, loca_pos as int, head.indexToLocFormat as int),
        r == Err::<GlyphTables, BuildError>(BuildError::TableTooLarge) ==> glyf_of(final(g).gd@).len() >= 0x1_0000_0000
            || exists|k: int| 0 <= k < final(g).gd@.len() && too_long(font@, loca_pos as int, head.indexToLocFormat as int, #[trigger] final(g).gd@[k].ogid as int),
        r matches Ok(t) ==> {
            let vm = match vmtx { Some(v) => Some(v@), None => None::<Seq<tt_longMetrics>> };
            let advh = match os2 { Some((a, d)) => (a - d) as u16, None => old(g).default_advh };
            let tsb = match os2 { Some((a, d)) => (((a - d) as u16) - a) as i16, None => old(g).default_tsb };
            let fmt = head.indexToLocFormat as int;
            &&& final(g).wf()
            &&& final(g).emsize == head.unitsPerEm
            &&& final(g).default_advh == advh
            &&& final(g).default_tsb == tsb
            &&& sorted_by_gid(final(g).gd@)
            &&& t.num_glyphs == (final(g).last_gid + 1) % 65536
            &&& keeps_pairs(*old(g), *final(g))
            &&& tables_from_built(t, *old(g), *final(g), head.unitsPerEm as int, font@, hmtx@, vm, advh, tsb, maxp.numGlyphs as int, glyf_pos as int, loca_pos as int, fmt)
        },
{
    let ghost g0 = *g;
    let ghost vm = match vmtx { Some(v) => Some(v@), None => None::<Seq<tt_longMetrics>> };
    if hhea.metricDataFormat != 0 {
        return Err(BuildError::UnknownMetricDataFormat);
    }
    g.emsize = head.unitsPerEm;
    match os2 {
        Some((a, d)) => {
            let advh: u16 = #[verifier::truncate] ((a as i32 - d as i32) as u16);
            g.default_advh = advh;
            g.default_tsb = #[verifier::truncate] ((advh as i32 - a as i32) as i16);
        },
        None => {},
    }
    let fmt = head.indexToLocFormat;
    proof {
        lemma_nothing_added(g0, font@, glyf_pos as int, loca_pos as int, fmt as int);
        lemma_added_relabel(g0, g0, *g, font@, glyf_pos as int, loca_pos as int, fmt as int);
    }
    if fmt != 0 && fmt != 1 {
        return Err(BuildError::UnknownIndexToLocFormat);
    }
    let advh = g.default_advh;
    let tsb = g.default_tsb;
    let ghost gs = *g;
    let mut i: usize = 0;
    proof {
        assert(g.gd@ == g0.gd@);
        lemma_lowest_start(g0);
        lemma_lowest_same_gids(g0, g0, *g);
        assert forall|k: int| 0 <= k < g.gd@.len() implies start_ok(#[trigger] g.gd@[k], g0) by {
            assert(g0.gd@[k] == g.gd@[k]);
        }
        assert forall|j: int| 0 <= j < g0.gd@.len() implies #[trigger] has_pair(*g, g0.gd@[j].gid, g0.gd@[j].ogid) by {
            assert(g.gd@[j] == g0.gd@[j]);
        }
    }
    while i < g.gd.len()
        invariant
            g.wf(),
            has_last(*g),
            g0 == *old(g),
            same_settings(gs, *g),
            gs.emsize == head.unitsPerEm,
            gs.default_advh == advh,
            gs.default_tsb == tsb,
            hhea.metricDataFormat == 0,
            fmt == head.indexToLocFormat,
            fmt == 0 || fmt == 1,
            hmtx@.len() == maxp.numGlyphs,
            vmtx matches Some(v) ==> v@.len() == maxp.numGlyphs,
            vm == match vmtx { Some(v) => Some(v@), None => None::<Seq<tt_longMetrics>> },
            i <= g.gd@.len(),
            keeps_pairs(g0, *g),
            took_lowest(g0, *g),
            slots_from(g0, *g),
            forall|k: int| i <= k < g.gd@.len() ==> start_ok(#[trigger] g.gd@[k], g0),
            forall|k: int| 0 <= k < i ==> built_ok(#[trigger] g.gd@[k], g0, *g, font@, hmtx@, vm, advh, tsb, maxp.numGlyphs as int, glyf_pos as int, loca_pos as int, fmt as int),
            slots_kept(g0, *g),
            added_once(g0, *g),
            added_are_components(g0, *g, font@, glyf_pos as int, loca_pos as int, fmt as int),
        decreases NUM_SLOTS - i,
    {
        let ghost g1 = *g;
        let b = build_glyph(g, i, font, hmtx, vmtx, advh, tsb, maxp.numGlyphs, loca_pos, glyf_pos, fmt);
        proof {
            lemma_lowest_trans(g0, g1, *g);
            lemma_added_trans(g0, g1, *g, font@, glyf_pos as int, loca_pos as int, fmt as int);
        }
        match b {
            Err(e) => {
                proof {
                    let raw = glyph_data(font@, glyf_pos as int, loca_pos as int, fmt as int, g1.gd@[i as int].ogid as int);
                    lemma_walk_error_kind(raw, 10, maxp.numGlyphs as int, g1.gd@[i as int].ogid);
                    assert(g.gd@[i as int].ogid == g1.gd@[i as int].ogid);
                }
                return Err(e);
            },
            Ok(()) => {},
        }
        proof {
            lemma_built_step(g0, g1, *g, i as int, font@, hmtx@, vm, advh, tsb, maxp.numGlyphs as int, glyf_pos as int, loca_pos as int, fmt as int);
        }
        i = i + 1;
    }
    finish_tables(g, Ghost(g0), font, hmtx, Ghost(vm), advh, tsb, maxp.numGlyphs, loca_pos, glyf_pos, fmt)
}

/// Sorts the built glyphs, chooses the default width, and builds the
/// tables.
#[verifier::rlimit(60)]
fn finish_tables(
    g: &mut tt_glyphs,
    Ghost(g0): Ghost<tt_glyphs>,
    font: &Vec<u8>,
    hmtx: &Vec<tt_longMetrics>,
    Ghost(vm): Ghost<Option<Seq<tt_longMetrics>>>,
    advh: u16,
    tsb: i16,
    num_glyphs: u16,
    loca_pos: u32,
    glyf_pos: u32,
    fmt: i16,
) -> (r: Result<GlyphTables, BuildError>)
    requires
        old(g).wf(),
        has_last(*old(g)),
        has_notdef(g0),
        keeps_pairs(g0, *old(g)),
        took_lowest(g0, *old(g)),
        forall|k: int| 0 <= k < old(g).gd@.len() ==> built_ok(#[trigger] old(g).gd@[k], g0, *old(g), font@, hmtx@, vm, advh, tsb, num_glyphs as int, glyf_pos as int, loca_pos as int, fmt as int),
        added_once(g0, *old(g)),
        added_are_components(g0, *old(g), font@, glyf_pos as int, loca_pos as int, fmt as int),
    ensures
        added_once(g0, *final(g)),
        added_are_components(g0, *final(g), font@, glyf_pos as int, loca_pos as int, fmt as int),
        r matches Err(e) ==> e == BuildError::TableTooLarge,
        r is Err ==> glyf_of(final(g).gd@).len() >= 0x1_0000_0000,
        took_lowest(g0, *final(g)),
        r is Ok ==> final(g).wf(),
        r is Ok ==> final(g).emsize == old(g).emsize,
        r is Ok ==> final(g).default_advh == old(g).default_advh,
        r is Ok ==> final(g).default_tsb == old(g).default_tsb,
        r is Ok ==> sorted_by_gid(final(g).gd@),
        r is Ok ==> keeps_pairs(g0, *final(g)),
        r is Ok ==> r->Ok_0.num_glyphs == (final(g).last_gid + 1) % 65536,
        r is Ok ==> tables_from_built(r->Ok_0, g0, *final(g), old(g).emsize as int, font@, hmtx@, vm, advh, tsb, num_glyphs as int, glyf_pos as int, loca_pos as int, fmt as int),
{
    let ghost g2 = *g;
    sort_glyphs_by_gid(g);
    let ghost g3 = *g;
    tt_set_default_width(g);
    proof {
        lemma_perm_keeps(g2, g3);
        lemma_lowest_perm(g0, g2, g3);
        lemma_lowest_same_gids(g0, g3, *g);
        lemma_keeps_trans(g0, g2, g3);
        lemma_sorted_ready(g2, g3, *g, g0, font@, hmtx@, vm, advh, tsb, num_glyphs as int, glyf_pos as int, loca_pos as int, fmt as int);
        lemma_added_perm(g0, g2, g3, font@, glyf_pos as int, loca_pos as int, fmt as int);
        lemma_added_relabel(g0, g3, *g, font@, glyf_pos as int, loca_pos as int, fmt as int);
    }
    if !glyf_size_fits(g) {
        return Err(BuildError::TableTooLarge);
    }
    let ghost g4 = *g;
    let t = tt_build_glyph_tables(g);
    proof {
        assert forall|m: int| 0 <= m < g4.gd@.len() implies #[trigger] g.gd@[m].gid == g4.gd@[m].gid by {
            assert(released(g4.gd@[m], g.gd@[m]));
        }
        lemma_lowest_same_gids(g0, g4, *g);
        lemma_released_keeps(g4, *g, g0, font@, hmtx@, vm, advh, tsb, num_glyphs as int, glyf_pos as int, loca_pos as int, fmt as int);
        lemma_keeps_trans(g0, g4, *g);
        lemma_added_relabel(g0, g4, *g, font@, glyf_pos as int, loca_pos as int, fmt as int);
        assert(tables_of(g4.gd@, t)) by {
            reveal(tables_of);
        }
    }
    Ok(t)
}

/// Building the glyph at `i` keeps the glyphs built before it built (with
/// their programs renumbered to the grown table), builds it, and leaves the
/// rest as they were.
proof fn lemma_built_step(
    g0: tt_glyphs,
    g1: tt_glyphs,
    g2: tt_glyphs,
    i: int,
    font: Seq<u8>,
    hmtx: Seq<tt_longMetrics>,
    vm: Option<Seq<tt_longMetrics>>,
    advh: u16,
    tsb: i16,
    num_glyphs: int,
    glyf_pos: int,
    loca_pos: int,
    fmt: int,
)
    requires
        0 <= i < g1.gd@.len(),
        keeps_pairs(g0, g1),
        forall|k: int| i <= k < g1.gd@.len() ==> start_ok(#[trigger] g1.gd@[k], g0),
        forall|k: int| 0 <= k < i ==> built_ok(#[trigger] g1.gd@[k], g0, g1, font, hmtx, vm, advh, tsb, num_glyphs, glyf_pos, loca_pos, fmt),
        g2.gd@.len() >= g1.gd@.len(),
        source_glyph_error(g1.gd@[i].ogid, num_glyphs, font, glyf_pos, loca_pos, fmt) is None,
        forall|k: int| 0 <= k < g1.gd@.len() && k != i ==> #[trigger] g2.gd@[k] == g1.gd@[k],
        forall|k: int| g1.gd@.len() <= k < g2.gd@.len() ==> fresh_desc(#[trigger] g2.gd@[k], g2.gd@[k].ogid, g2.gd@[k].gid),
        metrics_fields(g1.gd@[i], g2.gd@[i], hmtx, vm, advh, tsb, font, glyf_pos, loca_pos, fmt),
        program_ok(g2.gd@[i], font, glyf_pos, loca_pos, fmt, g2),
        keeps_pairs(g1, g2),
    ensures
        keeps_pairs(g0, g2),
        forall|k: int| i + 1 <= k < g2.gd@.len() ==> start_ok(#[trigger] g2.gd@[k], g0),
        forall|k: int| 0 <= k < i + 1 ==> built_ok(#[trigger] g2.gd@[k], g0, g2, font, hmtx, vm, advh, tsb, num_glyphs, glyf_pos, loca_pos, fmt),
{
    reveal(built_ok);
    lemma_keeps_trans(g0, g1, g2);
    assert forall|k: int| i + 1 <= k < g2.gd@.len() implies start_ok(#[trigger] g2.gd@[k], g0) by {
        if k < g1.gd@.len() {
            assert(g2.gd@[k] == g1.gd@[k]);
        }
    }
    assert forall|k: int| 0 <= k < i + 1 implies built_ok(#[trigger] g2.gd@[k], g0, g2, font, hmtx, vm, advh, tsb, num_glyphs, glyf_pos, loca_pos, fmt) by {
        if k < i {
            assert(g2.gd@[k] == g1.gd@[k]);
            assert(built_ok(g1.gd@[k], g0, g1, font, hmtx, vm, advh, tsb, num_glyphs, glyf_pos, loca_pos, fmt));
            lemma_program_keep(g1.gd@[k], font, glyf_pos, loca_pos, fmt, g1, g2);
        } else {
            let o = g1.gd@[i];
            assert(start_ok(o, g0));
            assert(metrics_fields(o, g2.gd@[i], hmtx, vm, advh, tsb, font, glyf_pos, loca_pos, fmt));
        }
    }
}

/// After sorting, the glyphs are ready for the tables but for their size,
/// and all are built.
#[verifier::rlimit(60)]
proof fn lemma_sorted_ready(
    g2: tt_glyphs,
    g3: tt_glyphs,
    g4: tt_glyphs,
    g0: tt_glyphs,
    font: Seq<u8>,
    hmtx: Seq<tt_longMetrics>,
    vm: Option<Seq<tt_longMetrics>>,
    advh: u16,
    tsb: i16,
    num_glyphs: int,
    glyf_pos: int,
    loca_pos: int,
    fmt: int,
)
    requires
        g2.wf(),
        has_last(g2),
        has_notdef(g0),
        keeps_pairs(g0, g2),
        forall|k: int| 0 <= k < g2.gd@.len() ==> built_ok(#[trigger] g2.gd@[k], g0, g2, font, hmtx, vm, advh, tsb, num_glyphs, glyf_pos, loca_pos, fmt),
        g3.wf(),
        sorted_by_gid(g3.gd@),
        g3.gd@.to_multiset() == g2.gd@.to_multiset(),
        g3.num_glyphs == g2.num_glyphs,
        g3.last_gid == g2.last_gid,
        g4.gd@ == g3.gd@,
        g4.num_glyphs == g3.num_glyphs,
        g4.last_gid == g3.last_gid,
        g4.used_slot@ == g3.used_slot@,
    ensures
        g4.wf(),
        keeps_pairs(g2, g4),
        keeps_pairs(g0, g4),
        forall|i: int| 0 <= i < g4.gd@.len() ==> #[trigger] g4.gd@[i].data@.len() == g4.gd@[i].length,
        forall|i: int| 0 <= i < g4.gd@.len() ==> built_ok(#[trigger] g4.gd@[i], g0, g4, font, hmtx, vm, advh, tsb, num_glyphs, glyf_pos, loca_pos, fmt),
        g4.gd@.len() >= 1,
        g4.gd@[0].gid == 0,
        g4.last_gid == g4.gd@.last().gid,
{
    reveal(built_ok);
    lemma_perm_keeps(g2, g3);
    assert(g4.gids() =~= g3.gids());
    assert(keeps_pairs(g2, g4)) by {
        assert forall|j: int| 0 <= j < g2.gd@.len() implies #[trigger] has_pair(g4, g2.gd@[j].gid, g2.gd@[j].ogid) by {
            assert(has_pair(g3, g2.gd@[j].gid, g2.gd@[j].ogid));
            let k = choose|k: int| 0 <= k < g3.gd@.len() && g3.gd@[k].gid == g2.gd@[j].gid && g3.gd@[k].ogid == g2.gd@[j].ogid;
            assert(g4.gd@[k] == g3.gd@[k]);
        }
    }
    lemma_keeps_trans(g0, g2, g4);
    assert forall|i: int| 0 <= i < g4.gd@.len() implies built_ok(#[trigger] g4.gd@[i], g0, g4, font, hmtx, vm, advh, tsb, num_glyphs, glyf_pos, loca_pos, fmt) && g4.gd@[i].data@.len() == g4.gd@[i].length by {
        let x = g4.gd@[i];
        assert(g3.gd@[i] == x);
        assert(g2.gd@.contains(x));
        let k = choose|k: int| 0 <= k < g2.gd@.len() && g2.gd@[k] == x;
        assert(built_ok(g2.gd@[k], g0, g2, font, hmtx, vm, advh, tsb, num_glyphs, glyf_pos, loca_pos, fmt));
        lemma_program_keep(x, font, glyf_pos, loca_pos, fmt, g2, g4);
    }
    let jn = choose|j: int| 0 <= j < g0.gd@.len() && #[trigger] g0.gd@[j].gid == 0;
    assert(has_pair(g2, g0.gd@[jn].gid, g0.gd@[jn].ogid));
    let k2 = choose|k: int| 0 <= k < g2.gd@.len() && g2.gd@[k].gid == g0.gd@[jn].gid && g2.gd@[k].ogid == g0.gd@[jn].ogid;
    assert(has_pair(g4, g2.gd@[k2].gid, g2.gd@[k2].ogid));
    let k4 = choose|k: int| 0 <= k < g4.gd@.len() && g4.gd@[k].gid == g2.gd@[k2].gid && g4.gd@[k].ogid == g2.gd@[k2].ogid;
    if k4 > 0 {
        assert(g4.gd@[0].gid < g4.gd@[k4].gid);
    }
    let jl = choose|j: int| 0 <= j < g2.gd@.len() && #[trigger] g2.gd@[j].gid == g2.last_gid;
    assert(has_pair(g4, g2.gd@[jl].gid, g2.gd@[jl].ogid));
    let kl = choose|k: int| 0 <= k < g4.gd@.len() && g4.gd@[k].gid == g2.gd@[jl].gid && g4.gd@[k].ogid == g2.gd@[jl].ogid;
    let last = g4.gd@.len() - 1;
    if kl < last {
        assert(g4.gd@[kl].gid < g4.gd@[last].gid);
    }
    assert(g4.gd@[last].gid <= g4.last_gid);
}

/// Releasing the programs keeps the ids, so the glyphs stay built with
/// their programs renumbered.
proof fn lemma_released_keeps(
    g4: tt_glyphs,
    g5: tt_glyphs,
    g0: tt_glyphs,
    font: Seq<u8>,
    hmtx: Seq<tt_longMetrics>,
    vm: Option<Seq<tt_longMetrics>>,
    advh: u16,
    tsb: i16,
    num_glyphs: int,
    glyf_pos: int,
    loca_pos: int,
    fmt: int,
)
    requires
        g4.wf(),
        sorted_by_gid(g4.gd@),
        forall|i: int| 0 <= i < g4.gd@.len() ==> built_ok(#[trigger] g4.gd@[i], g0, g4, font, hmtx, vm, advh, tsb, num_glyphs, glyf_pos, loca_pos, fmt),
        g5.gd@.len() == g4.gd@.len(),
        forall|i: int| 0 <= i < g4.gd@.len() ==> released(g4.gd@[i], #[trigger] g5.gd@[i]),
        g5.num_glyphs == g4.num_glyphs,
        g5.last_gid == g4.last_gid,
        g5.used_slot@ == g4.used_slot@,
    ensures
        g5.wf(),
        sorted_by_gid(g5.gd@),
        keeps_pairs(g4, g5),
        forall|i: int| 0 <= i < g4.gd@.len() ==> built_ok(#[trigger] g4.gd@[i], g0, g5, font, hmtx, vm, advh, tsb, num_glyphs, glyf_pos, loca_pos, fmt),
{
    reveal(built_ok);
    assert(g5.gids() =~= g4.gids()) by {
        assert forall|i: int| 0 <= i < g4.gd@.len() implies g5.gids()[i] == g4.gids()[i] by {
            assert(released(g4.gd@[i], g5.gd@[i]));
        }
    }
    assert forall|i: int, j: int| 0 <= i < j < g5.gd@.len() implies #[trigger] g5.gd@[i].gid < #[trigger] g5.gd@[j].gid by {
        assert(released(g4.gd@[i], g5.gd@[i]));
        assert(released(g4.gd@[j], g5.gd@[j]));
    }
    assert forall|j: int| 0 <= j < g4.gd@.len() implies #[trigger] has_pair(g5, g4.gd@[j].gid, g4.gd@[j].ogid) by {
        assert(released(g4.gd@[j], g5.gd@[j]));
    }
    assert forall|i: int| 0 <= i < g4.gd@.len() implies built_ok(#[trigger] g4.gd@[i], g0, g5, font, hmtx, vm, advh, tsb, num_glyphs, glyf_pos, loca_pos, fmt) by {
        lemma_program_keep(g4.gd@[i], font, glyf_pos, loca_pos, fmt, g4, g5);
    }
}

} // verus!
