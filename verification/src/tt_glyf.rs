//! Glyph bookkeeping for TrueType subsetting: which glyphs of the source
//! font are kept, under which new glyph ids, and their metrics.
use vstd::prelude::*;

verus! {

/// Number of glyph slots: glyph ids 0 to 65533 can be assigned.
pub const NUM_SLOTS: u16 = 65534;

/// Size in bytes of the used-slot bitmap (one bit per glyph id).
pub const USED_SLOT_BYTES: usize = 8192;

/// One kept glyph.
pub struct tt_glyph_desc {
    /// New glyph id.
    pub gid: u16,
    /// Glyph id in the source font.
    pub ogid: u16,
    pub advw: u16,
    pub advh: u16,
    pub lsb: i16,
    pub tsb: i16,
    pub llx: i16,
    pub lly: i16,
    pub urx: i16,
    pub ury: i16,
    pub length: u32,
    pub data: Vec<u8>,
}

/// The set of kept glyphs.
pub struct tt_glyphs {
    pub num_glyphs: u16,
    pub max_glyphs: u16,
    pub last_gid: u16,
    pub emsize: u16,
    /// Optimal default width.
    pub dw: u16,
    pub default_advh: u16,
    pub default_tsb: i16,
    pub gd: Vec<tt_glyph_desc>,
    /// Bitmap of assigned new glyph ids; bit `7 - gid % 8` of byte `gid / 8`.
    pub used_slot: Vec<u8>,
}

/// Whether bit `7 - k` of `byte` is set.
pub open spec fn bit_of(byte: u8, k: u8) -> bool {
    byte & (1u8 << (7 - k) as u8) != 0
}

proof fn lemma_set_bit(b: u8, k: u8, j: u8)
    requires
        k < 8,
        j < 8,
    ensures
        bit_of(b | (1u8 << (7 - k) as u8), j) == (j == k || bit_of(b, j)),
{
    assert(k < 8 && j < 8 ==> ((b | (1u8 << (7 - k) as u8)) & (1u8 << (7 - j) as u8) != 0) == (
    j == k || b & (1u8 << (7 - j) as u8) != 0)) by (bit_vector);
}

impl tt_glyphs {
    /// Whether new glyph id `gid` is taken.
    pub open spec fn slot_used(&self, gid: int) -> bool {
        bit_of(self.used_slot@[gid / 8], (gid % 8) as u8)
    }

    /// The new glyph ids of the kept glyphs, in order.
    pub open spec fn gids(&self) -> Seq<u16> {
        self.gd@.map_values(|d: tt_glyph_desc| d.gid)
    }

    /// The source glyph ids of the kept glyphs, in order.
    pub open spec fn ogids(&self) -> Seq<u16> {
        self.gd@.map_values(|d: tt_glyph_desc| d.ogid)
    }

    /// The table is consistent: the bitmap covers all slots, `num_glyphs`
    /// counts the entries, the new ids are distinct and marked as used, and
    /// `last_gid` bounds them.
    pub open spec fn wf(&self) -> bool {
        &&& self.used_slot@.len() == USED_SLOT_BYTES
        &&& self.gd@.len() == self.num_glyphs
        &&& self.num_glyphs < NUM_SLOTS
        &&& forall|i: int| 0 <= i < self.gd@.len() ==> self.slot_used(#[trigger] self.gd@[i].gid as int)
        &&& forall|i: int, j: int|
            0 <= i < j < self.gd@.len() ==> #[trigger] self.gd@[i].gid != #[trigger] self.gd@[j].gid
        &&& forall|i: int| 0 <= i < self.gd@.len() ==> #[trigger] self.gd@[i].gid <= self.last_gid
    }
}

/// The position of the first entry of `s` equal to `x`, if any.
pub open spec fn first_index_of(s: Seq<u16>, x: u16) -> Option<int>
    decreases s.len(),
{
    if s.len() == 0 {
        None
    } else {
        match first_index_of(s.drop_last(), x) {
            Some(i) => Some(i),
            None => if s.last() == x {
                Some(s.len() - 1)
            } else {
                None
            },
        }
    }
}

/// `first_index_of` finds the first occurrence, and only where there is one.
pub proof fn lemma_first_index_of_char(s: Seq<u16>, x: u16)
    ensures
        match first_index_of(s, x) {
            Some(i) => 0 <= i < s.len() && s[i] == x && forall|k: int| 0 <= k < i ==> s[k] != x,
            None => forall|k: int| 0 <= k < s.len() ==> s[k] != x,
        },
    decreases s.len(),
{
    if s.len() > 0 {
        let t = s.drop_last();
        lemma_first_index_of_char(t, x);
        assert forall|k: int| 0 <= k < t.len() implies t[k] == s[k] by {}
    }
}

proof fn lemma_first_index_of(s: Seq<u16>, x: u16, i: int)
    requires
        0 <= i < s.len(),
        s[i] == x,
        forall|k: int| 0 <= k < i ==> s[k] != x,
    ensures
        first_index_of(s, x) == Some(i),
{
    lemma_first_index_of_char(s, x);
    match first_index_of(s, x) {
        Some(j) => {
            if j < i {
                assert(s[j] != x);
            }
            if i < j {
                assert(s[i] != x);
            }
        },
        None => {
            assert(s[i] != x);
        },
    }
}

proof fn lemma_first_index_of_none(s: Seq<u16>, x: u16)
    requires
        forall|k: int| 0 <= k < s.len() ==> s[k] != x,
    ensures
        first_index_of(s, x) == None::<int>,
{
    lemma_first_index_of_char(s, x);
    match first_index_of(s, x) {
        Some(j) => {
            assert(s[j] != x);
        },
        None => {},
    }
}

proof fn lemma_first_index_of_push(s: Seq<u16>, y: u16, x: u16)
    ensures
        x != y ==> first_index_of(s.push(y), x) == first_index_of(s, x),
        x == y && !s.contains(x) ==> first_index_of(s.push(y), x) == Some(s.len() as int),
{
    assert(s.push(y).drop_last() =~= s);
    if x == y && !s.contains(x) {
        lemma_first_index_of_none(s, x);
    }
}

/// What `tt_find_glyph` returns: the new id of the first kept glyph whose
/// source id is `gid`, or 0.
pub open spec fn find_glyph_spec(g: &tt_glyphs, gid: u16) -> u16 {
    match first_index_of(g.ogids(), gid) {
        Some(i) => g.gd@[i].gid,
        None => 0,
    }
}

/// What `tt_get_index` returns: the position of the kept glyph whose new id
/// is `gid`, or 0.
pub open spec fn get_index_spec(g: &tt_glyphs, gid: u16) -> u16 {
    match first_index_of(g.gids(), gid) {
        Some(i) => i as u16,
        None => 0,
    }
}

pub(crate) fn slot_is_used(used_slot: &Vec<u8>, gid: u16) -> (r: bool)
    requires
        used_slot@.len() == USED_SLOT_BYTES,
    ensures
        r == bit_of(used_slot@[gid as int / 8], (gid % 8) as u8),
{
    let k: u8 = (gid % 8) as u8;
    used_slot[(gid / 8) as usize] & (1u8 << (7 - k)) != 0
}

/// The lowest free new glyph id.
pub fn find_empty_slot(g: &tt_glyphs) -> (r: u16)
    requires
        g.wf(),
        exists|k: int| 0 <= k < NUM_SLOTS && !g.slot_used(k),
    ensures
        r < NUM_SLOTS,
        !g.slot_used(r as int),
        forall|k: int| 0 <= k < r ==> g.slot_used(k),
{
    let mut gid: u16 = 0;
    while gid < NUM_SLOTS
        invariant
            g.wf(),
            gid <= NUM_SLOTS,
            forall|k: int| 0 <= k < gid ==> g.slot_used(k),
        decreases NUM_SLOTS - gid,
    {
        if !slot_is_used(&g.used_slot, gid) {
            return gid;
        }
        gid = gid + 1;
    }
    proof {
        let k = choose|k: int| 0 <= k < NUM_SLOTS && !g.slot_used(k);
        assert(g.slot_used(k));
    }
    gid
}

/// The new id under which source glyph `gid` is kept, or 0 where it is not
/// kept.
pub fn tt_find_glyph(g: &tt_glyphs, gid: u16) -> (r: u16)
    requires
        g.wf(),
    ensures
        r == find_glyph_spec(g, gid),
{
    let mut idx: u16 = 0;
    while idx < g.num_glyphs
        invariant
            g.wf(),
            idx <= g.num_glyphs,
            forall|k: int| 0 <= k < idx ==> g.ogids()[k] != gid,
        decreases g.num_glyphs - idx,
    {
        if g.gd[idx as usize].ogid == gid {
            proof {
                lemma_first_index_of(g.ogids(), gid, idx as int);
            }
            return g.gd[idx as usize].gid;
        }
        idx = idx + 1;
    }
    proof {
        lemma_first_index_of_none(g.ogids(), gid);
    }
    0
}

/// The position among the kept glyphs of new id `gid`, or 0.
pub fn tt_get_index(g: &tt_glyphs, gid: u16) -> (r: u16)
    requires
        g.wf(),
    ensures
        r == get_index_spec(g, gid),
{
    let mut idx: u16 = 0;
    while idx < g.num_glyphs
        invariant
            g.wf(),
            idx <= g.num_glyphs,
            forall|k: int| 0 <= k < idx ==> g.gids()[k] != gid,
        decreases g.num_glyphs - idx,
    {
        if g.gd[idx as usize].gid == gid {
            proof {
                lemma_first_index_of(g.gids(), gid, idx as int);
            }
            return idx;
        }
        idx = idx + 1;
    }
    proof {
        lemma_first_index_of_none(g.gids(), gid);
    }
    0
}

/// A glyph with ids and nothing else.
pub open spec fn fresh_desc(d: tt_glyph_desc, gid: u16, new_gid: u16) -> bool {
    &&& d.gid == new_gid
    &&& d.ogid == gid
    &&& d.length == 0
    &&& d.data@.len() == 0
    &&& d.advw == 0
    &&& d.advh == 0
    &&& d.lsb == 0
    &&& d.tsb == 0
    &&& d.llx == 0
    &&& d.lly == 0
    &&& d.urx == 0
    &&& d.ury == 0
}

/// Keeps source glyph `gid` under new id `new_gid`. Where `new_gid` is
/// already taken nothing is added. Returns `new_gid`.
pub fn tt_add_glyph(g: &mut tt_glyphs, gid: u16, new_gid: u16) -> (r: u16)
    requires
        old(g).wf(),
        !old(g).slot_used(new_gid as int) ==> old(g).num_glyphs + 1 < NUM_SLOTS,
    ensures
        r == new_gid,
        final(g).wf(),
        final(g).slot_used(new_gid as int),
        final(g).last_gid == if new_gid > old(g).last_gid {
            new_gid
        } else {
            old(g).last_gid
        },
        final(g).emsize == old(g).emsize,
        final(g).dw == old(g).dw,
        final(g).default_advh == old(g).default_advh,
        final(g).default_tsb == old(g).default_tsb,
        old(g).slot_used(new_gid as int) ==> {
            &&& final(g).gd@ == old(g).gd@
            &&& final(g).num_glyphs == old(g).num_glyphs
            &&& final(g).max_glyphs == old(g).max_glyphs
            &&& final(g).used_slot@ == old(g).used_slot@
        },
        !old(g).slot_used(new_gid as int) ==> {
            &&& final(g).num_glyphs == old(g).num_glyphs + 1
            &&& final(g).gd@.len() == old(g).gd@.len() + 1
            &&& final(g).gd@.take(old(g).gd@.len() as int) == old(g).gd@
            &&& fresh_desc(final(g).gd@[old(g).gd@.len() as int], gid, new_gid)
            &&& final(g).max_glyphs == if old(g).num_glyphs >= old(g).max_glyphs {
                ((old(g).max_glyphs + 256) % 65536) as u16
            } else {
                old(g).max_glyphs
            }
            &&& forall|k: int|
                0 <= k < 65536 ==> (#[trigger] final(g).slot_used(k) == (k == new_gid
                    || old(g).slot_used(k)))
            &&& get_index_spec(&*final(g), new_gid) == old(g).num_glyphs
            &&& !old(g).ogids().contains(gid) ==> find_glyph_spec(&*final(g), gid) == new_gid
            &&& forall|x: u16| x != new_gid ==> #[trigger] get_index_spec(&*final(g), x) == get_index_spec(&*old(g), x)
            &&& forall|x: u16| x != gid ==> #[trigger] find_glyph_spec(&*final(g), x) == find_glyph_spec(&*old(g), x)
        },
{
    if new_gid > g.last_gid {
        g.last_gid = new_gid;
    }
    if slot_is_used(&g.used_slot, new_gid) {
        // The slot is already in use: nothing is kept.
    } else {
        if g.num_glyphs >= g.max_glyphs {
            g.max_glyphs = ((g.max_glyphs as u32 + 256) % 65536) as u16;
        }
        g.gd.push(
            tt_glyph_desc {
                gid: new_gid,
                ogid: gid,
                advw: 0,
                advh: 0,
                lsb: 0,
                tsb: 0,
                llx: 0,
                lly: 0,
                urx: 0,
                ury: 0,
                length: 0,
                data: Vec::new(),
            },
        );
        let byte_idx = (new_gid / 8) as usize;
        let k: u8 = (new_gid % 8) as u8;
        let old_byte = g.used_slot[byte_idx];
        let ghost old_slots = g.used_slot@;
        g.used_slot.set(byte_idx, old_byte | (1u8 << (7 - k)));
        g.num_glyphs = g.num_glyphs + 1;
        proof {
            assert(old_slots == old(g).used_slot@);
            assert forall|q: int| 0 <= q < 65536 implies #[trigger] g.slot_used(q) == (q
                == new_gid || old(g).slot_used(q)) by {
                if q / 8 == byte_idx {
                    lemma_set_bit(old_byte, k, (q % 8) as u8);
                    assert(q % 8 == k ==> q == new_gid);
                }
            }
            assert(g.slot_used(new_gid as int));
            assert(g.gd@.take(old(g).gd@.len() as int) =~= old(g).gd@);
            assert forall|i: int| 0 <= i < g.gd@.len() implies g.slot_used(
                #[trigger] g.gd@[i].gid as int,
            ) by {
                if i < old(g).gd@.len() {
                    assert(g.gd@[i] == old(g).gd@[i]);
                    assert(old(g).slot_used(old(g).gd@[i].gid as int));
                    assert(g.slot_used(g.gd@[i].gid as int));
                }
            }
            assert(g.gids() =~= old(g).gids().push(new_gid));
            assert(g.ogids() =~= old(g).ogids().push(gid));
            assert(!old(g).gids().contains(new_gid)) by {
                if old(g).gids().contains(new_gid) {
                    let i = choose|i: int| 0 <= i < old(g).gids().len() && old(g).gids()[i] == new_gid;
                    assert(old(g).slot_used(old(g).gd@[i].gid as int));
                }
            }
            lemma_first_index_of_push(old(g).gids(), new_gid, new_gid);
            lemma_first_index_of_push(old(g).ogids(), gid, gid);
            assert forall|x: u16| x != new_gid implies #[trigger] get_index_spec(&*g, x) == get_index_spec(&*old(g), x) by {
                lemma_first_index_of_push(old(g).gids(), new_gid, x);
            }
            assert forall|x: u16| x != gid implies #[trigger] find_glyph_spec(&*g, x) == find_glyph_spec(&*old(g), x) by {
                lemma_first_index_of_push(old(g).ogids(), gid, x);
                lemma_first_index_of_char(old(g).ogids(), x);
                match first_index_of(old(g).ogids(), x) {
                    Some(i) => {
                        assert(g.gd@[i] == old(g).gd@[i]);
                    },
                    None => {},
                }
            }
            assert forall|i: int, j: int| 0 <= i < j < g.gd@.len() implies #[trigger] g.gd@[i].gid
                != #[trigger] g.gd@[j].gid by {
                if j == old(g).gd@.len() {
                    assert(old(g).slot_used(old(g).gd@[i].gid as int));
                }
            }
        }
    }
    new_gid
}

/// A fresh glyph table holding glyph 0 as new glyph 0.
pub fn tt_build_init() -> (g: tt_glyphs)
    ensures
        g.wf(),
        g.num_glyphs == 1,
        g.max_glyphs == 256,
        g.last_gid == 0,
        g.emsize == 1,
        g.dw == 0,
        g.default_advh == 0,
        g.default_tsb == 0,
        fresh_desc(g.gd@[0], 0, 0),
        forall|k: int| 0 <= k < 65536 ==> (#[trigger] g.slot_used(k) == (k == 0)),
{
    let mut used_slot: Vec<u8> = Vec::new();
    let mut i: usize = 0;
    while i < USED_SLOT_BYTES
        invariant
            i <= USED_SLOT_BYTES,
            used_slot@.len() == i,
            forall|j: int| 0 <= j < i ==> used_slot@[j] == 0,
        decreases USED_SLOT_BYTES - i,
    {
        used_slot.push(0);
        i = i + 1;
    }
    let mut g = tt_glyphs {
        num_glyphs: 0,
        max_glyphs: 0,
        last_gid: 0,
        emsize: 1,
        dw: 0,
        default_advh: 0,
        default_tsb: 0,
        gd: Vec::new(),
        used_slot,
    };
    proof {
        assert forall|k: int| 0 <= k < 65536 implies !g.slot_used(k) by {
            let kk = (k % 8) as u8;
            assert(g.used_slot@[k / 8] == 0);
            assert(kk < 8 ==> 0u8 & (1u8 << (7 - kk) as u8) == 0) by (bit_vector);
        }
    }
    tt_add_glyph(&mut g, 0, 0);
    g
}


/// Orders two glyph descriptions by their new glyph id.
pub fn glyf_cmp(v1: &tt_glyph_desc, v2: &tt_glyph_desc) -> (r: i32)
    ensures
        r == if v1.gid == v2.gid {
            0
        } else if v1.gid < v2.gid {
            -1
        } else {
            1
        },
{
    if v1.gid == v2.gid {
        0
    } else if v1.gid < v2.gid {
        -1
    } else {
        1
    }
}

/// The descriptions are in strictly increasing order of new glyph id.
pub open spec fn sorted_by_gid(s: Seq<tt_glyph_desc>) -> bool {
    forall|i: int, j: int| 0 <= i < j < s.len() ==> #[trigger] s[i].gid < #[trigger] s[j].gid
}

/// Puts the kept glyphs in increasing order of new glyph id.
pub fn sort_glyphs_by_gid(g: &mut tt_glyphs)
    requires
        old(g).wf(),
    ensures
        final(g).wf(),
        sorted_by_gid(final(g).gd@),
        final(g).gd@.to_multiset() == old(g).gd@.to_multiset(),
        final(g).num_glyphs == old(g).num_glyphs,
        final(g).max_glyphs == old(g).max_glyphs,
        final(g).last_gid == old(g).last_gid,
        final(g).emsize == old(g).emsize,
        final(g).dw == old(g).dw,
        final(g).default_advh == old(g).default_advh,
        final(g).default_tsb == old(g).default_tsb,
        final(g).used_slot@ == old(g).used_slot@,
{
    broadcast use vstd::seq_lib::group_to_multiset_ensures;

    let mut rest: Vec<tt_glyph_desc> = Vec::new();
    std::mem::swap(&mut rest, &mut g.gd);
    let mut out: Vec<tt_glyph_desc> = Vec::new();
    let ghost orig = rest@;
    assert(out@.to_multiset() =~= vstd::multiset::Multiset::empty());
    while rest.len() > 0
        invariant
            orig == old(g).gd@,
            old(g).wf(),
            g.used_slot@ == old(g).used_slot@,
            g.last_gid == old(g).last_gid,
            g.num_glyphs == old(g).num_glyphs,
            g.max_glyphs == old(g).max_glyphs,
            g.emsize == old(g).emsize,
            g.dw == old(g).dw,
            g.default_advh == old(g).default_advh,
            g.default_tsb == old(g).default_tsb,
            rest@.to_multiset().add(out@.to_multiset()) == orig.to_multiset(),
            rest@.len() + out@.len() == orig.len(),
            sorted_by_gid(out@),
            forall|i: int, j: int|
                0 <= i < out@.len() && 0 <= j < rest@.len() ==> #[trigger] out@[i].gid
                    < #[trigger] rest@[j].gid,
            forall|i: int, j: int|
                0 <= i < j < rest@.len() ==> #[trigger] rest@[i].gid != #[trigger] rest@[j].gid,
            forall|i: int|
                0 <= i < rest@.len() ==> old(g).slot_used(#[trigger] rest@[i].gid as int)
                    && rest@[i].gid <= old(g).last_gid,
            forall|i: int|
                0 <= i < out@.len() ==> old(g).slot_used(#[trigger] out@[i].gid as int)
                    && out@[i].gid <= old(g).last_gid,
        decreases rest@.len(),
    {
        let mut m: usize = 0;
        let mut k: usize = 1;
        while k < rest.len()
            invariant
                0 <= m < k <= rest@.len(),
                forall|q: int| 0 <= q < k ==> rest@[m as int].gid <= #[trigger] rest@[q].gid,
            decreases rest@.len() - k,
        {
            if rest[k].gid < rest[m].gid {
                m = k;
            }
            k = k + 1;
        }
        let ghost r0 = rest@;
        let ghost o0 = out@;
        let x = rest.remove(m);
        out.push(x);
        proof {
            assert(rest@ == r0.remove(m as int));
            assert(out@ == o0.push(x));
            vstd::seq_lib::to_multiset_remove(r0, m as int);
            vstd::seq_lib::to_multiset_build(o0, x);
            assert(r0.contains(r0[m as int]));
            r0.to_multiset_ensures();
            assert(r0.to_multiset().count(x) > 0);
            assert(rest@.to_multiset().add(out@.to_multiset()) =~= r0.to_multiset().add(o0.to_multiset()));
            assert forall|i: int, j: int| 0 <= i < out@.len() && 0 <= j < rest@.len() implies #[trigger] out@[i].gid
                < #[trigger] rest@[j].gid by {
                let jj = if j < m { j } else { j + 1 };
                assert(rest@[j] == r0[jj]);
                if i < o0.len() {
                    assert(out@[i] == o0[i]);
                } else {
                    assert(out@[i] == r0[m as int]);
                    assert(r0[m as int].gid != r0[jj].gid);
                }
            }
            assert forall|i: int, j: int| 0 <= i < j < rest@.len() implies #[trigger] rest@[i].gid
                != #[trigger] rest@[j].gid by {
                let ii = if i < m { i } else { i + 1 };
                let jj = if j < m { j } else { j + 1 };
                assert(rest@[i] == r0[ii]);
                assert(rest@[j] == r0[jj]);
            }
            assert forall|i: int, j: int| 0 <= i < j < out@.len() implies #[trigger] out@[i].gid
                < #[trigger] out@[j].gid by {
                if j == o0.len() {
                    assert(out@[i] == o0[i]);
                }
            }
            assert forall|i: int| 0 <= i < rest@.len() implies old(g).slot_used(#[trigger] rest@[i].gid as int)
                && rest@[i].gid <= old(g).last_gid by {
                let ii = if i < m { i } else { i + 1 };
                assert(rest@[i] == r0[ii]);
            }
            assert forall|i: int| 0 <= i < out@.len() implies old(g).slot_used(#[trigger] out@[i].gid as int)
                && out@[i].gid <= old(g).last_gid by {
                if i < o0.len() {
                    assert(out@[i] == o0[i]);
                }
            }
        }
    }
    proof {
        assert(rest@.to_multiset() =~= vstd::multiset::Multiset::empty());
        assert(out@.to_multiset() =~= orig.to_multiset());
    }
    g.gd = out;
    proof {
        assert forall|i: int, j: int| 0 <= i < j < g.gd@.len() implies #[trigger] g.gd@[i].gid
            != #[trigger] g.gd@[j].gid by {}
    }
}

/// How many of the kept glyphs have advance width `w`.
pub open spec fn width_count(s: Seq<tt_glyph_desc>, w: int) -> nat
    decreases s.len(),
{
    if s.len() == 0 {
        0
    } else {
        width_count(s.drop_last(), w) + if s.last().advw == w {
            1nat
        } else {
            0nat
        }
    }
}

/// The default width is the most frequent advance width not above the em
/// size; among equally frequent widths the smallest wins.
pub open spec fn is_default_width(s: Seq<tt_glyph_desc>, emsize: int, dw: int) -> bool {
    &&& 0 <= dw <= emsize
    &&& forall|w: int| 0 <= w <= emsize ==> width_count(s, w) <= width_count(s, dw)
    &&& forall|w: int| 0 <= w < dw ==> width_count(s, w) < width_count(s, dw)
}

proof fn lemma_width_count_push(s: Seq<tt_glyph_desc>, d: tt_glyph_desc, w: int)
    ensures
        width_count(s.push(d), w) == width_count(s, w) + if d.advw == w {
            1nat
        } else {
            0nat
        },
{
    assert(s.push(d).drop_last() =~= s);
}

proof fn lemma_width_count_bound(s: Seq<tt_glyph_desc>, w: int)
    ensures
        width_count(s, w) <= s.len(),
    decreases s.len(),
{
    if s.len() > 0 {
        lemma_width_count_bound(s.drop_last(), w);
    }
}

/// Chooses the default width `dw` from the advance widths of the kept glyphs
/// (the width statistics of `tt_build_tables` and `tt_get_metrics`).
pub fn tt_set_default_width(g: &mut tt_glyphs)
    requires
        old(g).num_glyphs >= 1,
        old(g).gd@.len() == old(g).num_glyphs,
    ensures
        is_default_width(old(g).gd@, old(g).emsize as int, final(g).dw as int),
        final(g).gd@ == old(g).gd@,
        final(g).num_glyphs == old(g).num_glyphs,
        final(g).max_glyphs == old(g).max_glyphs,
        final(g).last_gid == old(g).last_gid,
        final(g).emsize == old(g).emsize,
        final(g).default_advh == old(g).default_advh,
        final(g).default_tsb == old(g).default_tsb,
        final(g).used_slot@ == old(g).used_slot@,
{
    let n_buckets: usize = g.emsize as usize + 2;
    let mut w_stat: Vec<u32> = Vec::new();
    let mut b: usize = 0;
    while b < n_buckets
        invariant
            b <= n_buckets,
            n_buckets == g.emsize as usize + 2,
            w_stat@.len() == b,
            forall|q: int| 0 <= q < b ==> w_stat@[q] == 0,
        decreases n_buckets - b,
    {
        w_stat.push(0);
        b = b + 1;
    }
    let mut i: usize = 0;
    while i < g.num_glyphs as usize
        invariant
            g.gd@.len() == g.num_glyphs,
            g.num_glyphs == old(g).num_glyphs,
            g.gd@ == old(g).gd@,
            g.emsize == old(g).emsize,
            n_buckets == g.emsize as usize + 2,
            w_stat@.len() == n_buckets,
            i <= g.num_glyphs,
            forall|w: int| 0 <= w <= g.emsize ==> #[trigger] w_stat@[w] == width_count(g.gd@.take(i as int), w),
        decreases g.num_glyphs - i,
    {
        let w = g.gd[i].advw;
        proof {
            assert(g.gd@.take(i as int + 1) =~= g.gd@.take(i as int).push(g.gd@[i as int]));
            lemma_width_count_bound(g.gd@.take(i as int), w as int);
            assert forall|v: int| 0 <= v <= g.emsize implies width_count(g.gd@.take(i as int + 1), v)
                == width_count(g.gd@.take(i as int), v) + if g.gd@[i as int].advw == v { 1nat } else { 0nat } by {
                lemma_width_count_push(g.gd@.take(i as int), g.gd@[i as int], v);
            }
        }
        if w <= g.emsize {
            let c = w_stat[w as usize];
            w_stat.set(w as usize, c + 1);
        } else {
            /* larger than em */
            let e = g.emsize as usize + 1;
            let c = w_stat[e];
            if c < u32::MAX {
                w_stat.set(e, c + 1);
            }
        }
        i = i + 1;
    }
    proof {
        assert(g.gd@.take(i as int) =~= g.gd@);
    }
    let mut max_count: i64 = -1;
    g.dw = g.gd[0].advw;
    let mut j: usize = 0;
    while j < g.emsize as usize + 1
        invariant
            w_stat@.len() == n_buckets,
            n_buckets == g.emsize as usize + 2,
            g.gd@ == old(g).gd@,
            g.emsize == old(g).emsize,
            g.num_glyphs == old(g).num_glyphs,
            g.max_glyphs == old(g).max_glyphs,
            g.last_gid == old(g).last_gid,
            g.default_advh == old(g).default_advh,
            g.default_tsb == old(g).default_tsb,
            g.used_slot@ == old(g).used_slot@,
            j <= g.emsize + 1,
            forall|w: int| 0 <= w <= g.emsize ==> #[trigger] w_stat@[w] == width_count(g.gd@, w),
            j == 0 ==> max_count == -1,
            j > 0 ==> {
                &&& 0 <= g.dw < j
                &&& max_count == width_count(g.gd@, g.dw as int)
                &&& forall|w: int| 0 <= w < j ==> width_count(g.gd@, w) <= max_count
                &&& forall|w: int| 0 <= w < g.dw ==> width_count(g.gd@, w) < max_count
            },
        decreases g.emsize + 1 - j,
    {
        if w_stat[j] as i64 > max_count {
            max_count = w_stat[j] as i64;
            g.dw = j as u16;
        }
        j = j + 1;
    }
}


/// Zero bytes that pad a glyph of `l` bytes to a multiple of four.
pub open spec fn pad_len(l: int) -> int {
    if l % 4 != 0 {
        4 - l % 4
    } else {
        0
    }
}

/// `n` zero bytes.
pub open spec fn zeros(n: int) -> Seq<u8> {
    Seq::new(n as nat, |k: int| 0u8)
}

/// Two bytes, big-endian, of the low 16 bits of `v`.
pub open spec fn be16(v: int) -> Seq<u8> {
    seq![((v / 256) % 256) as u8, (v % 256) as u8]
}

/// Four bytes, big-endian, of the low 32 bits of `v`.
pub open spec fn be32(v: int) -> Seq<u8> {
    seq![
        ((v / 16777216) % 256) as u8,
        ((v / 65536) % 256) as u8,
        ((v / 256) % 256) as u8,
        (v % 256) as u8,
    ]
}

/// The `glyf` table: each glyph's program, padded to four bytes.
pub open spec fn glyf_of(s: Seq<tt_glyph_desc>) -> Seq<u8>
    decreases s.len(),
{
    if s.len() == 0 {
        Seq::empty()
    } else {
        glyf_of(s.drop_last()) + s.last().data@ + zeros(pad_len(s.last().data@.len() as int))
    }
}

/// `numOfLongHorMetrics`: two past the new id of the last glyph whose
/// advance width differs from `la` (the last glyph's), or 1 where all agree.
pub open spec fn num_hmetrics_of(s: Seq<tt_glyph_desc>, la: u16) -> u16
    decreases s.len(),
{
    if s.len() == 0 {
        1
    } else if s.last().advw != la {
        ((s.last().gid + 2) % 65536) as u16
    } else {
        num_hmetrics_of(s.drop_last(), la)
    }
}

/// The new id of the last glyph, or 0.
pub open spec fn prev_gid(s: Seq<tt_glyph_desc>) -> int {
    if s.len() == 0 {
        0
    } else {
        s.last().gid as int
    }
}

/// The `hmtx` entry of an unused new id `n`.
pub open spec fn hmtx_gap_entry(n: int, nh: int, la: int) -> Seq<u8> {
    (if n == nh - 1 {
        be16(la)
    } else if n < nh {
        be16(0)
    } else {
        Seq::empty()
    }) + be16(0)
}

/// The `hmtx` entries of the unused new ids `from..to`.
pub open spec fn hmtx_gap(from: int, to: int, nh: int, la: int) -> Seq<u8>
    decreases to - from,
{
    if to <= from {
        Seq::empty()
    } else {
        hmtx_gap(from, to - 1, nh, la) + hmtx_gap_entry(to - 1, nh, la)
    }
}

/// The `hmtx` entry of a kept glyph.
pub open spec fn hmtx_own_entry(d: tt_glyph_desc, nh: int) -> Seq<u8> {
    (if d.gid < nh {
        be16(d.advw as int)
    } else {
        Seq::empty()
    }) + be16(d.lsb as int)
}

/// The `hmtx` table for glyphs sorted by new id.
pub open spec fn hmtx_of(s: Seq<tt_glyph_desc>, nh: int, la: int) -> Seq<u8>
    decreases s.len(),
{
    if s.len() == 0 {
        Seq::empty()
    } else {
        let p = s.drop_last();
        hmtx_of(p, nh, la) + hmtx_gap(prev_gid(p) + 1, s.last().gid as int, nh, la)
            + hmtx_own_entry(s.last(), nh)
    }
}

/// A `loca` offset in the short (0) or long (1) format.
pub open spec fn loca_entry(off: int, fmt: int) -> Seq<u8> {
    if fmt == 0 {
        be16(off / 2)
    } else {
        be32(off)
    }
}

/// `k` copies of `e`.
pub open spec fn repeat(e: Seq<u8>, k: int) -> Seq<u8>
    decreases k,
{
    if k <= 0 {
        Seq::empty()
    } else {
        repeat(e, k - 1) + e
    }
}

/// The `loca` entries up to the last glyph of `s` (without the final
/// end offset): unused new ids point at the start of the next glyph.
pub open spec fn loca_of(s: Seq<tt_glyph_desc>, fmt: int) -> Seq<u8>
    decreases s.len(),
{
    if s.len() == 0 {
        Seq::empty()
    } else {
        let p = s.drop_last();
        let e = loca_entry(glyf_of(p).len() as int, fmt);
        loca_of(p, fmt) + repeat(e, s.last().gid - prev_gid(p) - 1) + e
    }
}

/// The subset tables that `tt_build_glyph_tables` produces.
pub struct GlyphTables {
    pub hmtx: Vec<u8>,
    pub loca: Vec<u8>,
    pub glyf: Vec<u8>,
    /// `numOfLongHorMetrics` for the `hhea` table.
    pub num_hmetrics: u16,
    /// `indexToLocFormat` for the `head` table: 0 for short offsets, 1 for long.
    pub index_to_loc_format: i16,
    /// `numGlyphs` for the `maxp` table: the last new glyph id plus one
    /// (as a 16-bit number).
    pub num_glyphs: u16,
}

/// The glyphs are sorted, start with new glyph 0, carry their programs, and
/// their padded programs fit in 32-bit offsets.
pub open spec fn ready_for_tables(g: &tt_glyphs) -> bool {
    &&& g.gd@.len() == g.num_glyphs
    &&& g.gd@.len() >= 1
    &&& sorted_by_gid(g.gd@)
    &&& g.gd@[0].gid == 0
    &&& g.last_gid == g.gd@.last().gid
    &&& forall|i: int| 0 <= i < g.gd@.len() ==> #[trigger] g.gd@[i].data@.len() == g.gd@[i].length
    &&& glyf_of(g.gd@).len() < 4294967296
}

pub proof fn lemma_glyf_of_take(s: Seq<tt_glyph_desc>, i: int)
    requires
        0 <= i < s.len(),
    ensures
        glyf_of(s.take(i + 1)) == glyf_of(s.take(i)) + s[i].data@ + zeros(pad_len(s[i].data@.len() as int)),
{
    assert(s.take(i + 1).drop_last() =~= s.take(i));
}

pub proof fn lemma_glyf_of_mono(s: Seq<tt_glyph_desc>, i: int)
    requires
        0 <= i <= s.len(),
    ensures
        glyf_of(s.take(i)).len() <= glyf_of(s).len(),
    decreases s.len() - i,
{
    if i < s.len() {
        lemma_glyf_of_take(s, i);
        lemma_glyf_of_mono(s, i + 1);
    } else {
        assert(s.take(i) =~= s);
    }
}

proof fn lemma_take_last(s: Seq<tt_glyph_desc>, i: int)
    requires
        0 < i <= s.len(),
    ensures
        s.take(i).drop_last() =~= s.take(i - 1),
        s.take(i).last() == s[i - 1],
        prev_gid(s.take(i)) == s[i - 1].gid,
{
}

fn push_be16(v: &mut Vec<u8>, x: u32)
    requires
        x < 65536,
    ensures
        final(v)@ == old(v)@ + be16(x as int),
{
    let hi = (x / 256) as u8;
    let lo = (x % 256) as u8;
    v.push(hi);
    v.push(lo);
    assert(v@ =~= old(v)@ + be16(x as int));
}

fn push_be32(v: &mut Vec<u8>, x: u32)
    ensures
        final(v)@ == old(v)@ + be32(x as int),
{
    v.push((x / 16777216) as u8);
    v.push(((x / 65536) % 256) as u8);
    v.push(((x / 256) % 256) as u8);
    v.push((x % 256) as u8);
    assert(v@ =~= old(v)@ + be32(x as int));
}

proof fn lemma_be16_wrap(x: int)
    ensures
        be16(x + 65536) == be16(x),
{
    assert((x + 65536) / 256 == x / 256 + 256);
    assert(((x + 65536) / 256) % 256 == (x / 256) % 256);
    assert((x + 65536) % 256 == x % 256);
}

/// The 16-bit pattern of a signed value.
fn pattern16(x: i16) -> (r: u32)
    ensures
        r < 65536,
        be16(r as int) == be16(x as int),
{
    if x < 0 {
        proof {
            lemma_be16_wrap(x as int);
        }
        (x as i32 + 65536) as u32
    } else {
        x as u32
    }
}

/// `b` is `a` with its glyph program released.
pub open spec fn released(a: tt_glyph_desc, b: tt_glyph_desc) -> bool {
    &&& b.gid == a.gid
    &&& b.ogid == a.ogid
    &&& b.advw == a.advw
    &&& b.advh == a.advh
    &&& b.lsb == a.lsb
    &&& b.tsb == a.tsb
    &&& b.llx == a.llx
    &&& b.lly == a.lly
    &&& b.urx == a.urx
    &&& b.ury == a.ury
    &&& b.length == 0
    &&& b.data@.len() == 0
}

/// Builds the `hmtx`, `loca` and `glyf` tables of the subset font from the
/// kept glyphs (sorted by new id), chooses `numOfLongHorMetrics` and the
/// `loca` format, and releases the glyph programs.
pub fn tt_build_glyph_tables(g: &mut tt_glyphs) -> (t: GlyphTables)
    requires
        ready_for_tables(&*old(g)),
    ensures
        ({
            let s = old(g).gd@;
            let la = s.last().advw;
            let fmt: int = if glyf_of(s).len() < 0x20000 { 0 } else { 1 };
            &&& t.num_hmetrics == num_hmetrics_of(s, la)
            &&& t.index_to_loc_format == fmt
            &&& t.glyf@ == glyf_of(s)
            &&& t.hmtx@ == hmtx_of(s, t.num_hmetrics as int, la as int)
            &&& t.loca@ == loca_of(s, fmt) + loca_entry(glyf_of(s).len() as int, fmt)
            &&& t.num_glyphs == (old(g).last_gid + 1) % 65536
        }),
        final(g).gd@.len() == old(g).gd@.len(),
        forall|i: int| 0 <= i < old(g).gd@.len() ==> released(old(g).gd@[i], #[trigger] final(g).gd@[i]),
        final(g).num_glyphs == old(g).num_glyphs,
        final(g).max_glyphs == old(g).max_glyphs,
        final(g).last_gid == old(g).last_gid,
        final(g).emsize == old(g).emsize,
        final(g).dw == old(g).dw,
        final(g).default_advh == old(g).default_advh,
        final(g).default_tsb == old(g).default_tsb,
        final(g).used_slot@ == old(g).used_slot@,
{
    let ghost s = g.gd@;
    let n = g.gd.len();
    let la = g.gd[n - 1].advw;
    /* size of the glyf table */
    let mut size: u64 = 0;
    let mut i: usize = 0;
    while i < n
        invariant
            n == s.len(),
            g.gd@ == s,
            i <= n,
            size == glyf_of(s.take(i as int)).len(),
            glyf_of(s).len() < 4294967296,
            forall|k: int| 0 <= k < s.len() ==> #[trigger] s[k].data@.len() == s[k].length,
        decreases n - i,
    {
        proof {
            lemma_glyf_of_take(s, i as int);
            lemma_glyf_of_mono(s, i as int + 1);
        }
        let len = g.gd[i].length;
        let pad: u32 = if len % 4 != 0 { 4 - len % 4 } else { 0 };
        size = size + len as u64 + pad as u64;
        i = i + 1;
    }
    proof {
        assert(s.take(n as int) =~= s);
    }
    /* numOfLongHorMetrics */
    let mut nh: u16 = 1;
    let mut known = false;
    let mut i: usize = n;
    while i > 0
        invariant
            n == s.len(),
            g.gd@ == s,
            i <= n,
            la == s.last().advw,
            known ==> nh == num_hmetrics_of(s, la),
            !known ==> nh == 1 && num_hmetrics_of(s, la) == num_hmetrics_of(s.take(i as int), la),
        decreases i,
    {
        i = i - 1;
        proof {
            assert(s.take(i as int + 1).drop_last() =~= s.take(i as int));
        }
        if !known && g.gd[i].advw != la {
            nh = ((g.gd[i].gid as u32 + 2) % 65536) as u16;
            known = true;
        }
    }
    /* short offsets only where they reach */
    let fmt: i16 = if size < 0x20000 { 0 } else { 1 };
    let ghost fmt_i: int = fmt as int;
    let mut hmtx: Vec<u8> = Vec::new();
    let mut loca: Vec<u8> = Vec::new();
    let mut glyf: Vec<u8> = Vec::new();
    let mut offset: u32 = 0;
    let mut prev: u16 = 0;
    let mut i: usize = 0;
    while i < n
        invariant
            n == s.len(),
            n >= 1,
            g.gd@.len() == n,
            i <= n,
            sorted_by_gid(s),
            s[0].gid == 0,
            forall|k: int| 0 <= k < s.len() ==> #[trigger] s[k].data@.len() == s[k].length,
            glyf_of(s).len() < 4294967296,
            size == glyf_of(s).len(),
            fmt == if size < 0x20000 { 0i16 } else { 1i16 },
            fmt_i == fmt as int,
            forall|k: int| i <= k < n ==> #[trigger] g.gd@[k] == s[k],
            forall|k: int| 0 <= k < i ==> released(s[k], #[trigger] g.gd@[k]),
            g.num_glyphs == old(g).num_glyphs,
            g.max_glyphs == old(g).max_glyphs,
            g.last_gid == old(g).last_gid,
            g.emsize == old(g).emsize,
            g.dw == old(g).dw,
            g.default_advh == old(g).default_advh,
            g.default_tsb == old(g).default_tsb,
            g.used_slot@ == old(g).used_slot@,
            s == old(g).gd@,
            hmtx@ == hmtx_of(s.take(i as int), nh as int, la as int),
            loca@ == loca_of(s.take(i as int), fmt_i),
            glyf@ == glyf_of(s.take(i as int)),
            offset == glyf@.len(),
            prev == prev_gid(s.take(i as int)),
            i == 0 ==> prev == 0,
        decreases n - i,
    {
        proof {
            lemma_glyf_of_mono(s, i as int);
            lemma_glyf_of_mono(s, i as int + 1);
            lemma_glyf_of_take(s, i as int);
            lemma_take_last(s, i as int + 1);
            if i > 0 {
                lemma_take_last(s, i as int);
                assert(s[i - 1].gid < s[i as int].gid);
            }
        }
        let gid = g.gd[i].gid;
        let ghost e = loca_entry(offset as int, fmt_i);
        let ghost h0 = hmtx@;
        let ghost l0 = loca@;
        let mut j: u32 = prev as u32 + 1;
        while j < gid as u32
            invariant
                prev as u32 + 1 <= j,
                j <= gid || (i == 0 && j == 1),
                gid == s[i as int].gid,
                hmtx@ == h0 + hmtx_gap(prev + 1, j as int, nh as int, la as int),
                loca@ == l0 + repeat(e, j - prev - 1),
                e == loca_entry(offset as int, fmt_i),
                fmt_i == fmt as int,
                fmt == if size < 0x20000 { 0i16 } else { 1i16 },
                offset <= size,
            decreases gid - j,
        {
            if j + 1 == nh as u32 {
                push_be16(&mut hmtx, la as u32);
            } else if j < nh as u32 {
                push_be16(&mut hmtx, 0);
            }
            push_be16(&mut hmtx, 0);
            if fmt == 0 {
                push_be16(&mut loca, offset / 2);
            } else {
                push_be32(&mut loca, offset);
            }
            proof {
                assert(hmtx@ =~= h0 + hmtx_gap(prev + 1, j + 1, nh as int, la as int));
                assert(loca@ =~= l0 + repeat(e, j + 1 - prev - 1));
            }
            j = j + 1;
        }
        proof {
            if i == 0 {
                assert(hmtx_gap(prev + 1, j as int, nh as int, la as int) == hmtx_gap(prev + 1, gid as int, nh as int, la as int));
            }
        }
        if gid < nh {
            push_be16(&mut hmtx, g.gd[i].advw as u32);
        }
        let lsb = pattern16(g.gd[i].lsb);
        push_be16(&mut hmtx, lsb);
        if fmt == 0 {
            push_be16(&mut loca, offset / 2);
        } else {
            push_be32(&mut loca, offset);
        }
        let len = g.gd[i].length;
        let ghost gl0 = glyf@;
        let mut k: usize = 0;
        while k < len as usize
            invariant
                k <= len,
                len == s[i as int].length,
                s[i as int].data@.len() == len,
                g.gd@[i as int] == s[i as int],
                i < g.gd@.len(),
                glyf@ == gl0 + s[i as int].data@.take(k as int),
            decreases len - k,
        {
            glyf.push(g.gd[i].data[k]);
            proof {
                assert(glyf@ =~= gl0 + s[i as int].data@.take(k as int + 1));
            }
            k = k + 1;
        }
        let pad: u32 = if len % 4 != 0 { 4 - len % 4 } else { 0 };
        let mut z: u32 = 0;
        while z < pad
            invariant
                z <= pad,
                glyf@ == gl0 + s[i as int].data@ + zeros(z as int),
            decreases pad - z,
        {
            glyf.push(0);
            proof {
                assert(glyf@ =~= gl0 + s[i as int].data@ + zeros(z as int + 1));
            }
            z = z + 1;
        }
        proof {
            assert(s[i as int].data@.take(len as int) =~= s[i as int].data@);
            assert(glyf@ == glyf_of(s.take(i as int + 1)));
            assert(hmtx@ =~= hmtx_of(s.take(i as int + 1), nh as int, la as int));
            assert(loca@ =~= loca_of(s.take(i as int + 1), fmt_i));
        }
        offset = offset + len + pad;
        prev = gid;
        /* free data here since it consume much memory */
        g.gd[i].data = Vec::new();
        g.gd[i].length = 0;
        i = i + 1;
    }
    if fmt == 0 {
        push_be16(&mut loca, offset / 2);
    } else {
        push_be32(&mut loca, offset);
    }
    proof {
        assert(s.take(n as int) =~= s);
    }
    let num_glyphs: u16 = ((g.last_gid as u32 + 1) % 65536) as u16;
    GlyphTables { hmtx, loca, glyf, num_hmetrics: nh, index_to_loc_format: fmt, num_glyphs }
}

/// Releases a glyph table.
pub fn tt_build_finish(g: tt_glyphs) {
}

} // verus!
