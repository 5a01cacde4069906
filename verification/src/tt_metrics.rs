//! The TrueType tables that glyph metrics come from, and the reading of the
//! metrics of the kept glyphs.
use vstd::prelude::*;
use crate::tt_glyf::{tt_glyphs, tt_glyph_desc, tt_set_default_width, is_default_width};
use crate::tt_post::{byte_at, be16_at, be32_at};

verus! {

/// One table of an sfnt font.
pub struct sfnt_table {
    pub tag: [u8; 4],
    pub check_sum: u32,
    pub offset: u32,
    pub length: u32,
    pub data: Vec<u8>,
}

/// The table directory of an sfnt font.
pub struct sfnt_table_directory {
    pub version: u32,
    pub num_tables: u16,
    pub search_range: u16,
    pub entry_selector: u16,
    pub range_shift: u16,
    pub num_kept_tables: u16,
    pub flags: Vec<u8>,
    pub tables: Vec<sfnt_table>,
}

/// The `head` table.
pub struct tt_head_table {
    pub version: u32,
    pub fontRevision: u32,
    pub checkSumAdjustment: u32,
    pub magicNumber: u32,
    pub flags: u16,
    pub unitsPerEm: u16,
    pub created: [u8; 8],
    pub modified: [u8; 8],
    pub xMin: i16,
    pub yMin: i16,
    pub xMax: i16,
    pub yMax: i16,
    pub macStyle: u16,
    pub lowestRecPPEM: u16,
    pub fontDirectionHint: i16,
    pub indexToLocFormat: i16,
    pub glyphDataFormat: i16,
}

/// The `maxp` table.
pub struct tt_maxp_table {
    pub version: u32,
    pub numGlyphs: u16,
    pub maxPoints: u16,
    pub maxContours: u16,
    pub maxComponentPoints: u16,
    pub maxComponentContours: u16,
    pub maxZones: u16,
    pub maxTwilightPoints: u16,
    pub maxStorage: u16,
    pub maxFunctionDefs: u16,
    pub maxInstructionDefs: u16,
    pub maxStackElements: u16,
    pub maxSizeOfInstructions: u16,
    pub maxComponentElements: u16,
    pub maxComponentDepth: u16,
}

/// The `hhea` table.
pub struct tt_hhea_table {
    pub version: u32,
    pub ascent: i16,
    pub descent: i16,
    pub lineGap: i16,
    pub advanceWidthMax: u16,
    pub minLeftSideBearing: i16,
    pub minRightSideBearing: i16,
    pub xMaxExtent: i16,
    pub caretSlopeRise: i16,
    pub caretSlopeRun: i16,
    pub caretOffset: i16,
    pub reserved: [i16; 4],
    pub metricDataFormat: i16,
    pub numOfLongHorMetrics: u16,
    pub numOfExSideBearings: u16,
}

/// One entry of `hmtx` or `vmtx`.
#[derive(Clone, Copy)]
pub struct tt_longMetrics {
    pub advance: u16,
    pub sideBearing: i16,
}

/// The `vhea` table.
pub struct tt_vhea_table {
    pub version: u32,
    pub vertTypoAscender: i16,
    pub vertTypoDescender: i16,
    pub vertTypoLineGap: i16,
    pub advanceHeightMax: i16,
    pub minTopSideBearing: i16,
    pub minBottomSideBearing: i16,
    pub yMaxExtent: i16,
    pub caretSlopeRise: i16,
    pub caretSlopeRun: i16,
    pub caretOffset: i16,
    pub reserved: [i16; 4],
    pub metricDataFormat: i16,
    pub numOfLongVerMetrics: u16,
    pub numOfExSideBearings: u16,
}

/// Why the metrics of a font cannot be read.
#[derive(Clone, Copy, Debug, PartialEq, Eq, Structural)]
pub enum MetricsError {
    UnknownMetricDataFormat,
    UnknownIndexToLocFormat,
    /// A kept glyph that the font does not have.
    InvalidGlyphIndex(u16),
    /// A glyph whose data is too short to hold its bounding box.
    InvalidGlyphData(u16),
}

/// Where the data of glyph `gid` starts within `glyf`, from the `loca`
/// table at `loca_pos` of the font (short offsets count words).
pub open spec fn loca_offset(font: Seq<u8>, loca_pos: int, fmt: int, gid: int) -> int {
    if fmt == 0 {
        2 * be16_at(font, loca_pos + 2 * gid)
    } else {
        be32_at(font, loca_pos + 4 * gid)
    }
}

/// The length of the data of glyph `gid` (the difference of two offsets,
/// modulo 2^32).
pub open spec fn glyph_len(font: Seq<u8>, loca_pos: int, fmt: int, gid: int) -> int {
    let d = loca_offset(font, loca_pos, fmt, gid + 1) - loca_offset(font, loca_pos, fmt, gid);
    if d < 0 {
        d + 0x1_0000_0000
    } else {
        d
    }
}

/// Where in the font the data of glyph `gid` starts.
pub open spec fn glyph_pos(font: Seq<u8>, glyf_pos: int, loca_pos: int, fmt: int, gid: int) -> int {
    (glyf_pos + loca_offset(font, loca_pos, fmt, gid)) % 0x1_0000_0000
}

/// The error that a kept glyph causes, if any.
pub open spec fn glyph_error(d: tt_glyph_desc, num_glyphs: int, font: Seq<u8>, loca_pos: int, fmt: int) -> Option<MetricsError> {
    if d.ogid >= num_glyphs {
        Some(MetricsError::InvalidGlyphIndex(d.ogid))
    } else if glyph_len(font, loca_pos, fmt, d.ogid as int) != 0 && glyph_len(font, loca_pos, fmt, d.ogid as int) < 10 {
        Some(MetricsError::InvalidGlyphData(d.ogid))
    } else {
        None
    }
}

/// The error of the first kept glyph that causes one.
pub open spec fn first_glyph_error(s: Seq<tt_glyph_desc>, num_glyphs: int, font: Seq<u8>, loca_pos: int, fmt: int) -> Option<MetricsError>
    decreases s.len(),
{
    if s.len() == 0 {
        None
    } else {
        match glyph_error(s[0], num_glyphs, font, loca_pos, fmt) {
            Some(e) => Some(e),
            None => first_glyph_error(s.drop_first(), num_glyphs, font, loca_pos, fmt),
        }
    }
}

/// Where reading the metrics stops, if it does.
pub open spec fn metrics_error(
    s: Seq<tt_glyph_desc>,
    metric_data_format: i16,
    index_to_loc_format: i16,
    num_glyphs: int,
    font: Seq<u8>,
    loca_pos: int,
) -> Option<MetricsError> {
    if metric_data_format != 0 {
        Some(MetricsError::UnknownMetricDataFormat)
    } else if index_to_loc_format != 0 && index_to_loc_format != 1 {
        Some(MetricsError::UnknownIndexToLocFormat)
    } else {
        first_glyph_error(s, num_glyphs, font, loca_pos, index_to_loc_format as int)
    }
}

/// The metrics that a kept glyph `o` gets, as `n`: its advances and side
/// bearings from `hmtx` and `vmtx` (or the defaults), and the bounding box
/// from the start of its data, where it has any. Without `vmtx`, a glyph
/// with data gets its top side bearing from its bounding box.
pub open spec fn metrics_fields(
    o: tt_glyph_desc,
    n: tt_glyph_desc,
    hmtx: Seq<tt_longMetrics>,
    vmtx: Option<Seq<tt_longMetrics>>,
    default_advh: u16,
    default_tsb: i16,
    font: Seq<u8>,
    glyf_pos: int,
    loca_pos: int,
    fmt: int,
) -> bool {
    let gid = o.ogid as int;
    let len = glyph_len(font, loca_pos, fmt, gid);
    let p = glyph_pos(font, glyf_pos, loca_pos, fmt, gid);
    &&& n.gid == o.gid
    &&& n.ogid == o.ogid
    &&& n.advw == hmtx[gid].advance
    &&& n.lsb == hmtx[gid].sideBearing
    &&& n.advh == match vmtx { Some(v) => v[gid].advance, None => default_advh }
    &&& if len == 0 {
        &&& n.llx == o.llx
        &&& n.lly == o.lly
        &&& n.urx == o.urx
        &&& n.ury == o.ury
        &&& n.tsb == match vmtx { Some(v) => v[gid].sideBearing, None => default_tsb }
    } else {
        &&& n.llx == be16_at(font, p + 2) as i16
        &&& n.lly == be16_at(font, p + 4) as i16
        &&& n.urx == be16_at(font, p + 6) as i16
        &&& n.ury == be16_at(font, p + 8) as i16
        &&& n.tsb == match vmtx {
            Some(v) => v[gid].sideBearing,
            None => (default_advh - default_tsb - n.ury) as i16,
        }
    }
}

/// The metrics of `metrics_fields`, with the length of the glyph's data
/// and no data kept.
pub open spec fn metrics_of(
    o: tt_glyph_desc,
    n: tt_glyph_desc,
    hmtx: Seq<tt_longMetrics>,
    vmtx: Option<Seq<tt_longMetrics>>,
    default_advh: u16,
    default_tsb: i16,
    font: Seq<u8>,
    glyf_pos: int,
    loca_pos: int,
    fmt: int,
) -> bool {
    &&& metrics_fields(o, n, hmtx, vmtx, default_advh, default_tsb, font, glyf_pos, loca_pos, fmt)
    &&& n.length == glyph_len(font, loca_pos, fmt, o.ogid as int)
    &&& n.data@.len() == 0
}

pub(crate) fn byte_at_pos(font: &Vec<u8>, p: u64) -> (r: u8)
    ensures
        r == byte_at(font@, p as int),
{
    let n = font.len();
    if p < n as u64 {
        font[p as usize]
    } else {
        0
    }
}

pub(crate) fn be16_at_pos(font: &Vec<u8>, p: u64) -> (r: u16)
    requires
        p < 0x1_0000_0000_0000,
    ensures
        r == be16_at(font@, p as int),
{
    let hi = byte_at_pos(font, p) as u16;
    let lo = byte_at_pos(font, p + 1) as u16;
    hi * 256 + lo
}

fn be32_at_pos(font: &Vec<u8>, p: u64) -> (r: u32)
    requires
        p < 0x1_0000_0000_0000 - 4,
    ensures
        r == be32_at(font@, p as int),
{
    let hi = be16_at_pos(font, p) as u32;
    let lo = be16_at_pos(font, p + 2) as u32;
    hi * 65536 + lo
}

pub(crate) fn loca_offset_of(font: &Vec<u8>, loca_pos: u32, fmt: i16, gid: u32) -> (r: u32)
    requires
        fmt == 0 || fmt == 1,
        gid <= 65536,
    ensures
        r == loca_offset(font@, loca_pos as int, fmt as int, gid as int),
{
    if fmt == 0 {
        2 * (be16_at_pos(font, loca_pos as u64 + 2 * gid as u64) as u32)
    } else {
        be32_at_pos(font, loca_pos as u64 + 4 * gid as u64)
    }
}

proof fn lemma_first_error_step(s: Seq<tt_glyph_desc>, i: int, num_glyphs: int, font: Seq<u8>, loca_pos: int, fmt: int)
    requires
        0 <= i < s.len(),
    ensures
        first_glyph_error(s.skip(i), num_glyphs, font, loca_pos, fmt) == match glyph_error(s[i], num_glyphs, font, loca_pos, fmt) {
            Some(e) => Some(e),
            None => first_glyph_error(s.skip(i + 1), num_glyphs, font, loca_pos, fmt),
        },
{
    assert(s.skip(i).drop_first() =~= s.skip(i + 1));
    assert(s.skip(i)[0] == s[i]);
}

/// Reads the metrics of the kept glyphs (see `metrics_of`) from the font
/// file `font`, whose `loca` and `glyf` tables start at `loca_pos` and
/// `glyf_pos`, and from its other tables as read: `head`, `hhea`, `maxp`,
/// `hmtx`, `vmtx` where the font has one, and the typographic ascender and
/// descender of `OS/2`. Sets the em size, the default vertical metrics and
/// the default width. Bytes past the end of `font` read as 0.
pub fn tt_get_metrics(
    g: &mut tt_glyphs,
    font: &Vec<u8>,
    head: &tt_head_table,
    hhea: &tt_hhea_table,
    maxp: &tt_maxp_table,
    hmtx: &Vec<tt_longMetrics>,
    vmtx: Option<&Vec<tt_longMetrics>>,
    typo_ascender: i16,
    typo_descender: i16,
    loca_pos: u32,
    glyf_pos: u32,
) -> (r: Result<(), MetricsError>)
    requires
        old(g).num_glyphs >= 1,
        old(g).gd@.len() == old(g).num_glyphs,
        hmtx@.len() == maxp.numGlyphs,
        vmtx matches Some(v) ==> v@.len() == maxp.numGlyphs,
    ensures
        ({
            let err = metrics_error(old(g).gd@, hhea.metricDataFormat, head.indexToLocFormat, maxp.numGlyphs as int, font@, loca_pos as int);
            match r {
                Err(e) => err == Some(e),
                Ok(()) => err is None,
            }
        }),
        r is Ok ==> {
            let advh = (typo_ascender - typo_descender) as u16;
            let tsb = (advh - typo_ascender) as i16;
            let vm = match vmtx { Some(v) => Some(v@), None => None::<Seq<tt_longMetrics>> };
            &&& final(g).emsize == head.unitsPerEm
            &&& final(g).default_advh == advh
            &&& final(g).default_tsb == tsb
            &&& final(g).gd@.len() == old(g).gd@.len()
            &&& forall|i: int| 0 <= i < old(g).gd@.len() ==> metrics_of(
                #[trigger] old(g).gd@[i],
                final(g).gd@[i],
                hmtx@,
                vm,
                advh,
                tsb,
                font@,
                glyf_pos as int,
                loca_pos as int,
                head.indexToLocFormat as int,
            )
            &&& is_default_width(final(g).gd@, head.unitsPerEm as int, final(g).dw as int)
            &&& final(g).num_glyphs == old(g).num_glyphs
            &&& final(g).max_glyphs == old(g).max_glyphs
            &&& final(g).last_gid == old(g).last_gid
            &&& final(g).used_slot@ == old(g).used_slot@
        },
{
    if hhea.metricDataFormat != 0 {
        return Err(MetricsError::UnknownMetricDataFormat);
    }
    let fmt = head.indexToLocFormat;
    if fmt != 0 && fmt != 1 {
        return Err(MetricsError::UnknownIndexToLocFormat);
    }
    let advh: u16 = #[verifier::truncate] ((typo_ascender as i32 - typo_descender as i32) as u16);
    let tsb: i16 = #[verifier::truncate] ((advh as i32 - typo_ascender as i32) as i16);
    let ghost vm = match vmtx { Some(v) => Some(v@), None => None::<Seq<tt_longMetrics>> };
    let ghost s = g.gd@;
    let n = g.gd.len();
    let mut newgd: Vec<tt_glyph_desc> = Vec::new();
    let mut i: usize = 0;
    proof {
        assert(s.skip(0) =~= s);
    }
    while i < n
        invariant
            i <= n,
            n == s.len(),
            s == g.gd@,
            s == old(g).gd@,
            hhea.metricDataFormat == 0,
            fmt == 0 || fmt == 1,
            fmt == head.indexToLocFormat,
            hmtx@.len() == maxp.numGlyphs,
            vmtx matches Some(v) ==> v@.len() == maxp.numGlyphs,
            vm == match vmtx { Some(v) => Some(v@), None => None::<Seq<tt_longMetrics>> },
            advh == (typo_ascender - typo_descender) as u16,
            tsb == (advh - typo_ascender) as i16,
            first_glyph_error(s, maxp.numGlyphs as int, font@, loca_pos as int, fmt as int)
                == first_glyph_error(s.skip(i as int), maxp.numGlyphs as int, font@, loca_pos as int, fmt as int),
            newgd@.len() == i,
            forall|k: int| 0 <= k < i ==> metrics_of(#[trigger] s[k], newgd@[k], hmtx@, vm, advh, tsb, font@, glyf_pos as int, loca_pos as int, fmt as int),
        decreases n - i,
    {
        proof {
            lemma_first_error_step(s, i as int, maxp.numGlyphs as int, font@, loca_pos as int, fmt as int);
        }
        let o = &g.gd[i];
        let gid = o.ogid;
        assert(s[i as int] == *o);
        if gid >= maxp.numGlyphs {
            assert(glyph_error(s[i as int], maxp.numGlyphs as int, font@, loca_pos as int, fmt as int) == Some(MetricsError::InvalidGlyphIndex(gid)));
            return Err(MetricsError::InvalidGlyphIndex(gid));
        }
        let loc = loca_offset_of(font, loca_pos, fmt, gid as u32);
        let next = loca_offset_of(font, loca_pos, fmt, gid as u32 + 1);
        let len: u32 = if next >= loc { next - loc } else { (next as u64 + 0x1_0000_0000 - loc as u64) as u32 };
        let h = hmtx[gid as usize];
        let (adv_h, mut tsb_i) = match vmtx {
            Some(v) => (v[gid as usize].advance, v[gid as usize].sideBearing),
            None => (advh, tsb),
        };
        let mut llx = o.llx;
        let mut lly = o.lly;
        let mut urx = o.urx;
        let mut ury = o.ury;
        if len != 0 {
            if len < 10 {
                assert(glyph_error(s[i as int], maxp.numGlyphs as int, font@, loca_pos as int, fmt as int) == Some(MetricsError::InvalidGlyphData(gid)));
                return Err(MetricsError::InvalidGlyphData(gid));
            }
            let p: u64 = (glyf_pos as u64 + loc as u64) % 0x1_0000_0000;
            llx = be16_at_pos(font, p + 2) as i16;
            lly = be16_at_pos(font, p + 4) as i16;
            urx = be16_at_pos(font, p + 6) as i16;
            ury = be16_at_pos(font, p + 8) as i16;
            if vmtx.is_none() {
                tsb_i = (advh as i32 - tsb as i32 - ury as i32) as i16;
            }
        }
        let d = tt_glyph_desc {
            gid: o.gid,
            ogid: gid,
            advw: h.advance,
            advh: adv_h,
            lsb: h.sideBearing,
            tsb: tsb_i,
            llx,
            lly,
            urx,
            ury,
            length: len,
            data: Vec::new(),
        };
        newgd.push(d);
        proof {
            assert(newgd@[i as int] == d);
            assert forall|k: int| 0 <= k < i + 1 implies metrics_of(#[trigger] s[k], newgd@[k], hmtx@, vm, advh, tsb, font@, glyf_pos as int, loca_pos as int, fmt as int) by {
                if k < i {
                    assert(newgd@[k] == newgd@.drop_last()[k]);
                }
            }
        }
        i = i + 1;
    }
    proof {
        assert(s.skip(n as int) =~= Seq::<tt_glyph_desc>::empty());
    }
    g.emsize = head.unitsPerEm;
    g.default_advh = advh;
    g.default_tsb = tsb;
    g.gd = newgd;
    tt_set_default_width(g);
    Ok(())
}

} // verus!
