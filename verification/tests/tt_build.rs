use tectonic::tt_build::{fix_composite_glyph, tt_build_tables, BuildError};
use tectonic::tt_glyf::{tt_add_glyph, tt_build_init, tt_find_glyph};
use tectonic::tt_metrics::{tt_head_table, tt_hhea_table, tt_longMetrics, tt_maxp_table};

fn head(fmt: i16) -> tt_head_table {
    tt_head_table {
        version: 0x10000,
        fontRevision: 0,
        checkSumAdjustment: 0,
        magicNumber: 0x5F0F3CF5,
        flags: 0,
        unitsPerEm: 1000,
        created: [0; 8],
        modified: [0; 8],
        xMin: 0,
        yMin: 0,
        xMax: 0,
        yMax: 0,
        macStyle: 0,
        lowestRecPPEM: 0,
        fontDirectionHint: 0,
        indexToLocFormat: fmt,
        glyphDataFormat: 0,
    }
}

fn hhea(format: i16) -> tt_hhea_table {
    tt_hhea_table {
        version: 0x10000,
        ascent: 800,
        descent: -200,
        lineGap: 0,
        advanceWidthMax: 0,
        minLeftSideBearing: 0,
        minRightSideBearing: 0,
        xMaxExtent: 0,
        caretSlopeRise: 1,
        caretSlopeRun: 0,
        caretOffset: 0,
        reserved: [0; 4],
        metricDataFormat: format,
        numOfLongHorMetrics: 3,
        numOfExSideBearings: 0,
    }
}

fn maxp(n: u16) -> tt_maxp_table {
    tt_maxp_table {
        version: 0x10000,
        numGlyphs: n,
        maxPoints: 0,
        maxContours: 0,
        maxComponentPoints: 0,
        maxComponentContours: 0,
        maxZones: 0,
        maxTwilightPoints: 0,
        maxStorage: 0,
        maxFunctionDefs: 0,
        maxInstructionDefs: 0,
        maxStackElements: 0,
        maxSizeOfInstructions: 0,
        maxComponentElements: 0,
        maxComponentDepth: 0,
    }
}

const GLYPH0: [u8; 12] = [0, 1, 0, 0, 0, 0, 0, 100, 0, 200, 0, 0];
/// A composite glyph with one component record naming source glyph `c`.
fn composite(c: u8) -> Vec<u8> {
    vec![0xff, 0xff, 0, 1, 0, 2, 0, 3, 0, 4, 0, 2, 0, c, 0, 0]
}
const GLYPH2: [u8; 10] = [0, 1, 0, 5, 0, 6, 0, 7, 0, 8];

/// A font with a long `loca` at 0 (three glyphs: a simple one, a composite
/// one naming `c`, another simple one) and `glyf` at 16.
fn font(c: u8) -> Vec<u8> {
    let mut f = vec![0, 0, 0, 0, 0, 0, 0, 12, 0, 0, 0, 28, 0, 0, 0, 38];
    f.extend_from_slice(&GLYPH0);
    f.extend_from_slice(&composite(c));
    f.extend_from_slice(&GLYPH2);
    f
}

fn hmtx() -> Vec<tt_longMetrics> {
    vec![
        tt_longMetrics { advance: 500, sideBearing: 10 },
        tt_longMetrics { advance: 600, sideBearing: 20 },
        tt_longMetrics { advance: 700, sideBearing: 30 },
    ]
}

#[test]
fn composite_glyph_keeps_and_renumbers_its_component() {
    let mut g = tt_build_init();
    tt_add_glyph(&mut g, 1, 5);
    let f = font(2);
    let t = tt_build_tables(&mut g, &f, &head(1), &hhea(0), &maxp(3), &hmtx(), None, Some((800, -200)), 0, 16).unwrap();
    // the component (source glyph 2) is kept under the lowest free id, 1
    assert_eq!(g.num_glyphs, 3);
    assert_eq!(g.last_gid, 5);
    let ids: Vec<(u16, u16)> = g.gd.iter().map(|d| (d.gid, d.ogid)).collect();
    assert_eq!(ids, vec![(0, 0), (1, 2), (5, 1)]);
    assert_eq!(t.index_to_loc_format, 0);
    assert_eq!(t.num_hmetrics, 3);
    assert_eq!(t.num_glyphs, 6);
    let mut glyf = GLYPH0.to_vec();
    glyf.extend_from_slice(&GLYPH2);
    glyf.extend_from_slice(&[0, 0]);
    glyf.extend_from_slice(&composite(1));
    assert_eq!(t.glyf, glyf);
    assert_eq!(t.loca, vec![0, 0, 0, 6, 0, 12, 0, 12, 0, 12, 0, 12, 0, 20]);
    assert_eq!(
        t.hmtx,
        vec![0x01, 0xf4, 0, 10, 0x02, 0xbc, 0, 30, 0x02, 0x58, 0, 0, 0, 0, 0, 0, 0, 20]
    );
    assert_eq!(g.emsize, 1000);
    assert_eq!(g.default_advh, 1000);
    assert_eq!(g.default_tsb, 200);
    assert_eq!(g.dw, 500);
    assert_eq!((g.gd[2].llx, g.gd[2].lly, g.gd[2].urx, g.gd[2].ury), (1, 2, 3, 4));
    assert_eq!(g.gd[2].tsb, 1000 - 200 - 4);
    assert_eq!(g.gd[1].advw, 700);
    assert!(g.gd.iter().all(|d| d.data.is_empty() && d.length == 0));
}

#[test]
fn component_already_kept_is_not_added_again() {
    let mut g = tt_build_init();
    tt_add_glyph(&mut g, 2, 3);
    tt_add_glyph(&mut g, 1, 4);
    let f = font(2);
    let t = tt_build_tables(&mut g, &f, &head(1), &hhea(0), &maxp(3), &hmtx(), None, None, 0, 16).unwrap();
    assert_eq!(g.num_glyphs, 3);
    assert_eq!(t.num_glyphs, 5);
    let mut glyf = GLYPH0.to_vec();
    glyf.extend_from_slice(&GLYPH2);
    glyf.extend_from_slice(&[0, 0]);
    glyf.extend_from_slice(&composite(3));
    assert_eq!(t.glyf, glyf);
}

#[test]
fn build_errors() {
    let f = font(2);
    let mut g = tt_build_init();
    assert_eq!(
        tt_build_tables(&mut g, &f, &head(1), &hhea(1), &maxp(3), &hmtx(), None, None, 0, 16).err(),
        Some(BuildError::UnknownMetricDataFormat)
    );
    let mut g = tt_build_init();
    assert_eq!(
        tt_build_tables(&mut g, &f, &head(2), &hhea(0), &maxp(3), &hmtx(), None, None, 0, 16).err(),
        Some(BuildError::UnknownIndexToLocFormat)
    );
    let mut g = tt_build_init();
    tt_add_glyph(&mut g, 7, 1);
    assert_eq!(
        tt_build_tables(&mut g, &f, &head(1), &hhea(0), &maxp(3), &hmtx(), None, None, 0, 16).err(),
        Some(BuildError::InvalidGlyphIndex(7))
    );
    let bad = font(9);
    let mut g = tt_build_init();
    tt_add_glyph(&mut g, 1, 1);
    assert_eq!(
        tt_build_tables(&mut g, &bad, &head(1), &hhea(0), &maxp(3), &hmtx(), None, None, 0, 16).err(),
        Some(BuildError::InvalidComponent(9, 1))
    );
    // a glyph of 5 bytes
    let mut short = vec![0, 0, 0, 0, 0, 0, 0, 5, 0, 0, 0, 5, 0, 0, 0, 5];
    short.extend_from_slice(&[0, 1, 0, 0, 0]);
    let mut g = tt_build_init();
    assert_eq!(
        tt_build_tables(&mut g, &short, &head(1), &hhea(0), &maxp(3), &hmtx(), None, None, 0, 16).err(),
        Some(BuildError::InvalidGlyphData(0))
    );
}

#[test]
fn composite_records_are_walked_to_the_last() {
    let mut g = tt_build_init();
    // two records: the first with word arguments and a scale, then more
    let mut data = vec![0xff, 0xff, 0, 0, 0, 0, 0, 0, 0, 0];
    data.extend_from_slice(&[0x00, 0x29, 0, 4, 0, 0, 0, 0, 0x40, 0]);
    data.extend_from_slice(&[0x00, 0x00, 0, 6, 0, 0]);
    assert_eq!(fix_composite_glyph(&mut g, &mut data, 1, 10), Ok(()));
    assert_eq!(tt_find_glyph(&g, 4), 1);
    assert_eq!(tt_find_glyph(&g, 6), 2);
    assert_eq!(&data[12..14], &[0, 1]);
    assert_eq!(&data[22..24], &[0, 2]);
    let mut cut = vec![0xff, 0xff, 0, 0, 0, 0, 0, 0, 0, 0, 0x00, 0x20, 0, 4];
    let mut g2 = tt_build_init();
    assert_eq!(fix_composite_glyph(&mut g2, &mut cut, 1, 10), Err(BuildError::InvalidGlyphData(1)));
}
