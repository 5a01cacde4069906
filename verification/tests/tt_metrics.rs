use tectonic::tt_glyf::{tt_add_glyph, tt_build_init};
use tectonic::tt_metrics::{tt_get_metrics, tt_head_table, tt_hhea_table, tt_longMetrics, tt_maxp_table, MetricsError};

fn head(fmt: i16) -> tt_head_table {
    tt_head_table {
        version: 0x10000,
        fontRevision: 0,
        checkSumAdjustment: 0,
        magicNumber: 0x5F0F3CF5,
        flags: 0,
        unitsPerEm: 1000,
        created: [0; 8],
        modified: [0; 8],
        xMin: 0,
        yMin: 0,
        xMax: 0,
        yMax: 0,
        macStyle: 0,
        lowestRecPPEM: 0,
        fontDirectionHint: 0,
        indexToLocFormat: fmt,
        glyphDataFormat: 0,
    }
}

fn hhea(format: i16) -> tt_hhea_table {
    tt_hhea_table {
        version: 0x10000,
        ascent: 800,
        descent: -200,
        lineGap: 0,
        advanceWidthMax: 0,
        minLeftSideBearing: 0,
        minRightSideBearing: 0,
        xMaxExtent: 0,
        caretSlopeRise: 1,
        caretSlopeRun: 0,
        caretOffset: 0,
        reserved: [0; 4],
        metricDataFormat: format,
        numOfLongHorMetrics: 3,
        numOfExSideBearings: 0,
    }
}

fn maxp(n: u16) -> tt_maxp_table {
    tt_maxp_table {
        version: 0x10000,
        numGlyphs: n,
        maxPoints: 0,
        maxContours: 0,
        maxComponentPoints: 0,
        maxComponentContours: 0,
        maxZones: 0,
        maxTwilightPoints: 0,
        maxStorage: 0,
        maxFunctionDefs: 0,
        maxInstructionDefs: 0,
        maxStackElements: 0,
        maxSizeOfInstructions: 0,
        maxComponentElements: 0,
        maxComponentDepth: 0,
    }
}

/// A font with a short `loca` at 0 (glyph 0 empty, glyph 1 of 12 bytes,
/// glyph 2 empty) and `glyf` at 8.
fn font() -> Vec<u8> {
    let mut f = vec![0, 0, 0, 0, 0, 6, 0, 6];
    // glyph 1: contours, then the bounding box -10, -20, 300, 700
    f.extend_from_slice(&[0, 1, 0xff, 0xf6, 0xff, 0xec, 0x01, 0x2c, 0x02, 0xbc, 0, 0]);
    f
}

fn hmtx() -> Vec<tt_longMetrics> {
    vec![
        tt_longMetrics { advance: 500, sideBearing: 0 },
        tt_longMetrics { advance: 600, sideBearing: -10 },
        tt_longMetrics { advance: 600, sideBearing: 5 },
    ]
}

#[test]
fn metrics_are_read_from_the_tables() {
    let mut g = tt_build_init();
    tt_add_glyph(&mut g, 1, 1);
    tt_add_glyph(&mut g, 2, 2);
    let r = tt_get_metrics(&mut g, &font(), &head(0), &hhea(0), &maxp(3), &hmtx(), None, 800, -200, 0, 8);
    assert_eq!(r, Ok(()));
    assert_eq!(g.emsize, 1000);
    assert_eq!(g.default_advh, 1000);
    assert_eq!(g.default_tsb, 200);
    let d = &g.gd[1];
    assert_eq!((d.advw, d.lsb, d.advh), (600, -10, 1000));
    assert_eq!(d.length, 12);
    assert_eq!((d.llx, d.lly, d.urx, d.ury), (-10, -20, 300, 700));
    // Without vmtx the top side bearing comes from the bounding box.
    assert_eq!(d.tsb, 1000 - 200 - 700);
    assert_eq!(g.gd[0].length, 0);
    assert_eq!(g.gd[0].tsb, 200);
    assert_eq!(g.dw, 600);
}

#[test]
fn vertical_metrics_come_from_vmtx() {
    let mut g = tt_build_init();
    tt_add_glyph(&mut g, 1, 1);
    let vmtx = vec![
        tt_longMetrics { advance: 900, sideBearing: 1 },
        tt_longMetrics { advance: 950, sideBearing: 2 },
        tt_longMetrics { advance: 990, sideBearing: 3 },
    ];
    let r = tt_get_metrics(&mut g, &font(), &head(0), &hhea(0), &maxp(3), &hmtx(), Some(&vmtx), 800, -200, 0, 8);
    assert_eq!(r, Ok(()));
    assert_eq!((g.gd[1].advh, g.gd[1].tsb), (950, 2));
}

#[test]
fn metric_errors() {
    let mut g = tt_build_init();
    assert_eq!(
        tt_get_metrics(&mut g, &font(), &head(0), &hhea(1), &maxp(3), &hmtx(), None, 800, -200, 0, 8),
        Err(MetricsError::UnknownMetricDataFormat)
    );
    let mut g = tt_build_init();
    assert_eq!(
        tt_get_metrics(&mut g, &font(), &head(2), &hhea(0), &maxp(3), &hmtx(), None, 800, -200, 0, 8),
        Err(MetricsError::UnknownIndexToLocFormat)
    );
    let mut g = tt_build_init();
    tt_add_glyph(&mut g, 7, 1);
    assert_eq!(
        tt_get_metrics(&mut g, &font(), &head(0), &hhea(0), &maxp(3), &hmtx(), None, 800, -200, 0, 8),
        Err(MetricsError::InvalidGlyphIndex(7))
    );
    // A glyph of 4 bytes cannot hold a bounding box.
    let mut short = font();
    short[5] = 2;
    short[7] = 2;
    let mut g = tt_build_init();
    tt_add_glyph(&mut g, 1, 1);
    assert_eq!(
        tt_get_metrics(&mut g, &short, &head(0), &hhea(0), &maxp(3), &hmtx(), None, 800, -200, 0, 8),
        Err(MetricsError::InvalidGlyphData(1))
    );
}
