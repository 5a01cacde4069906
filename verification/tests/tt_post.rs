use tectonic::tt_post::{
    mac_glyph_name_of, read_v2_post_names, tt_get_glyphname, tt_lookup_post_table, tt_read_post_table,
    tt_release_post_table,
};

fn header(version: u32) -> Vec<u8> {
    let mut v = version.to_be_bytes().to_vec();
    v.extend_from_slice(&[0, 0, 0, 0]); // italic angle
    v.extend_from_slice(&[0xff, 0x9c]); // underline position -100
    v.extend_from_slice(&[0, 50]); // underline thickness
    v.extend_from_slice(&[0, 0, 0, 1]); // fixed pitch
    v.extend_from_slice(&[0; 16]);
    v
}

fn v2_table() -> Vec<u8> {
    let mut v = header(0x20000);
    v.extend_from_slice(&[0, 3]); // three glyphs
    v.extend_from_slice(&[0, 0]); // .notdef
    v.extend_from_slice(&[1, 2]); // 258: first added name
    v.extend_from_slice(&[0, 36]); // "A"
    v.push(5);
    v.extend_from_slice(b"alpha");
    v
}

#[test]
fn mac_names_are_known() {
    assert_eq!(mac_glyph_name_of(0), b".notdef".to_vec());
    assert_eq!(mac_glyph_name_of(3), b"space".to_vec());
    assert_eq!(mac_glyph_name_of(36), b"A".to_vec());
}

#[test]
fn version_two_tables_are_read() {
    let t = tt_read_post_table(&v2_table()).unwrap();
    assert_eq!(t.Version, 0x20000);
    assert_eq!(t.underlinePosition, -100);
    assert_eq!(t.underlineThickness, 50);
    assert_eq!(t.isFixedPitch, 1);
    assert_eq!(t.numberOfGlyphs, 3);
    assert_eq!(t.count, 1);
    assert_eq!(tt_get_glyphname(&t, 0), b".notdef".to_vec());
    // Every glyph of the table has its name looked up.
    assert_eq!(tt_get_glyphname(&t, 1), b"alpha".to_vec());
    assert_eq!(tt_get_glyphname(&t, 2), b"A".to_vec());
    assert_eq!(tt_get_glyphname(&t, 3), Vec::<u8>::new());
    assert_eq!(t.glyphNamePtr[1], Some(b"alpha".to_vec()));
    assert_eq!(t.glyphNamePtr[2], Some(b"A".to_vec()));
    assert_eq!(tt_lookup_post_table(&t, b".notdef"), 0);
    assert_eq!(tt_lookup_post_table(&t, b"alpha"), 1);
    assert_eq!(tt_lookup_post_table(&t, b"A"), 2);
    assert_eq!(tt_lookup_post_table(&t, b"B"), 0);
    tt_release_post_table(t);
}

#[test]
fn version_one_tables_use_the_mac_names() {
    let t = tt_read_post_table(&header(0x10000)).unwrap();
    assert_eq!(t.numberOfGlyphs, 258);
    assert_eq!(t.count, 0);
    assert_eq!(t.glyphNamePtr[3], Some(b"space".to_vec()));
    assert_eq!(tt_get_glyphname(&t, 3), b"space".to_vec());
    assert_eq!(tt_lookup_post_table(&t, b"space"), 3);
    assert_eq!(tt_lookup_post_table(&t, b"A"), 36);
}

#[test]
fn version_three_tables_have_no_names() {
    let t = tt_read_post_table(&header(0x30000)).unwrap();
    assert_eq!(t.numberOfGlyphs, 0);
    assert!(t.glyphNamePtr.is_empty());
}

#[test]
fn truncated_names_make_no_table() {
    let mut v = v2_table();
    v.truncate(v.len() - 2);
    assert!(tt_read_post_table(&v).is_none());
}

#[test]
fn lookup_finds_added_names() {
    let mut v = header(0x20000);
    v.extend_from_slice(&[0, 2]);
    v.extend_from_slice(&[1, 3]); // 259
    v.extend_from_slice(&[1, 2]); // 258
    v.push(1);
    v.extend_from_slice(b"x");
    v.push(1);
    v.extend_from_slice(b"y");
    let mut t = tt_read_post_table(&v).unwrap();
    assert_eq!(t.count, 2);
    assert_eq!(tt_lookup_post_table(&t, b"y"), 0);
    assert_eq!(tt_lookup_post_table(&t, b"x"), 1);
    assert_eq!(tt_get_glyphname(&t, 0), b"y".to_vec());
    assert_eq!(read_v2_post_names(&mut t, &v), 0);
    assert_eq!(t.count, 2);
}
