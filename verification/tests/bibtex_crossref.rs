use tectonic::bibtex::cite::{cite_key, Cites};
use tectonic::bibtex::crossref::{process_crossrefs, CrossrefNote};
use tectonic::bibtex::entries::ReadCites;
use tectonic::bibtex::hash::StrTable;

fn text(t: &mut StrTable, s: &str) -> usize {
    let b = s.as_bytes().to_vec();
    let (loc, _) = t.str_lookup(&b, 0, b.len(), 0, true);
    t.hash_text(loc)
}

fn setup() -> (StrTable, Cites) {
    let mut t = StrTable::new(100, 83).unwrap();
    let mut c = Cites { cite_list: Vec::new(), all_entries: false, all_marker: 0 };
    for k in ["a", "b", "c"] {
        assert_eq!(cite_key(&mut t, &mut c, &k.as_bytes().to_vec()), Ok(()));
    }
    (t, c)
}

#[test]
fn fields_are_inherited_and_weak_cross_references_dropped() {
    let (mut t, c) = setup();
    let xb = text(&mut t, "B");
    let tb = text(&mut t, "Title B");
    let ya = text(&mut t, "1990");
    let yb = text(&mut t, "1991");
    let tc = text(&mut t, "Title C");
    let mut rc = ReadCites {
        cite_list: c.cite_list.clone(),
        type_list: vec![7, 7, 7],
        cite_info: vec![0, 1, 0],
        field_info: vec![xb, 0, ya, 0, tb, yb, 0, tc, 0],
    };
    let (notes, missing, missing_all) = process_crossrefs(&mut t, &mut rc, 3, 0, 1, 1, false, 0, &vec![false], 2);
    assert!(notes.is_empty());
    assert!(missing.is_empty());
    assert!(missing_all.is_empty());
    // only "a" is kept: "b" is cross-referenced once, fewer than 2 times,
    // so the cross reference to it is dropped, but its title was inherited
    assert_eq!(rc.cite_list, vec![c.cite_list[0]]);
    assert_eq!(rc.field_info, vec![0, tb, ya]);
}

#[test]
fn enough_cross_references_keep_the_entry() {
    let (mut t, c) = setup();
    let xb = text(&mut t, "B");
    let tb = text(&mut t, "Title B");
    let mut rc = ReadCites {
        cite_list: c.cite_list.clone(),
        type_list: vec![7, 7, 7],
        cite_info: vec![0, 1, 0],
        field_info: vec![xb, 0, 0, 0, tb, 0, 0, 0, 0],
    };
    let (notes, _, _) = process_crossrefs(&mut t, &mut rc, 3, 0, 1, 1, false, 0, &vec![false], 1);
    assert!(notes.is_empty());
    assert_eq!(rc.cite_list, vec![c.cite_list[0], c.cite_list[1]]);
    // the cross reference now names the key as it was cited
    assert_eq!(rc.field_info, vec![c.cite_list[1], tb, 0, 0, tb, 0]);
}

#[test]
fn bad_and_nested_cross_references_are_reported() {
    let (mut t, c) = setup();
    let xz = text(&mut t, "zz");
    let xc = text(&mut t, "c");
    let mut rc = ReadCites {
        cite_list: c.cite_list.clone(),
        type_list: vec![7, 7, 0],
        cite_info: vec![0, 0, 1],
        field_info: vec![xz, 0, xc, 0, 0, 0],
    };
    let (notes, missing, _) = process_crossrefs(&mut t, &mut rc, 2, 0, 1, 3, false, 0, &vec![false, false, false], 1);
    assert_eq!(
        notes,
        vec![CrossrefNote::Nonexistent(c.cite_list[0], xz), CrossrefNote::Nonexistent(c.cite_list[1], c.cite_list[2])]
    );
    assert_eq!(missing, vec![c.cite_list[2]]);
    assert_eq!(rc.field_info, vec![0, 0, 0, 0]);
}

#[test]
fn nested_cross_references_are_reported() {
    let (mut t, c) = setup();
    let xb = text(&mut t, "b");
    let xc = text(&mut t, "c");
    let mut rc = ReadCites {
        cite_list: c.cite_list.clone(),
        type_list: vec![7, 7, 7],
        cite_info: vec![0, 1, 1],
        field_info: vec![xb, 0, xc, 0, 0, 0],
    };
    let (notes, _, _) = process_crossrefs(&mut t, &mut rc, 2, 0, 1, 3, false, 0, &vec![false, false, false], 1);
    assert_eq!(notes, vec![CrossrefNote::Nested(c.cite_list[0], c.cite_list[1])]);
    assert_eq!(rc.field_info, vec![xb, 0, xc, 0, 0, 0]);
}
