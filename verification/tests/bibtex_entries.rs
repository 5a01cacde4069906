use tectonic::bibtex::cite::{cite_key, find_cite_locs_for_this_cite_key, Cites};
use tectonic::bibtex::entries::{keep_cited_entries, ReadCites};
use tectonic::bibtex::hash::StrTable;

fn key_loc(t: &mut StrTable, k: &str) -> usize {
    let (loc, found, _, _) = find_cite_locs_for_this_cite_key(t, &k.as_bytes().to_vec());
    assert!(found);
    loc
}

#[test]
fn only_cited_entries_with_enough_cross_references_are_kept() {
    let mut t = StrTable::new(100, 83).unwrap();
    let mut c = Cites { cite_list: Vec::new(), all_entries: false, all_marker: 0 };
    for k in ["a", "b", "c", "d", "e"] {
        assert_eq!(cite_key(&mut t, &mut c, &k.as_bytes().to_vec()), Ok(()));
    }
    // "a" and "b" were cited before the database was read; "b" has no
    // entry; "c" is cross-referenced twice, "d" once, "e" three times.
    let mut rc = ReadCites {
        cite_list: c.cite_list.clone(),
        type_list: vec![7, 0, 7, 7, 8],
        cite_info: vec![0, 0, 2, 1, 3],
        field_info: vec![11, 12, 21, 22, 31, 32, 41, 42, 51, 52],
    };
    let (missing, missing_all) = keep_cited_entries(&mut t, &mut rc, 2, 2, false, 0, &vec![], 2);
    assert_eq!(missing, vec![c.cite_list[1]]);
    assert!(missing_all.is_empty());
    assert_eq!(rc.cite_list, vec![c.cite_list[0], c.cite_list[2], c.cite_list[4]]);
    assert_eq!(rc.type_list, vec![7, 7, 8]);
    assert_eq!(rc.cite_info, vec![0, 1, 2]);
    assert_eq!(rc.field_info, vec![11, 12, 31, 32, 51, 52]);
    // the moved citations are found under their new numbers
    let la = key_loc(&mut t, "a");
    let lc = key_loc(&mut t, "c");
    let le = key_loc(&mut t, "e");
    assert_eq!(t.ilk_info(la), 0);
    assert_eq!(t.ilk_info(lc), 1);
    assert_eq!(t.ilk_info(le), 2);
}

#[test]
fn with_the_whole_database_cited_every_entry_is_kept() {
    let mut t = StrTable::new(100, 83).unwrap();
    let mut c = Cites { cite_list: Vec::new(), all_entries: true, all_marker: 0 };
    for k in ["x", "y", "z"] {
        assert_eq!(cite_key(&mut t, &mut c, &k.as_bytes().to_vec()), Ok(()));
    }
    let mut rc = ReadCites {
        cite_list: c.cite_list.clone(),
        type_list: vec![0, 5, 5],
        cite_info: vec![c.cite_list[0] as i32, c.cite_list[1] as i32, 0],
        field_info: vec![1, 2, 3],
    };
    let (missing, missing_all) = keep_cited_entries(&mut t, &mut rc, 1, 2, true, 0, &vec![false, true], 9);
    assert_eq!(missing, vec![c.cite_list[0]]);
    assert_eq!(missing_all, vec![c.cite_list[0] as i32]);
    assert_eq!(rc.type_list, vec![5, 5]);
    assert_eq!(rc.field_info, vec![2, 3]);
    assert_eq!(rc.cite_info, vec![0, 1]);
    let ly = key_loc(&mut t, "y");
    assert_eq!(t.ilk_info(ly), 0);
}
