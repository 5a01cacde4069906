use tectonic::bibtex::cite::{aux_citation_command, cite_key, find_cite_locs_for_this_cite_key, AuxError, Cites};
use tectonic::bibtex::hash::StrTable;
use tectonic::bibtex::scan::Scanner;

fn line(s: &str) -> Scanner {
    let mut buffer = s.as_bytes().to_vec();
    let last = buffer.len();
    buffer.push(b' ');
    let brace = s.find('{').unwrap();
    Scanner { buffer, last, buf_ptr1: 0, buf_ptr2: brace }
}

fn fresh() -> (StrTable, Cites) {
    (StrTable::new(100, 83).unwrap(), Cites { cite_list: Vec::new(), all_entries: false, all_marker: 0 })
}

#[test]
fn citations_are_entered_once() {
    let (mut t, mut c) = fresh();
    assert_eq!(aux_citation_command(&mut t, &mut c, &mut line("\\citation{Knuth84,lamport}")), Ok(()));
    assert_eq!(c.cite_list.len(), 2);
    assert_eq!(t.string(c.cite_list[0]), b"Knuth84".to_vec());
    assert_eq!(t.string(c.cite_list[1]), b"lamport".to_vec());
    let (loc, found, lc_loc, lc_found) = find_cite_locs_for_this_cite_key(&mut t, &b"Knuth84".to_vec());
    assert!(found && lc_found);
    assert_eq!(t.ilk_info(lc_loc), loc as i32);
    assert_eq!(t.ilk_info(loc), 0);
    let (_, found, _, lc_found) = find_cite_locs_for_this_cite_key(&mut t, &b"knuth84".to_vec());
    assert!(!found && lc_found);
    assert_eq!(aux_citation_command(&mut t, &mut c, &mut line("\\citation{Knuth84}")), Ok(()));
    assert_eq!(c.cite_list.len(), 2);
}

#[test]
fn keys_differing_in_case_are_an_error() {
    let (mut t, mut c) = fresh();
    assert_eq!(cite_key(&mut t, &mut c, &b"Knuth84".to_vec()), Ok(()));
    assert_eq!(aux_citation_command(&mut t, &mut c, &mut line("\\citation{KNUTH84}")), Err(AuxError::CaseMismatch));
    assert_eq!(c.cite_list.len(), 1);
}

#[test]
fn the_whole_database_is_cited_once() {
    let (mut t, mut c) = fresh();
    assert_eq!(aux_citation_command(&mut t, &mut c, &mut line("\\citation{a,*,b}")), Ok(()));
    assert!(c.all_entries);
    assert_eq!(c.all_marker, 1);
    assert_eq!(c.cite_list.len(), 2);
    assert_eq!(aux_citation_command(&mut t, &mut c, &mut line("\\citation{*}")), Err(AuxError::MultipleAllEntries));
}

#[test]
fn malformed_arguments_are_errors() {
    let (mut t, mut c) = fresh();
    assert_eq!(aux_citation_command(&mut t, &mut c, &mut line("\\citation{a b}")), Err(AuxError::WhiteSpaceInArgument));
    assert_eq!(c.cite_list.len(), 0);
    assert_eq!(aux_citation_command(&mut t, &mut c, &mut line("\\citation{x,y")), Err(AuxError::NoRightBrace));
    assert_eq!(c.cite_list.len(), 1);
    assert_eq!(aux_citation_command(&mut t, &mut c, &mut line("\\citation{z} more")), Err(AuxError::StuffAfterRightBrace));
    assert_eq!(c.cite_list.len(), 1);
}

#[test]
fn a_full_table_stops_the_citations() {
    let mut t = StrTable::new(3, 2).unwrap();
    let mut c = Cites { cite_list: Vec::new(), all_entries: false, all_marker: 0 };
    assert_eq!(cite_key(&mut t, &mut c, &b"a".to_vec()), Ok(()));
    assert_eq!(cite_key(&mut t, &mut c, &b"b".to_vec()), Err(AuxError::HashOverflow));
}

#[test]
fn citations_keep_the_order_written_and_skip_repeats() {
    let (mut t, mut c) = fresh();
    assert_eq!(aux_citation_command(&mut t, &mut c, &mut line("\\citation{b,a}")), Ok(()));
    assert_eq!(aux_citation_command(&mut t, &mut c, &mut line("\\citation{c,a,d,c,*,e}")), Ok(()));
    let keys: Vec<Vec<u8>> = c.cite_list.iter().map(|&n| t.string(n)).collect();
    assert_eq!(keys, vec![b"b".to_vec(), b"a".to_vec(), b"c".to_vec(), b"d".to_vec(), b"e".to_vec()]);
    assert!(c.all_entries);
    assert_eq!(c.all_marker, 4);
}

#[test]
fn a_case_clash_within_a_command_stops_it_after_the_keys_before() {
    let (mut t, mut c) = fresh();
    assert_eq!(aux_citation_command(&mut t, &mut c, &mut line("\\citation{x,Ab,*,AB,y}")), Err(AuxError::CaseMismatch));
    let keys: Vec<Vec<u8>> = c.cite_list.iter().map(|&n| t.string(n)).collect();
    assert_eq!(keys, vec![b"x".to_vec(), b"Ab".to_vec()]);
    assert!(c.all_entries);
    assert_eq!(c.all_marker, 2);
}
