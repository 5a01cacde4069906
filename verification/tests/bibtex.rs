use tectonic::bibtex::hash::{compute_hash_prime, StrTable};
use tectonic::bibtex::lex::{char_width, control_seq, id_class, lex_class, lower_case, upper_case, IdType, LexType};
use tectonic::bibtex::scan::{int_to_ASCII, ScanResult, Scanner};
use tectonic::bibtex::sort::{less_than, quick_sort, sort_cites};
use tectonic::bibtex::text::{
    add_period, chr_to_int, int_to_chr, name_scan_for_and, num_names, purify, substring, text_length,
    text_prefix, width,
};
use tectonic::bibtex::{badness, BibtexConfig};

fn v(s: &str) -> Vec<u8> {
    s.as_bytes().to_vec()
}

fn scanner(s: &str) -> Scanner {
    let mut buffer = v(s);
    let last = buffer.len();
    buffer.push(b'\n');
    Scanner { buffer, last, buf_ptr1: 0, buf_ptr2: 0 }
}

#[test]
fn byte_classes() {
    assert_eq!(lex_class(b'a'), LexType::Alpha);
    assert_eq!(lex_class(b' '), LexType::WhiteSpace);
    assert_eq!(lex_class(b'7'), LexType::Numeric);
    assert_eq!(lex_class(b'~'), LexType::SepChar);
    assert_eq!(lex_class(b'-'), LexType::SepChar);
    assert_eq!(lex_class(b','), LexType::OtherLex);
    assert_eq!(lex_class(0x7f), LexType::Illegal);
    assert_eq!(lex_class(0xe9), LexType::Alpha);
    assert_eq!(id_class(b'{'), IdType::Illegal);
    assert_eq!(id_class(b'%'), IdType::Illegal);
    assert_eq!(id_class(b'.'), IdType::Legal);
}

#[test]
fn control_sequences_of_special_characters() {
    let b = v("oeOEssix");
    assert_eq!(control_seq(&b, 0, 2), Some(2));
    assert_eq!(control_seq(&b, 2, 4), Some(3));
    assert_eq!(control_seq(&b, 4, 6), Some(12));
    assert_eq!(control_seq(&b, 6, 7), Some(0));
    assert_eq!(control_seq(&b, 7, 8), None);
}

#[test]
fn character_widths() {
    assert_eq!(char_width(b'a'), 500);
    assert_eq!(char_width(b'W'), 1028);
    assert_eq!(char_width(b' '), 278);
    assert_eq!(char_width(0x80), 0);
}

#[test]
fn case_conversion_of_a_range() {
    let mut b = v("Hello World");
    lower_case(&mut b, 0, 5);
    assert_eq!(b, v("hello World"));
    upper_case(&mut b, 6, 5);
    assert_eq!(b, v("hello WORLD"));
}

#[test]
fn text_length_counts_special_characters_once() {
    assert_eq!(text_length(&v("{\\ae}x")), 2);
    assert_eq!(text_length(&v("ab{cd}")), 4);
    assert_eq!(text_length(&v("")), 0);
}

#[test]
fn text_prefix_closes_open_braces() {
    assert_eq!(text_prefix(&v("abc"), 2), v("ab"));
    assert_eq!(text_prefix(&v("{ab}c"), 1), v("{a}"));
    assert_eq!(text_prefix(&v("abc"), 0), v(""));
    assert_eq!(text_prefix(&v("abc"), 10), v("abc"));
}

#[test]
fn add_period_adds_a_missing_period() {
    assert_eq!(add_period(&v("abc")), v("abc."));
    assert_eq!(add_period(&v("abc.")), v("abc."));
    assert_eq!(add_period(&v("Why?}")), v("Why?}"));
    assert_eq!(add_period(&v("a{b}")), v("a{b}."));
    assert_eq!(add_period(&v("")), v(""));
}

#[test]
fn substrings() {
    assert_eq!(substring(&v("abcdef"), 2, 3), v("bcd"));
    assert_eq!(substring(&v("abcdef"), -1, 2), v("ef"));
    assert_eq!(substring(&v("abcdef"), -2, 3), v("cde"));
    assert_eq!(substring(&v("abcdef"), 1, 10), v("abcdef"));
    assert_eq!(substring(&v("abcdef"), 0, 3), v(""));
    assert_eq!(substring(&v("abcdef"), 5, 9), v("ef"));
}

#[test]
fn characters_and_codes() {
    assert_eq!(chr_to_int(&v("A")), Some(65));
    assert_eq!(chr_to_int(&v("AB")), None);
    assert_eq!(int_to_chr(97), Some(v("a")));
    assert_eq!(int_to_chr(300), None);
    assert_eq!(int_to_chr(127), Some(vec![127]));
    assert_eq!(int_to_chr(128), None);
    assert_eq!(int_to_chr(-1), None);
}

#[test]
fn purify_keeps_letters_and_digits() {
    assert_eq!(purify(&v("A-b c")), v("A b c"));
    assert_eq!(purify(&v("x,y.z1")), v("xyz1"));
    assert_eq!(purify(&v("a{\\ss}b")), v("assb"));
    assert_eq!(purify(&v("{\\'e}t")), v("et"));
}

#[test]
fn width_adds_character_widths() {
    assert_eq!(width(&v("abc")), 1500);
    assert_eq!(width(&v("")), 0);
}

#[test]
fn names_are_counted() {
    assert_eq!(num_names(&v("Smith and Jones")), 2);
    assert_eq!(num_names(&v("A and B AND C")), 3);
    assert_eq!(num_names(&v("{A and B}")), 1);
    assert_eq!(num_names(&v("Band")), 1);
    assert_eq!(name_scan_for_and(&v("X and Y"), 0), (5, 0));
}

#[test]
fn scanner_scans_up_to_given_bytes() {
    let mut s = scanner("abc,def");
    assert!(s.scan1(b','));
    assert_eq!((s.buf_ptr1, s.buf_ptr2), (0, 3));
    let mut s = scanner("abc");
    assert!(!s.scan2(b',', b';'));
    assert_eq!(s.buf_ptr2, 3);
    let mut s = scanner("ab cd");
    assert!(s.scan1_white(b'x'));
    assert_eq!(s.buf_ptr2, 2);
    assert!(s.scan_white_space());
    assert_eq!(s.buf_ptr2, 3);
    assert!(s.scan_alpha());
    assert_eq!((s.buf_ptr1, s.buf_ptr2), (3, 5));
}

#[test]
fn scanner_reads_identifiers() {
    let mut s = scanner("entry{x");
    assert_eq!(s.scan_identifier(b'{', b'(', b'('), ScanResult::SpecifiedCharAdjacent);
    assert_eq!(s.buf_ptr2, 5);
    let mut s = scanner("9abc");
    assert_eq!(s.scan_identifier(b'{', b'(', b'('), ScanResult::IdNull);
    let mut s = scanner("abc def");
    assert_eq!(s.scan_identifier(b'{', b'(', b'('), ScanResult::WhiteAdjacent);
    let mut s = scanner("abc=");
    assert_eq!(s.scan_identifier(b'{', b'(', b'('), ScanResult::OtherCharAdjacent);
}

#[test]
fn scanner_reads_integers() {
    let mut s = scanner("-42 x");
    assert_eq!(s.scan_integer(), Some(-42));
    assert_eq!(s.buf_ptr2, 3);
    let mut s = scanner("17");
    assert_eq!(s.scan_integer(), Some(17));
    let mut s = scanner("-x");
    assert_eq!(s.scan_integer(), None);
    assert_eq!(s.buf_ptr2, 1);
    let mut s = scanner("123a");
    assert!(s.scan_nonneg_integer());
    assert_eq!(s.buf_ptr2, 3);
}

#[test]
fn integers_are_written_and_read_back() {
    let mut buf = vec![b'.'; 12];
    let end = int_to_ASCII(-305, &mut buf, 2);
    assert_eq!(end, 6);
    assert_eq!(buf, v("..-305......"));
    let end = int_to_ASCII(0, &mut buf, 7);
    assert_eq!(end, 8);
    let mut s = Scanner { buffer: buf.clone(), last: 6, buf_ptr1: 0, buf_ptr2: 2 };
    assert_eq!(s.scan_integer(), Some(-305));
}

#[test]
fn citations_sort_by_key_then_number() {
    let keys = vec![v("smith"), v("jones"), v("smith"), v("jon"), vec![b'a', 127, b'z']];
    assert!(less_than(&keys, 1, 0));
    assert!(less_than(&keys, 3, 1));
    assert!(less_than(&keys, 0, 2));
    assert!(!less_than(&keys, 2, 0));
    assert!(less_than(&keys, 4, 3));
    assert_eq!(sort_cites(&keys, vec![0, 1, 2, 3, 4]), vec![4, 3, 1, 0, 2]);
    assert_eq!(sort_cites(&keys, vec![2, 0]), vec![0, 2]);
}

#[test]
fn hash_prime_is_the_next_prime() {
    // 35307 / 20 * 17 = 30005; the next prime is 30011.
    assert_eq!(compute_hash_prime(35307), 30011);
    assert_eq!(compute_hash_prime(0), 2);
    assert_eq!(compute_hash_prime(100), 89);
}

#[test]
fn config_holds_the_crossref_minimum() {
    let c = BibtexConfig { min_crossrefs: 2 };
    assert_eq!(c.min_crossrefs, 2);
}

#[test]
fn add_period_twice_adds_once() {
    for s in ["abc", "abc.", "", "}}", "a{b}", "why?"] {
        let once = add_period(&v(s));
        assert_eq!(add_period(&once), once);
    }
    assert_eq!(add_period(&v("a{b}")), v("a{b}."));
    assert_eq!(add_period(&v("}}")), v("}}."));
}

#[test]
fn strings_are_stored_once_per_kind() {
    let mut t = StrTable::new(10, 7).unwrap();
    let buf = v("abc");
    assert_eq!(t.str_lookup(&buf, 0, 3, 1, true), (5, false));
    assert_eq!(t.str_lookup(&buf, 0, 3, 1, true), (5, true));
    assert_eq!(t.str_lookup(&buf, 0, 3, 1, false), (5, true));
    assert_eq!(t.str_lookup(&buf, 0, 3, 2, false), (5, false));
    assert_eq!(t.str_lookup(&buf, 0, 3, 2, true), (10, false));
    assert_eq!(t.hash_text(10), t.hash_text(5));
    assert_eq!(t.string(t.hash_text(5)), buf);
    assert_eq!(t.hash_ilk(10), 2);
    assert_eq!(t.hash_ilk(5), 1);
}

#[test]
fn colliding_strings_are_chained() {
    let mut t = StrTable::new(10, 7).unwrap();
    let buf = v("xabcf");
    assert_eq!(t.str_lookup(&buf, 1, 3, 1, true), (5, false));
    assert_eq!(t.str_lookup(&buf, 4, 1, 1, true), (10, false));
    assert_eq!(t.str_lookup(&buf, 4, 1, 1, false), (10, true));
    assert_eq!(t.str_lookup(&buf, 1, 3, 1, false), (5, true));
    assert_eq!(t.string(t.hash_text(10)), v("f"));
    assert_ne!(t.hash_text(10), t.hash_text(5));
}

#[test]
fn a_full_table_has_no_free_slot() {
    assert!(StrTable::new(0, 1).is_none());
    assert!(StrTable::new(5, 6).is_none());
    assert!(StrTable::new(5, 0).is_none());
    let mut t = StrTable::new(2, 1).unwrap();
    assert!(t.has_free_slot());
    assert_eq!(t.str_lookup(&v("a"), 0, 1, 0, true), (1, false));
    assert!(t.has_free_slot());
    assert_eq!(t.str_lookup(&v("b"), 0, 1, 0, true), (2, false));
    assert!(!t.has_free_slot());
    assert_eq!(t.str_lookup(&v("c"), 0, 1, 0, false), (2, false));
}

#[test]
fn long_citation_lists_are_partitioned_and_sorted() {
    let names = [
        "walker", "adams", "nguyen", "brown", "smith", "adams", "lee", "garcia", "zhou", "kim", "adams",
        "baker", "young", "clark", "hall", "lopez", "allen", "king", "wright", "scott", "green",
    ];
    let keys: Vec<Vec<u8>> = names.iter().map(|s| v(s)).collect();
    let input: Vec<usize> = (0..names.len()).rev().collect();
    let out = sort_cites(&keys, input);
    let mut expected: Vec<usize> = (0..names.len()).collect();
    expected.sort_by(|a, b| names[*a].cmp(names[*b]).then(a.cmp(b)));
    assert_eq!(out, expected);
    let mut v2: Vec<usize> = vec![3, 1, 4, 0, 5, 9, 2, 6, 8, 7, 10, 20, 15, 11, 19, 12, 18, 13, 17, 14, 16];
    quick_sort(&keys, &mut v2, 0, 21);
    assert_eq!(v2, expected);
    let mut v3: Vec<usize> = vec![9, 8, 7, 6, 5];
    quick_sort(&keys, &mut v3, 1, 4);
    assert_eq!(v3, vec![9, 7, 6, 8, 5]);
    // what lies outside the range is left as it is, whatever it holds
    let mut v4: Vec<usize> = vec![999, 999, 12, 0, 5, 999];
    quick_sort(&keys, &mut v4, 2, 5);
    assert_eq!(v4, vec![999, 999, 5, 0, 12, 999]);
}

#[test]
fn predefined_strings_are_found() {
    let mut t = StrTable::new(100, 83).unwrap();
    let loc = t.pre_define(&v("entry"), 4);
    assert_eq!(t.str_lookup(&v("entry"), 0, 5, 4, false), (loc, true));
    assert_eq!(t.pre_define(&v("entry"), 4), loc);
    assert_eq!(t.string(t.hash_text(loc)), v("entry"));
}

#[test]
fn badness_codes_each_fault_by_a_digit() {
    assert_eq!(badness(20000, 4253, 5000, 5000, 750), 0);
    assert_eq!(badness(50, 100, 50, 60, 70), 34578);
    assert_eq!(badness(20000, 100, 5000, 5000, 750), 4);
}

#[test]
fn a_present_string_is_found_in_a_full_table() {
    let mut t = StrTable::new(1, 1).unwrap();
    assert_eq!(t.str_lookup(&v("q"), 0, 1, 3, true), (1, false));
    assert!(!t.has_free_slot());
    assert_eq!(t.str_lookup(&v("q"), 0, 1, 3, true), (1, true));
    assert_eq!(t.num_strings(), 2);
}

#[test]
fn a_new_string_takes_the_highest_free_slot_off_its_chain() {
    let mut t = StrTable::new(10, 7).unwrap();
    let buf = v("abc");
    // slot 5 is the head of the chain of "abc"; another kind of it goes to
    // the highest free slot and shares its text
    let n = t.num_strings();
    assert_eq!(t.str_lookup(&buf, 0, 3, 1, true), (5, false));
    assert_eq!(t.num_strings(), n + 1);
    assert_eq!(t.str_lookup(&buf, 0, 3, 4, true), (10, false));
    assert_eq!(t.num_strings(), n + 1);
    assert_eq!(t.str_lookup(&buf, 0, 3, 6, true), (9, false));
    assert_eq!(t.num_strings(), n + 1);
}

#[test]
fn plain_text_is_purified_and_measured_character_by_character() {
    assert_eq!(purify(&v("a-b c}d!~9")), v("a b cd 9"));
    let s = v("Ab}x");
    let sum: i32 = s.iter().map(|&c| char_width(c)).sum();
    assert_eq!(width(&s), sum);
}

#[test]
fn special_characters_are_purified_and_measured_whole() {
    assert_eq!(purify(&v("{\\ss x}")), v("ssx"));
    assert_eq!(purify(&v("{\\\"o}ber-Ma{\\ss}")), v("ober Mass"));
    assert_eq!(width(&v("{\\AE.}")), 903 + char_width(b'.'));
    assert_eq!(width(&v("{\\q.}")), char_width(b'.'));
}

#[test]
fn a_special_char_counts_once_after_the_plain_text_before_it() {
    let s = b"ab{\\'e x}{cd}".to_vec();
    assert_eq!(tectonic::bibtex::text::text_length(&s), 5);
}

#[test]
fn a_special_char_purifies_to_its_control_letters_and_text() {
    assert_eq!(tectonic::bibtex::text::purify(&b"{\\ae 1-x}".to_vec()), b"ae1x".to_vec());
    assert_eq!(tectonic::bibtex::text::purify(&b"{\\'e}".to_vec()), b"e".to_vec());
    assert_eq!(tectonic::bibtex::text::purify(&b"{\\relax Q}".to_vec()), b"Q".to_vec());
}
