use tectonic::bibtex::field::{split_lines, BibInput, FieldError, FieldTarget, MACRO_ILK, TEXT_ILK};
use tectonic::bibtex::hash::StrTable;
use tectonic::bibtex::stack::{x_preamble, Lit, LitStack};

fn v(s: &str) -> Vec<u8> {
    s.as_bytes().to_vec()
}

/// An input whose first line is loaded and whose next byte is the first
/// one that is not white space.
fn input(lines: &[&str]) -> BibInput {
    let mut b = BibInput::new(lines.iter().map(|l| v(l)).collect());
    assert!(b.eat_bib_white_space());
    b
}

fn next_byte(b: &BibInput) -> u8 {
    b.scan.buffer[b.scan.buf_ptr2]
}

/// A table with the macro `jan` whose text is `January`.
fn table_with_jan() -> (StrTable, usize) {
    let mut t = StrTable::new(100, 83).unwrap();
    let jan = t.pre_define(&v("jan"), MACRO_ILK);
    let text = t.pre_define(&v("January"), TEXT_ILK);
    let n = t.hash_text(text);
    t.set_ilk_info(jan, n as i32);
    (t, jan)
}

fn stored_text(t: &StrTable, loc: usize) -> Vec<u8> {
    t.string(t.hash_text(loc))
}

#[test]
fn split_lines_breaks_at_line_feeds_and_returns() {
    let lines = split_lines(&v("a\nb\r\nc"));
    assert_eq!(lines, vec![v("a"), v("b"), v(""), v("c")]);
    assert_eq!(split_lines(&v("")), Vec::<Vec<u8>>::new());
    assert_eq!(split_lines(&v("a\n")), vec![v("a")]);
    assert_eq!(split_lines(&v("\n\n")), vec![v(""), v("")]);
}

#[test]
fn input_ln_drops_trailing_white_space() {
    let mut b = BibInput::new(vec![v("abc  \t "), v("x")]);
    assert!(b.input_ln());
    assert_eq!(b.scan.last, 3);
    assert_eq!(&b.scan.buffer[0..3], b"abc");
    assert_eq!(b.next, 1);
    assert!(b.input_ln());
    assert_eq!(b.next, 2);
    assert!(!b.input_ln());
    assert_eq!(b.scan.last, 0);
}

#[test]
fn eat_white_space_runs_across_lines() {
    let mut b = BibInput::new(vec![v("   "), v(""), v("  x")]);
    assert!(b.eat_bib_white_space());
    assert_eq!(b.next, 3);
    assert_eq!(next_byte(&b), b'x');
    let mut e = BibInput::new(vec![v("  "), v("\t")]);
    assert!(!e.eat_bib_white_space());
}

#[test]
fn braced_value_squeezes_white_space() {
    let mut b = input(&["{Hello   World}  ,"]);
    let mut ex = Vec::new();
    assert_eq!(b.scan_balanced_braces(b'}', true, &mut ex, 100), Ok(()));
    assert_eq!(ex, v("Hello World"));
    assert_eq!(b.scan.buf_ptr2, 15);
}

#[test]
fn braced_value_runs_over_lines() {
    let mut b = input(&["{Hello", "   World}"]);
    let mut ex = Vec::new();
    assert_eq!(b.scan_balanced_braces(b'}', true, &mut ex, 100), Ok(()));
    assert_eq!(ex, v("Hello World"));
}

#[test]
fn nested_braces_are_kept() {
    let mut b = input(&["{a {B  c} d}"]);
    let mut ex = Vec::new();
    assert_eq!(b.scan_balanced_braces(b'}', true, &mut ex, 100), Ok(()));
    assert_eq!(ex, v("a {B c} d"));
}

#[test]
fn quoted_value_may_hold_a_quote_in_braces() {
    let mut b = input(&["\"x {\"} y\""]);
    let mut ex = Vec::new();
    assert_eq!(b.scan_balanced_braces(b'"', true, &mut ex, 100), Ok(()));
    assert_eq!(ex, v("x {\"} y"));
}

#[test]
fn right_brace_alone_in_quotes_is_unbalanced() {
    let mut b = input(&["\"a } b\""]);
    let mut ex = Vec::new();
    assert_eq!(b.scan_balanced_braces(b'"', true, &mut ex, 100), Err(FieldError::UnbalancedBraces));
}

#[test]
fn value_cut_by_the_end_of_the_file() {
    let mut b = input(&["{abc", "  "]);
    let mut ex = Vec::new();
    assert_eq!(b.scan_balanced_braces(b'}', true, &mut ex, 100), Err(FieldError::EndOfFile));
}

#[test]
fn value_too_long_for_the_buffer() {
    let mut b = input(&["{abcd}"]);
    let mut ex = Vec::new();
    assert_eq!(b.scan_balanced_braces(b'}', true, &mut ex, 3), Err(FieldError::TooLong));
    let mut c = input(&["{abc}"]);
    let mut ex2 = Vec::new();
    assert_eq!(c.scan_balanced_braces(b'}', true, &mut ex2, 3), Ok(()));
    assert_eq!(ex2, v("abc"));
}

#[test]
fn skipping_reads_as_far_as_storing() {
    let lines = ["{a {b}", " c}  # x"];
    let mut stored = input(&lines);
    let mut skipped = input(&lines);
    let mut ex1 = Vec::new();
    let mut ex2 = Vec::new();
    assert_eq!(stored.scan_balanced_braces(b'}', true, &mut ex1, 100), Ok(()));
    assert_eq!(skipped.scan_balanced_braces(b'}', false, &mut ex2, 100), Ok(()));
    assert_eq!(ex1, v("a {b} c"));
    assert!(ex2.is_empty());
    assert_eq!(stored.next, skipped.next);
    assert_eq!(stored.scan.buf_ptr2, skipped.scan.buf_ptr2);
}

#[test]
fn macro_and_string_are_joined() {
    let (mut t, _) = table_with_jan();
    let mut b = input(&["Jan # \" 1\","]);
    let mut pre = Vec::new();
    let fv = b
        .scan_and_store_the_field_value_and_eat_white(&mut t, true, b'}', FieldTarget::EntryField, &mut pre, 200)
        .unwrap();
    let loc = fv.loc.unwrap();
    assert_eq!(stored_text(&t, loc), v("January 1"));
    assert_eq!(fv.notes.len(), 1);
    assert!(!fv.notes[0].undefined);
    assert!(!fv.notes[0].own_definition);
    assert_eq!(next_byte(&b), b',');
    assert!(pre.is_empty());
}

#[test]
fn undefined_macro_gives_a_warning_and_no_text() {
    let (mut t, _) = table_with_jan();
    let mut b = input(&["feb # {x},"]);
    let mut pre = Vec::new();
    let fv = b
        .scan_and_store_the_field_value_and_eat_white(&mut t, true, b'}', FieldTarget::EntryField, &mut pre, 200)
        .unwrap();
    assert_eq!(fv.notes.len(), 1);
    assert!(fv.notes[0].undefined);
    assert_eq!(stored_text(&t, fv.loc.unwrap()), v("x"));
}

#[test]
fn macro_used_in_its_own_definition() {
    let (mut t, jan) = table_with_jan();
    let mut b = input(&["jan # {uary})"]);
    let mut pre = Vec::new();
    let fv = b
        .scan_and_store_the_field_value_and_eat_white(&mut t, true, b')', FieldTarget::Macro(jan), &mut pre, 200)
        .unwrap();
    assert!(fv.notes[0].own_definition);
    assert!(!fv.notes[0].undefined);
    let loc = fv.loc.unwrap();
    assert_eq!(stored_text(&t, loc), v("uary"));
    assert_eq!(t.ilk_info(jan), t.hash_text(loc) as i32);
    assert_eq!(next_byte(&b), b')');
}

#[test]
fn preamble_keeps_its_spaces() {
    let (mut t, _) = table_with_jan();
    let mut b = input(&["{ a }}"]);
    let mut pre = Vec::new();
    let fv = b
        .scan_and_store_the_field_value_and_eat_white(&mut t, true, b'}', FieldTarget::Preamble, &mut pre, 200)
        .unwrap();
    let loc = fv.loc.unwrap();
    assert_eq!(stored_text(&t, loc), v(" a "));
    assert_eq!(pre, vec![t.hash_text(loc)]);
}

#[test]
fn entry_value_loses_edge_spaces() {
    let (mut t, _) = table_with_jan();
    let mut b = input(&["{ a }}"]);
    let mut pre = Vec::new();
    let fv = b
        .scan_and_store_the_field_value_and_eat_white(&mut t, true, b'}', FieldTarget::EntryField, &mut pre, 200)
        .unwrap();
    assert_eq!(stored_text(&t, fv.loc.unwrap()), v("a"));
}

#[test]
fn number_value() {
    let (mut t, _) = table_with_jan();
    let mut b = input(&["1984 ,"]);
    let mut pre = Vec::new();
    let fv = b
        .scan_and_store_the_field_value_and_eat_white(&mut t, true, b'}', FieldTarget::EntryField, &mut pre, 200)
        .unwrap();
    assert_eq!(stored_text(&t, fv.loc.unwrap()), v("1984"));
    assert!(fv.notes.is_empty());
    assert_eq!(next_byte(&b), b',');
}

#[test]
fn value_not_stored_leaves_the_table() {
    let (mut t, _) = table_with_jan();
    let mut b = input(&["{abc} # jan,"]);
    let mut pre = Vec::new();
    let fv = b
        .scan_and_store_the_field_value_and_eat_white(&mut t, false, b'}', FieldTarget::EntryField, &mut pre, 200)
        .unwrap();
    assert!(fv.loc.is_none());
    assert!(fv.notes.is_empty());
    assert_eq!(next_byte(&b), b',');
}

#[test]
fn field_part_errors() {
    let (mut t, _) = table_with_jan();
    let mut pre = Vec::new();
    let mut b = input(&[", x"]);
    assert_eq!(
        b.scan_and_store_the_field_value_and_eat_white(&mut t, true, b'}', FieldTarget::EntryField, &mut pre, 200).err(),
        Some(FieldError::MissingFieldPart)
    );
    let mut c = input(&["jan=x"]);
    assert_eq!(
        c.scan_and_store_the_field_value_and_eat_white(&mut t, true, b'}', FieldTarget::EntryField, &mut pre, 200).err(),
        Some(FieldError::ByteFollowsFieldPart(b'='))
    );
    let mut d = input(&["jan #  "]);
    assert_eq!(
        d.scan_and_store_the_field_value_and_eat_white(&mut t, true, b'}', FieldTarget::EntryField, &mut pre, 200).err(),
        Some(FieldError::EndOfFile)
    );
}

#[test]
fn full_table_refuses_a_new_value() {
    let mut t = StrTable::new(1, 1).unwrap();
    t.pre_define(&v("taken"), TEXT_ILK);
    let mut b = input(&["{new},"]);
    let mut pre = Vec::new();
    assert_eq!(
        b.scan_and_store_the_field_value_and_eat_white(&mut t, true, b'}', FieldTarget::EntryField, &mut pre, 200).err(),
        Some(FieldError::HashOverflow)
    );
    let mut c = input(&["{taken},"]);
    let fv = c
        .scan_and_store_the_field_value_and_eat_white(&mut t, true, b'}', FieldTarget::EntryField, &mut pre, 200)
        .unwrap();
    assert_eq!(stored_text(&t, fv.loc.unwrap()), v("taken"));
}

#[test]
fn compress_white_space_into_one_space() {
    let mut b = input(&["a  ", "  ", "   b"]);
    b.scan.buf_ptr2 += 1;
    let mut ex = v("a");
    assert_eq!(b.compress_bib_white(&mut ex, 10), Ok(()));
    assert_eq!(ex, v("a "));
    assert_eq!(next_byte(&b), b'b');
    assert_eq!(b.next, 3);
    let mut full = input(&["a b"]);
    full.scan.buf_ptr2 += 1;
    let mut ex2 = v("ab");
    assert_eq!(full.compress_bib_white(&mut ex2, 2), Err(FieldError::TooLong));
    let mut end = input(&["a", "   "]);
    end.scan.buf_ptr2 += 1;
    let mut ex3 = Vec::new();
    assert_eq!(end.compress_bib_white(&mut ex3, 10), Err(FieldError::EndOfFile));
}

#[test]
fn preamble_strings_are_joined_by_preamble_builtin() {
    let (mut t, _) = table_with_jan();
    let mut pre = Vec::new();
    let mut b = input(&["{\\def\\x{1}}", "  \"y\" # jan"]);
    let first = b
        .scan_and_store_the_field_value_and_eat_white(&mut t, true, b'}', FieldTarget::Preamble, &mut pre, 200);
    assert!(first.is_ok());
    let second = b.scan_and_store_the_field_value_and_eat_white(&mut t, true, b'}', FieldTarget::Preamble, &mut pre, 200);
    // the file ends after the value
    assert_eq!(second.err(), Some(FieldError::EndOfFile));
    assert_eq!(pre.len(), 1);
    let mut c = input(&["\"y\" # jan }"]);
    c.scan_and_store_the_field_value_and_eat_white(&mut t, true, b'}', FieldTarget::Preamble, &mut pre, 200).unwrap();
    assert_eq!(pre.len(), 2);
    let mut stk = LitStack::new();
    x_preamble(&mut stk, &t, &pre);
    assert!(matches!(stk.lits.last(), Some(Lit::Str(s)) if s == &v("\\def\\x{1}yJanuary")));
}
