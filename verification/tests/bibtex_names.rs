use tectonic::bibtex::case::{change_case, CaseChange};
use tectonic::bibtex::names::{format_name, FormattedName};
use tectonic::bibtex::text::num_names;

fn fmt(names: &str, n: i32, format: &str) -> FormattedName {
    format_name(&names.as_bytes().to_vec(), n, &format.as_bytes().to_vec())
}

fn text(names: &str, n: i32, format: &str) -> String {
    String::from_utf8(fmt(names, n, format).text).unwrap()
}

#[test]
fn full_first_names_with_ties() {
    assert_eq!(text("Donald E. Knuth", 1, "{ff~}{vv~}{ll}{, jj}"), "Donald~E. Knuth");
}

#[test]
fn abbreviated_first_names() {
    assert_eq!(text("Donald E. Knuth", 1, "{f.~}{vv~}{ll}{, jj}"), "D.~E. Knuth");
}

#[test]
fn von_last_comma_first() {
    assert_eq!(text("von Neumann, John", 1, "{vv~}{ll}{, jj}{, ff}"), "von Neumann, John");
}

#[test]
fn von_part_found_among_the_first_names() {
    assert_eq!(text("Ludwig van Beethoven", 1, "{vv~}{ll}{, ff}"), "van Beethoven, Ludwig");
}

#[test]
fn hyphenated_first_names_keep_the_hyphen() {
    assert_eq!(text("Jean-Paul Sartre", 1, "{f.~}{ll}"), "J.-P. Sartre");
}

#[test]
fn the_second_of_two_names() {
    let r = fmt("Alice Smith and Bob Jones", 2, "{ff }{ll}");
    assert_eq!(String::from_utf8(r.text).unwrap(), "Bob Jones");
    assert!(!r.too_few_names);
    assert_eq!(text("Alice Smith and Bob Jones", 1, "{ll}{, ff}"), "Smith, Alice");
}

#[test]
fn too_few_names_takes_the_last() {
    let r = fmt("Alice Smith", 2, "{ll}");
    assert!(r.too_few_names);
    assert_eq!(String::from_utf8(r.text).unwrap(), "Smith");
}

#[test]
fn trailing_comma_is_dropped() {
    let r = fmt("Smith, ", 1, "{ll}");
    assert!(r.comma_at_end);
    assert_eq!(String::from_utf8(r.text).unwrap(), "Smith");
}

#[test]
fn name_warnings() {
    assert!(fmt("a, b, c, d", 1, "{ll}").too_many_commas);
    assert!(!fmt("a, b, c", 1, "{ll}").too_many_commas);
    assert!(fmt("Smith}", 1, "{ll}").name_unbalanced);
    assert!(!fmt("{Smith}", 1, "{ll}").name_unbalanced);
}

#[test]
fn format_warnings() {
    let r = fmt("Alice Smith", 1, "{x}");
    assert!(r.format_letter);
    assert_eq!(r.text, Vec::<u8>::new());
    assert!(fmt("Alice Smith", 1, "{ll}}").format_unbalanced);
    assert!(fmt("Alice Smith", 1, "{ll").format_unbalanced);
    assert!(!fmt("Alice Smith", 1, "{ll}").format_unbalanced);
}

#[test]
fn special_character_initial() {
    assert_eq!(text("{\\'E}mile Zola", 1, "{f.}"), "{\\'E}.");
}

#[test]
fn no_name_asked_gives_the_bare_format() {
    assert_eq!(text("Alice Smith", 0, "<{ll}>"), "<>");
}

#[test]
fn names_asked_past_the_count_are_too_few() {
    let s = "Alice Smith and Bob Jones";
    assert_eq!(num_names(&s.as_bytes().to_vec()), 2);
    assert!(!fmt(s, 2, "{ll}").too_few_names);
    assert!(fmt(s, 3, "{ll}").too_few_names);
}

fn case(s: &str, spec: &str) -> CaseChange {
    change_case(&s.as_bytes().to_vec(), &spec.as_bytes().to_vec())
}

fn case_text(s: &str, spec: &str) -> String {
    String::from_utf8(case(s, spec).text).unwrap()
}

#[test]
fn title_case_keeps_braces_and_the_letter_after_a_colon() {
    assert_eq!(case_text("The {TeX} Book: an Introduction", "t"), "The {TeX} book: an introduction");
    assert_eq!(case_text("The {TeX} Book: An Introduction", "T"), "The {TeX} book: An introduction");
}

#[test]
fn lower_and_upper_case() {
    assert_eq!(case_text("HELLO {W}orld", "l"), "hello {W}orld");
    assert_eq!(case_text("hello {w}orld", "u"), "HELLO {w}ORLD");
}

#[test]
fn special_characters_change_their_control_sequences() {
    assert_eq!(case_text("hello {\\ss} world", "u"), "HELLO {SS} WORLD");
    assert_eq!(case_text("{\\ss x}", "u"), "{SSX}");
    assert_eq!(case_text("{\\i}", "u"), "{I}");
    assert_eq!(case_text("{\\oe}uvre", "u"), "{\\OE}UVRE");
    assert_eq!(case_text("{\\AE}SOP", "l"), "{\\ae}sop");
    assert_eq!(case_text("{\\AE}sop", "t"), "{\\AE}sop");
    assert_eq!(case_text("x {\\AE}SOP", "t"), "x {\\ae}sop");
}

#[test]
fn change_case_warnings() {
    let r = case("Some Text", "x");
    assert!(r.bad_conversion);
    assert_eq!(String::from_utf8(r.text).unwrap(), "Some Text");
    assert!(case("Some Text", "ul").bad_conversion);
    assert!(!case("Some Text", "u").bad_conversion);
    assert!(case("a}b", "u").unbalanced);
    assert!(case("{ab", "u").unbalanced);
    assert!(!case("{ab}", "u").unbalanced);
}

#[test]
fn plain_text_changes_case_byte_by_byte() {
    assert_eq!(case_text("MiXeD: Case-42", "l"), "mixed: case-42");
    assert_eq!(case_text("MiXeD: Case-42", "u"), "MIXED: CASE-42");
}

#[test]
fn special_characters_keep_or_change_their_control_words() {
    assert_eq!(case_text("{\\oe.}", "u"), "{\\OE.}");
    assert_eq!(case_text("{\\i.}", "u"), "{I.}");
    assert_eq!(case_text("{\\foo.}", "l"), "{\\foo.}");
    assert_eq!(case_text("{\\AE.}", "l"), "{\\ae.}");
}
