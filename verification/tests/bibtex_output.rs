use tectonic::bibtex::output::{add_out_pool, output_bbl_line};

fn b(s: &str) -> Vec<u8> {
    s.as_bytes().to_vec()
}

#[test]
fn lines_are_written_without_trailing_white_space() {
    let mut out = b("abc  ");
    let mut bbl = Vec::new();
    output_bbl_line(&mut out, &mut bbl);
    assert_eq!(bbl, b("abc\n"));
    assert!(out.is_empty());
    let mut out = b("   ");
    output_bbl_line(&mut out, &mut bbl);
    assert_eq!(bbl, b("abc\n"));
    assert!(out.is_empty());
    output_bbl_line(&mut out, &mut bbl);
    assert_eq!(bbl, b("abc\n\n"));
}

#[test]
fn long_lines_are_broken_at_white_space() {
    let mut out = Vec::new();
    let mut bbl = Vec::new();
    add_out_pool(&mut out, &b(&"word ".repeat(20)), &mut bbl);
    let mut first = "word ".repeat(15);
    first.push_str("word\n");
    assert_eq!(String::from_utf8(bbl).unwrap(), first);
    assert_eq!(String::from_utf8(out).unwrap(), "  word word word word ");
}

#[test]
fn a_long_word_is_broken_after_it() {
    let mut out = Vec::new();
    let mut bbl = Vec::new();
    let mut s = "x".repeat(90);
    s.push_str(" yz");
    add_out_pool(&mut out, &b(&s), &mut bbl);
    let mut first = "x".repeat(90);
    first.push('\n');
    assert_eq!(String::from_utf8(bbl).unwrap(), first);
    assert_eq!(out, b("  yz"));
}

#[test]
fn an_unbreakable_line_stays() {
    let mut out = Vec::new();
    let mut bbl = Vec::new();
    add_out_pool(&mut out, &b(&"x".repeat(100)), &mut bbl);
    assert!(bbl.is_empty());
    assert_eq!(out.len(), 100);
    add_out_pool(&mut out, &b(" tail"), &mut bbl);
    assert_eq!(bbl.len(), 101);
    assert_eq!(out, b("  tail"));
}
