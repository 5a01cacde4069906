use tectonic::bibtex::stack::{
    x_add_period, x_change_case, x_chr_to_int, x_concatenate, x_duplicate, x_empty, x_equals, x_format_name,
    x_greater_than, x_int_to_chr, x_int_to_str, x_less_than, x_minus, x_num_names, x_plus, x_purify, x_quote,
    x_substring, x_swap, x_text_length, x_text_prefix, x_width, Lit, LitStack,
};

fn s(t: &str) -> Lit {
    Lit::Str(t.as_bytes().to_vec())
}

fn stack(lits: Vec<Lit>) -> LitStack {
    let mut st = LitStack::new();
    for l in lits {
        st.push_lit_stk(l);
    }
    st
}

fn top_str(st: &mut LitStack) -> String {
    match st.pop_lit_stk() {
        (Lit::Str(v), false) => String::from_utf8(v).unwrap(),
        _ => panic!("not a string"),
    }
}

fn top_int(st: &mut LitStack) -> i32 {
    match st.pop_lit_stk() {
        (Lit::Int(i), false) => i,
        _ => panic!("not an integer"),
    }
}

#[test]
fn popping_an_empty_stack_warns() {
    let mut st = LitStack::new();
    let (l, w) = st.pop_lit_stk();
    assert!(matches!(l, Lit::Empty));
    assert!(w);
}

#[test]
fn comparisons_and_arithmetic() {
    let mut st = stack(vec![Lit::Int(7), Lit::Int(3)]);
    assert!(!x_minus(&mut st));
    assert_eq!(top_int(&mut st), 4);
    let mut st = stack(vec![Lit::Int(7), Lit::Int(3)]);
    assert!(!x_plus(&mut st));
    assert_eq!(top_int(&mut st), 10);
    let mut st = stack(vec![Lit::Int(7), Lit::Int(3)]);
    assert!(!x_greater_than(&mut st));
    assert_eq!(top_int(&mut st), 1);
    let mut st = stack(vec![Lit::Int(7), Lit::Int(3)]);
    assert!(!x_less_than(&mut st));
    assert_eq!(top_int(&mut st), 0);
    let mut st = stack(vec![s("a"), Lit::Int(3)]);
    assert!(x_plus(&mut st));
    assert_eq!(top_int(&mut st), 0);
    let mut st = stack(vec![Lit::Int(3)]);
    assert!(x_plus(&mut st));
    assert_eq!(top_int(&mut st), 0);
}

#[test]
fn equality_of_literals() {
    let mut st = stack(vec![s("abc"), s("abc")]);
    assert!(!x_equals(&mut st));
    assert_eq!(top_int(&mut st), 1);
    let mut st = stack(vec![Lit::Int(2), Lit::Int(3)]);
    assert!(!x_equals(&mut st));
    assert_eq!(top_int(&mut st), 0);
    let mut st = stack(vec![Lit::Int(2), s("2")]);
    assert!(x_equals(&mut st));
    assert_eq!(top_int(&mut st), 0);
    let mut st = stack(vec![Lit::Fn(1), Lit::Fn(1)]);
    assert!(x_equals(&mut st));
}

#[test]
fn string_built_ins() {
    let mut st = stack(vec![s("ab"), s("cd")]);
    assert!(!x_concatenate(&mut st));
    assert_eq!(top_str(&mut st), "abcd");
    let mut st = stack(vec![s("Done")]);
    x_add_period(&mut st);
    assert_eq!(top_str(&mut st), "Done.");
    let mut st = stack(vec![s("{\\oe}uvre"), s("u")]);
    assert!(!x_change_case(&mut st));
    assert_eq!(top_str(&mut st), "{\\OE}UVRE");
    let mut st = stack(vec![s("abc"), s("z")]);
    assert!(x_change_case(&mut st));
    assert_eq!(top_str(&mut st), "abc");
    let mut st = stack(vec![s("a-b c")]);
    x_purify(&mut st);
    assert_eq!(top_str(&mut st), "a b c");
    let mut st = stack(vec![s("hello"), Lit::Int(2), Lit::Int(3)]);
    assert!(!x_substring(&mut st));
    assert_eq!(top_str(&mut st), "ell");
    let mut st = stack(vec![s("{\\'e}t{\\'e}"), Lit::Int(2)]);
    x_text_prefix(&mut st);
    assert_eq!(top_str(&mut st), "{\\'e}t");
    let mut st = stack(vec![s("{\\'e}t{\\'e}")]);
    x_text_length(&mut st);
    assert_eq!(top_int(&mut st), 3);
    let mut st = stack(vec![Lit::Int(5)]);
    assert!(x_text_length(&mut st));
    assert_eq!(top_str(&mut st), "");
    let mut st = stack(vec![s("A and B and C")]);
    x_num_names(&mut st);
    assert_eq!(top_int(&mut st), 3);
    let mut st = stack(vec![s("ab")]);
    x_width(&mut st);
    assert_eq!(top_int(&mut st), 500 + 556);
    let mut st = LitStack::new();
    x_quote(&mut st);
    assert_eq!(top_str(&mut st), "\"");
}

#[test]
fn characters_and_numbers() {
    let mut st = stack(vec![s("A")]);
    assert!(!x_chr_to_int(&mut st));
    assert_eq!(top_int(&mut st), 65);
    let mut st = stack(vec![s("AB")]);
    assert!(x_chr_to_int(&mut st));
    assert_eq!(top_int(&mut st), 0);
    let mut st = stack(vec![Lit::Int(66)]);
    assert!(!x_int_to_chr(&mut st));
    assert_eq!(top_str(&mut st), "B");
    let mut st = stack(vec![Lit::Int(200)]);
    assert!(x_int_to_chr(&mut st));
    assert_eq!(top_str(&mut st), "");
    let mut st = stack(vec![Lit::Int(-2045)]);
    assert!(!x_int_to_str(&mut st));
    assert_eq!(top_str(&mut st), "-2045");
    let mut st = stack(vec![Lit::Int(2147483647)]);
    x_int_to_str(&mut st);
    assert_eq!(top_str(&mut st), "2147483647");
}

#[test]
fn stack_shuffles() {
    let mut st = stack(vec![Lit::Int(1), s("x")]);
    assert!(!x_swap(&mut st));
    assert_eq!(top_int(&mut st), 1);
    assert_eq!(top_str(&mut st), "x");
    let mut st = stack(vec![Lit::Int(1), s("x")]);
    x_swap(&mut st);
    x_swap(&mut st);
    assert_eq!(top_str(&mut st), "x");
    assert_eq!(top_int(&mut st), 1);
    let mut st = stack(vec![s("y")]);
    assert!(!x_duplicate(&mut st));
    assert_eq!(top_str(&mut st), "y");
    assert_eq!(top_str(&mut st), "y");
    let mut st = LitStack::new();
    assert!(x_duplicate(&mut st));
    assert!(matches!(st.pop_lit_stk(), (Lit::Empty, false)));
}

#[test]
fn emptiness() {
    let mut st = stack(vec![s("  \t")]);
    x_empty(&mut st);
    assert_eq!(top_int(&mut st), 1);
    let mut st = stack(vec![s(" a ")]);
    x_empty(&mut st);
    assert_eq!(top_int(&mut st), 0);
    let mut st = stack(vec![Lit::FieldMissing(b"year".to_vec())]);
    assert!(!x_empty(&mut st));
    assert_eq!(top_int(&mut st), 1);
    let mut st = stack(vec![Lit::Int(3)]);
    assert!(x_empty(&mut st));
    assert_eq!(top_int(&mut st), 0);
}

#[test]
fn names_on_the_stack() {
    let mut st = stack(vec![s("Donald E. Knuth and Leslie Lamport"), Lit::Int(2), s("{f.~}{ll}")]);
    assert!(!x_format_name(&mut st));
    assert_eq!(top_str(&mut st), "L.~Lamport");
    let mut st = stack(vec![s("Donald E. Knuth"), Lit::Int(2), s("{ll}")]);
    assert!(x_format_name(&mut st));
    assert_eq!(top_str(&mut st), "Knuth");
}
