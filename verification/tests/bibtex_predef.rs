use tectonic::bibtex::hash::StrTable;
use tectonic::bibtex::predef::{bad_argument_token, pre_def_certain_strings, ArgumentError, FnClass, NUM_BUILTINS};
use tectonic::bibtex::scan::Scanner;

fn v(s: &str) -> Vec<u8> {
    s.as_bytes().to_vec()
}

fn lookup(t: &mut StrTable, s: &str, ilk: u8) -> usize {
    let b = v(s);
    let (loc, found) = t.str_lookup(&b, 0, b.len(), ilk, false);
    assert!(found, "{} is predefined", s);
    loc
}

#[test]
fn predefined_strings_are_stored_with_their_values() {
    let mut t = StrTable::new(1000, 997).unwrap();
    let mut fn_type = vec![FnClass::WizDefined; 1001];
    let mut num_fields = 0;
    let mut num_ent_strs = 0;
    let r = pre_def_certain_strings(&mut t, &mut fn_type, &mut num_fields, &mut num_ent_strs, 250, 20000);
    assert_eq!(num_fields, 1);
    assert_eq!(num_ent_strs, 1);
    assert_eq!(r.crossref_num, 0);
    assert_eq!(r.num_pre_defined_fields, 1);
    assert_eq!(r.sort_key_num, 0);
    assert_eq!(t.string(r.s_aux_extension), v(".aux"));
    assert_eq!(t.string(r.s_bbl_extension), v(".bbl"));
    assert_eq!(t.string(r.s_log_extension), v(".blg"));
    assert_eq!(t.string(r.s_bst_extension), v(".bst"));
    assert_eq!(t.string(r.s_bib_extension), v(".bib"));
    assert_eq!(t.string(r.s_bst_area), v("texinputs:"));
    assert_eq!(t.string(r.s_bib_area), v("texbib:"));
    assert_eq!(t.string(r.s_null), v(""));
    assert_eq!(t.string(r.s_default), v("default.type"));

    let preamble = lookup(&mut t, "preamble", 12);
    assert_eq!(t.ilk_info(preamble), 1);
    let string = lookup(&mut t, "string", 12);
    assert_eq!(t.ilk_info(string), 2);
    let citation = lookup(&mut t, "\\citation", 2);
    assert_eq!(t.ilk_info(citation), 2);
    let input = lookup(&mut t, "\\@input", 2);
    assert_eq!(t.ilk_info(input), 3);
    let strings = lookup(&mut t, "strings", 4);
    assert_eq!(t.ilk_info(strings), 9);

    assert_eq!(r.builtins.len(), NUM_BUILTINS);
    let width = lookup(&mut t, "width$", 11);
    assert_eq!(t.ilk_info(width), 35);
    assert_eq!(fn_type[width], FnClass::BuiltIn);
    assert_eq!(r.builtins[35], width);
    let skip = lookup(&mut t, "skip$", 11);
    assert_eq!(r.b_default, skip);
    let gets = lookup(&mut t, ":=", 11);
    assert_eq!(t.ilk_info(gets), 6);

    let crossref = lookup(&mut t, "crossref", 11);
    assert_eq!(fn_type[crossref], FnClass::Field);
    assert_eq!(t.ilk_info(crossref), 0);
    let sort_key = lookup(&mut t, "sort.key$", 11);
    assert_eq!(fn_type[sort_key], FnClass::StrEntryVar);
    let entry_max = lookup(&mut t, "entry.max$", 11);
    assert_eq!(t.ilk_info(entry_max), 250);
    assert_eq!(fn_type[entry_max], FnClass::IntGlobalVar);
    let global_max = lookup(&mut t, "global.max$", 11);
    assert_eq!(t.ilk_info(global_max), 20000);

    let oe = lookup(&mut t, "OE", 14);
    assert_eq!(t.ilk_info(oe), 3);
    let ss = lookup(&mut t, "ss", 14);
    assert_eq!(t.ilk_info(ss), 12);
    let null = lookup(&mut t, "", 0);
    assert_eq!(fn_type[null], FnClass::StrLiteral);
    // the same name of another kind is a string of its own
    let (_, found) = t.str_lookup(&v("preamble"), 0, 8, 11, false);
    assert!(!found);
    let preamble_fn = lookup(&mut t, "preamble$", 11);
    assert_eq!(t.ilk_info(preamble_fn), 22);
}

#[test]
fn predefinition_counts_on_from_the_given_numbers() {
    let mut t = StrTable::new(1000, 997).unwrap();
    let mut fn_type = vec![FnClass::WizDefined; 1001];
    let mut num_fields = 4;
    let mut num_ent_strs = 7;
    let r = pre_def_certain_strings(&mut t, &mut fn_type, &mut num_fields, &mut num_ent_strs, 1, 2);
    assert_eq!((num_fields, num_ent_strs), (5, 8));
    assert_eq!((r.crossref_num, r.num_pre_defined_fields, r.sort_key_num), (4, 5, 7));
    let crossref = lookup(&mut t, "crossref", 11);
    assert_eq!(t.ilk_info(crossref), 4);
    let sort_key = lookup(&mut t, "sort.key$", 11);
    assert_eq!(t.ilk_info(sort_key), 7);
}

fn token(s: &str, end: usize) -> Scanner {
    let mut buffer = v(s);
    let last = buffer.len();
    buffer.push(0);
    Scanner { buffer, last, buf_ptr1: 0, buf_ptr2: end }
}

#[test]
fn argument_tokens_must_name_callable_functions() {
    let mut t = StrTable::new(1000, 997).unwrap();
    let mut fn_type = vec![FnClass::WizDefined; 1001];
    let mut num_fields = 0;
    let mut num_ent_strs = 0;
    pre_def_certain_strings(&mut t, &mut fn_type, &mut num_fields, &mut num_ent_strs, 250, 20000);
    let mut ok = token("Width$ x", 6);
    assert_eq!(bad_argument_token(&mut ok, &mut t, &fn_type), None);
    assert_eq!(&ok.buffer[0..8], b"width$ x");
    let mut field = token("CROSSREF", 8);
    assert_eq!(
        bad_argument_token(&mut field, &mut t, &fn_type),
        Some(ArgumentError::BadFunctionType(FnClass::Field))
    );
    let mut unknown = token("nosuch", 6);
    assert_eq!(bad_argument_token(&mut unknown, &mut t, &fn_type), Some(ArgumentError::UnknownFunction));
}
