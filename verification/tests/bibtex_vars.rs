use tectonic::bibtex::hash::StrTable;
use tectonic::bibtex::predef::FnClass;
use tectonic::bibtex::stack::{Lit, LitStack};
use tectonic::bibtex::vars::{x_cite, x_gets, x_missing, x_type, x_warning, x_write, Vars};

fn stack(v: Vec<Lit>) -> LitStack {
    LitStack { lits: v }
}

fn s(x: &str) -> Vec<u8> {
    x.as_bytes().to_vec()
}

fn fn_slot(t: &mut StrTable, name: &str) -> usize {
    let b = s(name);
    t.str_lookup(&b, 0, b.len(), 11, true).0
}

fn setup() -> (StrTable, Vec<FnClass>, Vars, usize, usize, usize, usize, usize) {
    let mut t = StrTable::new(20, 17).unwrap();
    let ei = fn_slot(&mut t, "count");
    let es = fn_slot(&mut t, "label");
    let gi = fn_slot(&mut t, "total");
    let gs = fn_slot(&mut t, "prefix");
    let bi = fn_slot(&mut t, "add.period$");
    let mut ft = vec![FnClass::BuiltIn; 21];
    ft[ei] = FnClass::IntEntryVar;
    ft[es] = FnClass::StrEntryVar;
    ft[gi] = FnClass::IntGlobalVar;
    ft[gs] = FnClass::StrGlobalVar;
    t.set_ilk_info(ei, 1);
    t.set_ilk_info(es, 0);
    t.set_ilk_info(gs, 0);
    let vars = Vars {
        num_ent_ints: 2,
        num_ent_strs: 1,
        ent_str_size: 3,
        glob_str_size: 5,
        entry_ints: vec![0; 4],
        entry_strs: vec![Vec::new(), Vec::new()],
        global_strs: vec![Vec::new()],
    };
    (t, ft, vars, ei, es, gi, gs, bi)
}

#[test]
fn gets_assigns_to_each_kind_of_variable() {
    let (mut t, ft, mut vars, ei, es, gi, gs, _) = setup();
    let mut st = stack(vec![Lit::Int(42), Lit::Fn(ei)]);
    assert_eq!(x_gets(&mut st, &mut t, &ft, &mut vars, true, 1), (false, false));
    assert_eq!(vars.entry_ints, vec![0, 0, 0, 42]);
    let mut st = stack(vec![Lit::Str(s("abcdef")), Lit::Fn(es)]);
    assert_eq!(x_gets(&mut st, &mut t, &ft, &mut vars, true, 1), (false, true));
    assert_eq!(vars.entry_strs, vec![Vec::new(), s("abc")]);
    let mut st = stack(vec![Lit::Int(-7), Lit::Fn(gi)]);
    assert_eq!(x_gets(&mut st, &mut t, &ft, &mut vars, false, 0), (false, false));
    assert_eq!(t.ilk_info(gi), -7);
    let mut st = stack(vec![Lit::Str(s("xy")), Lit::Fn(gs)]);
    assert_eq!(x_gets(&mut st, &mut t, &ft, &mut vars, false, 0), (false, false));
    assert_eq!(vars.global_strs, vec![s("xy")]);
    assert!(st.lits.is_empty());
}

#[test]
fn gets_refuses_what_it_cannot_assign() {
    let (mut t, ft, mut vars, ei, es, _, _, bi) = setup();
    // an entry variable outside the entry commands
    let mut st = stack(vec![Lit::Int(1), Lit::Fn(ei)]);
    assert_eq!(x_gets(&mut st, &mut t, &ft, &mut vars, false, 0), (true, false));
    // a value of the wrong type
    let mut st = stack(vec![Lit::Int(1), Lit::Fn(es)]);
    assert_eq!(x_gets(&mut st, &mut t, &ft, &mut vars, true, 0), (true, false));
    // not a variable
    let mut st = stack(vec![Lit::Int(1), Lit::Fn(bi)]);
    assert_eq!(x_gets(&mut st, &mut t, &ft, &mut vars, true, 0), (true, false));
    // not a function
    let mut st = stack(vec![Lit::Int(1), Lit::Int(2)]);
    assert_eq!(x_gets(&mut st, &mut t, &ft, &mut vars, true, 0), (true, false));
    assert_eq!(vars.entry_ints, vec![0; 4]);
    assert_eq!(vars.entry_strs, vec![Vec::<u8>::new(), Vec::new()]);
}

#[test]
fn missing_cite_and_type() {
    let mut st = stack(vec![Lit::FieldMissing(s("year"))]);
    assert!(!x_missing(&mut st, true));
    assert!(matches!(st.lits[..], [Lit::Int(1)]));
    let mut st = stack(vec![Lit::Str(s("1990"))]);
    assert!(!x_missing(&mut st, true));
    assert!(matches!(st.lits[..], [Lit::Int(0)]));
    let mut st = stack(vec![Lit::Int(3)]);
    assert!(x_missing(&mut st, true));
    let mut st = stack(vec![Lit::Str(s("x"))]);
    assert!(x_missing(&mut st, false));
    assert!(st.lits.is_empty());

    let mut t = StrTable::new(20, 17).unwrap();
    let key = s("Knuth84");
    let (kl, _) = t.str_lookup(&key, 0, key.len(), 9, true);
    let ty = s("book");
    let (tl, _) = t.str_lookup(&ty, 0, ty.len(), 4, true);
    let cites = vec![t.hash_text(kl)];
    let mut st = stack(vec![]);
    assert!(!x_cite(&mut st, true, &t, &cites, 0));
    assert!(matches!(&st.lits[..], [Lit::Str(v)] if *v == key));
    let mut st = stack(vec![]);
    assert!(!x_type(&mut st, true, &t, &vec![tl, 0, 21], 0));
    assert!(!x_type(&mut st, true, &t, &vec![tl, 0, 21], 1));
    assert!(!x_type(&mut st, true, &t, &vec![tl, 0, 21], 2));
    assert!(matches!(&st.lits[..], [Lit::Str(a), Lit::Str(b), Lit::Str(c)] if *a == ty && b.is_empty() && c.is_empty()));
    assert!(x_type(&mut st, false, &t, &vec![tl], 0));
}

#[test]
fn warning_and_write() {
    let mut st = stack(vec![Lit::Str(s("empty title"))]);
    let (m, w) = x_warning(&mut st);
    assert_eq!(m, Some(s("empty title")));
    assert!(!w);
    let mut st = stack(vec![Lit::Int(1)]);
    assert_eq!(x_warning(&mut st), (None, true));
    let mut out = s("\\bibitem");
    let mut bbl = Vec::new();
    let mut st = stack(vec![Lit::Str(s("{knuth}"))]);
    assert!(!x_write(&mut st, &mut out, &mut bbl));
    assert_eq!(out, s("\\bibitem{knuth}"));
    assert!(bbl.is_empty());
    let mut st = stack(vec![Lit::Int(5)]);
    assert!(x_write(&mut st, &mut out, &mut bbl));
    assert_eq!(out, s("\\bibitem{knuth}"));
}

#[test]
fn entry_variables_start_empty() {
    let (_, _, mut vars, _, _, _, _, _) = setup();
    vars.entry_ints = vec![5; 4];
    vars.entry_strs = vec![s("x")];
    vars.set_up_entry_vars(3);
    assert_eq!(vars.entry_ints, vec![0; 6]);
    assert_eq!(vars.entry_strs, vec![Vec::<u8>::new(); 3]);
    assert_eq!(vars.global_strs, vec![Vec::<u8>::new()]);
}
