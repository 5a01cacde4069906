//! The variables of the style language: `:=` assigns to them. Integer and
//! string entry variables have a value per citation; an integer global
//! variable keeps its value with its name in the hash table, a string
//! global variable in the table of global strings.
use vstd::prelude::*;
use crate::bibtex::hash::StrTable;
use crate::bibtex::predef::FnClass;
use crate::bibtex::stack::{Lit, LitV, LitStack, popped, after_pops, pop_warns, is_int, is_str, int_of, str_of, wrong};
use crate::bibtex::output::{add_out_pool, break_lines};

verus! {

/// The values of the variables: `num_ent_ints` integers and `num_ent_strs`
/// strings per citation (the citation's number times the count, plus the
/// variable's number), and the global strings; strings are cut to
/// `ent_str_size` and `glob_str_size` bytes.
pub struct Vars {
    pub num_ent_ints: usize,
    pub num_ent_strs: usize,
    pub ent_str_size: usize,
    pub glob_str_size: usize,
    pub entry_ints: Vec<i32>,
    pub entry_strs: Vec<Vec<u8>>,
    pub global_strs: Vec<Vec<u8>>,
}

impl Vars {
    pub open spec fn ints(&self) -> Seq<i32> {
        self.entry_ints@
    }

    pub open spec fn strs(&self) -> Seq<Seq<u8>> {
        self.entry_strs@.map_values(|v: Vec<u8>| v@)
    }

    pub open spec fn globals(&self) -> Seq<Seq<u8>> {
        self.global_strs@.map_values(|v: Vec<u8>| v@)
    }
}

impl Vars {
    /// Once the database is read, every entry variable of each of the
    /// `num_cites` citations starts as 0 or as the null string.
    pub fn set_up_entry_vars(&mut self, num_cites: usize)
        requires
            old(self).num_ent_ints * num_cites <= usize::MAX,
            old(self).num_ent_strs * num_cites <= usize::MAX,
        ensures
            final(self).num_ent_ints == old(self).num_ent_ints,
            final(self).num_ent_strs == old(self).num_ent_strs,
            final(self).ent_str_size == old(self).ent_str_size,
            final(self).glob_str_size == old(self).glob_str_size,
            final(self).globals() == old(self).globals(),
            final(self).ints() == Seq::new((old(self).num_ent_ints * num_cites) as nat, |i: int| 0i32),
            final(self).strs() == Seq::new((old(self).num_ent_strs * num_cites) as nat, |i: int| Seq::<u8>::empty()),
    {
        let ni = self.num_ent_ints * num_cites;
        let ns = self.num_ent_strs * num_cites;
        let mut ints: Vec<i32> = Vec::new();
        let mut k: usize = 0;
        while k < ni
            invariant
                k <= ni,
                ints@ == Seq::new(k as nat, |i: int| 0i32),
            decreases ni - k,
        {
            ints.push(0);
            proof {
                assert(ints@ =~= Seq::new((k + 1) as nat, |i: int| 0i32));
            }
            k = k + 1;
        }
        let mut strs: Vec<Vec<u8>> = Vec::new();
        let mut k: usize = 0;
        while k < ns
            invariant
                k <= ns,
                strs@.len() == k,
                forall|i: int| 0 <= i < k ==> (#[trigger] strs@[i])@ == Seq::<u8>::empty(),
            decreases ns - k,
        {
            strs.push(Vec::new());
            k = k + 1;
        }
        proof {
            assert(strs@.map_values(|v: Vec<u8>| v@) =~= Seq::new(ns as nat, |i: int| Seq::<u8>::empty()));
        }
        self.entry_ints = ints;
        self.entry_strs = strs;
    }
}

/// `s` cut to at most `n` bytes.
pub open spec fn cut(s: Seq<u8>, n: int) -> Seq<u8> {
    if s.len() > n {
        s.take(n)
    } else {
        s
    }
}

/// Where the entry variable with number `k` of citation `c` is, with `m`
/// variables per citation.
pub open spec fn entry_slot(c: int, m: int, k: int) -> int {
    c * m + k
}

/// The place an assignment to function `f` of class `cl` writes, in range.
pub open spec fn target_ok(t: StrTable, vars: Vars, cl: FnClass, f: int, cite_ptr: int) -> bool {
    match cl {
        FnClass::IntEntryVar => 0 <= t.info_of(f) && entry_slot(cite_ptr, vars.num_ent_ints as int, t.info_of(f) as int) < vars.ints().len(),
        FnClass::StrEntryVar => 0 <= t.info_of(f) && entry_slot(cite_ptr, vars.num_ent_strs as int, t.info_of(f) as int) < vars.strs().len(),
        FnClass::StrGlobalVar => 0 <= t.info_of(f) < vars.globals().len(),
        _ => true,
    }
}

/// `x_gets` (`:=`): pops a function and a value and assigns the value to
/// the variable that the function names. Returns whether it warned (an
/// empty stack, a function that is not a variable, a value of the wrong
/// type, or an entry variable outside the commands that go through the
/// entries) and whether a string was cut to the size of the variable.
/// Nothing is assigned where it warned.
pub fn x_gets(
    stk: &mut LitStack,
    t: &mut StrTable,
    fn_type: &Vec<FnClass>,
    vars: &mut Vars,
    mess_with_entries: bool,
    cite_ptr: usize,
) -> (r: (bool, bool))
    requires
        old(t).wf(),
        fn_type@.len() == old(t).max() + 1,
        popped(old(stk).view(), 0) matches LitV::Fn(f) ==> f <= old(t).max() && target_ok(
            *old(t),
            *old(vars),
            fn_type@[f as int],
            f as int,
            cite_ptr as int,
        ),
    ensures
        ({
            let v = old(stk).view();
            let (a, b) = (popped(v, 0), popped(v, 1));
            let pw = pop_warns(v, 2);
            &&& final(stk).view() == after_pops(v, 2)
            &&& final(t).wf()
            &&& final(t).max() == old(t).max()
            &&& final(t).view() == old(t).view()
            &&& final(t).string_view() == old(t).string_view()
            &&& final(vars).num_ent_ints == old(vars).num_ent_ints
            &&& final(vars).num_ent_strs == old(vars).num_ent_strs
            &&& final(vars).ent_str_size == old(vars).ent_str_size
            &&& final(vars).glob_str_size == old(vars).glob_str_size
            &&& match a {
                LitV::Fn(f) => {
                    let cl = fn_type@[f as int];
                    let k = old(t).info_of(f as int) as int;
                    let entry = cl == FnClass::IntEntryVar || cl == FnClass::StrEntryVar;
                    if !mess_with_entries && entry {
                        &&& r == (true, false)
                        &&& *final(vars) == *old(vars)
                        &&& forall|q: int| #[trigger] final(t).info_of(q) == old(t).info_of(q)
                    } else if cl == FnClass::IntEntryVar || cl == FnClass::IntGlobalVar {
                        &&& final(vars).strs() == old(vars).strs()
                        &&& final(vars).globals() == old(vars).globals()
                        &&& if is_int(b) {
                            &&& r == (pw, false)
                            &&& final(vars).ints() == if cl == FnClass::IntEntryVar {
                                old(vars).ints().update(entry_slot(cite_ptr as int, old(vars).num_ent_ints as int, k), int_of(b))
                            } else {
                                old(vars).ints()
                            }
                            &&& forall|q: int|
                                0 <= q <= old(t).max() ==> #[trigger] final(t).info_of(q) == if cl == FnClass::IntGlobalVar && q == f { int_of(b) } else { old(t).info_of(q) }
                        } else {
                            &&& r == (pw || wrong(b), false)
                            &&& final(vars).ints() == old(vars).ints()
                            &&& forall|q: int| #[trigger] final(t).info_of(q) == old(t).info_of(q)
                        }
                    } else if cl == FnClass::StrEntryVar || cl == FnClass::StrGlobalVar {
                        let size = if cl == FnClass::StrEntryVar { old(vars).ent_str_size as int } else { old(vars).glob_str_size as int };
                        &&& final(vars).ints() == old(vars).ints()
                        &&& forall|q: int| #[trigger] final(t).info_of(q) == old(t).info_of(q)
                        &&& if is_str(b) {
                            &&& r == (pw, str_of(b).len() > size)
                            &&& final(vars).strs() == if cl == FnClass::StrEntryVar {
                                old(vars).strs().update(entry_slot(cite_ptr as int, old(vars).num_ent_strs as int, k), cut(str_of(b), size))
                            } else {
                                old(vars).strs()
                            }
                            &&& final(vars).globals() == if cl == FnClass::StrGlobalVar {
                                old(vars).globals().update(k, cut(str_of(b), size))
                            } else {
                                old(vars).globals()
                            }
                        } else {
                            &&& r == (pw || wrong(b), false)
                            &&& final(vars).strs() == old(vars).strs()
                            &&& final(vars).globals() == old(vars).globals()
                        }
                    } else {
                        &&& r == (true, false)
                        &&& *final(vars) == *old(vars)
                        &&& forall|q: int| #[trigger] final(t).info_of(q) == old(t).info_of(q)
                    }
                },
                _ => {
                    &&& r == (pw || wrong(a), false)
                    &&& *final(vars) == *old(vars)
                    &&& forall|q: int| #[trigger] final(t).info_of(q) == old(t).info_of(q)
                },
            }
        }),
{
    let (a, b, w) = stk.pop2();
    let f = match a {
        Lit::Fn(f) => f,
        Lit::Empty => {
            return (w, false);
        },
        _ => {
            return (true, false);
        },
    };
    let cl = fn_type[f];
    if !mess_with_entries && (cl == FnClass::IntEntryVar || cl == FnClass::StrEntryVar) {
        return (true, false);
    }
    match cl {
        FnClass::IntEntryVar => match b {
            Lit::Int(i) => {
                let k = t.ilk_info(f) as usize;
                proof {
                    vstd::std_specs::vec::axiom_spec_len(&vars.entry_ints);
                }
                let idx = cite_ptr * vars.num_ent_ints + k;
                let ghost old_ints = vars.ints();
                let ghost old_strs = vars.strs();
                let ghost old_globals = vars.globals();
                vars.entry_ints.set(idx, i);
                proof {
                    assert(vars.ints() =~= old_ints.update(idx as int, i));
                    assert(vars.strs() =~= old_strs);
                    assert(vars.globals() =~= old_globals);
                }
                (w, false)
            },
            Lit::Empty => (w, false),
            _ => (true, false),
        },
        FnClass::IntGlobalVar => match b {
            Lit::Int(i) => {
                t.set_ilk_info(f, i);
                (w, false)
            },
            Lit::Empty => (w, false),
            _ => (true, false),
        },
        FnClass::StrEntryVar => match b {
            Lit::Str(s) => {
                let k = t.ilk_info(f) as usize;
                proof {
                    vstd::std_specs::vec::axiom_spec_len(&vars.entry_strs);
                }
                let idx = cite_ptr * vars.num_ent_strs + k;
                let size = vars.ent_str_size;
                let (v, long) = cut_exec(s, size);
                let ghost old_strs = vars.strs();
                vars.entry_strs.set(idx, v);
                proof {
                    assert(vars.strs() =~= old_strs.update(idx as int, cut(b.lv()->Str_0, size as int)));
                }
                (w, long)
            },
            Lit::Empty => (w, false),
            _ => (true, false),
        },
        FnClass::StrGlobalVar => match b {
            Lit::Str(s) => {
                let k = t.ilk_info(f) as usize;
                let size = vars.glob_str_size;
                let (v, long) = cut_exec(s, size);
                let ghost old_globals = vars.globals();
                vars.global_strs.set(k, v);
                proof {
                    assert(vars.globals() =~= old_globals.update(k as int, cut(b.lv()->Str_0, size as int)));
                }
                (w, long)
            },
            Lit::Empty => (w, false),
            _ => (true, false),
        },
        _ => (true, false),
    }
}

/// `s` cut to at most `n` bytes, and whether it was longer.
fn cut_exec(s: Vec<u8>, n: usize) -> (r: (Vec<u8>, bool))
    ensures
        r.0@ == cut(s@, n as int),
        r.1 == (s@.len() > n),
{
    let mut s = s;
    if s.len() > n {
        s.truncate(n);
        (s, true)
    } else {
        (s, false)
    }
}

/// `x_missing` (`missing$`): pops a literal and pushes 1 where it is a
/// missing field, else 0 (and warns where it is neither a string nor a
/// missing field). Outside the commands that go through the entries it
/// only warns. Returns whether it warned.
pub fn x_missing(stk: &mut LitStack, mess_with_entries: bool) -> (warned: bool)
    ensures
        ({
            let v = old(stk).view();
            let a = popped(v, 0);
            if !mess_with_entries {
                &&& final(stk).view() == after_pops(v, 1)
                &&& warned
            } else {
                &&& final(stk).view() == after_pops(v, 1).push(LitV::Int(if a is FieldMissing { 1 } else { 0 }))
                &&& warned == (pop_warns(v, 1) || (!is_str(a) && !(a is FieldMissing) && wrong(a)))
            }
        }),
{
    let (a, w) = stk.pop_lit_stk();
    if !mess_with_entries {
        return true;
    }
    match a {
        Lit::FieldMissing(_) => {
            stk.push_lit_stk(Lit::Int(1));
            w
        },
        Lit::Str(_) => {
            stk.push_lit_stk(Lit::Int(0));
            w
        },
        Lit::Empty => {
            stk.push_lit_stk(Lit::Int(0));
            w
        },
        _ => {
            stk.push_lit_stk(Lit::Int(0));
            true
        },
    }
}

/// `x_cite` (`cite$`): pushes the cite key of the current citation.
/// Outside the commands that go through the entries it only warns.
/// Returns whether it warned.
pub fn x_cite(stk: &mut LitStack, mess_with_entries: bool, t: &StrTable, cite_list: &Vec<usize>, cite_ptr: usize) -> (warned: bool)
    requires
        mess_with_entries ==> cite_ptr < cite_list@.len() && cite_list@[cite_ptr as int] < t.string_view().len(),
    ensures
        warned == !mess_with_entries,
        final(stk).view() == if mess_with_entries {
            old(stk).view().push(LitV::Str(t.string_view()[cite_list@[cite_ptr as int] as int]))
        } else {
            old(stk).view()
        },
{
    if !mess_with_entries {
        return true;
    }
    let s = t.string(cite_list[cite_ptr]);
    stk.push_lit_stk(Lit::Str(s));
    false
}

/// `x_type` (`type$`): pushes the type of the entry of the current
/// citation, or the null string where it has none (its type is 0 or the
/// slot past the last). Outside the commands that go through the entries
/// it only warns. Returns whether it warned.
pub fn x_type(stk: &mut LitStack, mess_with_entries: bool, t: &StrTable, type_list: &Vec<usize>, cite_ptr: usize) -> (warned: bool)
    requires
        t.wf(),
        mess_with_entries ==> cite_ptr < type_list@.len() && type_list@[cite_ptr as int] <= t.max() + 1,
    ensures
        warned == !mess_with_entries,
        final(stk).view() == if mess_with_entries {
            let ty = type_list@[cite_ptr as int] as int;
            old(stk).view().push(LitV::Str(
                if ty == 0 || ty == t.max() + 1 { Seq::empty() } else { t.string_view()[t.text_of(ty)] },
            ))
        } else {
            old(stk).view()
        },
{
    if !mess_with_entries {
        return true;
    }
    let ty = type_list[cite_ptr];
    proof {
        t.lemma_text_bound(ty as int);
    }
    if ty == 0 || ty == t.hash_size() + 1 {
        stk.push_lit_stk(Lit::Str(Vec::new()));
    } else {
        let s = t.string(t.hash_text(ty));
        stk.push_lit_stk(Lit::Str(s));
    }
    false
}

/// `x_warning` (`warning$`): pops a string and returns it as the warning
/// to give; where the literal is not a string it warns of that instead.
/// Returns the warning text, if any, and whether it warned of a wrong or
/// missing literal.
pub fn x_warning(stk: &mut LitStack) -> (r: (Option<Vec<u8>>, bool))
    ensures
        ({
            let v = old(stk).view();
            let a = popped(v, 0);
            &&& final(stk).view() == after_pops(v, 1)
            &&& match r.0 {
                Some(m) => is_str(a) && m@ == str_of(a),
                None => !is_str(a),
            }
            &&& r.1 == (pop_warns(v, 1) || (!is_str(a) && wrong(a)))
        }),
{
    let (a, w) = stk.pop_lit_stk();
    match a {
        Lit::Str(s) => (Some(s), w),
        Lit::Empty => (None, w),
        _ => (None, true),
    }
}

/// `x_write` (`write$`): pops a string and appends it to the output
/// buffer, writing the full lines to `bbl` (see `add_out_pool`). Returns
/// whether it warned (the literal is not a string).
pub fn x_write(stk: &mut LitStack, out_buf: &mut Vec<u8>, bbl: &mut Vec<u8>) -> (warned: bool)
    ensures
        ({
            let v = old(stk).view();
            let a = popped(v, 0);
            &&& final(stk).view() == after_pops(v, 1)
            &&& if is_str(a) {
                let r = break_lines(old(out_buf)@ + str_of(a), old(bbl)@);
                final(out_buf)@ == r.0 && final(bbl)@ == r.1
            } else {
                final(out_buf)@ == old(out_buf)@ && final(bbl)@ == old(bbl)@
            }
            &&& warned == (pop_warns(v, 1) || (!is_str(a) && wrong(a)))
        }),
{
    let (a, w) = stk.pop_lit_stk();
    match a {
        Lit::Str(s) => {
            add_out_pool(out_buf, &s, bbl);
            w
        },
        Lit::Empty => w,
        _ => true,
    }
}

} // verus!
