//! The literal stack of the style-file interpreter, and the built-in
//! functions that work on it alone. Each built-in pops its arguments (the
//! first popped is the top of the stack; popping an empty stack gives the
//! empty literal and a warning), checks their types (a wrong type other
//! than the empty literal gives a warning), and pushes its result (the
//! null string or 0 where an argument was wrong).
use vstd::prelude::*;
use crate::bibtex::text::{
    add_period, add_period_spec, chr_to_int, int_to_chr, lemma_vec_len, num_names, num_names_spec, purify,
    purify_spec, substring, substring_spec, text_length, text_length_spec, text_prefix, text_prefix_spec, width,
    width_spec,
};
use crate::bibtex::lex::{lex_class, LexType, is_white};
use crate::bibtex::scan::{int_to_ASCII, int_text, decimal};
use crate::bibtex::case::{change_case, change_case_spec, conversion_of, ConversionType};
use crate::bibtex::hash::StrTable;
use crate::bibtex::names::{format_name, chosen_name, chosen_tokens, chosen_view, chosen_comma_at_end, format_spec};

verus! {

/// A literal of the stack: an integer, a string, a function (by its slot
/// in the hash table), a missing field (by its name), or the empty literal.
pub enum Lit {
    Int(i32),
    Str(Vec<u8>),
    Fn(usize),
    FieldMissing(Vec<u8>),
    Empty,
}

/// The plain value of a literal.
pub enum LitV {
    Int(i32),
    Str(Seq<u8>),
    Fn(usize),
    FieldMissing(Seq<u8>),
    Empty,
}

impl Lit {
    pub open spec fn lv(&self) -> LitV {
        match self {
            Lit::Int(i) => LitV::Int(*i),
            Lit::Str(s) => LitV::Str(s@),
            Lit::Fn(f) => LitV::Fn(*f),
            Lit::FieldMissing(s) => LitV::FieldMissing(s@),
            Lit::Empty => LitV::Empty,
        }
    }
}

/// The literal stack; its last literal is the top.
pub struct LitStack {
    pub lits: Vec<Lit>,
}

impl LitStack {
    pub open spec fn view(&self) -> Seq<LitV> {
        self.lits@.map_values(|l: Lit| l.lv())
    }
}

/// The `i`th literal popped from `v` (0 for the top): the empty literal
/// once `v` is used up.
pub open spec fn popped(v: Seq<LitV>, i: int) -> LitV {
    if 0 <= i < v.len() {
        v[v.len() - 1 - i]
    } else {
        LitV::Empty
    }
}

/// What is left of `v` once `k` literals are popped.
pub open spec fn after_pops(v: Seq<LitV>, k: int) -> Seq<LitV> {
    if k <= v.len() {
        v.take(v.len() - k)
    } else {
        Seq::empty()
    }
}

/// Popping `k` literals from `v` warns that the stack is empty.
pub open spec fn pop_warns(v: Seq<LitV>, k: int) -> bool {
    v.len() < k
}

pub open spec fn is_int(l: LitV) -> bool {
    l matches LitV::Int(_)
}

pub open spec fn is_str(l: LitV) -> bool {
    l matches LitV::Str(_)
}

pub open spec fn int_of(l: LitV) -> i32 {
    match l {
        LitV::Int(i) => i,
        _ => 0,
    }
}

pub open spec fn str_of(l: LitV) -> Seq<u8> {
    match l {
        LitV::Str(s) => s,
        _ => Seq::empty(),
    }
}

/// A literal that should have been of another type warns, unless it is
/// the empty literal (whose pop warned already).
pub open spec fn wrong(l: LitV) -> bool {
    !(l matches LitV::Empty)
}

fn copy_bytes(v: &Vec<u8>) -> (r: Vec<u8>)
    ensures
        r@ == v@,
{
    let mut r: Vec<u8> = Vec::new();
    let mut i: usize = 0;
    while i < v.len()
        invariant
            i <= v@.len(),
            r@ == v@.take(i as int),
        decreases v@.len() - i,
    {
        r.push(v[i]);
        proof {
            assert(v@.take(i + 1) =~= v@.take(i as int).push(v@[i as int]));
        }
        i = i + 1;
    }
    proof {
        assert(v@.take(v@.len() as int) =~= v@);
    }
    r
}

fn copy_lit(l: &Lit) -> (r: Lit)
    ensures
        r.lv() == l.lv(),
{
    match l {
        Lit::Int(i) => Lit::Int(*i),
        Lit::Str(s) => Lit::Str(copy_bytes(s)),
        Lit::Fn(f) => Lit::Fn(*f),
        Lit::FieldMissing(s) => Lit::FieldMissing(copy_bytes(s)),
        Lit::Empty => Lit::Empty,
    }
}

impl LitStack {
    /// An empty stack.
    pub fn new() -> (r: LitStack)
        ensures
            r.view() == Seq::<LitV>::empty(),
    {
        let r = LitStack { lits: Vec::new() };
        proof {
            assert(r.view() =~= Seq::<LitV>::empty());
        }
        r
    }

    /// `push_lit_stk`.
    pub fn push_lit_stk(&mut self, l: Lit)
        ensures
            final(self).view() == old(self).view().push(l.lv()),
    {
        self.lits.push(l);
        proof {
            assert(self.view() =~= old(self).view().push(l.lv()));
        }
    }

    /// `pop_lit_stk`: the top literal, and whether the stack was empty
    /// (then the empty literal is returned and the stack is left as it is).
    pub fn pop_lit_stk(&mut self) -> (r: (Lit, bool))
        ensures
            r.0.lv() == popped(old(self).view(), 0),
            r.1 == pop_warns(old(self).view(), 1),
            final(self).view() == after_pops(old(self).view(), 1),
    {
        match self.lits.pop() {
            Some(l) => {
                proof {
                    assert(self.view() =~= old(self).view().take(old(self).view().len() - 1));
                }
                (l, false)
            },
            None => {
                proof {
                    assert(self.view() =~= Seq::<LitV>::empty());
                }
                (Lit::Empty, true)
            },
        }
    }

    /// Pops two literals: the top first.
    pub(crate) fn pop2(&mut self) -> (r: (Lit, Lit, bool))
        ensures
            r.0.lv() == popped(old(self).view(), 0),
            r.1.lv() == popped(old(self).view(), 1),
            r.2 == pop_warns(old(self).view(), 2),
            final(self).view() == after_pops(old(self).view(), 2),
    {
        let (a, w1) = self.pop_lit_stk();
        let (b, w2) = self.pop_lit_stk();
        proof {
            let v = old(self).view();
            if v.len() >= 2 {
                assert(after_pops(v, 1).take(after_pops(v, 1).len() - 1) =~= v.take(v.len() - 2));
            }
        }
        (a, b, w1 || w2)
    }

    /// Pops three literals: the top first.
    fn pop3(&mut self) -> (r: (Lit, Lit, Lit, bool))
        ensures
            r.0.lv() == popped(old(self).view(), 0),
            r.1.lv() == popped(old(self).view(), 1),
            r.2.lv() == popped(old(self).view(), 2),
            r.3 == pop_warns(old(self).view(), 3),
            final(self).view() == after_pops(old(self).view(), 3),
    {
        let (a, b, w1) = self.pop2();
        let (c, w2) = self.pop_lit_stk();
        proof {
            let v = old(self).view();
            if v.len() >= 3 {
                assert(after_pops(v, 2).take(after_pops(v, 2).len() - 1) =~= v.take(v.len() - 3));
            }
        }
        (a, b, c, w1 || w2)
    }
}

/// The literals of two values have the same type.
pub open spec fn same_type(a: LitV, b: LitV) -> bool {
    match (a, b) {
        (LitV::Int(_), LitV::Int(_)) => true,
        (LitV::Str(_), LitV::Str(_)) => true,
        (LitV::Fn(_), LitV::Fn(_)) => true,
        (LitV::FieldMissing(_), LitV::FieldMissing(_)) => true,
        (LitV::Empty, LitV::Empty) => true,
        _ => false,
    }
}

fn bytes_eq(a: &Vec<u8>, b: &Vec<u8>) -> (r: bool)
    ensures
        r == (a@ == b@),
{
    if a.len() != b.len() {
        return false;
    }
    let mut i: usize = 0;
    while i < a.len()
        invariant
            i <= a@.len(),
            a@.len() == b@.len(),
            forall|k: int| 0 <= k < i ==> a@[k] == b@[k],
        decreases a@.len() - i,
    {
        if a[i] != b[i] {
            return false;
        }
        i = i + 1;
    }
    proof {
        assert(a@ =~= b@);
    }
    true
}

fn flag(b: bool) -> (r: i32)
    ensures
        r == if b { 1i32 } else { 0i32 },
{
    if b {
        1
    } else {
        0
    }
}

/// `=`: 1 where the two literals are equal integers or equal strings, else
/// 0; literals of different types warn (but for the empty literal), as do
/// equal types other than integers and strings.
pub open spec fn equals_spec(v: Seq<LitV>) -> (LitV, bool) {
    let a = popped(v, 0);
    let b = popped(v, 1);
    if !same_type(a, b) {
        (LitV::Int(0), wrong(a) && wrong(b))
    } else if !is_int(a) && !is_str(a) {
        (LitV::Int(0), wrong(a))
    } else if is_int(a) {
        (LitV::Int(if int_of(b) == int_of(a) { 1 } else { 0 }), false)
    } else {
        (LitV::Int(if str_of(b) == str_of(a) { 1 } else { 0 }), false)
    }
}

/// `x_equals` (`=`); returns whether it warned.
pub fn x_equals(stk: &mut LitStack) -> (warned: bool)
    ensures
        final(stk).view() == after_pops(old(stk).view(), 2).push(equals_spec(old(stk).view()).0),
        warned == (pop_warns(old(stk).view(), 2) || equals_spec(old(stk).view()).1),
{
    let (a, b, w) = stk.pop2();
    let (r, w2) = match (&a, &b) {
        (Lit::Int(x), Lit::Int(y)) => (flag(*y == *x), false),
        (Lit::Str(x), Lit::Str(y)) => (flag(bytes_eq(y, x)), false),
        (Lit::Fn(_), Lit::Fn(_)) => (0, true),
        (Lit::FieldMissing(_), Lit::FieldMissing(_)) => (0, true),
        (Lit::Empty, Lit::Empty) => (0, false),
        (Lit::Empty, _) => (0, false),
        (_, Lit::Empty) => (0, false),
        _ => (0, true),
    };
    stk.push_lit_stk(Lit::Int(r));
    w || w2
}

/// A comparison or sum of two integers: where the top is not an integer,
/// or the one below, it warns (but for the empty literal) and gives 0.
pub open spec fn int_args_wrong(v: Seq<LitV>) -> bool {
    if !is_int(popped(v, 0)) {
        wrong(popped(v, 0))
    } else if !is_int(popped(v, 1)) {
        wrong(popped(v, 1))
    } else {
        false
    }
}

pub open spec fn both_int(v: Seq<LitV>) -> bool {
    is_int(popped(v, 0)) && is_int(popped(v, 1))
}

/// `x_greater_than` (`>`): 1 where the lower integer is greater than the
/// top one.
pub fn x_greater_than(stk: &mut LitStack) -> (warned: bool)
    ensures
        final(stk).view() == after_pops(old(stk).view(), 2).push(LitV::Int(
            if both_int(old(stk).view()) && int_of(popped(old(stk).view(), 1)) > int_of(popped(old(stk).view(), 0)) { 1 } else { 0 },
        )),
        warned == (pop_warns(old(stk).view(), 2) || int_args_wrong(old(stk).view())),
{
    let (a, b, w) = stk.pop2();
    let (r, w2) = match (&a, &b) {
        (Lit::Int(x), Lit::Int(y)) => (flag(*y > *x), false),
        (Lit::Int(_), Lit::Empty) => (0, false),
        (Lit::Int(_), _) => (0, true),
        (Lit::Empty, _) => (0, false),
        _ => (0, true),
    };
    stk.push_lit_stk(Lit::Int(r));
    w || w2
}

/// `x_less_than` (`<`): 1 where the lower integer is less than the top one.
pub fn x_less_than(stk: &mut LitStack) -> (warned: bool)
    ensures
        final(stk).view() == after_pops(old(stk).view(), 2).push(LitV::Int(
            if both_int(old(stk).view()) && int_of(popped(old(stk).view(), 1)) < int_of(popped(old(stk).view(), 0)) { 1 } else { 0 },
        )),
        warned == (pop_warns(old(stk).view(), 2) || int_args_wrong(old(stk).view())),
{
    let (a, b, w) = stk.pop2();
    let (r, w2) = match (&a, &b) {
        (Lit::Int(x), Lit::Int(y)) => (flag(*y < *x), false),
        (Lit::Int(_), Lit::Empty) => (0, false),
        (Lit::Int(_), _) => (0, true),
        (Lit::Empty, _) => (0, false),
        _ => (0, true),
    };
    stk.push_lit_stk(Lit::Int(r));
    w || w2
}

/// `x_plus` (`+`): the sum of the two integers.
pub fn x_plus(stk: &mut LitStack) -> (warned: bool)
    requires
        both_int(old(stk).view()) ==> i32::MIN <= int_of(popped(old(stk).view(), 1)) + int_of(popped(old(stk).view(), 0)) <= i32::MAX,
    ensures
        final(stk).view() == after_pops(old(stk).view(), 2).push(LitV::Int(
            if both_int(old(stk).view()) { (int_of(popped(old(stk).view(), 1)) + int_of(popped(old(stk).view(), 0))) as i32 } else { 0 },
        )),
        warned == (pop_warns(old(stk).view(), 2) || int_args_wrong(old(stk).view())),
{
    let (a, b, w) = stk.pop2();
    let (r, w2) = match (&a, &b) {
        (Lit::Int(x), Lit::Int(y)) => (*y + *x, false),
        (Lit::Int(_), Lit::Empty) => (0, false),
        (Lit::Int(_), _) => (0, true),
        (Lit::Empty, _) => (0, false),
        _ => (0, true),
    };
    stk.push_lit_stk(Lit::Int(r));
    w || w2
}

/// `x_minus` (`-`): the lower integer less the top one.
pub fn x_minus(stk: &mut LitStack) -> (warned: bool)
    requires
        both_int(old(stk).view()) ==> i32::MIN <= int_of(popped(old(stk).view(), 1)) - int_of(popped(old(stk).view(), 0)) <= i32::MAX,
    ensures
        final(stk).view() == after_pops(old(stk).view(), 2).push(LitV::Int(
            if both_int(old(stk).view()) { (int_of(popped(old(stk).view(), 1)) - int_of(popped(old(stk).view(), 0))) as i32 } else { 0 },
        )),
        warned == (pop_warns(old(stk).view(), 2) || int_args_wrong(old(stk).view())),
{
    let (a, b, w) = stk.pop2();
    let (r, w2) = match (&a, &b) {
        (Lit::Int(x), Lit::Int(y)) => (*y - *x, false),
        (Lit::Int(_), Lit::Empty) => (0, false),
        (Lit::Int(_), _) => (0, true),
        (Lit::Empty, _) => (0, false),
        _ => (0, true),
    };
    stk.push_lit_stk(Lit::Int(r));
    w || w2
}

/// Two string arguments: where the top is not a string, or the one below,
/// it warns (but for the empty literal).
pub open spec fn str2_wrong(v: Seq<LitV>) -> bool {
    if !is_str(popped(v, 0)) {
        wrong(popped(v, 0))
    } else if !is_str(popped(v, 1)) {
        wrong(popped(v, 1))
    } else {
        false
    }
}

pub open spec fn both_str(v: Seq<LitV>) -> bool {
    is_str(popped(v, 0)) && is_str(popped(v, 1))
}

/// `x_concatenate` (`*`): the lower string followed by the top one.
pub fn x_concatenate(stk: &mut LitStack) -> (warned: bool)
    ensures
        final(stk).view() == after_pops(old(stk).view(), 2).push(LitV::Str(
            if both_str(old(stk).view()) { str_of(popped(old(stk).view(), 1)) + str_of(popped(old(stk).view(), 0)) } else { Seq::empty() },
        )),
        warned == (pop_warns(old(stk).view(), 2) || str2_wrong(old(stk).view())),
{
    let (a, b, w) = stk.pop2();
    match (a, b) {
        (Lit::Str(x), Lit::Str(y)) => {
            let mut r = y;
            let mut i: usize = 0;
            let ghost y0 = r@;
            while i < x.len()
                invariant
                    i <= x@.len(),
                    r@ == y0 + x@.take(i as int),
                decreases x@.len() - i,
            {
                r.push(x[i]);
                proof {
                    assert(x@.take(i + 1) =~= x@.take(i as int).push(x@[i as int]));
                }
                i = i + 1;
            }
            proof {
                assert(x@.take(x@.len() as int) =~= x@);
            }
            stk.push_lit_stk(Lit::Str(r));
            w
        },
        (Lit::Str(_), Lit::Empty) => {
            stk.push_lit_stk(Lit::Str(Vec::new()));
            w
        },
        (Lit::Str(_), _) => {
            stk.push_lit_stk(Lit::Str(Vec::new()));
            true
        },
        (Lit::Empty, _) => {
            stk.push_lit_stk(Lit::Str(Vec::new()));
            w
        },
        _ => {
            stk.push_lit_stk(Lit::Str(Vec::new()));
            true
        },
    }
}

/// One string argument: a literal of another type warns (but for the
/// empty literal).
pub open spec fn str1_wrong(v: Seq<LitV>) -> bool {
    !is_str(popped(v, 0)) && wrong(popped(v, 0))
}

/// `x_add_period` (`add.period$`).
pub fn x_add_period(stk: &mut LitStack) -> (warned: bool)
    ensures
        final(stk).view() == after_pops(old(stk).view(), 1).push(LitV::Str(
            if is_str(popped(old(stk).view(), 0)) { add_period_spec(str_of(popped(old(stk).view(), 0))) } else { Seq::empty() },
        )),
        warned == (pop_warns(old(stk).view(), 1) || str1_wrong(old(stk).view())),
{
    let (a, w) = stk.pop_lit_stk();
    match a {
        Lit::Str(x) => {
            stk.push_lit_stk(Lit::Str(add_period(&x)));
            w
        },
        Lit::Empty => {
            stk.push_lit_stk(Lit::Str(Vec::new()));
            w
        },
        _ => {
            stk.push_lit_stk(Lit::Str(Vec::new()));
            true
        },
    }
}

/// `x_purify` (`purify$`).
pub fn x_purify(stk: &mut LitStack) -> (warned: bool)
    ensures
        final(stk).view() == after_pops(old(stk).view(), 1).push(LitV::Str(
            if is_str(popped(old(stk).view(), 0)) { purify_spec(str_of(popped(old(stk).view(), 0))) } else { Seq::empty() },
        )),
        warned == (pop_warns(old(stk).view(), 1) || str1_wrong(old(stk).view())),
{
    let (a, w) = stk.pop_lit_stk();
    match a {
        Lit::Str(x) => {
            stk.push_lit_stk(Lit::Str(purify(&x)));
            w
        },
        Lit::Empty => {
            stk.push_lit_stk(Lit::Str(Vec::new()));
            w
        },
        _ => {
            stk.push_lit_stk(Lit::Str(Vec::new()));
            true
        },
    }
}

/// `x_text_length` (`text.length$`): the number of text characters; where
/// the argument is not a string, the null string is pushed.
pub fn x_text_length(stk: &mut LitStack) -> (warned: bool)
    requires
        is_str(popped(old(stk).view(), 0)) ==> str_of(popped(old(stk).view(), 0)).len() < i32::MAX,
    ensures
        final(stk).view() == after_pops(old(stk).view(), 1).push(
            if is_str(popped(old(stk).view(), 0)) { LitV::Int(text_length_spec(str_of(popped(old(stk).view(), 0))) as i32) } else { LitV::Str(Seq::empty()) },
        ),
        warned == (pop_warns(old(stk).view(), 1) || str1_wrong(old(stk).view())),
{
    let (a, w) = stk.pop_lit_stk();
    match a {
        Lit::Str(x) => {
            stk.push_lit_stk(Lit::Int(text_length(&x)));
            w
        },
        Lit::Empty => {
            stk.push_lit_stk(Lit::Str(Vec::new()));
            w
        },
        _ => {
            stk.push_lit_stk(Lit::Str(Vec::new()));
            true
        },
    }
}

/// `x_width` (`width$`): the width of the string; 0 where the argument is
/// not a string.
pub fn x_width(stk: &mut LitStack) -> (warned: bool)
    requires
        is_str(popped(old(stk).view(), 0)) ==> width_spec(str_of(popped(old(stk).view(), 0))) <= i32::MAX,
    ensures
        final(stk).view() == after_pops(old(stk).view(), 1).push(LitV::Int(
            if is_str(popped(old(stk).view(), 0)) { width_spec(str_of(popped(old(stk).view(), 0))) as i32 } else { 0 },
        )),
        warned == (pop_warns(old(stk).view(), 1) || str1_wrong(old(stk).view())),
{
    let (a, w) = stk.pop_lit_stk();
    match a {
        Lit::Str(x) => {
            stk.push_lit_stk(Lit::Int(width(&x)));
            w
        },
        Lit::Empty => {
            stk.push_lit_stk(Lit::Int(0));
            w
        },
        _ => {
            stk.push_lit_stk(Lit::Int(0));
            true
        },
    }
}

/// `x_num_names` (`num.names$`): the number of names; 0 where the argument
/// is not a string.
pub fn x_num_names(stk: &mut LitStack) -> (warned: bool)
    requires
        is_str(popped(old(stk).view(), 0)) ==> str_of(popped(old(stk).view(), 0)).len() < i32::MAX,
    ensures
        final(stk).view() == after_pops(old(stk).view(), 1).push(LitV::Int(
            if is_str(popped(old(stk).view(), 0)) { num_names_spec(str_of(popped(old(stk).view(), 0))) as i32 } else { 0 },
        )),
        warned == (pop_warns(old(stk).view(), 1) || str1_wrong(old(stk).view())),
{
    let (a, w) = stk.pop_lit_stk();
    match a {
        Lit::Str(x) => {
            stk.push_lit_stk(Lit::Int(num_names(&x)));
            w
        },
        Lit::Empty => {
            stk.push_lit_stk(Lit::Int(0));
            w
        },
        _ => {
            stk.push_lit_stk(Lit::Int(0));
            true
        },
    }
}

/// `x_chr_to_int` (`chr.to.int$`): the code of a one-byte string; 0, with
/// a warning, for any other string, and 0 where it is not a string.
pub fn x_chr_to_int(stk: &mut LitStack) -> (warned: bool)
    ensures
        ({
            let a = popped(old(stk).view(), 0);
            &&& final(stk).view() == after_pops(old(stk).view(), 1).push(LitV::Int(
                if is_str(a) && str_of(a).len() == 1 { str_of(a)[0] as i32 } else { 0 },
            ))
            &&& warned == (pop_warns(old(stk).view(), 1) || str1_wrong(old(stk).view()) || (is_str(a) && str_of(a).len() != 1))
        }),
{
    let (a, w) = stk.pop_lit_stk();
    match a {
        Lit::Str(x) => match chr_to_int(&x) {
            Some(c) => {
                stk.push_lit_stk(Lit::Int(c));
                w
            },
            None => {
                stk.push_lit_stk(Lit::Int(0));
                true
            },
        },
        Lit::Empty => {
            stk.push_lit_stk(Lit::Int(0));
            w
        },
        _ => {
            stk.push_lit_stk(Lit::Int(0));
            true
        },
    }
}

/// `x_int_to_chr` (`int.to.chr$`): the one-byte string of an ASCII code;
/// the null string, with a warning, for other integers, and the null string
/// where it is not an integer.
pub fn x_int_to_chr(stk: &mut LitStack) -> (warned: bool)
    ensures
        ({
            let a = popped(old(stk).view(), 0);
            &&& final(stk).view() == after_pops(old(stk).view(), 1).push(LitV::Str(
                if is_int(a) && 0 <= int_of(a) <= 127 { seq![int_of(a) as u8] } else { Seq::empty() },
            ))
            &&& warned == (pop_warns(old(stk).view(), 1) || (!is_int(a) && wrong(a)) || (is_int(a) && !(0 <= int_of(a) <= 127)))
        }),
{
    let (a, w) = stk.pop_lit_stk();
    match a {
        Lit::Int(i) => match int_to_chr(i) {
            Some(c) => {
                stk.push_lit_stk(Lit::Str(c));
                w
            },
            None => {
                stk.push_lit_stk(Lit::Str(Vec::new()));
                true
            },
        },
        Lit::Empty => {
            stk.push_lit_stk(Lit::Str(Vec::new()));
            w
        },
        _ => {
            stk.push_lit_stk(Lit::Str(Vec::new()));
            true
        },
    }
}

spec fn ten_pow(k: nat) -> nat
    decreases k,
{
    if k == 0 {
        1
    } else {
        10 * ten_pow((k - 1) as nat)
    }
}

proof fn lemma_decimal_short(n: nat, k: nat)
    requires
        k >= 1,
        n < ten_pow(k),
    ensures
        decimal(n).len() <= k,
    decreases k,
{
    if n >= 10 {
        assert(k >= 2) by {
            if k == 1 {
                assert(ten_pow(1) == 10 * ten_pow(0));
            }
        }
        let t = ten_pow((k - 1) as nat);
        assert(ten_pow(k) == 10 * t);
        assert(n / 10 < t) by (nonlinear_arith)
            requires
                n < 10 * t,
                n >= 10,
        ;
        lemma_decimal_short(n / 10, (k - 1) as nat);
    }
}

/// `x_int_to_str` (`int.to.str$`): the decimal text of an integer; the
/// null string where it is not an integer.
pub fn x_int_to_str(stk: &mut LitStack) -> (warned: bool)
    requires
        is_int(popped(old(stk).view(), 0)) ==> int_of(popped(old(stk).view(), 0)) != i32::MIN,
    ensures
        ({
            let a = popped(old(stk).view(), 0);
            &&& final(stk).view() == after_pops(old(stk).view(), 1).push(LitV::Str(
                if is_int(a) { int_text(int_of(a) as int) } else { Seq::empty() },
            ))
            &&& warned == (pop_warns(old(stk).view(), 1) || (!is_int(a) && wrong(a)))
        }),
{
    let (a, w) = stk.pop_lit_stk();
    match a {
        Lit::Int(i) => {
            proof {
                reveal_with_fuel(ten_pow, 11);
                assert(ten_pow(10) == 10000000000);
                if i < 0 {
                    lemma_decimal_short((-i) as nat, 10);
                } else {
                    lemma_decimal_short(i as nat, 10);
                }
            }
            let mut buf: Vec<u8> = vec![0u8; 12];
            let e = int_to_ASCII(i, &mut buf, 0);
            let mut r: Vec<u8> = Vec::new();
            let mut k: usize = 0;
            while k < e
                invariant
                    k <= e <= buf@.len(),
                    r@ == buf@.subrange(0, k as int),
                decreases e - k,
            {
                r.push(buf[k]);
                proof {
                    assert(buf@.subrange(0, k + 1) =~= buf@.subrange(0, k as int).push(buf@[k as int]));
                }
                k = k + 1;
            }
            stk.push_lit_stk(Lit::Str(r));
            w
        },
        Lit::Empty => {
            stk.push_lit_stk(Lit::Str(Vec::new()));
            w
        },
        _ => {
            stk.push_lit_stk(Lit::Str(Vec::new()));
            true
        },
    }
}

/// `x_substring` (`substring$`): of the string third from the top, the
/// substring that the start (second) and length (top) give; the null
/// string where an argument has the wrong type.
pub fn x_substring(stk: &mut LitStack) -> (warned: bool)
    requires
        is_str(popped(old(stk).view(), 2)) ==> str_of(popped(old(stk).view(), 2)).len() < i32::MAX,
    ensures
        ({
            let v = old(stk).view();
            let (a, b, c) = (popped(v, 0), popped(v, 1), popped(v, 2));
            &&& final(stk).view() == after_pops(v, 3).push(LitV::Str(
                if is_int(a) && is_int(b) && is_str(c) { substring_spec(str_of(c), int_of(b) as int, int_of(a) as int) } else { Seq::empty() },
            ))
            &&& warned == (pop_warns(v, 3) || if !is_int(a) { wrong(a) } else if !is_int(b) { wrong(b) } else { !is_str(c) && wrong(c) })
        }),
{
    let (a, b, c, w) = stk.pop3();
    match (a, b, c) {
        (Lit::Int(len), Lit::Int(start), Lit::Str(x)) => {
            stk.push_lit_stk(Lit::Str(substring(&x, start, len)));
            w
        },
        (Lit::Int(_), Lit::Int(_), Lit::Empty) => {
            stk.push_lit_stk(Lit::Str(Vec::new()));
            w
        },
        (Lit::Int(_), Lit::Int(_), _) => {
            stk.push_lit_stk(Lit::Str(Vec::new()));
            true
        },
        (Lit::Int(_), Lit::Empty, _) => {
            stk.push_lit_stk(Lit::Str(Vec::new()));
            w
        },
        (Lit::Int(_), _, _) => {
            stk.push_lit_stk(Lit::Str(Vec::new()));
            true
        },
        (Lit::Empty, _, _) => {
            stk.push_lit_stk(Lit::Str(Vec::new()));
            w
        },
        _ => {
            stk.push_lit_stk(Lit::Str(Vec::new()));
            true
        },
    }
}

/// `x_text_prefix` (`text.prefix$`): the first text characters (as many as
/// the top integer says) of the string below it; the null string where an
/// argument has the wrong type.
pub fn x_text_prefix(stk: &mut LitStack) -> (warned: bool)
    ensures
        ({
            let v = old(stk).view();
            let (a, b) = (popped(v, 0), popped(v, 1));
            &&& final(stk).view() == after_pops(v, 2).push(LitV::Str(
                if is_int(a) && is_str(b) { text_prefix_spec(str_of(b), int_of(a) as int) } else { Seq::empty() },
            ))
            &&& warned == (pop_warns(v, 2) || if !is_int(a) { wrong(a) } else { !is_str(b) && wrong(b) })
        }),
{
    let (a, b, w) = stk.pop2();
    match (a, b) {
        (Lit::Int(n), Lit::Str(x)) => {
            stk.push_lit_stk(Lit::Str(text_prefix(&x, n)));
            w
        },
        (Lit::Int(_), Lit::Empty) => {
            stk.push_lit_stk(Lit::Str(Vec::new()));
            w
        },
        (Lit::Int(_), _) => {
            stk.push_lit_stk(Lit::Str(Vec::new()));
            true
        },
        (Lit::Empty, _) => {
            stk.push_lit_stk(Lit::Str(Vec::new()));
            w
        },
        _ => {
            stk.push_lit_stk(Lit::Str(Vec::new()));
            true
        },
    }
}

/// `x_swap` (`swap$`): swaps the two literals on top (an empty stack gives
/// empty literals).
pub fn x_swap(stk: &mut LitStack) -> (warned: bool)
    ensures
        final(stk).view() == after_pops(old(stk).view(), 2).push(popped(old(stk).view(), 0)).push(popped(old(stk).view(), 1)),
        warned == pop_warns(old(stk).view(), 2),
{
    let (a, b, w) = stk.pop2();
    stk.push_lit_stk(a);
    stk.push_lit_stk(b);
    w
}

/// `x_duplicate` (`duplicate$`): pushes the top literal twice (an empty
/// stack gives two empty literals).
pub fn x_duplicate(stk: &mut LitStack) -> (warned: bool)
    ensures
        final(stk).view() == after_pops(old(stk).view(), 1).push(popped(old(stk).view(), 0)).push(popped(old(stk).view(), 0)),
        warned == pop_warns(old(stk).view(), 1),
{
    let (a, w) = stk.pop_lit_stk();
    let b = copy_lit(&a);
    stk.push_lit_stk(a);
    stk.push_lit_stk(b);
    w
}

/// Whether all of `s` is white space.
pub open spec fn all_white(s: Seq<u8>) -> bool {
    forall|i: int| 0 <= i < s.len() ==> is_white(#[trigger] s[i])
}

/// `x_empty` (`empty$`): 1 for a string of white space only and for a
/// missing field, 0 for other strings and the empty literal; other types
/// warn and give 0.
pub fn x_empty(stk: &mut LitStack) -> (warned: bool)
    ensures
        ({
            let a = popped(old(stk).view(), 0);
            &&& final(stk).view() == after_pops(old(stk).view(), 1).push(LitV::Int(
                match a {
                    LitV::Str(s) => if all_white(s) { 1 } else { 0 },
                    LitV::FieldMissing(_) => 1,
                    _ => 0,
                },
            ))
            &&& warned == (pop_warns(old(stk).view(), 1) || a matches LitV::Int(_) || a matches LitV::Fn(_))
        }),
{
    let (a, w) = stk.pop_lit_stk();
    match a {
        Lit::Str(x) => {
            let mut i: usize = 0;
            while i < x.len()
                invariant
                    i <= x@.len(),
                    forall|k: int| 0 <= k < i ==> is_white(#[trigger] x@[k]),
                    stk.view() == after_pops(old(stk).view(), 1),
                    LitV::Str(x@) == popped(old(stk).view(), 0),
                    w == pop_warns(old(stk).view(), 1),
                decreases x@.len() - i,
            {
                if lex_class(x[i]) != LexType::WhiteSpace {
                    assert(!is_white(x@[i as int]));
                    stk.push_lit_stk(Lit::Int(0));
                    return w;
                }
                i = i + 1;
            }
            stk.push_lit_stk(Lit::Int(1));
            w
        },
        Lit::FieldMissing(_) => {
            stk.push_lit_stk(Lit::Int(1));
            w
        },
        Lit::Empty => {
            stk.push_lit_stk(Lit::Int(0));
            w
        },
        _ => {
            stk.push_lit_stk(Lit::Int(0));
            true
        },
    }
}

/// `x_quote` (`quote$`): pushes the string of one double quote.
pub fn x_quote(stk: &mut LitStack)
    ensures
        final(stk).view() == old(stk).view().push(LitV::Str(seq![34u8])),
{
    let q: Vec<u8> = vec![34u8];
    proof {
        assert(q@ =~= seq![34u8]);
    }
    stk.push_lit_stk(Lit::Str(q));
}

/// The texts of the strings `pre` (by number in `t`), one after another.
pub open spec fn preamble_text(t: StrTable, pre: Seq<usize>) -> Seq<u8>
    decreases pre.len(),
{
    if pre.len() == 0 {
        Seq::empty()
    } else {
        preamble_text(t, pre.drop_last()) + t.string_view()[pre.last() as int]
    }
}

/// `x_preamble` (`preamble$`): pushes the preamble of the database files,
/// the strings of `preamble` one after another.
pub fn x_preamble(stk: &mut LitStack, t: &StrTable, preamble: &Vec<usize>)
    requires
        forall|i: int| 0 <= i < preamble@.len() ==> #[trigger] preamble@[i] < t.string_view().len(),
    ensures
        final(stk).view() == old(stk).view().push(LitV::Str(preamble_text(*t, preamble@))),
{
    let mut text: Vec<u8> = Vec::new();
    let mut i: usize = 0;
    while i < preamble.len()
        invariant
            i <= preamble@.len(),
            forall|k: int| 0 <= k < preamble@.len() ==> #[trigger] preamble@[k] < t.string_view().len(),
            text@ == preamble_text(*t, preamble@.take(i as int)),
        decreases preamble@.len() - i,
    {
        let s = t.string(preamble[i]);
        let mut k: usize = 0;
        let ghost t0 = text@;
        while k < s.len()
            invariant
                k <= s@.len(),
                text@ == t0 + s@.take(k as int),
            decreases s@.len() - k,
        {
            text.push(s[k]);
            proof {
                assert(s@.take(k + 1) =~= s@.take(k as int).push(s@[k as int]));
            }
            k = k + 1;
        }
        proof {
            assert(s@.take(s@.len() as int) =~= s@);
            assert(preamble@.take(i + 1).drop_last() =~= preamble@.take(i as int));
        }
        i = i + 1;
    }
    proof {
        assert(preamble@.take(preamble@.len() as int) =~= preamble@);
    }
    stk.push_lit_stk(Lit::Str(text));
}

/// `x_change_case` (`change.case$`): the string below the top converted as
/// the top string says; the null string where an argument is not a string.
/// A bad conversion string warns.
pub fn x_change_case(stk: &mut LitStack) -> (warned: bool)
    requires
        is_str(popped(old(stk).view(), 1)) ==> str_of(popped(old(stk).view(), 1)).len() < usize::MAX - 2,
    ensures
        ({
            let v = old(stk).view();
            let (a, b) = (popped(v, 0), popped(v, 1));
            &&& final(stk).view() == after_pops(v, 2).push(LitV::Str(
                if both_str(v) { change_case_spec(str_of(b), conversion_of(str_of(a))).0 } else { Seq::empty() },
            ))
            &&& warned == (pop_warns(v, 2) || str2_wrong(v) || (both_str(v) && conversion_of(str_of(a)) == ConversionType::BadConversion))
        }),
{
    let (a, b, w) = stk.pop2();
    match (a, b) {
        (Lit::Str(spec), Lit::Str(x)) => {
            let r = change_case(&x, &spec);
            let bad = r.bad_conversion;
            stk.push_lit_stk(Lit::Str(r.text));
            w || bad
        },
        (Lit::Str(_), Lit::Empty) => {
            stk.push_lit_stk(Lit::Str(Vec::new()));
            w
        },
        (Lit::Str(_), _) => {
            stk.push_lit_stk(Lit::Str(Vec::new()));
            true
        },
        (Lit::Empty, _) => {
            stk.push_lit_stk(Lit::Str(Vec::new()));
            w
        },
        _ => {
            stk.push_lit_stk(Lit::Str(Vec::new()));
            true
        },
    }
}

/// `x_format_name` (`format.name$`): the name of the string third from the
/// top that the integer below the top names, written by the top string;
/// the null string where an argument has the wrong type. A name or format
/// that `format_name` finds fault with warns.
pub fn x_format_name(stk: &mut LitStack) -> (warned: bool)
    requires
        is_str(popped(old(stk).view(), 2)) ==> str_of(popped(old(stk).view(), 2)).len() < 0x4000_0000,
        is_str(popped(old(stk).view(), 0)) ==> str_of(popped(old(stk).view(), 0)).len() < 0x4000_0000,
    ensures
        ({
            let v = old(stk).view();
            let (a, b, c) = (popped(v, 0), popped(v, 1), popped(v, 2));
            let ok = is_str(a) && is_int(b) && is_str(c);
            let names = str_of(c);
            let n = int_of(b) as int;
            let t = chosen_tokens(names, n);
            let out = format_spec(str_of(a), chosen_view(names, n), t.lvl as i32);
            &&& final(stk).view() == after_pops(v, 3).push(LitV::Str(if ok { out.0 } else { Seq::empty() }))
            &&& warned == (pop_warns(v, 3) || (if !is_str(a) { wrong(a) } else if !is_int(b) { wrong(b) } else { !is_str(c) && wrong(c) })
                || (ok && (chosen_name(names, n).3 || chosen_comma_at_end(names, n) || t.too_many_commas || t.unbalanced || out.2)))
        }),
{
    let (a, b, c, w) = stk.pop3();
    match (a, b, c) {
        (Lit::Str(f), Lit::Int(n), Lit::Str(x)) => {
            let r = format_name(&x, n, &f);
            let bad = r.too_few_names || r.comma_at_end || r.too_many_commas || r.name_unbalanced || r.format_letter;
            stk.push_lit_stk(Lit::Str(r.text));
            w || bad
        },
        (Lit::Str(_), Lit::Int(_), Lit::Empty) => {
            stk.push_lit_stk(Lit::Str(Vec::new()));
            w
        },
        (Lit::Str(_), Lit::Int(_), _) => {
            stk.push_lit_stk(Lit::Str(Vec::new()));
            true
        },
        (Lit::Str(_), Lit::Empty, _) => {
            stk.push_lit_stk(Lit::Str(Vec::new()));
            w
        },
        (Lit::Str(_), _, _) => {
            stk.push_lit_stk(Lit::Str(Vec::new()));
            true
        },
        (Lit::Empty, _, _) => {
            stk.push_lit_stk(Lit::Str(Vec::new()));
            w
        },
        _ => {
            stk.push_lit_stk(Lit::Str(Vec::new()));
            true
        },
    }
}

/// What `swap$` does to the stack `v`.
pub open spec fn swap_spec(v: Seq<LitV>) -> Seq<LitV> {
    after_pops(v, 2).push(popped(v, 0)).push(popped(v, 1))
}

/// `swap$` twice leaves a stack of two or more literals as it was.
pub proof fn law_swap_twice(v: Seq<LitV>)
    requires
        v.len() >= 2,
    ensures
        swap_spec(swap_spec(v)) == v,
{
    let w = swap_spec(v);
    assert(after_pops(w, 2) =~= after_pops(v, 2));
    assert(swap_spec(w) =~= v);
}

} // verus!
