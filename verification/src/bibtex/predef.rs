//! The strings that BibTeX knows before reading anything: file name
//! extensions and search areas, the commands of its three kinds of files,
//! the built-in functions of the style language, the control sequences of
//! special characters, and the predefined field and variables.
use vstd::prelude::*;
use crate::bibtex::hash::{StrTable, law_slots_distinct};
use crate::bibtex::scan::Scanner;
use crate::bibtex::lex::lower_case;
use crate::bibtex::cite::lower_key;

verus! {

/// The classes of the functions of the style language.
#[derive(Clone, Copy, Debug, PartialEq, Eq, Structural)]
pub enum FnClass {
    BuiltIn,
    WizDefined,
    IntLiteral,
    StrLiteral,
    Field,
    IntEntryVar,
    StrEntryVar,
    IntGlobalVar,
    StrGlobalVar,
}

/// The number of predefined strings.
pub const NUM_PREDEFS: usize = 80;

/// The number of built-in functions.
pub const NUM_BUILTINS: usize = 37;

/// The file name extensions: `.aux`, `.bbl`, `.blg`, `.bst` and `.bib`.
pub open spec fn extension_name(i: int) -> Seq<u8> {
    if i == 0 {
        seq![46u8, 97, 117, 120]  // .aux
    } else if i == 1 {
        seq![46u8, 98, 98, 108]  // .bbl
    } else if i == 2 {
        seq![46u8, 98, 108, 103]  // .blg
    } else if i == 3 {
        seq![46u8, 98, 115, 116]  // .bst
    } else {
        seq![46u8, 98, 105, 98]  // .bib
    }
}

fn extension_name_bytes(i: usize) -> (r: Vec<u8>)
    requires
        i < 5,
    ensures
        r@ == extension_name(i as int),
{
    let r: Vec<u8> = if i == 0 {
        vec![46u8, 97, 117, 120]
    } else if i == 1 {
        vec![46u8, 98, 98, 108]
    } else if i == 2 {
        vec![46u8, 98, 108, 103]
    } else if i == 3 {
        vec![46u8, 98, 115, 116]
    } else {
        vec![46u8, 98, 105, 98]
    };
    assert(r@ =~= extension_name(i as int));
    r
}

/// The search areas of style files and of database files.
pub open spec fn area_name(i: int) -> Seq<u8> {
    if i == 0 {
        seq![116u8, 101, 120, 105, 110, 112, 117, 116, 115, 58]  // texinputs:
    } else {
        seq![116u8, 101, 120, 98, 105, 98, 58]  // texbib:
    }
}

fn area_name_bytes(i: usize) -> (r: Vec<u8>)
    requires
        i < 2,
    ensures
        r@ == area_name(i as int),
{
    let r: Vec<u8> = if i == 0 {
        vec![116u8, 101, 120, 105, 110, 112, 117, 116, 115, 58]
    } else {
        vec![116u8, 101, 120, 98, 105, 98, 58]
    };
    assert(r@ =~= area_name(i as int));
    r
}

/// The commands of the `.aux` file, in the order they are stored.
pub open spec fn aux_command_name(i: int) -> Seq<u8> {
    if i == 0 {
        seq![92u8, 99, 105, 116, 97, 116, 105, 111, 110]  // \\citation
    } else if i == 1 {
        seq![92u8, 98, 105, 98, 100, 97, 116, 97]  // \\bibdata
    } else if i == 2 {
        seq![92u8, 98, 105, 98, 115, 116, 121, 108, 101]  // \\bibstyle
    } else {
        seq![92u8, 64, 105, 110, 112, 117, 116]  // \\@input
    }
}

fn aux_command_name_bytes(i: usize) -> (r: Vec<u8>)
    requires
        i < 4,
    ensures
        r@ == aux_command_name(i as int),
{
    let r: Vec<u8> = if i == 0 {
        vec![92u8, 99, 105, 116, 97, 116, 105, 111, 110]
    } else if i == 1 {
        vec![92u8, 98, 105, 98, 100, 97, 116, 97]
    } else if i == 2 {
        vec![92u8, 98, 105, 98, 115, 116, 121, 108, 101]
    } else {
        vec![92u8, 64, 105, 110, 112, 117, 116]
    };
    assert(r@ =~= aux_command_name(i as int));
    r
}

/// The commands of the style file, by number.
pub open spec fn bst_command_name(i: int) -> Seq<u8> {
    if i == 0 {
        seq![101u8, 110, 116, 114, 121]  // entry
    } else if i == 1 {
        seq![101u8, 120, 101, 99, 117, 116, 101]  // execute
    } else if i == 2 {
        seq![102u8, 117, 110, 99, 116, 105, 111, 110]  // function
    } else if i == 3 {
        seq![105u8, 110, 116, 101, 103, 101, 114, 115]  // integers
    } else if i == 4 {
        seq![105u8, 116, 101, 114, 97, 116, 101]  // iterate
    } else if i == 5 {
        seq![109u8, 97, 99, 114, 111]  // macro
    } else if i == 6 {
        seq![114u8, 101, 97, 100]  // read
    } else if i == 7 {
        seq![114u8, 101, 118, 101, 114, 115, 101]  // reverse
    } else if i == 8 {
        seq![115u8, 111, 114, 116]  // sort
    } else {
        seq![115u8, 116, 114, 105, 110, 103, 115]  // strings
    }
}

fn bst_command_name_bytes(i: usize) -> (r: Vec<u8>)
    requires
        i < 10,
    ensures
        r@ == bst_command_name(i as int),
{
    let r: Vec<u8> = if i == 0 {
        vec![101u8, 110, 116, 114, 121]
    } else if i == 1 {
        vec![101u8, 120, 101, 99, 117, 116, 101]
    } else if i == 2 {
        vec![102u8, 117, 110, 99, 116, 105, 111, 110]
    } else if i == 3 {
        vec![105u8, 110, 116, 101, 103, 101, 114, 115]
    } else if i == 4 {
        vec![105u8, 116, 101, 114, 97, 116, 101]
    } else if i == 5 {
        vec![109u8, 97, 99, 114, 111]
    } else if i == 6 {
        vec![114u8, 101, 97, 100]
    } else if i == 7 {
        vec![114u8, 101, 118, 101, 114, 115, 101]
    } else if i == 8 {
        vec![115u8, 111, 114, 116]
    } else {
        vec![115u8, 116, 114, 105, 110, 103, 115]
    };
    assert(r@ =~= bst_command_name(i as int));
    r
}

/// The commands of the database file, by number.
pub open spec fn bib_command_name(i: int) -> Seq<u8> {
    if i == 0 {
        seq![99u8, 111, 109, 109, 101, 110, 116]  // comment
    } else if i == 1 {
        seq![112u8, 114, 101, 97, 109, 98, 108, 101]  // preamble
    } else {
        seq![115u8, 116, 114, 105, 110, 103]  // string
    }
}

fn bib_command_name_bytes(i: usize) -> (r: Vec<u8>)
    requires
        i < 3,
    ensures
        r@ == bib_command_name(i as int),
{
    let r: Vec<u8> = if i == 0 {
        vec![99u8, 111, 109, 109, 101, 110, 116]
    } else if i == 1 {
        vec![112u8, 114, 101, 97, 109, 98, 108, 101]
    } else {
        vec![115u8, 116, 114, 105, 110, 103]
    };
    assert(r@ =~= bib_command_name(i as int));
    r
}

/// The built-in functions of the style language, by number.
pub open spec fn builtin_name(i: int) -> Seq<u8> {
    if i == 0 {
        seq![61u8]  // =
    } else if i == 1 {
        seq![62u8]  // >
    } else if i == 2 {
        seq![60u8]  // <
    } else if i == 3 {
        seq![43u8]  // +
    } else if i == 4 {
        seq![45u8]  // -
    } else if i == 5 {
        seq![42u8]  // *
    } else if i == 6 {
        seq![58u8, 61]  // :=
    } else if i == 7 {
        seq![97u8, 100, 100, 46, 112, 101, 114, 105, 111, 100, 36]  // add.period$
    } else if i == 8 {
        seq![99u8, 97, 108, 108, 46, 116, 121, 112, 101, 36]  // call.type$
    } else if i == 9 {
        seq![99u8, 104, 97, 110, 103, 101, 46, 99, 97, 115, 101, 36]  // change.case$
    } else if i == 10 {
        seq![99u8, 104, 114, 46, 116, 111, 46, 105, 110, 116, 36]  // chr.to.int$
    } else if i == 11 {
        seq![99u8, 105, 116, 101, 36]  // cite$
    } else if i == 12 {
        seq![100u8, 117, 112, 108, 105, 99, 97, 116, 101, 36]  // duplicate$
    } else if i == 13 {
        seq![101u8, 109, 112, 116, 121, 36]  // empty$
    } else if i == 14 {
        seq![102u8, 111, 114, 109, 97, 116, 46, 110, 97, 109, 101, 36]  // format.name$
    } else if i == 15 {
        seq![105u8, 102, 36]  // if$
    } else if i == 16 {
        seq![105u8, 110, 116, 46, 116, 111, 46, 99, 104, 114, 36]  // int.to.chr$
    } else if i == 17 {
        seq![105u8, 110, 116, 46, 116, 111, 46, 115, 116, 114, 36]  // int.to.str$
    } else if i == 18 {
        seq![109u8, 105, 115, 115, 105, 110, 103, 36]  // missing$
    } else if i == 19 {
        seq![110u8, 101, 119, 108, 105, 110, 101, 36]  // newline$
    } else if i == 20 {
        seq![110u8, 117, 109, 46, 110, 97, 109, 101, 115, 36]  // num.names$
    } else if i == 21 {
        seq![112u8, 111, 112, 36]  // pop$
    } else if i == 22 {
        seq![112u8, 114, 101, 97, 109, 98, 108, 101, 36]  // preamble$
    } else if i == 23 {
        seq![112u8, 117, 114, 105, 102, 121, 36]  // purify$
    } else if i == 24 {
        seq![113u8, 117, 111, 116, 101, 36]  // quote$
    } else if i == 25 {
        seq![115u8, 107, 105, 112, 36]  // skip$
    } else if i == 26 {
        seq![115u8, 116, 97, 99, 107, 36]  // stack$
    } else if i == 27 {
        seq![115u8, 117, 98, 115, 116, 114, 105, 110, 103, 36]  // substring$
    } else if i == 28 {
        seq![115u8, 119, 97, 112, 36]  // swap$
    } else if i == 29 {
        seq![116u8, 101, 120, 116, 46, 108, 101, 110, 103, 116, 104, 36]  // text.length$
    } else if i == 30 {
        seq![116u8, 101, 120, 116, 46, 112, 114, 101, 102, 105, 120, 36]  // text.prefix$
    } else if i == 31 {
        seq![116u8, 111, 112, 36]  // top$
    } else if i == 32 {
        seq![116u8, 121, 112, 101, 36]  // type$
    } else if i == 33 {
        seq![119u8, 97, 114, 110, 105, 110, 103, 36]  // warning$
    } else if i == 34 {
        seq![119u8, 104, 105, 108, 101, 36]  // while$
    } else if i == 35 {
        seq![119u8, 105, 100, 116, 104, 36]  // width$
    } else {
        seq![119u8, 114, 105, 116, 101, 36]  // write$
    }
}

fn builtin_name_bytes(i: usize) -> (r: Vec<u8>)
    requires
        i < 37,
    ensures
        r@ == builtin_name(i as int),
{
    let r: Vec<u8> = if i == 0 {
        vec![61u8]
    } else if i == 1 {
        vec![62u8]
    } else if i == 2 {
        vec![60u8]
    } else if i == 3 {
        vec![43u8]
    } else if i == 4 {
        vec![45u8]
    } else if i == 5 {
        vec![42u8]
    } else if i == 6 {
        vec![58u8, 61]
    } else if i == 7 {
        vec![97u8, 100, 100, 46, 112, 101, 114, 105, 111, 100, 36]
    } else if i == 8 {
        vec![99u8, 97, 108, 108, 46, 116, 121, 112, 101, 36]
    } else if i == 9 {
        vec![99u8, 104, 97, 110, 103, 101, 46, 99, 97, 115, 101, 36]
    } else if i == 10 {
        vec![99u8, 104, 114, 46, 116, 111, 46, 105, 110, 116, 36]
    } else if i == 11 {
        vec![99u8, 105, 116, 101, 36]
    } else if i == 12 {
        vec![100u8, 117, 112, 108, 105, 99, 97, 116, 101, 36]
    } else if i == 13 {
        vec![101u8, 109, 112, 116, 121, 36]
    } else if i == 14 {
        vec![102u8, 111, 114, 109, 97, 116, 46, 110, 97, 109, 101, 36]
    } else if i == 15 {
        vec![105u8, 102, 36]
    } else if i == 16 {
        vec![105u8, 110, 116, 46, 116, 111, 46, 99, 104, 114, 36]
    } else if i == 17 {
        vec![105u8, 110, 116, 46, 116, 111, 46, 115, 116, 114, 36]
    } else if i == 18 {
        vec![109u8, 105, 115, 115, 105, 110, 103, 36]
    } else if i == 19 {
        vec![110u8, 101, 119, 108, 105, 110, 101, 36]
    } else if i == 20 {
        vec![110u8, 117, 109, 46, 110, 97, 109, 101, 115, 36]
    } else if i == 21 {
        vec![112u8, 111, 112, 36]
    } else if i == 22 {
        vec![112u8, 114, 101, 97, 109, 98, 108, 101, 36]
    } else if i == 23 {
        vec![112u8, 117, 114, 105, 102, 121, 36]
    } else if i == 24 {
        vec![113u8, 117, 111, 116, 101, 36]
    } else if i == 25 {
        vec![115u8, 107, 105, 112, 36]
    } else if i == 26 {
        vec![115u8, 116, 97, 99, 107, 36]
    } else if i == 27 {
        vec![115u8, 117, 98, 115, 116, 114, 105, 110, 103, 36]
    } else if i == 28 {
        vec![115u8, 119, 97, 112, 36]
    } else if i == 29 {
        vec![116u8, 101, 120, 116, 46, 108, 101, 110, 103, 116, 104, 36]
    } else if i == 30 {
        vec![116u8, 101, 120, 116, 46, 112, 114, 101, 102, 105, 120, 36]
    } else if i == 31 {
        vec![116u8, 111, 112, 36]
    } else if i == 32 {
        vec![116u8, 121, 112, 101, 36]
    } else if i == 33 {
        vec![119u8, 97, 114, 110, 105, 110, 103, 36]
    } else if i == 34 {
        vec![119u8, 104, 105, 108, 101, 36]
    } else if i == 35 {
        vec![119u8, 105, 100, 116, 104, 36]
    } else {
        vec![119u8, 114, 105, 116, 101, 36]
    };
    assert(r@ =~= builtin_name(i as int));
    r
}

/// The null string and the default entry type.
pub open spec fn literal_name(i: int) -> Seq<u8> {
    if i == 0 {
        Seq::<u8>::empty()  // (empty)
    } else {
        seq![100u8, 101, 102, 97, 117, 108, 116, 46, 116, 121, 112, 101]  // default.type
    }
}

fn literal_name_bytes(i: usize) -> (r: Vec<u8>)
    requires
        i < 2,
    ensures
        r@ == literal_name(i as int),
{
    let r: Vec<u8> = if i == 0 {
        Vec::new()
    } else {
        vec![100u8, 101, 102, 97, 117, 108, 116, 46, 116, 121, 112, 101]
    };
    assert(r@ =~= literal_name(i as int));
    r
}

/// The control sequences of special characters, by number.
pub open spec fn control_name(i: int) -> Seq<u8> {
    if i == 0 {
        seq![105u8]  // i
    } else if i == 1 {
        seq![106u8]  // j
    } else if i == 2 {
        seq![111u8, 101]  // oe
    } else if i == 3 {
        seq![79u8, 69]  // OE
    } else if i == 4 {
        seq![97u8, 101]  // ae
    } else if i == 5 {
        seq![65u8, 69]  // AE
    } else if i == 6 {
        seq![97u8, 97]  // aa
    } else if i == 7 {
        seq![65u8, 65]  // AA
    } else if i == 8 {
        seq![111u8]  // o
    } else if i == 9 {
        seq![79u8]  // O
    } else if i == 10 {
        seq![108u8]  // l
    } else if i == 11 {
        seq![76u8]  // L
    } else {
        seq![115u8, 115]  // ss
    }
}

fn control_name_bytes(i: usize) -> (r: Vec<u8>)
    requires
        i < 13,
    ensures
        r@ == control_name(i as int),
{
    let r: Vec<u8> = if i == 0 {
        vec![105u8]
    } else if i == 1 {
        vec![106u8]
    } else if i == 2 {
        vec![111u8, 101]
    } else if i == 3 {
        vec![79u8, 69]
    } else if i == 4 {
        vec![97u8, 101]
    } else if i == 5 {
        vec![65u8, 69]
    } else if i == 6 {
        vec![97u8, 97]
    } else if i == 7 {
        vec![65u8, 65]
    } else if i == 8 {
        vec![111u8]
    } else if i == 9 {
        vec![79u8]
    } else if i == 10 {
        vec![108u8]
    } else if i == 11 {
        vec![76u8]
    } else {
        vec![115u8, 115]
    };
    assert(r@ =~= control_name(i as int));
    r
}

/// The predefined field `crossref` and the predefined variables.
pub open spec fn var_name(i: int) -> Seq<u8> {
    if i == 0 {
        seq![99u8, 114, 111, 115, 115, 114, 101, 102]  // crossref
    } else if i == 1 {
        seq![115u8, 111, 114, 116, 46, 107, 101, 121, 36]  // sort.key$
    } else if i == 2 {
        seq![101u8, 110, 116, 114, 121, 46, 109, 97, 120, 36]  // entry.max$
    } else {
        seq![103u8, 108, 111, 98, 97, 108, 46, 109, 97, 120, 36]  // global.max$
    }
}

fn var_name_bytes(i: usize) -> (r: Vec<u8>)
    requires
        i < 4,
    ensures
        r@ == var_name(i as int),
{
    let r: Vec<u8> = if i == 0 {
        vec![99u8, 114, 111, 115, 115, 114, 101, 102]
    } else if i == 1 {
        vec![115u8, 111, 114, 116, 46, 107, 101, 121, 36]
    } else if i == 2 {
        vec![101u8, 110, 116, 114, 121, 46, 109, 97, 120, 36]
    } else {
        vec![103u8, 108, 111, 98, 97, 108, 46, 109, 97, 120, 36]
    };
    assert(r@ =~= var_name(i as int));
    r
}

/// The command numbers of the `.aux` commands, in the order they are
/// stored: `\citation` is 2, `\bibdata` 0, `\bibstyle` 1, `\@input` 3.
pub open spec fn aux_command_num(i: int) -> i32 {
    if i == 0 {
        2
    } else if i == 1 {
        0
    } else if i == 2 {
        1
    } else {
        3
    }
}

/// The `i`th predefined string, in the order it is stored: its text, its
/// kind, the value it gets (`ilk_info`), if any, and the class of function
/// it gets, if any. `crossref` gets the field number `nf`, `sort.key$` the
/// entry string number `ne`, and `entry.max$` and `global.max$` the sizes
/// `es` and `gs`.
pub open spec fn predef(i: int, nf: i32, ne: i32, es: i32, gs: i32) -> (Seq<u8>, u8, Option<i32>, Option<FnClass>) {
    if i < 5 {
        (extension_name(i), 7, None, None)
    } else if i < 7 {
        (area_name(i - 5), 8, None, None)
    } else if i < 11 {
        (aux_command_name(i - 7), 2, Some(aux_command_num(i - 7)), None)
    } else if i < 21 {
        (bst_command_name(i - 11), 4, Some((i - 11) as i32), None)
    } else if i < 24 {
        (bib_command_name(i - 21), 12, Some((i - 21) as i32), None)
    } else if i < 61 {
        (builtin_name(i - 24), 11, Some((i - 24) as i32), Some(FnClass::BuiltIn))
    } else if i < 63 {
        (literal_name(i - 61), 0, None, Some(FnClass::StrLiteral))
    } else if i < 76 {
        (control_name(i - 63), 14, Some((i - 63) as i32), None)
    } else if i == 76 {
        (var_name(0), 11, Some(nf), Some(FnClass::Field))
    } else if i == 77 {
        (var_name(1), 11, Some(ne), Some(FnClass::StrEntryVar))
    } else if i == 78 {
        (var_name(2), 11, Some(es), Some(FnClass::IntGlobalVar))
    } else {
        (var_name(3), 11, Some(gs), Some(FnClass::IntGlobalVar))
    }
}

/// The string and kind of the `i`th predefined string.
pub open spec fn predef_key(i: int) -> (Seq<u8>, u8) {
    let e = predef(i, 0, 0, 0, 0);
    (e.0, e.1)
}

fn predef_entry(i: usize, nf: i32, ne: i32, es: i32, gs: i32) -> (r: (Vec<u8>, u8, Option<i32>, Option<FnClass>))
    requires
        i < NUM_PREDEFS,
    ensures
        ({
            let e = predef(i as int, nf, ne, es, gs);
            r.0@ == e.0 && r.1 == e.1 && r.2 == e.2 && r.3 == e.3
        }),
{
    if i < 5 {
        (extension_name_bytes(i), 7, None, None)
    } else if i < 7 {
        (area_name_bytes(i - 5), 8, None, None)
    } else if i < 11 {
        let n: i32 = if i == 7 {
            2
        } else if i == 8 {
            0
        } else if i == 9 {
            1
        } else {
            3
        };
        (aux_command_name_bytes(i - 7), 2, Some(n), None)
    } else if i < 21 {
        (bst_command_name_bytes(i - 11), 4, Some((i - 11) as i32), None)
    } else if i < 24 {
        (bib_command_name_bytes(i - 21), 12, Some((i - 21) as i32), None)
    } else if i < 61 {
        (builtin_name_bytes(i - 24), 11, Some((i - 24) as i32), Some(FnClass::BuiltIn))
    } else if i < 63 {
        (literal_name_bytes(i - 61), 0, None, Some(FnClass::StrLiteral))
    } else if i < 76 {
        (control_name_bytes(i - 63), 14, Some((i - 63) as i32), None)
    } else if i == 76 {
        (var_name_bytes(0), 11, Some(nf), Some(FnClass::Field))
    } else if i == 77 {
        (var_name_bytes(1), 11, Some(ne), Some(FnClass::StrEntryVar))
    } else if i == 78 {
        (var_name_bytes(2), 11, Some(es), Some(FnClass::IntGlobalVar))
    } else {
        (var_name_bytes(3), 11, Some(gs), Some(FnClass::IntGlobalVar))
    }
}

/// The value that the first `n` predefined strings give to the string and
/// kind `key`: that of the last of them with `key` that gives one.
pub open spec fn last_info(n: int, key: (Seq<u8>, u8), nf: i32, ne: i32, es: i32, gs: i32) -> Option<i32>
    decreases n,
{
    if n <= 0 {
        None
    } else {
        let e = predef(n - 1, nf, ne, es, gs);
        if (e.0, e.1) == key && e.2 is Some {
            e.2
        } else {
            last_info(n - 1, key, nf, ne, es, gs)
        }
    }
}

/// The function class that the first `n` predefined strings give to `key`.
pub open spec fn last_class(n: int, key: (Seq<u8>, u8), nf: i32, ne: i32, es: i32, gs: i32) -> Option<FnClass>
    decreases n,
{
    if n <= 0 {
        None
    } else {
        let e = predef(n - 1, nf, ne, es, gs);
        if (e.0, e.1) == key && e.3 is Some {
            e.3
        } else {
            last_class(n - 1, key, nf, ne, es, gs)
        }
    }
}

/// What the predefinition sets up besides the table: the string numbers of
/// the extensions and areas, the slots of the built-in functions (by
/// number) and of the default entry type's function, the string numbers of
/// the null string and of the default entry type, and the numbers of the
/// `crossref` field and the `sort.key$` entry string.
pub struct PreDefined {
    pub s_aux_extension: usize,
    pub s_bbl_extension: usize,
    pub s_log_extension: usize,
    pub s_bst_extension: usize,
    pub s_bib_extension: usize,
    pub s_bst_area: usize,
    pub s_bib_area: usize,
    pub builtins: Vec<usize>,
    pub b_default: usize,
    pub s_null: usize,
    pub s_default: usize,
    pub crossref_num: i32,
    pub num_pre_defined_fields: i32,
    pub sort_key_num: i32,
}

/// `pre_def_certain_strings`: stores the predefined strings (`predef`) in
/// `t`, each with its value and function class (kept in `fn_type`, by
/// slot). `crossref` becomes field number `num_fields` and `sort.key$`
/// entry string number `num_ent_strs`; both counts go up by one.
pub fn pre_def_certain_strings(
    t: &mut StrTable,
    fn_type: &mut Vec<FnClass>,
    num_fields: &mut i32,
    num_ent_strs: &mut i32,
    ent_str_size: i32,
    glob_str_size: i32,
) -> (r: PreDefined)
    requires
        old(t).wf(),
        old(t).size() + NUM_PREDEFS <= old(t).max(),
        old(fn_type)@.len() == old(t).max() + 1,
        *old(num_fields) < i32::MAX,
        *old(num_ent_strs) < i32::MAX,
    ensures
        final(t).wf(),
        final(t).max() == old(t).max(),
        final(fn_type)@.len() == old(fn_type)@.len(),
        *final(num_fields) == *old(num_fields) + 1,
        *final(num_ent_strs) == *old(num_ent_strs) + 1,
        ({
            let (nf, ne, es, gs) = (*old(num_fields), *old(num_ent_strs), ent_str_size, glob_str_size);
            &&& forall|i: int| 0 <= i < NUM_PREDEFS ==> final(t).view().contains_key(#[trigger] predef_key(i))
            &&& forall|key: (Seq<u8>, u8)|
                #[trigger] last_info(NUM_PREDEFS as int, key, nf, ne, es, gs) matches Some(v) ==> final(t).view().contains_key(key)
                    && final(t).info_of(final(t).view()[key]) == v
            &&& forall|key: (Seq<u8>, u8)|
                #[trigger] last_class(NUM_PREDEFS as int, key, nf, ne, es, gs) matches Some(c) ==> final(t).view().contains_key(key)
                    && final(fn_type)@[final(t).view()[key]] == c
            &&& r.s_aux_extension == final(t).text_of(final(t).view()[predef_key(0)])
            &&& r.s_bbl_extension == final(t).text_of(final(t).view()[predef_key(1)])
            &&& r.s_log_extension == final(t).text_of(final(t).view()[predef_key(2)])
            &&& r.s_bst_extension == final(t).text_of(final(t).view()[predef_key(3)])
            &&& r.s_bib_extension == final(t).text_of(final(t).view()[predef_key(4)])
            &&& r.s_bst_area == final(t).text_of(final(t).view()[predef_key(5)])
            &&& r.s_bib_area == final(t).text_of(final(t).view()[predef_key(6)])
            &&& r.builtins@.len() == NUM_BUILTINS
            &&& forall|k: int| 0 <= k < NUM_BUILTINS ==> #[trigger] r.builtins@[k] == final(t).view()[predef_key(24 + k)]
            &&& r.b_default == r.builtins@[25]
            &&& r.s_null == final(t).text_of(final(t).view()[predef_key(61)])
            &&& r.s_default == final(t).text_of(final(t).view()[predef_key(62)])
            &&& r.crossref_num == nf
            &&& r.num_pre_defined_fields == nf + 1
            &&& r.sort_key_num == ne
        }),
{
    let ghost t0 = *t;
    let nf = *num_fields;
    let ne = *num_ent_strs;
    let es = ent_str_size;
    let gs = glob_str_size;
    let mut locs: Vec<usize> = Vec::new();
    let mut i: usize = 0;
    while i < NUM_PREDEFS
        invariant
            i <= NUM_PREDEFS,
            t.wf(),
            t.max() == t0.max(),
            t.size() + (NUM_PREDEFS - i) <= t.max(),
            fn_type@.len() == t.max() + 1,
            locs@.len() == i,
            forall|j: int| 0 <= j < i ==> 1 <= #[trigger] locs@[j] <= t.max(),
            forall|j: int| 0 <= j < i ==> t.view().contains_key(#[trigger] predef_key(j)) && t.view()[predef_key(j)] == locs@[j],
            forall|key: (Seq<u8>, u8)|
                #[trigger] last_info(i as int, key, nf, ne, es, gs) matches Some(v) ==> t.view().contains_key(key) && t.info_of(t.view()[key]) == v,
            forall|key: (Seq<u8>, u8)|
                #[trigger] last_class(i as int, key, nf, ne, es, gs) matches Some(c) ==> t.view().contains_key(key) && fn_type@[t.view()[key]] == c,
        decreases NUM_PREDEFS - i,
    {
        let (name, ilk, info, class) = predef_entry(i, nf, ne, es, gs);
        let ghost key = (name@, ilk);
        let ghost t1 = *t;
        let ghost ft1 = fn_type@;
        proof {
            t.lemma_room_iff();
            assert(key == predef_key(i as int));
        }
        let loc = t.pre_define(&name, ilk);
        let ghost t2 = *t;
        match info {
            Some(v) => {
                t.set_ilk_info(loc, v);
            },
            None => {},
        }
        match class {
            Some(c) => {
                fn_type.set(loc, c);
            },
            None => {},
        }
        locs.push(loc);
        proof {
            lemma_predef_step(t1, t2, *t, ft1, fn_type@, key, loc as int, info, class, i as int, nf, ne, es, gs, locs@);
        }
        i = i + 1;
    }
    let r = PreDefined {
        s_aux_extension: t.hash_text(locs[0]),
        s_bbl_extension: t.hash_text(locs[1]),
        s_log_extension: t.hash_text(locs[2]),
        s_bst_extension: t.hash_text(locs[3]),
        s_bib_extension: t.hash_text(locs[4]),
        s_bst_area: t.hash_text(locs[5]),
        s_bib_area: t.hash_text(locs[6]),
        builtins: slots_of(&locs, 24, 61),
        b_default: locs[49],
        s_null: t.hash_text(locs[61]),
        s_default: t.hash_text(locs[62]),
        crossref_num: nf,
        num_pre_defined_fields: nf + 1,
        sort_key_num: ne,
    };
    *num_fields = nf + 1;
    *num_ent_strs = ne + 1;
    r
}

/// `locs[a..b]`.
fn slots_of(locs: &Vec<usize>, a: usize, b: usize) -> (r: Vec<usize>)
    requires
        a <= b <= locs@.len(),
    ensures
        r@ == locs@.subrange(a as int, b as int),
{
    let mut r: Vec<usize> = Vec::new();
    let mut k = a;
    while k < b
        invariant
            a <= k <= b <= locs@.len(),
            r@ == locs@.subrange(a as int, k as int),
        decreases b - k,
    {
        r.push(locs[k]);
        proof {
            assert(locs@.subrange(a as int, k + 1) =~= locs@.subrange(a as int, k as int).push(locs@[k as int]));
        }
        k = k + 1;
    }
    r
}

/// One more predefined string stored keeps the slots of those before, and
/// the values and classes they gave.
proof fn lemma_predef_step(
    t1: StrTable,
    t2: StrTable,
    t3: StrTable,
    ft1: Seq<FnClass>,
    ft3: Seq<FnClass>,
    key: (Seq<u8>, u8),
    loc: int,
    info: Option<i32>,
    class: Option<FnClass>,
    i: int,
    nf: i32,
    ne: i32,
    es: i32,
    gs: i32,
    locs: Seq<usize>,
)
    requires
        0 <= i < NUM_PREDEFS,
        key == predef_key(i),
        (key.0, key.1, info, class) == predef(i, nf, ne, es, gs),
        t1.wf(),
        t2.wf(),
        t3.wf(),
        ft1.len() == t1.max() + 1,
        t2.max() == t1.max(),
        t3.max() == t1.max(),
        1 <= loc <= t1.max(),
        t2.view() == t1.view().insert(key, loc),
        t1.view().contains_key(key) ==> loc == t1.view()[key],
        forall|k: int| #[trigger] t2.info_of(k) == t1.info_of(k),
        t3.view() == t2.view(),
        match info {
            Some(v) => t3.info_of(loc) == v && forall|k: int| 0 <= k <= t1.max() && k != loc ==> #[trigger] t3.info_of(k) == t2.info_of(k),
            None => forall|k: int| #[trigger] t3.info_of(k) == t2.info_of(k),
        },
        ft3 == match class {
            Some(c) => ft1.update(loc, c),
            None => ft1,
        },
        locs.len() == i + 1,
        locs[i] == loc,
        forall|j: int| 0 <= j < i ==> t1.view().contains_key(#[trigger] predef_key(j)) && t1.view()[predef_key(j)] == locs[j],
        forall|k: (Seq<u8>, u8)|
            #[trigger] last_info(i, k, nf, ne, es, gs) matches Some(v) ==> t1.view().contains_key(k) && t1.info_of(t1.view()[k]) == v,
        forall|k: (Seq<u8>, u8)|
            #[trigger] last_class(i, k, nf, ne, es, gs) matches Some(c) ==> t1.view().contains_key(k) && ft1[t1.view()[k]] == c,
    ensures
        forall|j: int| 0 <= j < i + 1 ==> t3.view().contains_key(#[trigger] predef_key(j)) && t3.view()[predef_key(j)] == locs[j],
        forall|k: (Seq<u8>, u8)|
            #[trigger] last_info(i + 1, k, nf, ne, es, gs) matches Some(v) ==> t3.view().contains_key(k) && t3.info_of(t3.view()[k]) == v,
        forall|k: (Seq<u8>, u8)|
            #[trigger] last_class(i + 1, k, nf, ne, es, gs) matches Some(c) ==> t3.view().contains_key(k) && ft3[t3.view()[k]] == c,
{
    assert forall|j: int| 0 <= j < i + 1 implies t3.view().contains_key(#[trigger] predef_key(j)) && t3.view()[predef_key(j)] == locs[j] by {
        if j < i && predef_key(j) != key {
            assert(t1.view().contains_key(predef_key(j)));
        }
    }
    assert forall|k: (Seq<u8>, u8)| #[trigger] last_info(i + 1, k, nf, ne, es, gs) is Some implies t3.view().contains_key(k)
        && t3.info_of(t3.view()[k]) == last_info(i + 1, k, nf, ne, es, gs)->Some_0 by {
        let e = predef(i, nf, ne, es, gs);
        if k == key && info is Some {
            assert(last_info(i + 1, k, nf, ne, es, gs) == info);
            assert(t3.view()[k] == loc);
        } else {
            assert(last_info(i + 1, k, nf, ne, es, gs) == last_info(i, k, nf, ne, es, gs));
            assert(t1.view().contains_key(k));
            t1.lemma_view_has(k);
            if k != key {
                law_slots_distinct(t2, k, key);
                assert(t2.view()[k] == t1.view()[k]);
            } else {
                assert(t2.view()[k] == t1.view()[k]);
            }
        }
    }
    assert forall|k: (Seq<u8>, u8)| #[trigger] last_class(i + 1, k, nf, ne, es, gs) is Some implies t3.view().contains_key(k)
        && ft3[t3.view()[k]] == last_class(i + 1, k, nf, ne, es, gs)->Some_0 by {
        if k == key && class is Some {
            assert(last_class(i + 1, k, nf, ne, es, gs) == class);
            assert(t3.view()[k] == loc);
        } else {
            assert(last_class(i + 1, k, nf, ne, es, gs) == last_class(i, k, nf, ne, es, gs));
            assert(t1.view().contains_key(k));
            t1.lemma_view_has(k);
            if k != key {
                law_slots_distinct(t2, k, key);
                assert(t2.view()[k] == t1.view()[k]);
            } else {
                assert(t2.view()[k] == t1.view()[k]);
            }
        }
    }
}

/// Why a token of the style file cannot name a function to be called.
#[derive(Clone, Copy, Debug, PartialEq, Eq, Structural)]
pub enum ArgumentError {
    /// No function has this name.
    UnknownFunction,
    /// The function is of this class, neither built in nor defined by the
    /// style.
    BadFunctionType(FnClass),
}

/// The kind of the strings that name functions of the style language.
pub const BST_FN_ILK: u8 = 11;

/// `bad_argument_token`: looks the token `buffer[buf_ptr1..buf_ptr2]` up,
/// in lower case (the buffer is lowered in place), as a function of the
/// style language. It must be one, built in or defined by the style; the
/// fault is returned where it is not.
pub fn bad_argument_token(sc: &mut Scanner, t: &mut StrTable, fn_type: &Vec<FnClass>) -> (r: Option<ArgumentError>)
    requires
        old(sc).wf(),
        old(sc).buf_ptr1 <= old(sc).buf_ptr2,
        old(t).wf(),
        fn_type@.len() == old(t).max() + 1,
    ensures
        final(sc).wf(),
        final(sc).buf_ptr1 == old(sc).buf_ptr1,
        final(sc).buf_ptr2 == old(sc).buf_ptr2,
        final(sc).last == old(sc).last,
        final(sc).buffer@.subrange(final(sc).buf_ptr1 as int, final(sc).buf_ptr2 as int) == lower_key(
            old(sc).buffer@.subrange(old(sc).buf_ptr1 as int, old(sc).buf_ptr2 as int),
        ),
        forall|k: int|
            0 <= k < old(sc).buffer@.len() && !(old(sc).buf_ptr1 <= k < old(sc).buf_ptr2) ==> #[trigger] final(sc).buffer@[k]
                == old(sc).buffer@[k],
        final(t).wf(),
        final(t).view() == old(t).view(),
        final(t).string_view() == old(t).string_view(),
        forall|k: int| #[trigger] final(t).info_of(k) == old(t).info_of(k),
        ({
            let key = (lower_key(old(sc).buffer@.subrange(old(sc).buf_ptr1 as int, old(sc).buf_ptr2 as int)), BST_FN_ILK);
            r == if !old(t).view().contains_key(key) {
                Some(ArgumentError::UnknownFunction)
            } else {
                let c = fn_type@[old(t).view()[key]];
                if c != FnClass::BuiltIn && c != FnClass::WizDefined {
                    Some(ArgumentError::BadFunctionType(c))
                } else {
                    None
                }
            }
        }),
{
    let p1 = sc.buf_ptr1;
    let len = sc.buf_ptr2 - sc.buf_ptr1;
    let ghost b0 = sc.buffer@;
    lower_case(&mut sc.buffer, p1, len);
    proof {
        assert(sc.buffer@.subrange(p1 as int, p1 + len) =~= lower_key(b0.subrange(p1 as int, p1 + len)));
    }
    let (loc, found) = t.str_lookup(&sc.buffer, p1, len, BST_FN_ILK, false);
    if !found {
        return Some(ArgumentError::UnknownFunction);
    }
    let c = fn_type[loc];
    match c {
        FnClass::BuiltIn | FnClass::WizDefined => None,
        _ => Some(ArgumentError::BadFunctionType(c)),
    }
}

} // verus!
