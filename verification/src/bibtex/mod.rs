//! BibTeX: the character classes, the input scanner, and the text
//! functions of the style language.
pub mod lex;
pub mod text;
pub mod scan;
pub mod sort;
pub mod hash;
pub mod names;
pub mod case;
pub mod stack;
pub mod output;
pub mod cite;
pub mod field;
pub mod predef;
pub mod entries;
pub mod crossref;
pub mod vars;

use vstd::prelude::*;

verus! {

/// What a BibTeX run is configured with: how many citations through
/// cross references make an entry be included on its own.
pub struct BibtexConfig {
    pub min_crossrefs: i32,
}

/// The shortest and longest lines written to the `.bbl` file.
pub const MIN_PRINT_LINE: i32 = 3;
pub const MAX_PRINT_LINE: i32 = 79;

/// The code of what is wrong with the sizes a run is set up with: one
/// decimal digit per fault, in the order they are checked (0 for none).
pub open spec fn badness_spec(buf_size: int, hash_prime: int, hash_size: int, max_strings: int, max_cites: int) -> int {
    let b1 = if MIN_PRINT_LINE < 3 { 1int } else { 0int };
    let b2 = if MAX_PRINT_LINE <= MIN_PRINT_LINE { 10 * b1 + 2 } else { b1 };
    let b3 = if MAX_PRINT_LINE >= buf_size { 10 * b2 + 3 } else { b2 };
    let b4 = if hash_prime < 128 { 10 * b3 + 4 } else { b3 };
    let b5 = if hash_prime > hash_size { 10 * b4 + 5 } else { b4 };
    let b7 = if max_strings > hash_size { 10 * b5 + 7 } else { b5 };
    if max_cites > max_strings { 10 * b7 + 8 } else { b7 }
}

/// `badness`: checks the sizes a run is set up with (see `badness_spec`).
pub fn badness(buf_size: i32, hash_prime: i32, hash_size: i32, max_strings: i32, max_cites: i32) -> (bad: i32)
    ensures
        bad == badness_spec(buf_size as int, hash_prime as int, hash_size as int, max_strings as int, max_cites as int),
{
    let mut bad: i32 = 0;
    if MIN_PRINT_LINE < 3 {
        bad = 1;
    }
    if MAX_PRINT_LINE <= MIN_PRINT_LINE {
        bad = 10 * bad + 2;
    }
    if MAX_PRINT_LINE >= buf_size {
        bad = 10 * bad + 3;
    }
    if hash_prime < 128 {
        bad = 10 * bad + 4;
    }
    if hash_prime > hash_size {
        bad = 10 * bad + 5;
    }
    if max_strings > hash_size {
        bad = 10 * bad + 7;
    }
    if max_cites > max_strings {
        bad = 10 * bad + 8;
    }
    bad
}

} // verus!
