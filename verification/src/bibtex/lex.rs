//! Character classes of BibTeX and its table of control sequences.
use vstd::prelude::*;

verus! {

/// Lexical classes of bytes.
#[derive(Clone, Copy, Debug, PartialEq, Eq, Structural)]
pub enum LexType {
    /// The unrecognized bytes.
    Illegal,
    /// Things like spaces that you can't see.
    WhiteSpace,
    /// The upper- and lower-case letters (and all bytes above 127).
    Alpha,
    /// The ten digits.
    Numeric,
    /// Things sometimes treated like white space: `~` and `-`.
    SepChar,
    /// When none of the above applies.
    OtherLex,
}

/// Whether a byte may occur in an identifier.
#[derive(Clone, Copy, Debug, PartialEq, Eq, Structural)]
pub enum IdType {
    Illegal,
    Legal,
}

pub open spec fn lex_class_spec(c: u8) -> LexType {
    if c == 9 || c == 13 || c == 32 {
        LexType::WhiteSpace
    } else if c < 32 || c == 127 {
        LexType::Illegal
    } else if c == 126 || c == 45 {
        LexType::SepChar
    } else if 48 <= c <= 57 {
        LexType::Numeric
    } else if (65 <= c <= 90) || (97 <= c <= 122) || c >= 128 {
        LexType::Alpha
    } else {
        LexType::OtherLex
    }
}

/// The lexical class of a byte.
pub fn lex_class(c: u8) -> (r: LexType)
    ensures
        r == lex_class_spec(c),
{
    if c == 9 || c == 13 || c == 32 {
        LexType::WhiteSpace
    } else if c < 32 || c == 127 {
        LexType::Illegal
    } else if c == 126 || c == 45 {
        LexType::SepChar
    } else if 48 <= c && c <= 57 {
        LexType::Numeric
    } else if (65 <= c && c <= 90) || (97 <= c && c <= 122) || c >= 128 {
        LexType::Alpha
    } else {
        LexType::OtherLex
    }
}

pub open spec fn id_class_spec(c: u8) -> IdType {
    if c <= 32 || c == 34 || c == 35 || c == 37 || c == 39 || c == 40 || c == 41 || c == 44 || c
        == 61 || c == 123 || c == 125 {
        IdType::Illegal
    } else {
        IdType::Legal
    }
}

/// Whether a byte may occur in an identifier: not a control byte, space,
/// `"`, `#`, `%`, `'`, `(`, `)`, `,`, `=`, `{` or `}`.
pub fn id_class(c: u8) -> (r: IdType)
    ensures
        r == id_class_spec(c),
{
    if c <= 32 || c == 34 || c == 35 || c == 37 || c == 39 || c == 40 || c == 41 || c == 44 || c
        == 61 || c == 123 || c == 125 {
        IdType::Illegal
    } else {
        IdType::Legal
    }
}

pub open spec fn is_white(c: u8) -> bool {
    lex_class_spec(c) == LexType::WhiteSpace
}

pub open spec fn is_letter(c: u8) -> bool {
    (65 <= c <= 90) || (97 <= c <= 122)
}

/// The special characters that BibTeX knows by their control sequences:
/// `\i` 0, `\j` 1, `\oe` 2, `\OE` 3, `\ae` 4, `\AE` 5, `\aa` 6, `\AA` 7,
/// `\o` 8, `\O` 9, `\l` 10, `\L` 11, `\ss` 12.
pub open spec fn control_seq_spec(name: Seq<u8>) -> Option<u8> {
    if name.len() == 1 {
        let a = name[0];
        if a == 105 {
            Some(0u8)
        } else if a == 106 {
            Some(1u8)
        } else if a == 111 {
            Some(8u8)
        } else if a == 79 {
            Some(9u8)
        } else if a == 108 {
            Some(10u8)
        } else if a == 76 {
            Some(11u8)
        } else {
            None
        }
    } else if name.len() == 2 {
        let a = name[0];
        let b = name[1];
        if a == 111 && b == 101 {
            Some(2u8)
        } else if a == 79 && b == 69 {
            Some(3u8)
        } else if a == 97 && b == 101 {
            Some(4u8)
        } else if a == 65 && b == 69 {
            Some(5u8)
        } else if a == 97 && b == 97 {
            Some(6u8)
        } else if a == 65 && b == 65 {
            Some(7u8)
        } else if a == 115 && b == 115 {
            Some(12u8)
        } else {
            None
        }
    } else {
        None
    }
}

/// The code of the control sequence `buf[start..end]`, if it is one of the
/// special characters.
pub fn control_seq(buf: &Vec<u8>, start: usize, end: usize) -> (r: Option<u8>)
    requires
        start <= end <= buf@.len(),
    ensures
        r == control_seq_spec(buf@.subrange(start as int, end as int)),
{
    let ghost name = buf@.subrange(start as int, end as int);
    let n = end - start;
    if n == 1 {
        let a = buf[start];
        proof {
            assert(name =~= seq![a]);
        }
        if a == 105 {
            Some(0)
        } else if a == 106 {
            Some(1)
        } else if a == 111 {
            Some(8)
        } else if a == 79 {
            Some(9)
        } else if a == 108 {
            Some(10)
        } else if a == 76 {
            Some(11)
        } else {
            proof {
                assert(name.len() == 1 && name[0] == a);
            }
            None
        }
    } else if n == 2 {
        let a = buf[start];
        let b = buf[start + 1];
        proof {
            assert(name =~= seq![a, b]);
        }
        if a == 111 && b == 101 {
            Some(2)
        } else if a == 79 && b == 69 {
            Some(3)
        } else if a == 97 && b == 101 {
            Some(4)
        } else if a == 65 && b == 69 {
            Some(5)
        } else if a == 97 && b == 97 {
            Some(6)
        } else if a == 65 && b == 65 {
            Some(7)
        } else if a == 115 && b == 115 {
            Some(12)
        } else {
            proof {
                assert(name.len() == 2 && name[0] == a && name[1] == b);
            }
            None
        }
    } else {
        proof {
            assert(name.len() == n);
        }
        None
    }
}

/// The width of a byte in hundredths of a point, after cmr10.
pub open spec fn char_width_spec(c: u8) -> int {
    if c < 32 || c >= 127 {
        0
    } else {
        char_width_table()[c - 32]
    }
}

pub open spec fn char_width_table() -> Seq<int> {
    seq![
        278, 278, 500, 833, 500, 833, 778, 278, 389, 389, 500, 778, 278, 333, 278, 500, // 32..47
        500, 500, 500, 500, 500, 500, 500, 500, 500, 500, 278, 278, 278, 778, 472, 472, // 48..63
        778, 750, 708, 722, 764, 681, 653, 785, 750, 361, 514, 778, 625, 917, 750, 778, // 64..79
        681, 778, 736, 556, 722, 750, 750, 1028, 750, 750, 611, 278, 500, 278, 500, 278, // 80..95
        278, 500, 556, 444, 556, 444, 306, 500, 556, 278, 306, 528, 278, 833, 556, 500, // 96..111
        556, 528, 392, 394, 389, 556, 528, 722, 528, 528, 444, 500, 1000, 500, 500, // 112..126
    ]
}

/// The width of a byte.
pub fn char_width(c: u8) -> (r: i32)
    ensures
        r == char_width_spec(c),
        0 <= r <= 1028,
{
    if c < 32 || c >= 127 {
        return 0;
    }
    let table: [i32; 95] = [
        278, 278, 500, 833, 500, 833, 778, 278, 389, 389, 500, 778, 278, 333, 278, 500,
        500, 500, 500, 500, 500, 500, 500, 500, 500, 500, 278, 278, 278, 778, 472, 472,
        778, 750, 708, 722, 764, 681, 653, 785, 750, 361, 514, 778, 625, 917, 750, 778,
        681, 778, 736, 556, 722, 750, 750, 1028, 750, 750, 611, 278, 500, 278, 500, 278,
        278, 500, 556, 444, 556, 444, 306, 500, 556, 278, 306, 528, 278, 833, 556, 500,
        556, 528, 392, 394, 389, 556, 528, 722, 528, 528, 444, 500, 1000, 500, 500,
    ];
    proof {
        assert(table@ =~= char_width_table().map_values(|v: int| v as i32));
    }
    table[(c - 32) as usize]
}

/// Converts `buf[bf_ptr..bf_ptr + len]` to lower case (ASCII letters only).
pub fn lower_case(buf: &mut Vec<u8>, bf_ptr: usize, len: usize)
    requires
        bf_ptr + len <= old(buf)@.len(),
    ensures
        final(buf)@.len() == old(buf)@.len(),
        forall|i: int|
            0 <= i < old(buf)@.len() ==> #[trigger] final(buf)@[i] == if bf_ptr <= i < bf_ptr + len && 65
                <= old(buf)@[i] <= 90 {
                (old(buf)@[i] + 32) as u8
            } else {
                old(buf)@[i]
            },
{
    let blen = buf.len();
    let end = bf_ptr + len;
    let mut i = bf_ptr;
    while i < end
        invariant
            end == bf_ptr + len,
            bf_ptr <= i <= bf_ptr + len,
            bf_ptr + len <= old(buf)@.len(),
            buf@.len() == old(buf)@.len(),
            forall|k: int|
                0 <= k < old(buf)@.len() ==> #[trigger] buf@[k] == if bf_ptr <= k < i && 65 <= old(
                    buf,
                )@[k] <= 90 {
                    (old(buf)@[k] + 32) as u8
                } else {
                    old(buf)@[k]
                },
        decreases bf_ptr + len - i,
    {
        let c = buf[i];
        if c >= 65 && c <= 90 {
            buf.set(i, c + 32);
        }
        i = i + 1;
    }
}

/// Converts `buf[bf_ptr..bf_ptr + len]` to upper case (ASCII letters only).
pub fn upper_case(buf: &mut Vec<u8>, bf_ptr: usize, len: usize)
    requires
        bf_ptr + len <= old(buf)@.len(),
    ensures
        final(buf)@.len() == old(buf)@.len(),
        forall|i: int|
            0 <= i < old(buf)@.len() ==> #[trigger] final(buf)@[i] == if bf_ptr <= i < bf_ptr + len && 97
                <= old(buf)@[i] <= 122 {
                (old(buf)@[i] - 32) as u8
            } else {
                old(buf)@[i]
            },
{
    let blen = buf.len();
    let end = bf_ptr + len;
    let mut i = bf_ptr;
    while i < end
        invariant
            end == bf_ptr + len,
            bf_ptr <= i <= bf_ptr + len,
            bf_ptr + len <= old(buf)@.len(),
            buf@.len() == old(buf)@.len(),
            forall|k: int|
                0 <= k < old(buf)@.len() ==> #[trigger] buf@[k] == if bf_ptr <= k < i && 97 <= old(
                    buf,
                )@[k] <= 122 {
                    (old(buf)@[k] - 32) as u8
                } else {
                    old(buf)@[k]
                },
        decreases bf_ptr + len - i,
    {
        let c = buf[i];
        if c >= 97 && c <= 122 {
            buf.set(i, c - 32);
        }
        i = i + 1;
    }
}

} // verus!
