//! Type 1 fonts: the fourteen standard fonts that need no embedding, and
//! what opening a Type 1 font decides.
use vstd::prelude::*;

verus! {

/// The name of standard font `i` (of fourteen).
pub open spec fn basefont_name(i: int) -> Seq<u8> {
    if i == 0 {
        seq![67u8, 111, 117, 114, 105, 101, 114]  // Courier
    } else if i == 1 {
        seq![67u8, 111, 117, 114, 105, 101, 114, 45, 66, 111, 108, 100]  // Courier-Bold
    } else if i == 2 {
        seq![67u8, 111, 117, 114, 105, 101, 114, 45, 79, 98, 108, 105, 113, 117, 101]  // Courier-Oblique
    } else if i == 3 {
        seq![67u8, 111, 117, 114, 105, 101, 114, 45, 66, 111, 108, 100, 79, 98, 108, 105, 113, 117, 101]  // Courier-BoldOblique
    } else if i == 4 {
        seq![72u8, 101, 108, 118, 101, 116, 105, 99, 97]  // Helvetica
    } else if i == 5 {
        seq![72u8, 101, 108, 118, 101, 116, 105, 99, 97, 45, 66, 111, 108, 100]  // Helvetica-Bold
    } else if i == 6 {
        seq![72u8, 101, 108, 118, 101, 116, 105, 99, 97, 45, 79, 98, 108, 105, 113, 117, 101]  // Helvetica-Oblique
    } else if i == 7 {
        seq![72u8, 101, 108, 118, 101, 116, 105, 99, 97, 45, 66, 111, 108, 100, 79, 98, 108, 105, 113, 117, 101]  // Helvetica-BoldOblique
    } else if i == 8 {
        seq![83u8, 121, 109, 98, 111, 108]  // Symbol
    } else if i == 9 {
        seq![84u8, 105, 109, 101, 115, 45, 82, 111, 109, 97, 110]  // Times-Roman
    } else if i == 10 {
        seq![84u8, 105, 109, 101, 115, 45, 66, 111, 108, 100]  // Times-Bold
    } else if i == 11 {
        seq![84u8, 105, 109, 101, 115, 45, 73, 116, 97, 108, 105, 99]  // Times-Italic
    } else if i == 12 {
        seq![84u8, 105, 109, 101, 115, 45, 66, 111, 108, 100, 73, 116, 97, 108, 105, 99]  // Times-BoldItalic
    } else if i == 13 {
        seq![90u8, 97, 112, 102, 68, 105, 110, 103, 98, 97, 116, 115]  // ZapfDingbats
    } else {
        Seq::empty()
    }
}

fn basefont_name_bytes(i: usize) -> (r: Vec<u8>)
    requires
        i < 14,
    ensures
        r@ == basefont_name(i as int),
{
    let r = if i == 0 {
        vec![67u8, 111, 117, 114, 105, 101, 114]
    } else if i == 1 {
        vec![67u8, 111, 117, 114, 105, 101, 114, 45, 66, 111, 108, 100]
    } else if i == 2 {
        vec![67u8, 111, 117, 114, 105, 101, 114, 45, 79, 98, 108, 105, 113, 117, 101]
    } else if i == 3 {
        vec![67u8, 111, 117, 114, 105, 101, 114, 45, 66, 111, 108, 100, 79, 98, 108, 105, 113, 117, 101]
    } else if i == 4 {
        vec![72u8, 101, 108, 118, 101, 116, 105, 99, 97]
    } else if i == 5 {
        vec![72u8, 101, 108, 118, 101, 116, 105, 99, 97, 45, 66, 111, 108, 100]
    } else if i == 6 {
        vec![72u8, 101, 108, 118, 101, 116, 105, 99, 97, 45, 79, 98, 108, 105, 113, 117, 101]
    } else if i == 7 {
        vec![72u8, 101, 108, 118, 101, 116, 105, 99, 97, 45, 66, 111, 108, 100, 79, 98, 108, 105, 113, 117, 101]
    } else if i == 8 {
        vec![83u8, 121, 109, 98, 111, 108]
    } else if i == 9 {
        vec![84u8, 105, 109, 101, 115, 45, 82, 111, 109, 97, 110]
    } else if i == 10 {
        vec![84u8, 105, 109, 101, 115, 45, 66, 111, 108, 100]
    } else if i == 11 {
        vec![84u8, 105, 109, 101, 115, 45, 73, 116, 97, 108, 105, 99]
    } else if i == 12 {
        vec![84u8, 105, 109, 101, 115, 45, 66, 111, 108, 100, 73, 116, 97, 108, 105, 99]
    } else if i == 13 {
        vec![90u8, 97, 112, 102, 68, 105, 110, 103, 98, 97, 116, 115]
    } else {
        Vec::new()
    };
    assert(r@ =~= basefont_name(i as int));
    r
}

fn bytes_equal(a: &[u8], b: &[u8]) -> (r: bool)
    ensures
        r == (a@ == b@),
{
    if a.len() != b.len() {
        return false;
    }
    let mut i: usize = 0;
    while i < a.len()
        invariant
            i <= a@.len(),
            a@.len() == b@.len(),
            forall|k: int| 0 <= k < i ==> a@[k] == b@[k],
        decreases a@.len() - i,
    {
        if a[i] != b[i] {
            return false;
        }
        i = i + 1;
    }
    proof {
        assert(a@ =~= b@);
    }
    true
}

/// Whether `name` is one of the fourteen standard fonts.
pub open spec fn is_basefont_spec(name: Seq<u8>) -> bool {
    exists|i: int| 0 <= i < 14 && basefont_name(i) == name
}

/// Whether `name` is one of the fourteen standard fonts.
pub fn is_basefont(name: &[u8]) -> (r: bool)
    ensures
        r == is_basefont_spec(name@),
{
    let mut i: usize = 0;
    while i < 14
        invariant
            i <= 14,
            forall|k: int| 0 <= k < i ==> basefont_name(k) != name@,
        decreases 14 - i,
    {
        let b = basefont_name_bytes(i);
        if bytes_equal(name, b.as_slice()) {
            return true;
        }
        i = i + 1;
    }
    false
}

/// What the file of a font that is not a standard one gave: no file, a file
/// that is no Type 1 font (or whose name cannot be read), or its font name.
pub enum Type1File {
    NotFound,
    Unreadable,
    FontName(Vec<u8>),
}

/// Why a Type 1 font cannot be opened.
#[derive(Clone, Copy, Debug, PartialEq, Eq, Structural)]
pub enum Type1OpenError {
    /// There is no file for it (the caller is told -1).
    NotFound,
    /// Its file is no readable Type 1 font (the run is aborted).
    Unreadable,
}

/// What opening a Type 1 font sets: its font name, its subtype, and the
/// descriptor flags where they are known without the file.
pub struct Type1Font {
    pub fontname: Vec<u8>,
    pub subtype: i32,
    pub flags: Option<i32>,
}

/// Opens the Type 1 font `ident`: a standard font needs no file and gets
/// the flags of a fixed-pitch, symbolic font (bits 0 and 2); another one
/// takes its name from its file (see `Type1File`).
pub fn pdf_font_open_type1(ident: &[u8], file: Type1File) -> (r: Result<Type1Font, Type1OpenError>)
    ensures
        is_basefont_spec(ident@) ==> (r matches Ok(f) && f.fontname@ == ident@ && f.subtype == 0 && f.flags == Some(5i32)),
        !is_basefont_spec(ident@) ==> match file {
            Type1File::NotFound => r == Err::<Type1Font, Type1OpenError>(Type1OpenError::NotFound),
            Type1File::Unreadable => r == Err::<Type1Font, Type1OpenError>(Type1OpenError::Unreadable),
            Type1File::FontName(n) => r matches Ok(f) && f.fontname@ == n@ && f.subtype == 0 && f.flags is None,
        },
{
    if is_basefont(ident) {
        let mut name: Vec<u8> = Vec::new();
        let mut i: usize = 0;
        while i < ident.len()
            invariant
                i <= ident@.len(),
                name@ == ident@.take(i as int),
            decreases ident@.len() - i,
        {
            name.push(ident[i]);
            proof {
                assert(ident@.take(i + 1) =~= ident@.take(i as int).push(ident@[i as int]));
            }
            i = i + 1;
        }
        proof {
            assert(ident@.take(ident@.len() as int) =~= ident@);
        }
        let flags: i32 = 5;
        Ok(Type1Font { fontname: name, subtype: 0, flags: Some(flags) })
    } else {
        match file {
            Type1File::NotFound => Err(Type1OpenError::NotFound),
            Type1File::Unreadable => Err(Type1OpenError::Unreadable),
            Type1File::FontName(n) => Ok(Type1Font { fontname: n, subtype: 0, flags: None }),
        }
    }
}

/// Whether `pat` occurs in `name`.
pub open spec fn occurs_in(name: Seq<u8>, pat: Seq<u8>) -> bool {
    exists|i: int| 0 <= i && i + pat.len() <= name.len() && #[trigger] name.subrange(i, i + pat.len()) == pat
}

fn occurs_exec(name: &[u8], pat: &[u8]) -> (r: bool)
    ensures
        r == occurs_in(name@, pat@),
{
    if pat.len() > name.len() {
        proof {
            assert forall|i: int| 0 <= i && i + pat@.len() <= name@.len() implies #[trigger] name@.subrange(i, i + pat@.len()) != pat@ by {}
        }
        return false;
    }
    let n = name.len();
    let last = n - pat.len();
    let mut i: usize = 0;
    while i <= last
        invariant
            n == name@.len(),
            pat@.len() <= name@.len(),
            last == name@.len() - pat@.len(),
            i <= last + 1,
            forall|k: int| 0 <= k < i ==> #[trigger] name@.subrange(k, k + pat@.len()) != pat@,
        decreases last + 1 - i,
    {
        let mut j: usize = 0;
        let mut same = true;
        while j < pat.len()
            invariant
                n == name@.len(),
                i <= last,
                last == name@.len() - pat@.len(),
                j <= pat@.len(),
                same == forall|q: int| 0 <= q < j ==> name@[i + q] == pat@[q],
            decreases pat@.len() - j,
        {
            if name[i + j] != pat[j] {
                same = false;
            }
            j = j + 1;
        }
        if same {
            proof {
                assert(name@.subrange(i as int, i + pat@.len()) =~= pat@);
            }
            return true;
        }
        proof {
            let q = choose|q: int| 0 <= q < pat@.len() && name@[i + q] != pat@[q];
            assert(name@.subrange(i as int, i + pat@.len())[q] != pat@[q]);
        }
        i = i + 1;
    }
    false
}

/// The font descriptor flags of a Type 1 font, as far as they do not
/// depend on measuring its glyphs: italic (bit 6) where the italic angle is
/// not 0, force-bold (bit 18) and fixed-pitch (bit 0) as the private
/// dictionary says, serif (bit 1) where the font has a name without
/// `Sans`, small caps (bit 17) where its name has `Caps`, and always
/// symbolic (bit 2).
pub open spec fn font_flags_spec(italic: bool, force_bold: bool, fixed_pitch: bool, fontname: Option<Seq<u8>>) -> int {
    (if italic { 64int } else { 0int }) + (if force_bold { 262144int } else { 0int }) + (if fixed_pitch {
        1int
    } else {
        0int
    }) + (match fontname {
        Some(n) => if !occurs_in(n, seq![83u8, 97u8, 110u8, 115u8]) { 2int } else { 0int },
        None => 0int,
    }) + (match fontname {
        Some(n) => if occurs_in(n, seq![67u8, 97u8, 112u8, 115u8]) { 131072int } else { 0int },
        None => 0int,
    }) + 4
}

/// The flags of `font_flags_spec`.
pub fn font_flags(italic: bool, force_bold: bool, fixed_pitch: bool, fontname: Option<&[u8]>) -> (r: i32)
    ensures
        r == font_flags_spec(italic, force_bold, fixed_pitch, match fontname { Some(n) => Some(n@), None => None }),
{
    let mut flags: i32 = 0;
    if italic {
        flags = flags + 64;
    }
    if force_bold {
        flags = flags + 262144;
    }
    if fixed_pitch {
        flags = flags + 1;
    }
    match fontname {
        Some(n) => {
            let sans: [u8; 4] = [83, 97, 110, 115];
            let caps: [u8; 4] = [67, 97, 112, 115];
            proof {
                assert(sans@ =~= seq![83u8, 97u8, 110u8, 115u8]);
                assert(caps@ =~= seq![67u8, 97u8, 112u8, 115u8]);
            }
            if !occurs_exec(n, sans.as_slice()) {
                flags = flags + 2;
            }
            if occurs_exec(n, caps.as_slice()) {
                flags = flags + 131072;
            }
        },
        None => {},
    }
    flags + 4
}

} // verus!
