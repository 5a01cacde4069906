//! Node kinds and subtypes of XeTeX, and their numeric codes.
use vstd::prelude::*;

verus! {

/// Kinds of nodes in horizontal and vertical lists.
#[derive(Clone, Copy, Debug, PartialEq, Eq, Structural)]
pub enum TextNode {
    HList,
    VList,
    Rule,
    Ins,
    Mark,
    Adjust,
    Ligature,
    Disc,
    WhatsIt,
    Math,
    Glue,
    Kern,
    Penalty,
    Unset,
    Style,
    Choice,
    MarginKern,
}

/// The numeric code of each `TextNode`.
pub open spec fn textnode_code(n: TextNode) -> u16 {
    match n {
        TextNode::HList => 0,
        TextNode::VList => 1,
        TextNode::Rule => 2,
        TextNode::Ins => 3,
        TextNode::Mark => 4,
        TextNode::Adjust => 5,
        TextNode::Ligature => 6,
        TextNode::Disc => 7,
        TextNode::WhatsIt => 8,
        TextNode::Math => 9,
        TextNode::Glue => 10,
        TextNode::Kern => 11,
        TextNode::Penalty => 12,
        TextNode::Unset => 13,
        TextNode::Style => 14,
        TextNode::Choice => 15,
        TextNode::MarginKern => 40,
    }
}

/// The `TextNode` with a given code, if there is one.
pub open spec fn textnode_of(c: u16) -> Option<TextNode> {
    if c == 0 {
        Some(TextNode::HList)
    } else if c == 1 {
        Some(TextNode::VList)
    } else if c == 2 {
        Some(TextNode::Rule)
    } else if c == 3 {
        Some(TextNode::Ins)
    } else if c == 4 {
        Some(TextNode::Mark)
    } else if c == 5 {
        Some(TextNode::Adjust)
    } else if c == 6 {
        Some(TextNode::Ligature)
    } else if c == 7 {
        Some(TextNode::Disc)
    } else if c == 8 {
        Some(TextNode::WhatsIt)
    } else if c == 9 {
        Some(TextNode::Math)
    } else if c == 10 {
        Some(TextNode::Glue)
    } else if c == 11 {
        Some(TextNode::Kern)
    } else if c == 12 {
        Some(TextNode::Penalty)
    } else if c == 13 {
        Some(TextNode::Unset)
    } else if c == 14 {
        Some(TextNode::Style)
    } else if c == 15 {
        Some(TextNode::Choice)
    } else if c == 40 {
        Some(TextNode::MarginKern)
    } else {
        None
    }
}

impl TextNode {
    /// The `TextNode` with code `c`, if there is one.
    pub fn n(c: u16) -> (r: Option<TextNode>)
        ensures
            r == textnode_of(c),
    {
        match c {
            0 => Some(TextNode::HList),
            1 => Some(TextNode::VList),
            2 => Some(TextNode::Rule),
            3 => Some(TextNode::Ins),
            4 => Some(TextNode::Mark),
            5 => Some(TextNode::Adjust),
            6 => Some(TextNode::Ligature),
            7 => Some(TextNode::Disc),
            8 => Some(TextNode::WhatsIt),
            9 => Some(TextNode::Math),
            10 => Some(TextNode::Glue),
            11 => Some(TextNode::Kern),
            12 => Some(TextNode::Penalty),
            13 => Some(TextNode::Unset),
            14 => Some(TextNode::Style),
            15 => Some(TextNode::Choice),
            40 => Some(TextNode::MarginKern),
            _ => None,
        }
    }

    /// The `TextNode` with code `c`, which must be one.
    pub fn from(c: u16) -> (r: TextNode)
        requires
            textnode_of(c) is Some,
        ensures
            Some(r) == textnode_of(c),
    {
        match TextNode::n(c) {
            Some(r) => r,
            None => {
                proof {
                    assert(false);
                }
                TextNode::HList
            },
        }
    }

    /// The code of this `TextNode`.
    pub fn u16(self) -> (r: u16)
        ensures
            r == textnode_code(self),
    {
        match self {
            TextNode::HList => 0,
            TextNode::VList => 1,
            TextNode::Rule => 2,
            TextNode::Ins => 3,
            TextNode::Mark => 4,
            TextNode::Adjust => 5,
            TextNode::Ligature => 6,
            TextNode::Disc => 7,
            TextNode::WhatsIt => 8,
            TextNode::Math => 9,
            TextNode::Glue => 10,
            TextNode::Kern => 11,
            TextNode::Penalty => 12,
            TextNode::Unset => 13,
            TextNode::Style => 14,
            TextNode::Choice => 15,
            TextNode::MarginKern => 40,
        }
    }
}

/// The code of a `TextNode` names it again, and a code names at most one.
pub proof fn law_textnode_code_roundtrip(n: TextNode, c: u16)
    ensures
        textnode_of(textnode_code(n)) == Some(n),
        textnode_of(c) matches Some(m) ==> textnode_code(m) == c,
{
}

/// Subtypes of whatsit nodes.
#[derive(Clone, Copy, Debug, PartialEq, Eq, Structural)]
pub enum WhatsItNST {
    Open,
    Write,
    Close,
    Special,
    Language,
    PdfSavePos,
    NativeWord,
    NativeWordAt,
    Glyph,
    Pic,
    Pdf,
}

/// The numeric code of each `WhatsItNST`.
pub open spec fn whatsitnst_code(n: WhatsItNST) -> u16 {
    match n {
        WhatsItNST::Open => 0,
        WhatsItNST::Write => 1,
        WhatsItNST::Close => 2,
        WhatsItNST::Special => 3,
        WhatsItNST::Language => 4,
        WhatsItNST::PdfSavePos => 6,
        WhatsItNST::NativeWord => 40,
        WhatsItNST::NativeWordAt => 41,
        WhatsItNST::Glyph => 42,
        WhatsItNST::Pic => 43,
        WhatsItNST::Pdf => 44,
    }
}

/// The `WhatsItNST` with a given code, if there is one.
pub open spec fn whatsitnst_of(c: u16) -> Option<WhatsItNST> {
    if c == 0 {
        Some(WhatsItNST::Open)
    } else if c == 1 {
        Some(WhatsItNST::Write)
    } else if c == 2 {
        Some(WhatsItNST::Close)
    } else if c == 3 {
        Some(WhatsItNST::Special)
    } else if c == 4 {
        Some(WhatsItNST::Language)
    } else if c == 6 {
        Some(WhatsItNST::PdfSavePos)
    } else if c == 40 {
        Some(WhatsItNST::NativeWord)
    } else if c == 41 {
        Some(WhatsItNST::NativeWordAt)
    } else if c == 42 {
        Some(WhatsItNST::Glyph)
    } else if c == 43 {
        Some(WhatsItNST::Pic)
    } else if c == 44 {
        Some(WhatsItNST::Pdf)
    } else {
        None
    }
}

impl WhatsItNST {
    /// The `WhatsItNST` with code `c`, if there is one.
    pub fn n(c: u16) -> (r: Option<WhatsItNST>)
        ensures
            r == whatsitnst_of(c),
    {
        match c {
            0 => Some(WhatsItNST::Open),
            1 => Some(WhatsItNST::Write),
            2 => Some(WhatsItNST::Close),
            3 => Some(WhatsItNST::Special),
            4 => Some(WhatsItNST::Language),
            6 => Some(WhatsItNST::PdfSavePos),
            40 => Some(WhatsItNST::NativeWord),
            41 => Some(WhatsItNST::NativeWordAt),
            42 => Some(WhatsItNST::Glyph),
            43 => Some(WhatsItNST::Pic),
            44 => Some(WhatsItNST::Pdf),
            _ => None,
        }
    }

    /// The `WhatsItNST` with code `c`, which must be one.
    pub fn from(c: u16) -> (r: WhatsItNST)
        requires
            whatsitnst_of(c) is Some,
        ensures
            Some(r) == whatsitnst_of(c),
    {
        match WhatsItNST::n(c) {
            Some(r) => r,
            None => {
                proof {
                    assert(false);
                }
                WhatsItNST::Open
            },
        }
    }

    /// The code of this `WhatsItNST`.
    pub fn u16(self) -> (r: u16)
        ensures
            r == whatsitnst_code(self),
    {
        match self {
            WhatsItNST::Open => 0,
            WhatsItNST::Write => 1,
            WhatsItNST::Close => 2,
            WhatsItNST::Special => 3,
            WhatsItNST::Language => 4,
            WhatsItNST::PdfSavePos => 6,
            WhatsItNST::NativeWord => 40,
            WhatsItNST::NativeWordAt => 41,
            WhatsItNST::Glyph => 42,
            WhatsItNST::Pic => 43,
            WhatsItNST::Pdf => 44,
        }
    }
}

/// The code of a `WhatsItNST` names it again, and a code names at most one.
pub proof fn law_whatsitnst_code_roundtrip(n: WhatsItNST, c: u16)
    ensures
        whatsitnst_of(whatsitnst_code(n)) == Some(n),
        whatsitnst_of(c) matches Some(m) ==> whatsitnst_code(m) == c,
{
}

/// Text direction.
#[derive(Clone, Copy, Debug, PartialEq, Eq, Structural)]
pub enum LR {
    LeftToRight,
    RightToLeft,
}

/// The numeric code of each `LR`.
pub open spec fn lr_code(n: LR) -> u16 {
    match n {
        LR::LeftToRight => 0,
        LR::RightToLeft => 1,
    }
}

/// The `LR` with a given code, if there is one.
pub open spec fn lr_of(c: u16) -> Option<LR> {
    if c == 0 {
        Some(LR::LeftToRight)
    } else if c == 1 {
        Some(LR::RightToLeft)
    } else {
        None
    }
}

impl LR {
    /// The `LR` with code `c`, if there is one.
    pub fn n(c: u16) -> (r: Option<LR>)
        ensures
            r == lr_of(c),
    {
        match c {
            0 => Some(LR::LeftToRight),
            1 => Some(LR::RightToLeft),
            _ => None,
        }
    }

    /// The `LR` with code `c`, which must be one.
    pub fn from(c: u16) -> (r: LR)
        requires
            lr_of(c) is Some,
        ensures
            Some(r) == lr_of(c),
    {
        match LR::n(c) {
            Some(r) => r,
            None => {
                proof {
                    assert(false);
                }
                LR::LeftToRight
            },
        }
    }

    /// The code of this `LR`.
    pub fn u16(self) -> (r: u16)
        ensures
            r == lr_code(self),
    {
        match self {
            LR::LeftToRight => 0,
            LR::RightToLeft => 1,
        }
    }
}

/// The code of a `LR` names it again, and a code names at most one.
pub proof fn law_lr_code_roundtrip(n: LR, c: u16)
    ensures
        lr_of(lr_code(n)) == Some(n),
        lr_of(c) matches Some(m) ==> lr_code(m) == c,
{
}

/// Direction mode recorded in a box subtype.
#[derive(Clone, Copy, Debug, PartialEq, Eq, Structural)]
pub enum LRMode {
    Normal,
    Reversed,
    DList,
}

/// The numeric code of each `LRMode`.
pub open spec fn lrmode_code(n: LRMode) -> u16 {
    match n {
        LRMode::Normal => 0,
        LRMode::Reversed => 1,
        LRMode::DList => 2,
    }
}

/// The `LRMode` with a given code, if there is one.
pub open spec fn lrmode_of(c: u16) -> Option<LRMode> {
    if c == 0 {
        Some(LRMode::Normal)
    } else if c == 1 {
        Some(LRMode::Reversed)
    } else if c == 2 {
        Some(LRMode::DList)
    } else {
        None
    }
}

impl LRMode {
    /// The `LRMode` with code `c`, if there is one.
    pub fn n(c: u16) -> (r: Option<LRMode>)
        ensures
            r == lrmode_of(c),
    {
        match c {
            0 => Some(LRMode::Normal),
            1 => Some(LRMode::Reversed),
            2 => Some(LRMode::DList),
            _ => None,
        }
    }

    /// The `LRMode` with code `c`, which must be one.
    pub fn from(c: u16) -> (r: LRMode)
        requires
            lrmode_of(c) is Some,
        ensures
            Some(r) == lrmode_of(c),
    {
        match LRMode::n(c) {
            Some(r) => r,
            None => {
                proof {
                    assert(false);
                }
                LRMode::Normal
            },
        }
    }

    /// The code of this `LRMode`.
    pub fn u16(self) -> (r: u16)
        ensures
            r == lrmode_code(self),
    {
        match self {
            LRMode::Normal => 0,
            LRMode::Reversed => 1,
            LRMode::DList => 2,
        }
    }
}

/// The code of a `LRMode` names it again, and a code names at most one.
pub proof fn law_lrmode_code_roundtrip(n: LRMode, c: u16)
    ensures
        lrmode_of(lrmode_code(n)) == Some(n),
        lrmode_of(c) matches Some(m) ==> lrmode_code(m) == c,
{
}

/// Where adjust material goes.
#[derive(Clone, Copy, Debug, PartialEq, Eq, Structural)]
pub enum AdjustType {
    Post,
    Pre,
}

/// The numeric code of each `AdjustType`.
pub open spec fn adjusttype_code(n: AdjustType) -> u16 {
    match n {
        AdjustType::Post => 0,
        AdjustType::Pre => 1,
    }
}

/// The `AdjustType` with a given code, if there is one.
pub open spec fn adjusttype_of(c: u16) -> Option<AdjustType> {
    if c == 0 {
        Some(AdjustType::Post)
    } else if c == 1 {
        Some(AdjustType::Pre)
    } else {
        None
    }
}

impl AdjustType {
    /// The `AdjustType` with code `c`, if there is one.
    pub fn n(c: u16) -> (r: Option<AdjustType>)
        ensures
            r == adjusttype_of(c),
    {
        match c {
            0 => Some(AdjustType::Post),
            1 => Some(AdjustType::Pre),
            _ => None,
        }
    }

    /// The `AdjustType` with code `c`, which must be one.
    pub fn from(c: u16) -> (r: AdjustType)
        requires
            adjusttype_of(c) is Some,
        ensures
            Some(r) == adjusttype_of(c),
    {
        match AdjustType::n(c) {
            Some(r) => r,
            None => {
                proof {
                    assert(false);
                }
                AdjustType::Post
            },
        }
    }

    /// The code of this `AdjustType`.
    pub fn u16(self) -> (r: u16)
        ensures
            r == adjusttype_code(self),
    {
        match self {
            AdjustType::Post => 0,
            AdjustType::Pre => 1,
        }
    }
}

/// The code of a `AdjustType` names it again, and a code names at most one.
pub proof fn law_adjusttype_code_roundtrip(n: AdjustType, c: u16)
    ensures
        adjusttype_of(adjusttype_code(n)) == Some(n),
        adjusttype_of(c) matches Some(m) ==> adjusttype_code(m) == c,
{
}

/// Subtypes of insertion nodes.
#[derive(Clone, Copy, Debug, PartialEq, Eq, Structural)]
pub enum InsNST {
    NS100,
    NS200,
    NS253,
}

/// The numeric code of each `InsNST`.
pub open spec fn insnst_code(n: InsNST) -> u16 {
    match n {
        InsNST::NS100 => 100,
        InsNST::NS200 => 200,
        InsNST::NS253 => 253,
    }
}

/// The `InsNST` with a given code, if there is one.
pub open spec fn insnst_of(c: u16) -> Option<InsNST> {
    if c == 100 {
        Some(InsNST::NS100)
    } else if c == 200 {
        Some(InsNST::NS200)
    } else if c == 253 {
        Some(InsNST::NS253)
    } else {
        None
    }
}

impl InsNST {
    /// The `InsNST` with code `c`, if there is one.
    pub fn n(c: u16) -> (r: Option<InsNST>)
        ensures
            r == insnst_of(c),
    {
        match c {
            100 => Some(InsNST::NS100),
            200 => Some(InsNST::NS200),
            253 => Some(InsNST::NS253),
            _ => None,
        }
    }

    /// The `InsNST` with code `c`, which must be one.
    pub fn from(c: u16) -> (r: InsNST)
        requires
            insnst_of(c) is Some,
        ensures
            Some(r) == insnst_of(c),
    {
        match InsNST::n(c) {
            Some(r) => r,
            None => {
                proof {
                    assert(false);
                }
                InsNST::NS100
            },
        }
    }

    /// The code of this `InsNST`.
    pub fn u16(self) -> (r: u16)
        ensures
            r == insnst_code(self),
    {
        match self {
            InsNST::NS100 => 100,
            InsNST::NS200 => 200,
            InsNST::NS253 => 253,
        }
    }
}

/// The code of a `InsNST` names it again, and a code names at most one.
pub proof fn law_insnst_code_roundtrip(n: InsNST, c: u16)
    ensures
        insnst_of(insnst_code(n)) == Some(n),
        insnst_of(c) matches Some(m) ==> insnst_code(m) == c,
{
}

/// Subtypes of kern nodes.
#[derive(Clone, Copy, Debug, PartialEq, Eq, Structural)]
pub enum KernNST {
    Normal,
    Explicit,
    AccKern,
    SpaceAdjustment,
}

/// The numeric code of each `KernNST`.
pub open spec fn kernnst_code(n: KernNST) -> u16 {
    match n {
        KernNST::Normal => 0,
        KernNST::Explicit => 1,
        KernNST::AccKern => 2,
        KernNST::SpaceAdjustment => 3,
    }
}

/// The `KernNST` with a given code, if there is one.
pub open spec fn kernnst_of(c: u16) -> Option<KernNST> {
    if c == 0 {
        Some(KernNST::Normal)
    } else if c == 1 {
        Some(KernNST::Explicit)
    } else if c == 2 {
        Some(KernNST::AccKern)
    } else if c == 3 {
        Some(KernNST::SpaceAdjustment)
    } else {
        None
    }
}

impl KernNST {
    /// The `KernNST` with code `c`, if there is one.
    pub fn n(c: u16) -> (r: Option<KernNST>)
        ensures
            r == kernnst_of(c),
    {
        match c {
            0 => Some(KernNST::Normal),
            1 => Some(KernNST::Explicit),
            2 => Some(KernNST::AccKern),
            3 => Some(KernNST::SpaceAdjustment),
            _ => None,
        }
    }

    /// The `KernNST` with code `c`, which must be one.
    pub fn from(c: u16) -> (r: KernNST)
        requires
            kernnst_of(c) is Some,
        ensures
            Some(r) == kernnst_of(c),
    {
        match KernNST::n(c) {
            Some(r) => r,
            None => {
                proof {
                    assert(false);
                }
                KernNST::Normal
            },
        }
    }

    /// The code of this `KernNST`.
    pub fn u16(self) -> (r: u16)
        ensures
            r == kernnst_code(self),
    {
        match self {
            KernNST::Normal => 0,
            KernNST::Explicit => 1,
            KernNST::AccKern => 2,
            KernNST::SpaceAdjustment => 3,
        }
    }
}

/// The code of a `KernNST` names it again, and a code names at most one.
pub proof fn law_kernnst_code_roundtrip(n: KernNST, c: u16)
    ensures
        kernnst_of(kernnst_code(n)) == Some(n),
        kernnst_of(c) matches Some(m) ==> kernnst_code(m) == c,
{
}

/// Kinds of noads in math lists.
#[derive(Clone, Copy, Debug, PartialEq, Eq, Structural)]
pub enum MathNode {
    Ord,
    Op,
    Bin,
    Rel,
    Open,
    Close,
    Punct,
    Inner,
    Radical,
    Fraction,
    Under,
    Over,
    Accent,
    VCenter,
    Left,
    Right,
}

/// The numeric code of each `MathNode`.
pub open spec fn mathnode_code(n: MathNode) -> u16 {
    match n {
        MathNode::Ord => 16,
        MathNode::Op => 17,
        MathNode::Bin => 18,
        MathNode::Rel => 19,
        MathNode::Open => 20,
        MathNode::Close => 21,
        MathNode::Punct => 22,
        MathNode::Inner => 23,
        MathNode::Radical => 24,
        MathNode::Fraction => 25,
        MathNode::Under => 26,
        MathNode::Over => 27,
        MathNode::Accent => 28,
        MathNode::VCenter => 29,
        MathNode::Left => 30,
        MathNode::Right => 31,
    }
}

/// The `MathNode` with a given code, if there is one.
pub open spec fn mathnode_of(c: u16) -> Option<MathNode> {
    if c == 16 {
        Some(MathNode::Ord)
    } else if c == 17 {
        Some(MathNode::Op)
    } else if c == 18 {
        Some(MathNode::Bin)
    } else if c == 19 {
        Some(MathNode::Rel)
    } else if c == 20 {
        Some(MathNode::Open)
    } else if c == 21 {
        Some(MathNode::Close)
    } else if c == 22 {
        Some(MathNode::Punct)
    } else if c == 23 {
        Some(MathNode::Inner)
    } else if c == 24 {
        Some(MathNode::Radical)
    } else if c == 25 {
        Some(MathNode::Fraction)
    } else if c == 26 {
        Some(MathNode::Under)
    } else if c == 27 {
        Some(MathNode::Over)
    } else if c == 28 {
        Some(MathNode::Accent)
    } else if c == 29 {
        Some(MathNode::VCenter)
    } else if c == 30 {
        Some(MathNode::Left)
    } else if c == 31 {
        Some(MathNode::Right)
    } else {
        None
    }
}

impl MathNode {
    /// The `MathNode` with code `c`, if there is one.
    pub fn n(c: u16) -> (r: Option<MathNode>)
        ensures
            r == mathnode_of(c),
    {
        match c {
            16 => Some(MathNode::Ord),
            17 => Some(MathNode::Op),
            18 => Some(MathNode::Bin),
            19 => Some(MathNode::Rel),
            20 => Some(MathNode::Open),
            21 => Some(MathNode::Close),
            22 => Some(MathNode::Punct),
            23 => Some(MathNode::Inner),
            24 => Some(MathNode::Radical),
            25 => Some(MathNode::Fraction),
            26 => Some(MathNode::Under),
            27 => Some(MathNode::Over),
            28 => Some(MathNode::Accent),
            29 => Some(MathNode::VCenter),
            30 => Some(MathNode::Left),
            31 => Some(MathNode::Right),
            _ => None,
        }
    }

    /// The `MathNode` with code `c`, which must be one.
    pub fn from(c: u16) -> (r: MathNode)
        requires
            mathnode_of(c) is Some,
        ensures
            Some(r) == mathnode_of(c),
    {
        match MathNode::n(c) {
            Some(r) => r,
            None => {
                proof {
                    assert(false);
                }
                MathNode::Ord
            },
        }
    }

    /// The code of this `MathNode`.
    pub fn u16(self) -> (r: u16)
        ensures
            r == mathnode_code(self),
    {
        match self {
            MathNode::Ord => 16,
            MathNode::Op => 17,
            MathNode::Bin => 18,
            MathNode::Rel => 19,
            MathNode::Open => 20,
            MathNode::Close => 21,
            MathNode::Punct => 22,
            MathNode::Inner => 23,
            MathNode::Radical => 24,
            MathNode::Fraction => 25,
            MathNode::Under => 26,
            MathNode::Over => 27,
            MathNode::Accent => 28,
            MathNode::VCenter => 29,
            MathNode::Left => 30,
            MathNode::Right => 31,
        }
    }
}

/// The code of a `MathNode` names it again, and a code names at most one.
pub proof fn law_mathnode_code_roundtrip(n: MathNode, c: u16)
    ensures
        mathnode_of(mathnode_code(n)) == Some(n),
        mathnode_of(c) matches Some(m) ==> mathnode_code(m) == c,
{
}

impl LR {
    /// The opposite direction.
    pub fn not(self) -> (r: LR)
        ensures
            r != self,
    {
        match self {
            LR::LeftToRight => LR::RightToLeft,
            LR::RightToLeft => LR::LeftToRight,
        }
    }
}

pub const INSERTING: TextNode = TextNode::HList;
pub const SPLIT_UP: TextNode = TextNode::VList;
pub const DELTA_NODE: TextNode = TextNode::Rule;
pub const EDGE_NODE: TextNode = TextNode::Style;

/// A node kind: a list node, a noad, or a code with no name.
#[derive(Clone, Copy, Debug, PartialEq, Eq, Structural)]
pub enum ND {
    Text(TextNode),
    Math(MathNode),
    Unknown(u16),
}

/// The kind that a code names: codes 0 to 15 and 40 are list nodes, 16 to 31
/// noads, the rest unknown.
pub open spec fn nd_of(n: u16) -> ND {
    if n <= 15 || n == 40 {
        ND::Text(textnode_of(n).unwrap())
    } else if 16 <= n <= 31 {
        ND::Math(mathnode_of(n).unwrap())
    } else {
        ND::Unknown(n)
    }
}

/// The code of a kind.
pub open spec fn nd_code(n: ND) -> u16 {
    match n {
        ND::Text(t) => textnode_code(t),
        ND::Math(m) => mathnode_code(m),
        ND::Unknown(c) => c,
    }
}

impl ND {
    /// The kind with code `n`.
    pub fn from(n: u16) -> (r: ND)
        ensures
            r == nd_of(n),
    {
        if n <= 15 || n == 40 {
            ND::Text(TextNode::from(n))
        } else if 16 <= n && n <= 31 {
            ND::Math(MathNode::from(n))
        } else {
            ND::Unknown(n)
        }
    }

    pub fn from_text(n: TextNode) -> (r: ND)
        ensures
            r == ND::Text(n),
    {
        ND::Text(n)
    }

    pub fn from_math(n: MathNode) -> (r: ND)
        ensures
            r == ND::Math(n),
    {
        ND::Math(n)
    }

    /// The code of this kind.
    pub fn u16(self) -> (r: u16)
        ensures
            r == nd_code(self),
    {
        match self {
            ND::Text(n) => n.u16(),
            ND::Math(n) => n.u16(),
            ND::Unknown(n) => n,
        }
    }
}

/// Every code survives the trip through its kind.
pub proof fn law_nd_code_roundtrip(n: u16)
    ensures
        nd_code(nd_of(n)) == n,
{
}

pub const IF_NODE_SIZE: i32 = 2;
pub const PASSIVE_NODE_SIZE: i32 = 2;
pub const POINTER_NODE_SIZE: i32 = 2;
pub const SMALL_NODE_SIZE: i32 = 2;
pub const SPAN_NODE_SIZE: i32 = 2;
pub const WRITE_NODE_SIZE: i32 = 2;
pub const ACTIVE_NODE_SIZE_NORMAL: i32 = 3;
pub const EDGE_NODE_SIZE: i32 = 3;
pub const MARGIN_KERN_NODE_SIZE: i32 = 3;
pub const MEDIUM_NODE_SIZE: i32 = 3;
pub const MOVEMENT_NODE_SIZE: i32 = 3;
pub const OPEN_NODE_SIZE: i32 = 3;
pub const STYLE_NODE_SIZE: i32 = 3;
pub const WORD_NODE_SIZE: i32 = 3;
pub const EXPR_NODE_SIZE: i32 = 4;
pub const GLUE_SPEC_SIZE: i32 = 4;
pub const MARK_CLASS_NODE_SIZE: i32 = 4;
pub const PAGE_INS_NODE_SIZE: i32 = 4;
pub const ACTIVE_NODE_SIZE_EXTENDED: i32 = 5;
pub const GLYPH_NODE_SIZE: i32 = 5;
pub const INS_NODE_SIZE: i32 = 5;
pub const RULE_NODE_SIZE: i32 = 5;
pub const ALIGN_STACK_NODE_SIZE: i32 = 6;
pub const NATIVE_NODE_SIZE: i32 = 6;
pub const DELTA_NODE_SIZE: i32 = 7;
pub const BOX_NODE_SIZE: i32 = 8;
pub const PIC_NODE_SIZE: i32 = 9;
pub const INDEX_NODE_SIZE: i32 = 33;
pub const NOAD_SIZE: i32 = 4;
pub const ACCENT_NOAD_SIZE: i32 = 5;
pub const RADICAL_NOAD_SIZE: i32 = 5;
pub const FRACTION_NOAD_SIZE: i32 = 6;
/// Memory words of synctex information, included in the node sizes above.
pub const SYNCTEX_FIELD_SIZE: i32 = 1;

} // verus!
