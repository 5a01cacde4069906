//! The TrueType `post` table: the PostScript names of the glyphs.
use vstd::prelude::*;

verus! {

/// Byte `p` of `data`, or 0 past its end (a short read leaves zeros).
pub open spec fn byte_at(data: Seq<u8>, p: int) -> int {
    if 0 <= p < data.len() {
        data[p] as int
    } else {
        0
    }
}

/// The big-endian 16-bit value at `p`.
pub open spec fn be16_at(data: Seq<u8>, p: int) -> int {
    byte_at(data, p) * 256 + byte_at(data, p + 1)
}

/// The big-endian 32-bit value at `p`.
pub open spec fn be32_at(data: Seq<u8>, p: int) -> int {
    be16_at(data, p) * 65536 + be16_at(data, p + 2)
}

fn read_byte(data: &Vec<u8>, p: usize) -> (r: u8)
    ensures
        r == byte_at(data@, p as int),
{
    if p < data.len() {
        data[p]
    } else {
        0
    }
}

fn read_be16(data: &Vec<u8>, p: usize) -> (r: u16)
    requires
        p + 1 <= usize::MAX,
    ensures
        r == be16_at(data@, p as int),
{
    let hi = read_byte(data, p) as u16;
    let lo = read_byte(data, p + 1) as u16;
    hi * 256 + lo
}

fn read_be32(data: &Vec<u8>, p: usize) -> (r: u32)
    requires
        p + 3 <= usize::MAX,
    ensures
        r == be32_at(data@, p as int),
{
    let hi = read_be16(data, p) as u32;
    let lo = read_be16(data, p + 2) as u32;
    hi * 65536 + lo
}

/// The Macintosh glyph names, one after another.
pub open spec fn mac_blob() -> Seq<u8> {
    seq![
        46, 110, 111, 116, 100, 101, 102, 46, 110, 117, 108, 108, 110, 111, 110, 109, 97, 114, 107, 105,
        110, 103, 114, 101, 116, 117, 114, 110, 115, 112, 97, 99, 101, 101, 120, 99, 108, 97, 109, 113,
        117, 111, 116, 101, 100, 98, 108, 110, 117, 109, 98, 101, 114, 115, 105, 103, 110, 100, 111, 108,
        108, 97, 114, 112, 101, 114, 99, 101, 110, 116, 97, 109, 112, 101, 114, 115, 97, 110, 100, 113,
        117, 111, 116, 101, 115, 105, 110, 103, 108, 101, 112, 97, 114, 101, 110, 108, 101, 102, 116, 112,
        97, 114, 101, 110, 114, 105, 103, 104, 116, 97, 115, 116, 101, 114, 105, 115, 107, 112, 108, 117,
        115, 99, 111, 109, 109, 97, 104, 121, 112, 104, 101, 110, 112, 101, 114, 105, 111, 100, 115, 108,
        97, 115, 104, 122, 101, 114, 111, 111, 110, 101, 116, 119, 111, 116, 104, 114, 101, 101, 102, 111,
        117, 114, 102, 105, 118, 101, 115, 105, 120, 115, 101, 118, 101, 110, 101, 105, 103, 104, 116, 110,
        105, 110, 101, 99, 111, 108, 111, 110, 115, 101, 109, 105, 99, 111, 108, 111, 110, 108, 101, 115,
        115, 101, 113, 117, 97, 108, 103, 114, 101, 97, 116, 101, 114, 113, 117, 101, 115, 116, 105, 111,
        110, 97, 116, 65, 66, 67, 68, 69, 70, 71, 72, 73, 74, 75, 76, 77, 78, 79, 80, 81,
        82, 83, 84, 85, 86, 87, 88, 89, 90, 98, 114, 97, 99, 107, 101, 116, 108, 101, 102, 116,
        98, 97, 99, 107, 115, 108, 97, 115, 104, 98, 114, 97, 99, 107, 101, 116, 114, 105, 103, 104,
        116, 97, 115, 99, 105, 105, 99, 105, 114, 99, 117, 109, 117, 110, 100, 101, 114, 115, 99, 111,
        114, 101, 103, 114, 97, 118, 101, 97, 98, 99, 100, 101, 102, 103, 104, 105, 106, 107, 108, 109,
        110, 111, 112, 113, 114, 115, 116, 117, 118, 119, 120, 121, 122, 98, 114, 97, 99, 101, 108, 101,
        102, 116, 98, 97, 114, 98, 114, 97, 99, 101, 114, 105, 103, 104, 116, 97, 115, 99, 105, 105,
        116, 105, 108, 100, 101, 65, 100, 105, 101, 114, 101, 115, 105, 115, 65, 114, 105, 110, 103, 67,
        99, 101, 100, 105, 108, 108, 97, 69, 97, 99, 117, 116, 101, 78, 116, 105, 108, 100, 101, 79,
        100, 105, 101, 114, 101, 115, 105, 115, 85, 100, 105, 101, 114, 101, 115, 105, 115, 97, 97, 99,
        117, 116, 101, 97, 103, 114, 97, 118, 101, 97, 99, 105, 114, 99, 117, 109, 102, 108, 101, 120,
        97, 100, 105, 101, 114, 101, 115, 105, 115, 97, 116, 105, 108, 100, 101, 97, 114, 105, 110, 103,
        99, 99, 101, 100, 105, 108, 108, 97, 101, 97, 99, 117, 116, 101, 101, 103, 114, 97, 118, 101,
        101, 99, 105, 114, 99, 117, 109, 102, 108, 101, 120, 101, 100, 105, 101, 114, 101, 115, 105, 115,
        105, 97, 99, 117, 116, 101, 105, 103, 114, 97, 118, 101, 105, 99, 105, 114, 99, 117, 109, 102,
        108, 101, 120, 105, 100, 105, 101, 114, 101, 115, 105, 115, 110, 116, 105, 108, 100, 101, 111, 97,
        99, 117, 116, 101, 111, 103, 114, 97, 118, 101, 111, 99, 105, 114, 99, 117, 109, 102, 108, 101,
        120, 111, 100, 105, 101, 114, 101, 115, 105, 115, 111, 116, 105, 108, 100, 101, 117, 97, 99, 117,
        116, 101, 117, 103, 114, 97, 118, 101, 117, 99, 105, 114, 99, 117, 109, 102, 108, 101, 120, 117,
        100, 105, 101, 114, 101, 115, 105, 115, 100, 97, 103, 103, 101, 114, 100, 101, 103, 114, 101, 101,
        99, 101, 110, 116, 115, 116, 101, 114, 108, 105, 110, 103, 115, 101, 99, 116, 105, 111, 110, 98,
        117, 108, 108, 101, 116, 112, 97, 114, 97, 103, 114, 97, 112, 104, 103, 101, 114, 109, 97, 110,
        100, 98, 108, 115, 114, 101, 103, 105, 115, 116, 101, 114, 101, 100, 99, 111, 112, 121, 114, 105,
        103, 104, 116, 116, 114, 97, 100, 101, 109, 97, 114, 107, 97, 99, 117, 116, 101, 100, 105, 101,
        114, 101, 115, 105, 115, 110, 111, 116, 101, 113, 117, 97, 108, 65, 69, 79, 115, 108, 97, 115,
        104, 105, 110, 102, 105, 110, 105, 116, 121, 112, 108, 117, 115, 109, 105, 110, 117, 115, 108, 101,
        115, 115, 101, 113, 117, 97, 108, 103, 114, 101, 97, 116, 101, 114, 101, 113, 117, 97, 108, 121,
        101, 110, 109, 117, 112, 97, 114, 116, 105, 97, 108, 100, 105, 102, 102, 115, 117, 109, 109, 97,
        116, 105, 111, 110, 112, 114, 111, 100, 117, 99, 116, 112, 105, 105, 110, 116, 101, 103, 114, 97,
        108, 111, 114, 100, 102, 101, 109, 105, 110, 105, 110, 101, 111, 114, 100, 109, 97, 115, 99, 117,
        108, 105, 110, 101, 79, 109, 101, 103, 97, 97, 101, 111, 115, 108, 97, 115, 104, 113, 117, 101,
        115, 116, 105, 111, 110, 100, 111, 119, 110, 101, 120, 99, 108, 97, 109, 100, 111, 119, 110, 108,
        111, 103, 105, 99, 97, 108, 110, 111, 116, 114, 97, 100, 105, 99, 97, 108, 102, 108, 111, 114,
        105, 110, 97, 112, 112, 114, 111, 120, 101, 113, 117, 97, 108, 68, 101, 108, 116, 97, 103, 117,
        105, 108, 108, 101, 109, 111, 116, 108, 101, 102, 116, 103, 117, 105, 108, 108, 101, 109, 111, 116,
        114, 105, 103, 104, 116, 101, 108, 108, 105, 112, 115, 105, 115, 110, 111, 110, 98, 114, 101, 97,
        107, 105, 110, 103, 115, 112, 97, 99, 101, 65, 103, 114, 97, 118, 101, 65, 116, 105, 108, 100,
        101, 79, 116, 105, 108, 100, 101, 79, 69, 111, 101, 101, 110, 100, 97, 115, 104, 101, 109, 100,
        97, 115, 104, 113, 117, 111, 116, 101, 100, 98, 108, 108, 101, 102, 116, 113, 117, 111, 116, 101,
        100, 98, 108, 114, 105, 103, 104, 116, 113, 117, 111, 116, 101, 108, 101, 102, 116, 113, 117, 111,
        116, 101, 114, 105, 103, 104, 116, 100, 105, 118, 105, 100, 101, 108, 111, 122, 101, 110, 103, 101,
        121, 100, 105, 101, 114, 101, 115, 105, 115, 89, 100, 105, 101, 114, 101, 115, 105, 115, 102, 114,
        97, 99, 116, 105, 111, 110, 99, 117, 114, 114, 101, 110, 99, 121, 103, 117, 105, 108, 115, 105,
        110, 103, 108, 108, 101, 102, 116, 103, 117, 105, 108, 115, 105, 110, 103, 108, 114, 105, 103, 104,
        116, 102, 105, 102, 108, 100, 97, 103, 103, 101, 114, 100, 98, 108, 112, 101, 114, 105, 111, 100,
        99, 101, 110, 116, 101, 114, 101, 100, 113, 117, 111, 116, 101, 115, 105, 110, 103, 108, 98, 97,
        115, 101, 113, 117, 111, 116, 101, 100, 98, 108, 98, 97, 115, 101, 112, 101, 114, 116, 104, 111,
        117, 115, 97, 110, 100, 65, 99, 105, 114, 99, 117, 109, 102, 108, 101, 120, 69, 99, 105, 114,
        99, 117, 109, 102, 108, 101, 120, 65, 97, 99, 117, 116, 101, 69, 100, 105, 101, 114, 101, 115,
        105, 115, 69, 103, 114, 97, 118, 101, 73, 97, 99, 117, 116, 101, 73, 99, 105, 114, 99, 117,
        109, 102, 108, 101, 120, 73, 100, 105, 101, 114, 101, 115, 105, 115, 73, 103, 114, 97, 118, 101,
        79, 97, 99, 117, 116, 101, 79, 99, 105, 114, 99, 117, 109, 102, 108, 101, 120, 97, 112, 112,
        108, 101, 79, 103, 114, 97, 118, 101, 85, 97, 99, 117, 116, 101, 85, 99, 105, 114, 99, 117,
        109, 102, 108, 101, 120, 85, 103, 114, 97, 118, 101, 100, 111, 116, 108, 101, 115, 115, 105, 99,
        105, 114, 99, 117, 109, 102, 108, 101, 120, 116, 105, 108, 100, 101, 109, 97, 99, 114, 111, 110,
        98, 114, 101, 118, 101, 100, 111, 116, 97, 99, 99, 101, 110, 116, 114, 105, 110, 103, 99, 101,
        100, 105, 108, 108, 97, 104, 117, 110, 103, 97, 114, 117, 109, 108, 97, 117, 116, 111, 103, 111,
        110, 101, 107, 99, 97, 114, 111, 110, 76, 115, 108, 97, 115, 104, 108, 115, 108, 97, 115, 104,
        83, 99, 97, 114, 111, 110, 115, 99, 97, 114, 111, 110, 90, 99, 97, 114, 111, 110, 122, 99,
        97, 114, 111, 110, 98, 114, 111, 107, 101, 110, 98, 97, 114, 69, 116, 104, 101, 116, 104, 89,
        97, 99, 117, 116, 101, 121, 97, 99, 117, 116, 101, 84, 104, 111, 114, 110, 116, 104, 111, 114,
        110, 109, 105, 110, 117, 115, 109, 117, 108, 116, 105, 112, 108, 121, 111, 110, 101, 115, 117, 112,
        101, 114, 105, 111, 114, 116, 119, 111, 115, 117, 112, 101, 114, 105, 111, 114, 116, 104, 114, 101,
        101, 115, 117, 112, 101, 114, 105, 111, 114, 111, 110, 101, 104, 97, 108, 102, 111, 110, 101, 113,
        117, 97, 114, 116, 101, 114, 116, 104, 114, 101, 101, 113, 117, 97, 114, 116, 101, 114, 115, 102,
        114, 97, 110, 99, 71, 98, 114, 101, 118, 101, 103, 98, 114, 101, 118, 101, 73, 100, 111, 116,
        97, 99, 99, 101, 110, 116, 83, 99, 101, 100, 105, 108, 108, 97, 115, 99, 101, 100, 105, 108,
        108, 97, 67, 97, 99, 117, 116, 101, 99, 97, 99, 117, 116, 101, 67, 99, 97, 114, 111, 110,
        99, 99, 97, 114, 111, 110, 100, 99, 114, 111, 97, 116,
    ]
}

/// Where each Macintosh glyph name starts in `mac_blob()`, and where the
/// last one ends.
pub open spec fn mac_offsets() -> Seq<int> {
    seq![
        0, 7, 12, 28, 33, 39, 47, 57, 63, 70, 79, 90, 99, 109, 117, 121, 126, 132, 138, 143,
        147, 150, 153, 158, 162, 166, 169, 174, 179, 183, 188, 197, 201, 206, 213, 221, 223, 224, 225, 226,
        227, 228, 229, 230, 231, 232, 233, 234, 235, 236, 237, 238, 239, 240, 241, 242, 243, 244, 245, 246,
        247, 248, 249, 260, 269, 281, 292, 302, 307, 308, 309, 310, 311, 312, 313, 314, 315, 316, 317, 318,
        319, 320, 321, 322, 323, 324, 325, 326, 327, 328, 329, 330, 331, 332, 333, 342, 345, 355, 365, 374,
        379, 387, 393, 399, 408, 417, 423, 429, 440, 449, 455, 460, 468, 474, 480, 491, 500, 506, 512, 523,
        532, 538, 544, 550, 561, 570, 576, 582, 588, 599, 608, 614, 620, 624, 632, 639, 645, 654, 664, 674,
        683, 692, 697, 705, 713, 715, 721, 729, 738, 747, 759, 762, 764, 775, 784, 791, 793, 801, 812, 824,
        829, 831, 837, 849, 859, 869, 876, 882, 893, 898, 911, 925, 933, 949, 955, 961, 967, 969, 971, 977,
        983, 995, 1008, 1017, 1027, 1033, 1040, 1049, 1058, 1066, 1074, 1087, 1101, 1103, 1105, 1114, 1128, 1142, 1154, 1165,
        1176, 1187, 1193, 1202, 1208, 1214, 1225, 1234, 1240, 1246, 1257, 1262, 1268, 1274, 1285, 1291, 1299, 1309, 1314, 1320,
        1325, 1334, 1338, 1345, 1357, 1363, 1368, 1374, 1380, 1386, 1392, 1398, 1404, 1413, 1416, 1419, 1425, 1431, 1436, 1441,
        1446, 1454, 1465, 1476, 1489, 1496, 1506, 1519, 1524, 1530, 1536, 1546, 1554, 1562, 1568, 1574, 1580, 1586, 1592,
    ]
}

pub open spec fn offsets_ordered(k: int) -> bool {
    0 <= mac_offsets()[k] <= mac_offsets()[k + 1] <= 1592
}

/// The name of glyph `i` in the Macintosh glyph order.
pub open spec fn mac_glyph_name(i: int) -> Seq<u8> {
    if offsets_ordered(i) {
        mac_blob().subrange(mac_offsets()[i], mac_offsets()[i + 1])
    } else {
        Seq::empty()
    }
}

/// The name of glyph `i` in the Macintosh glyph order.
pub fn mac_glyph_name_of(i: usize) -> (r: Vec<u8>)
    requires
        i < 258,
    ensures
        r@ == mac_glyph_name(i as int),
{
    let blob: [u8; 1592] = [
        46, 110, 111, 116, 100, 101, 102, 46, 110, 117, 108, 108, 110, 111, 110, 109, 97, 114, 107, 105,
        110, 103, 114, 101, 116, 117, 114, 110, 115, 112, 97, 99, 101, 101, 120, 99, 108, 97, 109, 113,
        117, 111, 116, 101, 100, 98, 108, 110, 117, 109, 98, 101, 114, 115, 105, 103, 110, 100, 111, 108,
        108, 97, 114, 112, 101, 114, 99, 101, 110, 116, 97, 109, 112, 101, 114, 115, 97, 110, 100, 113,
        117, 111, 116, 101, 115, 105, 110, 103, 108, 101, 112, 97, 114, 101, 110, 108, 101, 102, 116, 112,
        97, 114, 101, 110, 114, 105, 103, 104, 116, 97, 115, 116, 101, 114, 105, 115, 107, 112, 108, 117,
        115, 99, 111, 109, 109, 97, 104, 121, 112, 104, 101, 110, 112, 101, 114, 105, 111, 100, 115, 108,
        97, 115, 104, 122, 101, 114, 111, 111, 110, 101, 116, 119, 111, 116, 104, 114, 101, 101, 102, 111,
        117, 114, 102, 105, 118, 101, 115, 105, 120, 115, 101, 118, 101, 110, 101, 105, 103, 104, 116, 110,
        105, 110, 101, 99, 111, 108, 111, 110, 115, 101, 109, 105, 99, 111, 108, 111, 110, 108, 101, 115,
        115, 101, 113, 117, 97, 108, 103, 114, 101, 97, 116, 101, 114, 113, 117, 101, 115, 116, 105, 111,
        110, 97, 116, 65, 66, 67, 68, 69, 70, 71, 72, 73, 74, 75, 76, 77, 78, 79, 80, 81,
        82, 83, 84, 85, 86, 87, 88, 89, 90, 98, 114, 97, 99, 107, 101, 116, 108, 101, 102, 116,
        98, 97, 99, 107, 115, 108, 97, 115, 104, 98, 114, 97, 99, 107, 101, 116, 114, 105, 103, 104,
        116, 97, 115, 99, 105, 105, 99, 105, 114, 99, 117, 109, 117, 110, 100, 101, 114, 115, 99, 111,
        114, 101, 103, 114, 97, 118, 101, 97, 98, 99, 100, 101, 102, 103, 104, 105, 106, 107, 108, 109,
        110, 111, 112, 113, 114, 115, 116, 117, 118, 119, 120, 121, 122, 98, 114, 97, 99, 101, 108, 101,
        102, 116, 98, 97, 114, 98, 114, 97, 99, 101, 114, 105, 103, 104, 116, 97, 115, 99, 105, 105,
        116, 105, 108, 100, 101, 65, 100, 105, 101, 114, 101, 115, 105, 115, 65, 114, 105, 110, 103, 67,
        99, 101, 100, 105, 108, 108, 97, 69, 97, 99, 117, 116, 101, 78, 116, 105, 108, 100, 101, 79,
        100, 105, 101, 114, 101, 115, 105, 115, 85, 100, 105, 101, 114, 101, 115, 105, 115, 97, 97, 99,
        117, 116, 101, 97, 103, 114, 97, 118, 101, 97, 99, 105, 114, 99, 117, 109, 102, 108, 101, 120,
        97, 100, 105, 101, 114, 101, 115, 105, 115, 97, 116, 105, 108, 100, 101, 97, 114, 105, 110, 103,
        99, 99, 101, 100, 105, 108, 108, 97, 101, 97, 99, 117, 116, 101, 101, 103, 114, 97, 118, 101,
        101, 99, 105, 114, 99, 117, 109, 102, 108, 101, 120, 101, 100, 105, 101, 114, 101, 115, 105, 115,
        105, 97, 99, 117, 116, 101, 105, 103, 114, 97, 118, 101, 105, 99, 105, 114, 99, 117, 109, 102,
        108, 101, 120, 105, 100, 105, 101, 114, 101, 115, 105, 115, 110, 116, 105, 108, 100, 101, 111, 97,
        99, 117, 116, 101, 111, 103, 114, 97, 118, 101, 111, 99, 105, 114, 99, 117, 109, 102, 108, 101,
        120, 111, 100, 105, 101, 114, 101, 115, 105, 115, 111, 116, 105, 108, 100, 101, 117, 97, 99, 117,
        116, 101, 117, 103, 114, 97, 118, 101, 117, 99, 105, 114, 99, 117, 109, 102, 108, 101, 120, 117,
        100, 105, 101, 114, 101, 115, 105, 115, 100, 97, 103, 103, 101, 114, 100, 101, 103, 114, 101, 101,
        99, 101, 110, 116, 115, 116, 101, 114, 108, 105, 110, 103, 115, 101, 99, 116, 105, 111, 110, 98,
        117, 108, 108, 101, 116, 112, 97, 114, 97, 103, 114, 97, 112, 104, 103, 101, 114, 109, 97, 110,
        100, 98, 108, 115, 114, 101, 103, 105, 115, 116, 101, 114, 101, 100, 99, 111, 112, 121, 114, 105,
        103, 104, 116, 116, 114, 97, 100, 101, 109, 97, 114, 107, 97, 99, 117, 116, 101, 100, 105, 101,
        114, 101, 115, 105, 115, 110, 111, 116, 101, 113, 117, 97, 108, 65, 69, 79, 115, 108, 97, 115,
        104, 105, 110, 102, 105, 110, 105, 116, 121, 112, 108, 117, 115, 109, 105, 110, 117, 115, 108, 101,
        115, 115, 101, 113, 117, 97, 108, 103, 114, 101, 97, 116, 101, 114, 101, 113, 117, 97, 108, 121,
        101, 110, 109, 117, 112, 97, 114, 116, 105, 97, 108, 100, 105, 102, 102, 115, 117, 109, 109, 97,
        116, 105, 111, 110, 112, 114, 111, 100, 117, 99, 116, 112, 105, 105, 110, 116, 101, 103, 114, 97,
        108, 111, 114, 100, 102, 101, 109, 105, 110, 105, 110, 101, 111, 114, 100, 109, 97, 115, 99, 117,
        108, 105, 110, 101, 79, 109, 101, 103, 97, 97, 101, 111, 115, 108, 97, 115, 104, 113, 117, 101,
        115, 116, 105, 111, 110, 100, 111, 119, 110, 101, 120, 99, 108, 97, 109, 100, 111, 119, 110, 108,
        111, 103, 105, 99, 97, 108, 110, 111, 116, 114, 97, 100, 105, 99, 97, 108, 102, 108, 111, 114,
        105, 110, 97, 112, 112, 114, 111, 120, 101, 113, 117, 97, 108, 68, 101, 108, 116, 97, 103, 117,
        105, 108, 108, 101, 109, 111, 116, 108, 101, 102, 116, 103, 117, 105, 108, 108, 101, 109, 111, 116,
        114, 105, 103, 104, 116, 101, 108, 108, 105, 112, 115, 105, 115, 110, 111, 110, 98, 114, 101, 97,
        107, 105, 110, 103, 115, 112, 97, 99, 101, 65, 103, 114, 97, 118, 101, 65, 116, 105, 108, 100,
        101, 79, 116, 105, 108, 100, 101, 79, 69, 111, 101, 101, 110, 100, 97, 115, 104, 101, 109, 100,
        97, 115, 104, 113, 117, 111, 116, 101, 100, 98, 108, 108, 101, 102, 116, 113, 117, 111, 116, 101,
        100, 98, 108, 114, 105, 103, 104, 116, 113, 117, 111, 116, 101, 108, 101, 102, 116, 113, 117, 111,
        116, 101, 114, 105, 103, 104, 116, 100, 105, 118, 105, 100, 101, 108, 111, 122, 101, 110, 103, 101,
        121, 100, 105, 101, 114, 101, 115, 105, 115, 89, 100, 105, 101, 114, 101, 115, 105, 115, 102, 114,
        97, 99, 116, 105, 111, 110, 99, 117, 114, 114, 101, 110, 99, 121, 103, 117, 105, 108, 115, 105,
        110, 103, 108, 108, 101, 102, 116, 103, 117, 105, 108, 115, 105, 110, 103, 108, 114, 105, 103, 104,
        116, 102, 105, 102, 108, 100, 97, 103, 103, 101, 114, 100, 98, 108, 112, 101, 114, 105, 111, 100,
        99, 101, 110, 116, 101, 114, 101, 100, 113, 117, 111, 116, 101, 115, 105, 110, 103, 108, 98, 97,
        115, 101, 113, 117, 111, 116, 101, 100, 98, 108, 98, 97, 115, 101, 112, 101, 114, 116, 104, 111,
        117, 115, 97, 110, 100, 65, 99, 105, 114, 99, 117, 109, 102, 108, 101, 120, 69, 99, 105, 114,
        99, 117, 109, 102, 108, 101, 120, 65, 97, 99, 117, 116, 101, 69, 100, 105, 101, 114, 101, 115,
        105, 115, 69, 103, 114, 97, 118, 101, 73, 97, 99, 117, 116, 101, 73, 99, 105, 114, 99, 117,
        109, 102, 108, 101, 120, 73, 100, 105, 101, 114, 101, 115, 105, 115, 73, 103, 114, 97, 118, 101,
        79, 97, 99, 117, 116, 101, 79, 99, 105, 114, 99, 117, 109, 102, 108, 101, 120, 97, 112, 112,
        108, 101, 79, 103, 114, 97, 118, 101, 85, 97, 99, 117, 116, 101, 85, 99, 105, 114, 99, 117,
        109, 102, 108, 101, 120, 85, 103, 114, 97, 118, 101, 100, 111, 116, 108, 101, 115, 115, 105, 99,
        105, 114, 99, 117, 109, 102, 108, 101, 120, 116, 105, 108, 100, 101, 109, 97, 99, 114, 111, 110,
        98, 114, 101, 118, 101, 100, 111, 116, 97, 99, 99, 101, 110, 116, 114, 105, 110, 103, 99, 101,
        100, 105, 108, 108, 97, 104, 117, 110, 103, 97, 114, 117, 109, 108, 97, 117, 116, 111, 103, 111,
        110, 101, 107, 99, 97, 114, 111, 110, 76, 115, 108, 97, 115, 104, 108, 115, 108, 97, 115, 104,
        83, 99, 97, 114, 111, 110, 115, 99, 97, 114, 111, 110, 90, 99, 97, 114, 111, 110, 122, 99,
        97, 114, 111, 110, 98, 114, 111, 107, 101, 110, 98, 97, 114, 69, 116, 104, 101, 116, 104, 89,
        97, 99, 117, 116, 101, 121, 97, 99, 117, 116, 101, 84, 104, 111, 114, 110, 116, 104, 111, 114,
        110, 109, 105, 110, 117, 115, 109, 117, 108, 116, 105, 112, 108, 121, 111, 110, 101, 115, 117, 112,
        101, 114, 105, 111, 114, 116, 119, 111, 115, 117, 112, 101, 114, 105, 111, 114, 116, 104, 114, 101,
        101, 115, 117, 112, 101, 114, 105, 111, 114, 111, 110, 101, 104, 97, 108, 102, 111, 110, 101, 113,
        117, 97, 114, 116, 101, 114, 116, 104, 114, 101, 101, 113, 117, 97, 114, 116, 101, 114, 115, 102,
        114, 97, 110, 99, 71, 98, 114, 101, 118, 101, 103, 98, 114, 101, 118, 101, 73, 100, 111, 116,
        97, 99, 99, 101, 110, 116, 83, 99, 101, 100, 105, 108, 108, 97, 115, 99, 101, 100, 105, 108,
        108, 97, 67, 97, 99, 117, 116, 101, 99, 97, 99, 117, 116, 101, 67, 99, 97, 114, 111, 110,
        99, 99, 97, 114, 111, 110, 100, 99, 114, 111, 97, 116,
    ];
    let offs: [u16; 259] = [
        0, 7, 12, 28, 33, 39, 47, 57, 63, 70, 79, 90, 99, 109, 117, 121, 126, 132, 138, 143,
        147, 150, 153, 158, 162, 166, 169, 174, 179, 183, 188, 197, 201, 206, 213, 221, 223, 224, 225, 226,
        227, 228, 229, 230, 231, 232, 233, 234, 235, 236, 237, 238, 239, 240, 241, 242, 243, 244, 245, 246,
        247, 248, 249, 260, 269, 281, 292, 302, 307, 308, 309, 310, 311, 312, 313, 314, 315, 316, 317, 318,
        319, 320, 321, 322, 323, 324, 325, 326, 327, 328, 329, 330, 331, 332, 333, 342, 345, 355, 365, 374,
        379, 387, 393, 399, 408, 417, 423, 429, 440, 449, 455, 460, 468, 474, 480, 491, 500, 506, 512, 523,
        532, 538, 544, 550, 561, 570, 576, 582, 588, 599, 608, 614, 620, 624, 632, 639, 645, 654, 664, 674,
        683, 692, 697, 705, 713, 715, 721, 729, 738, 747, 759, 762, 764, 775, 784, 791, 793, 801, 812, 824,
        829, 831, 837, 849, 859, 869, 876, 882, 893, 898, 911, 925, 933, 949, 955, 961, 967, 969, 971, 977,
        983, 995, 1008, 1017, 1027, 1033, 1040, 1049, 1058, 1066, 1074, 1087, 1101, 1103, 1105, 1114, 1128, 1142, 1154, 1165,
        1176, 1187, 1193, 1202, 1208, 1214, 1225, 1234, 1240, 1246, 1257, 1262, 1268, 1274, 1285, 1291, 1299, 1309, 1314, 1320,
        1325, 1334, 1338, 1345, 1357, 1363, 1368, 1374, 1380, 1386, 1392, 1398, 1404, 1413, 1416, 1419, 1425, 1431, 1436, 1441,
        1446, 1454, 1465, 1476, 1489, 1496, 1506, 1519, 1524, 1530, 1536, 1546, 1554, 1562, 1568, 1574, 1580, 1586, 1592,
    ];
    proof {
        assert(blob@ =~= mac_blob());
        assert(offs@.map_values(|v: u16| v as int) =~= mac_offsets());
    }
    let start = offs[i] as usize;
    let end = offs[i + 1] as usize;
    proof {
        assert(offs@.map_values(|v: u16| v as int)[i as int] == offs@[i as int] as int);
        assert(offs@.map_values(|v: u16| v as int)[i + 1] == offs@[i + 1] as int);
    }
    let mut r: Vec<u8> = Vec::new();
    if !(start <= end && end <= 1592) {
        return r;
    }
    let mut k = start;
    while k < end
        invariant
            start <= k <= end <= 1592,
            blob@ == mac_blob(),
            r@ == mac_blob().subrange(start as int, k as int),
        decreases end - k,
    {
        r.push(blob[k]);
        proof {
            assert(mac_blob().subrange(start as int, k + 1) =~= mac_blob().subrange(start as int, k as int).push(mac_blob()[k as int]));
        }
        k = k + 1;
    }
    r
}

/// The name index of glyph `i` of a version 2.0 table, as written.
pub open spec fn raw_index(data: Seq<u8>, i: int) -> int {
    be16_at(data, 34 + 2 * i)
}

/// The name index of glyph `i`; one above 32767 counts as 0.
pub open spec fn name_index(data: Seq<u8>, i: int) -> int {
    if raw_index(data, i) > 32767 {
        0
    } else {
        raw_index(data, i)
    }
}

/// The largest of 257 and the first `k` name indices as written.
pub open spec fn max_index(data: Seq<u8>, k: int) -> int
    decreases k,
{
    if k <= 0 {
        257
    } else if raw_index(data, k - 1) > max_index(data, k - 1) {
        raw_index(data, k - 1)
    } else {
        max_index(data, k - 1)
    }
}

/// The number of glyphs of a version 2.0 table.
pub open spec fn v2_glyph_count(data: Seq<u8>) -> int {
    be16_at(data, 32)
}

/// The number of names a version 2.0 table adds to the Macintosh ones.
pub open spec fn v2_name_count(data: Seq<u8>) -> int {
    max_index(data, v2_glyph_count(data)) - 257
}

/// Where the added names of a version 2.0 table start.
pub open spec fn v2_names_start(data: Seq<u8>) -> int {
    34 + 2 * v2_glyph_count(data)
}

/// The Pascal string at `pos`: none where its length is 0.
pub open spec fn pascal_name(data: Seq<u8>, pos: int) -> Option<Seq<u8>> {
    if byte_at(data, pos) == 0 {
        None
    } else {
        Some(data.subrange(pos + 1, pos + 1 + byte_at(data, pos)))
    }
}

/// Where the Pascal string after the one at `pos` starts.
pub open spec fn pascal_next(data: Seq<u8>, pos: int) -> int {
    pos + 1 + byte_at(data, pos)
}

/// `k` Pascal strings from `pos`.
pub open spec fn names_from(data: Seq<u8>, pos: int, k: int) -> Seq<Option<Seq<u8>>>
    decreases k,
{
    if k <= 0 {
        Seq::empty()
    } else {
        seq![pascal_name(data, pos)] + names_from(data, pascal_next(data, pos), k - 1)
    }
}

/// Whether the bytes of `k` Pascal strings from `pos` are all there.
pub open spec fn names_fit(data: Seq<u8>, pos: int, k: int) -> bool
    decreases k,
{
    k <= 0 || ((byte_at(data, pos) == 0 || pascal_next(data, pos) <= data.len()) && names_fit(
        data,
        pascal_next(data, pos),
        k - 1,
    ))
}

/// The names added by a version 2.0 table.
pub open spec fn v2_names(data: Seq<u8>) -> Seq<Option<Seq<u8>>> {
    names_from(data, v2_names_start(data), v2_name_count(data))
}

/// The name of glyph `i` of a version 2.0 table.
pub open spec fn v2_glyph_name(data: Seq<u8>, i: int) -> Option<Seq<u8>> {
    if name_index(data, i) < 258 {
        Some(mac_glyph_name(name_index(data, i)))
    } else {
        v2_names(data)[name_index(data, i) - 258]
    }
}

/// The contents of a list of optional names.
pub open spec fn names_view(v: Seq<Option<Vec<u8>>>) -> Seq<Option<Seq<u8>>> {
    v.map_values(
        |o: Option<Vec<u8>>|
            match o {
                Some(x) => Some(x@),
                None => None,
            },
    )
}

/// A `post` table.
pub struct tt_post_table {
    pub Version: u32,
    pub italicAngle: u32,
    pub underlinePosition: i16,
    pub underlineThickness: i16,
    pub isFixedPitch: u32,
    pub minMemType42: u32,
    pub maxMemType42: u32,
    pub minMemType1: u32,
    pub maxMemType1: u32,
    pub numberOfGlyphs: u16,
    /// The name of each glyph, where it has one.
    pub glyphNamePtr: Vec<Option<Vec<u8>>>,
    /// The names that a version 2.0 table adds to the Macintosh ones.
    pub names: Vec<Option<Vec<u8>>>,
    /// The number of names in `names`.
    pub count: u16,
}

proof fn lemma_max_index(data: Seq<u8>, k: int)
    requires
        k >= 0,
    ensures
        257 <= max_index(data, k) <= 65535,
        forall|i: int| 0 <= i < k ==> raw_index(data, i) <= max_index(data, k),
    decreases k,
{
    if k > 0 {
        lemma_max_index(data, k - 1);
    }
}

/// Reads the name index of each of the `n` glyphs, and the largest of 257
/// and the indices as written.
fn read_name_indices(data: &Vec<u8>, n: u16) -> (r: (Vec<u16>, u16))
    requires
        n == v2_glyph_count(data@),
    ensures
        r.0@.len() == n,
        forall|k: int| 0 <= k < n ==> #[trigger] r.0@[k] == name_index(data@, k),
        r.1 == max_index(data@, n as int),
{
    let mut indices: Vec<u16> = Vec::new();
    let mut maxidx: u16 = 257;
    let mut i: u16 = 0;
    while i < n
        invariant
            i <= n,
            indices@.len() == i,
            257 <= maxidx,
            maxidx == max_index(data@, i as int),
            forall|k: int| 0 <= k < i ==> #[trigger] indices@[k] == name_index(data@, k),
        decreases n - i,
    {
        let mut idx = read_be16(data, 34 + 2 * (i as usize));
        if idx >= 258 {
            if idx > maxidx {
                maxidx = idx;
            }
            if idx > 32767 {
                idx = 0;
            }
        }
        indices.push(idx);
        i = i + 1;
    }
    (indices, maxidx)
}

/// Reads `count` Pascal strings from `start`; `None` where their bytes run
/// past the end of `data`.
fn read_pascal_names(data: &Vec<u8>, start: usize, count: u16) -> (r: Option<Vec<Option<Vec<u8>>>>)
    requires
        start <= 34 + 2 * 65535,
    ensures
        r is Some <==> names_fit(data@, start as int, count as int),
        r matches Some(v) ==> names_view(v@) == names_from(data@, start as int, count as int),
{
    let dlen = data.len();
    let mut names: Vec<Option<Vec<u8>>> = Vec::new();
    let mut pos: usize = start;
    let mut j: u16 = 0;
    while j < count
        invariant
            j <= count,
            dlen == data@.len(),
            start <= pos <= start + 257 * j,
            start <= 34 + 2 * 65535,
            names_view(names@) + names_from(data@, pos as int, count - j) == names_from(data@, start as int, count as int),
            names_fit(data@, start as int, count as int) == names_fit(data@, pos as int, count - j),
        decreases count - j,
    {
        let len = read_byte(data, pos) as usize;
        if len > 0 {
            if pos + 1 + len > dlen {
                return None;
            }
            let mut name: Vec<u8> = Vec::new();
            let mut k: usize = 0;
            while k < len
                invariant
                    k <= len,
                    pos + 1 + len <= dlen,
                    dlen == data@.len(),
                    name@ == data@.subrange(pos + 1, pos + 1 + k),
                decreases len - k,
            {
                name.push(data[pos + 1 + k]);
                proof {
                    assert(data@.subrange(pos + 1, pos + 1 + k + 1) =~= data@.subrange(pos + 1, pos + 1 + k).push(data@[pos + 1 + k]));
                }
                k = k + 1;
            }
            names.push(Some(name));
        } else {
            names.push(None);
        }
        proof {
            let prev = names@.drop_last();
            assert(names_view(names@) =~= names_view(prev).push(pascal_name(data@, pos as int)));
            assert(names_from(data@, pos as int, count - j) == seq![pascal_name(data@, pos as int)] + names_from(data@, pascal_next(data@, pos as int), count - j - 1));
            assert(names_view(names@) + names_from(data@, pascal_next(data@, pos as int), count - j - 1) =~= names_view(prev) + names_from(data@, pos as int, count - j));
        }
        pos = pos + 1 + len;
        j = j + 1;
    }
    proof {
        assert(names_view(names@) =~= names_from(data@, start as int, count as int));
    }
    Some(names)
}

/// The name of each glyph: a Macintosh name or one of the added ones.
fn glyph_names_of(data: &Vec<u8>, indices: &Vec<u16>, names: &Vec<Option<Vec<u8>>>) -> (r: Vec<Option<Vec<u8>>>)
    requires
        indices@.len() == v2_glyph_count(data@),
        forall|k: int| 0 <= k < indices@.len() ==> #[trigger] indices@[k] == name_index(data@, k),
        forall|k: int| 0 <= k < indices@.len() ==> raw_index(data@, k) <= v2_name_count(data@) + 257,
        names@.len() == v2_name_count(data@),
        names_view(names@) == v2_names(data@),
    ensures
        r@.len() == indices@.len(),
        forall|k: int| 0 <= k < indices@.len() ==> names_view(r@)[k] == #[trigger] v2_glyph_name(data@, k),
{
    let n = indices.len();
    let mut glyph_names: Vec<Option<Vec<u8>>> = Vec::new();
    let mut g: usize = 0;
    while g < n
        invariant
            g <= n,
            n == indices@.len(),
            indices@.len() == v2_glyph_count(data@),
            forall|k: int| 0 <= k < indices@.len() ==> #[trigger] indices@[k] == name_index(data@, k),
            forall|k: int| 0 <= k < indices@.len() ==> raw_index(data@, k) <= v2_name_count(data@) + 257,
            names@.len() == v2_name_count(data@),
            names_view(names@) == v2_names(data@),
            glyph_names@.len() == g,
            forall|k: int| 0 <= k < g ==> names_view(glyph_names@)[k] == #[trigger] v2_glyph_name(data@, k),
        decreases n - g,
    {
        let idx = indices[g];
        if idx < 258 {
            glyph_names.push(Some(mac_glyph_name_of(idx as usize)));
        } else {
            let ghost m = (idx - 258) as int;
            assert(names_view(names@)[m] == v2_names(data@)[m]);
            glyph_names.push(clone_name(&names[(idx - 258) as usize]));
        }
        proof {
            assert forall|k: int| 0 <= k < g + 1 implies names_view(glyph_names@)[k] == #[trigger] v2_glyph_name(data@, k) by {
                if k < g {
                    assert(names_view(glyph_names@)[k] == names_view(glyph_names@.drop_last())[k]);
                }
            }
        }
        g = g + 1;
    }
    glyph_names
}

/// Reads the name part of a version 2.0 table, which starts at byte 32 of
/// `data`: the glyph count, the name index of each glyph and the added
/// Pascal strings. Returns 0, or -1 where the bytes of the added names run
/// past the end of `data`.
pub fn read_v2_post_names(post: &mut tt_post_table, data: &Vec<u8>) -> (r: i32)
    ensures
        r == 0 || r == -1,
        (r == 0) == names_fit(data@, v2_names_start(data@), v2_name_count(data@)),
        r == 0 ==> {
            &&& final(post).numberOfGlyphs == v2_glyph_count(data@)
            &&& final(post).count == v2_name_count(data@)
            &&& names_view(final(post).names@) == v2_names(data@)
            &&& final(post).glyphNamePtr@.len() == v2_glyph_count(data@)
            &&& forall|i: int|
                0 <= i < v2_glyph_count(data@) ==> names_view(final(post).glyphNamePtr@)[i]
                    == #[trigger] v2_glyph_name(data@, i)
        },
        final(post).Version == old(post).Version,
        final(post).italicAngle == old(post).italicAngle,
        final(post).underlinePosition == old(post).underlinePosition,
        final(post).underlineThickness == old(post).underlineThickness,
        final(post).isFixedPitch == old(post).isFixedPitch,
        final(post).minMemType42 == old(post).minMemType42,
        final(post).maxMemType42 == old(post).maxMemType42,
        final(post).minMemType1 == old(post).minMemType1,
        final(post).maxMemType1 == old(post).maxMemType1,
{
    let n = read_be16(data, 32);
    post.numberOfGlyphs = n;
    let (indices, maxidx) = read_name_indices(data, n);
    proof {
        lemma_max_index(data@, n as int);
        lemma_names_from_len(data@, 34 + 2 * n, (maxidx - 257) as int);
    }
    let count: u16 = maxidx - 257;
    post.count = count;
    match read_pascal_names(data, 34 + 2 * (n as usize), count) {
        None => -1,
        Some(names) => {
            let glyph_names = glyph_names_of(data, &indices, &names);
            post.names = names;
            post.glyphNamePtr = glyph_names;
            0
        },
    }
}

proof fn lemma_names_from_len(data: Seq<u8>, pos: int, k: int)
    requires
        k >= 0,
    ensures
        names_from(data, pos, k).len() == k,
    decreases k,
{
    if k > 0 {
        lemma_names_from_len(data, pascal_next(data, pos), k - 1);
    }
}

fn clone_name(o: &Option<Vec<u8>>) -> (r: Option<Vec<u8>>)
    ensures
        match o {
            Some(x) => r is Some && r->0@ == x@,
            None => r is None,
        },
{
    match o {
        Some(x) => Some(x.clone()),
        None => None,
    }
}


/// The name of glyph `gid` of a table, where it has one and `gid` is below
/// `count`.
pub open spec fn name_of(t: tt_post_table, gid: int) -> Option<Seq<u8>> {
    if 0 <= gid < t.glyphNamePtr@.len() {
        names_view(t.glyphNamePtr@)[gid]
    } else {
        None
    }
}

/// Reads a `post` table from its bytes. Where the version is 2.0 and the
/// bytes of its added names run past the end of `data`, there is no table.
pub fn tt_read_post_table(data: &Vec<u8>) -> (r: Option<tt_post_table>)
    ensures
        r is None <==> (be32_at(data@, 0) == 0x20000 && !names_fit(data@, v2_names_start(data@), v2_name_count(data@))),
        r matches Some(t) ==> {
            &&& t.Version == be32_at(data@, 0)
            &&& t.italicAngle == be32_at(data@, 4)
            &&& t.underlinePosition == be16_at(data@, 8) as i16
            &&& t.underlineThickness == be16_at(data@, 10) as i16
            &&& t.isFixedPitch == be32_at(data@, 12)
            &&& t.minMemType42 == be32_at(data@, 16)
            &&& t.maxMemType42 == be32_at(data@, 20)
            &&& t.minMemType1 == be32_at(data@, 24)
            &&& t.maxMemType1 == be32_at(data@, 28)
            &&& if t.Version == 0x10000 {
                &&& t.numberOfGlyphs == 258
                &&& t.count == 0
                &&& t.names@.len() == 0
                &&& t.glyphNamePtr@.len() == 258
                &&& forall|i: int| 0 <= i < 258 ==> names_view(t.glyphNamePtr@)[i] == Some(#[trigger] mac_glyph_name(i))
            } else if t.Version == 0x20000 {
                &&& t.numberOfGlyphs == v2_glyph_count(data@)
                &&& t.count == v2_name_count(data@)
                &&& names_view(t.names@) == v2_names(data@)
                &&& t.glyphNamePtr@.len() == v2_glyph_count(data@)
                &&& forall|i: int|
                    0 <= i < v2_glyph_count(data@) ==> names_view(t.glyphNamePtr@)[i] == #[trigger] v2_glyph_name(data@, i)
            } else {
                &&& t.numberOfGlyphs == 0
                &&& t.count == 0
                &&& t.names@.len() == 0
                &&& t.glyphNamePtr@.len() == 0
            }
        },
{
    let mut post = tt_post_table {
        Version: read_be32(data, 0),
        italicAngle: read_be32(data, 4),
        underlinePosition: read_be16(data, 8) as i16,
        underlineThickness: read_be16(data, 10) as i16,
        isFixedPitch: read_be32(data, 12),
        minMemType42: read_be32(data, 16),
        maxMemType42: read_be32(data, 20),
        minMemType1: read_be32(data, 24),
        maxMemType1: read_be32(data, 28),
        numberOfGlyphs: 0,
        glyphNamePtr: Vec::new(),
        names: Vec::new(),
        count: 0,
    };
    if post.Version == 0x10000 {
        post.numberOfGlyphs = 258;
        let mut all: Vec<Option<Vec<u8>>> = Vec::new();
        let mut i: usize = 0;
        while i < 258
            invariant
                i <= 258,
                all@.len() == i,
                forall|k: int| 0 <= k < i ==> names_view(all@)[k] == Some(#[trigger] mac_glyph_name(k)),
            decreases 258 - i,
        {
            all.push(Some(mac_glyph_name_of(i)));
            proof {
                assert forall|k: int| 0 <= k < i + 1 implies names_view(all@)[k] == Some(#[trigger] mac_glyph_name(k)) by {
                    if k < i {
                        assert(names_view(all@)[k] == names_view(all@.drop_last())[k]);
                    }
                }
            }
            i = i + 1;
        }
        post.glyphNamePtr = all;
        Some(post)
    } else if post.Version == 0x20000 {
        if read_v2_post_names(&mut post, data) < 0 {
            tt_release_post_table(post);
            None
        } else {
            Some(post)
        }
    } else {
        Some(post)
    }
}

/// The glyphs that a 16-bit glyph id can name: those of the table, at most
/// 65536.
pub open spec fn searchable(t: tt_post_table) -> int {
    if t.glyphNamePtr@.len() < 65536 {
        t.glyphNamePtr@.len() as int
    } else {
        65536
    }
}

/// The first glyph whose name is `glyphname`, or 0 where there is none.
pub fn tt_lookup_post_table(post: &tt_post_table, glyphname: &[u8]) -> (r: u16)
    requires
        glyphname@.len() > 0,
    ensures
        r == 0 || r < searchable(*post),
        forall|g: int| 0 <= g < r ==> name_of(*post, g) != Some(glyphname@),
        (r == 0 && name_of(*post, 0) != Some(glyphname@)) ==> forall|g: int| 0 <= g < searchable(*post) ==> name_of(*post, g) != Some(glyphname@),
        r != 0 ==> name_of(*post, r as int) == Some(glyphname@),
{
    let n = post.glyphNamePtr.len();
    let mut gid: usize = 0;
    while gid < n && gid < 65536
        invariant
            gid <= n,
            gid <= 65536,
            n == post.glyphNamePtr@.len(),
            forall|g: int| 0 <= g < gid ==> name_of(*post, g) != Some(glyphname@),
        decreases n - gid,
    {
        match &post.glyphNamePtr[gid] {
            Some(name) => {
                if bytes_equal(name.as_slice(), glyphname) {
                    return gid as u16;
                }
            },
            None => {},
        }
        gid = gid + 1;
    }
    0
}

fn bytes_equal(a: &[u8], b: &[u8]) -> (r: bool)
    ensures
        r == (a@ == b@),
{
    if a.len() != b.len() {
        return false;
    }
    let mut i: usize = 0;
    while i < a.len()
        invariant
            i <= a@.len(),
            a@.len() == b@.len(),
            forall|k: int| 0 <= k < i ==> a@[k] == b@[k],
        decreases a@.len() - i,
    {
        if a[i] != b[i] {
            return false;
        }
        i = i + 1;
    }
    proof {
        assert(a@ =~= b@);
    }
    true
}

/// The name of glyph `gid`, or the empty name where it has none (or the
/// table has no glyph `gid`).
pub fn tt_get_glyphname(post: &tt_post_table, gid: u16) -> (r: Vec<u8>)
    ensures
        r@ == match name_of(*post, gid as int) {
            Some(x) => x,
            None => Seq::empty(),
        },
{
    if (gid as usize) < post.glyphNamePtr.len() {
        match &post.glyphNamePtr[gid as usize] {
            Some(name) => {
                return name.clone();
            },
            None => {},
        }
    }
    Vec::new()
}

/// Releases a table.
pub fn tt_release_post_table(post: tt_post_table) {
}

} // verus!
