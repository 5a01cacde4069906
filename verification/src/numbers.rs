//! Big-endian numbers as they are stored in DVI, PK, TFM, VF, TrueType and
//! OpenType files.
//!
//! When reading numbers from binary files 1, 2, or 3 bytes are interpreted as
//! either signed or unsigned. Four bytes from DVI, PK, TFM, or VF files always
//! yield a signed 32-bit integer, but some of them must not be negative. Four
//! byte numbers from JPEG2000, OpenType, or TrueType files are mostly unsigned
//! and occasionally signed.
use vstd::prelude::*;

verus! {

/// A 2^16-scaled fixed-point number, as used for TFM widths.
pub type fixword = i32;

/// The unsigned value of a big-endian byte sequence.
pub open spec fn be_uint(s: Seq<u8>) -> nat
    decreases s.len(),
{
    if s.len() == 0 {
        0
    } else {
        be_uint(s.drop_last()) * 256 + s.last() as nat
    }
}

/// The two's-complement value of a big-endian byte sequence of `s.len()` bytes.
pub open spec fn be_int(s: Seq<u8>) -> int {
    let u = be_uint(s) as int;
    let half = vstd::arithmetic::power2::pow2((8 * s.len() - 1) as nat) as int;
    if s.len() > 0 && u >= half {
        u - 2 * half
    } else {
        u
    }
}

pub proof fn lemma_be_uint_1(s: Seq<u8>)
    requires
        s.len() == 1,
    ensures
        be_uint(s) == s[0] as nat,
{
    assert(s.drop_last().len() == 0);
    assert(be_uint(s.drop_last()) == 0);
    assert(s.last() == s[0]);
}

pub proof fn lemma_be_uint_2(s: Seq<u8>)
    requires
        s.len() == 2,
    ensures
        be_uint(s) == s[0] * 256 + s[1],
{
    lemma_be_uint_1(s.drop_last());
    assert(s.drop_last()[0] == s[0]);
}

pub proof fn lemma_be_uint_3(s: Seq<u8>)
    requires
        s.len() == 3,
    ensures
        be_uint(s) == s[0] * 65536 + s[1] * 256 + s[2],
{
    lemma_be_uint_2(s.drop_last());
    assert(s.drop_last()[0] == s[0] && s.drop_last()[1] == s[1]);
}

pub proof fn lemma_be_uint_4(s: Seq<u8>)
    requires
        s.len() == 4,
    ensures
        be_uint(s) == s[0] * 16777216 + s[1] * 65536 + s[2] * 256 + s[3],
{
    lemma_be_uint_3(s.drop_last());
    assert(s.drop_last()[0] == s[0] && s.drop_last()[1] == s[1] && s.drop_last()[2] == s[2]);
}

/// A cursor over the bytes of a file that has been read into memory.
pub struct ByteReader {
    data: Vec<u8>,
    pos: usize,
}

impl ByteReader {
    /// All the bytes of the file.
    pub closed spec fn bytes(&self) -> Seq<u8> {
        self.data@
    }

    /// How many bytes have been consumed.
    pub closed spec fn position(&self) -> nat {
        self.pos as nat
    }

    #[verifier::type_invariant]
    closed spec fn wf(&self) -> bool {
        self.pos <= self.data.len()
    }

    /// The bytes not yet consumed.
    pub open spec fn rest(&self) -> Seq<u8> {
        self.bytes().subrange(self.position() as int, self.bytes().len() as int)
    }

    /// The next `n` bytes to be consumed.
    pub open spec fn next(&self, n: nat) -> Seq<u8> {
        self.bytes().subrange(self.position() as int, (self.position() + n) as int)
    }

    pub fn new(data: Vec<u8>) -> (r: ByteReader)
        ensures
            r.bytes() == data@,
            r.position() == 0,
    {
        ByteReader { data, pos: 0 }
    }

    /// The number of bytes not yet consumed.
    pub fn remaining(&self) -> (r: usize)
        ensures
            r == self.bytes().len() - self.position(),
    {
        proof {
            use_type_invariant(self);
        }
        self.data.len() - self.pos
    }

    /// Consumes one byte.
    pub fn get_u8(&mut self) -> (r: u8)
        requires
            old(self).bytes().len() - old(self).position() >= 1,
        ensures
            r == old(self).bytes()[old(self).position() as int],
            final(self).bytes() == old(self).bytes(),
            final(self).position() == old(self).position() + 1,
    {
        proof {
            use_type_invariant(&*self);
        }
        let b = self.data[self.pos];
        self.pos = self.pos + 1;
        b
    }

    /// Consumes one byte as a signed number.
    pub fn get_i8(&mut self) -> (r: i8)
        requires
            old(self).bytes().len() - old(self).position() >= 1,
        ensures
            r == be_int(old(self).next(1)),
            final(self).bytes() == old(self).bytes(),
            final(self).position() == old(self).position() + 1,
    {
        let ghost s = self.next(1);
        let b = self.get_u8();
        proof {
            lemma_be_uint_1(s);
            vstd::arithmetic::power2::lemma2_to64();
        }
        if b > 127 {
            (b as i16 - 256) as i8
        } else {
            b as i8
        }
    }

    /// Consumes two bytes as a big-endian unsigned number.
    pub fn get_u16(&mut self) -> (r: u16)
        requires
            old(self).bytes().len() - old(self).position() >= 2,
        ensures
            r == be_uint(old(self).next(2)),
            final(self).bytes() == old(self).bytes(),
            final(self).position() == old(self).position() + 2,
    {
        let ghost s = self.next(2);
        let b0 = self.get_u8();
        let b1 = self.get_u8();
        proof {
            lemma_be_uint_2(s);
        }
        (b0 as u16) * 256 + (b1 as u16)
    }

    /// Consumes two bytes as a big-endian two's-complement number.
    pub fn get_i16(&mut self) -> (r: i16)
        requires
            old(self).bytes().len() - old(self).position() >= 2,
        ensures
            r == be_int(old(self).next(2)),
            final(self).bytes() == old(self).bytes(),
            final(self).position() == old(self).position() + 2,
    {
        let ghost s = self.next(2);
        let u = self.get_u16();
        proof {
            vstd::arithmetic::power2::lemma2_to64();
        }
        if u > 32767 {
            (u as i32 - 65536) as i16
        } else {
            u as i16
        }
    }

    /// Consumes four bytes as a big-endian unsigned number.
    pub fn get_u32(&mut self) -> (r: u32)
        requires
            old(self).bytes().len() - old(self).position() >= 4,
        ensures
            r == be_uint(old(self).next(4)),
            final(self).bytes() == old(self).bytes(),
            final(self).position() == old(self).position() + 4,
    {
        let ghost s = self.next(4);
        let b0 = self.get_u8();
        let b1 = self.get_u8();
        let b2 = self.get_u8();
        let b3 = self.get_u8();
        proof {
            lemma_be_uint_4(s);
        }
        (b0 as u32) * 16777216 + (b1 as u32) * 65536 + (b2 as u32) * 256 + (b3 as u32)
    }

    /// Consumes four bytes as a big-endian two's-complement number.
    pub fn get_i32(&mut self) -> (r: i32)
        requires
            old(self).bytes().len() - old(self).position() >= 4,
        ensures
            r == be_int(old(self).next(4)),
            final(self).bytes() == old(self).bytes(),
            final(self).position() == old(self).position() + 4,
    {
        let u = self.get_u32();
        proof {
            vstd::arithmetic::power2::lemma2_to64();
        }
        if u > 2147483647 {
            (u as i64 - 4294967296) as i32
        } else {
            u as i32
        }
    }
}

/// Skips `n` bytes.
pub fn skip_bytes(n: u32, file: &mut ByteReader)
    requires
        old(file).bytes().len() - old(file).position() >= n,
    ensures
        final(file).bytes() == old(file).bytes(),
        final(file).position() == old(file).position() + n,
{
    let mut i: u32 = 0;
    while i < n
        invariant
            i <= n,
            file.bytes() == old(file).bytes(),
            file.position() == old(file).position() + i,
            old(file).bytes().len() - old(file).position() >= n,
        decreases n - i,
    {
        file.get_u8();
        i = i + 1;
    }
}

/// Reads three bytes as a big-endian unsigned number.
pub fn get_unsigned_triple(file: &mut ByteReader) -> (r: u32)
    requires
        old(file).bytes().len() - old(file).position() >= 3,
    ensures
        r == be_uint(old(file).next(3)),
        final(file).bytes() == old(file).bytes(),
        final(file).position() == old(file).position() + 3,
{
    let ghost s = file.next(3);
    let b0 = file.get_u8();
    let b1 = file.get_u8();
    let b2 = file.get_u8();
    proof {
        lemma_be_uint_3(s);
    }
    (b0 as u32) * 65536 + (b1 as u32) * 256 + (b2 as u32)
}

/// How many bytes `get_unsigned_num` reads for a given `num`.
pub open spec fn unsigned_num_width(num: u8) -> nat {
    if num <= 3 {
        (num + 1) as nat
    } else {
        1
    }
}

/// Reads `num + 1` bytes (one byte where `num` is above 3) as a big-endian
/// unsigned number. A four-byte number whose top byte has its high bit set is
/// kept as its 32-bit pattern.
pub fn get_unsigned_num(file: &mut ByteReader, num: u8) -> (r: u32)
    requires
        old(file).bytes().len() - old(file).position() >= unsigned_num_width(num),
    ensures
        r == be_uint(old(file).next(unsigned_num_width(num))),
        final(file).bytes() == old(file).bytes(),
        final(file).position() == old(file).position() + unsigned_num_width(num),
{
    match num {
        3 => file.get_u32(),
        2 => get_unsigned_triple(file),
        1 => file.get_u16() as u32,
        _ => {
            let ghost s = file.next(1);
            let b = file.get_u8();
            proof {
                lemma_be_uint_1(s);
            }
            b as u32
        },
    }
}

/// Reads a signed quad that must be positive; `type_0` and `name` describe
/// the quantity for the caller's message when it is not.
pub fn get_positive_quad(file: &mut ByteReader, type_0: &str, name: &str) -> (r: u32)
    requires
        old(file).bytes().len() - old(file).position() >= 4,
        be_int(old(file).next(4)) >= 0,
    ensures
        r == be_int(old(file).next(4)),
        final(file).bytes() == old(file).bytes(),
        final(file).position() == old(file).position() + 4,
{
    let val = file.get_i32();
    val as u32
}

/// The fixed-point product of two non-negative magnitudes at a scale of
/// 2^-20, rounded half up, as a 32-bit pattern.
pub open spec fn rounded_product(x: int, y: int) -> int {
    ((x * y + 524288) / 1048576) % 4294967296
}

/// What the 16-bit halves of the factors give: the partial products
/// combined at a scale of 2^-20 with a rounding bias of 8/16 on the lowest
/// part.
spec fn halves_product(x: int, y: int) -> int {
    let a = x / 65536;
    let b = x % 65536;
    let c = y / 65536;
    let d = y % 65536;
    let e = (b * d) / 65536;
    let f = (a * d) / 65536;
    let g = (a * d) % 65536;
    let h = (b * c) / 65536;
    let i = (b * c) % 65536;
    let j = (a * c) / 65536;
    let k = (a * c) % 65536;
    ((e + g + i + 8) / 16 + (f + h + k) * 4096 + j * 268435456) % 4294967296
}

/// Combining the halves gives the rounded product.
proof fn lemma_halves_product(x: int, y: int)
    requires
        0 <= x,
        0 <= y,
    ensures
        halves_product(x, y) == rounded_product(x, y),
{
    let a = x / 65536;
    let b = x % 65536;
    let c = y / 65536;
    let d = y % 65536;
    vstd::arithmetic::div_mod::lemma_fundamental_div_mod(x, 65536);
    vstd::arithmetic::div_mod::lemma_fundamental_div_mod(y, 65536);
    assert(0 <= a && 0 <= c);
    assert(0 <= b * d && 0 <= a * d && 0 <= b * c && 0 <= a * c) by (nonlinear_arith)
        requires
            0 <= a,
            0 <= b,
            0 <= c,
            0 <= d,
    ;
    let bd = b * d;
    let ad = a * d;
    let bc = b * c;
    let ac = a * c;
    let e = bd / 65536;
    let r0 = bd % 65536;
    let f = ad / 65536;
    let g = ad % 65536;
    let h = bc / 65536;
    let i = bc % 65536;
    let j = ac / 65536;
    let k = ac % 65536;
    vstd::arithmetic::div_mod::lemma_fundamental_div_mod(bd, 65536);
    vstd::arithmetic::div_mod::lemma_fundamental_div_mod(ad, 65536);
    vstd::arithmetic::div_mod::lemma_fundamental_div_mod(bc, 65536);
    vstd::arithmetic::div_mod::lemma_fundamental_div_mod(ac, 65536);
    let t = e + g + i + 8;
    let q = t / 16;
    let sr = t % 16;
    vstd::arithmetic::div_mod::lemma_fundamental_div_mod(t, 16);
    let whole = q + (f + h + k) * 4096 + j * 268435456;
    let rest = 65536 * sr + r0;
    assert(x * y + 524288 == 1048576 * whole + rest) by (nonlinear_arith)
        requires
            x == 65536 * a + b,
            y == 65536 * c + d,
            bd == b * d,
            ad == a * d,
            bc == b * c,
            ac == a * c,
            bd == 65536 * e + r0,
            ad == 65536 * f + g,
            bc == 65536 * h + i,
            ac == 65536 * j + k,
            t == e + g + i + 8,
            t == 16 * q + sr,
            whole == q + (f + h + k) * 4096 + j * 268435456,
            rest == 65536 * sr + r0,
    ;
    assert(0 <= rest < 1048576);
    vstd::arithmetic::div_mod::lemma_fundamental_div_mod_converse(x * y + 524288, 1048576, whole, rest);
}

/// A 32-bit pattern read as a two's-complement number.
pub open spec fn as_signed32(v: int) -> int {
    if v >= 2147483648 {
        v - 4294967296
    } else {
        v
    }
}

pub open spec fn iabs(v: int) -> int {
    if v < 0 {
        -v
    } else {
        v
    }
}

/// The result of `sqxfw`: the rounded product of the magnitudes (read as a
/// signed 32-bit number), negated when exactly one factor is negative.
pub open spec fn sqxfw_spec(sq: int, fw: int) -> int {
    let m = as_signed32(rounded_product(iabs(sq), iabs(fw)));
    if (sq < 0) != (fw < 0) {
        -m
    } else {
        m
    }
}

/// The product of a scaled quantity and a fixword does not depend on the
/// order of the factors.
pub proof fn law_sqxfw_symmetric(sq: int, fw: int)
    ensures
        sqxfw_spec(sq, fw) == sqxfw_spec(fw, sq),
{
    assert(iabs(sq) * iabs(fw) == iabs(fw) * iabs(sq)) by (nonlinear_arith);
}

/// Negating one factor negates the product.
pub proof fn law_sqxfw_odd(sq: int, fw: int)
    ensures
        sqxfw_spec(-sq, fw) == -sqxfw_spec(sq, fw),
{
    if sq == 0 {
        assert(iabs(sq) * iabs(fw) == 0) by (nonlinear_arith)
            requires
                sq == 0,
        ;
    }
}

/// Multiplies a scaled quantity by a fixword (a 2^-20 fixed-point product,
/// rounded).
pub fn sqxfw(sq: i32, fw: fixword) -> (r: i32)
    requires
        sq != i32::MIN,
        fw != i32::MIN,
        sqxfw_spec(sq as int, fw as int) != 2147483648,
    ensures
        r == sqxfw_spec(sq as int, fw as int),
{
    proof {
        lemma_halves_product(iabs(sq as int), iabs(fw as int));
    }
    let mut sign: i32 = 1;
    let mut sq = sq;
    let mut fw = fw;
    /* Make positive. */
    if sq < 0 {
        sign = -sign;
        sq = -sq;
    }
    if fw < 0 {
        sign = -sign;
        fw = -fw;
    }
    let x = sq as u32;
    let y = fw as u32;
    let a = x / 65536;
    let b = x % 65536;
    let c = y / 65536;
    let d = y % 65536;
    proof {
        assert(a <= 32767);
        assert(c <= 32767);
        assert(b * d <= 65535 * 65535) by (nonlinear_arith)
            requires
                b <= 65535,
                d <= 65535,
        ;
        assert(a * d <= 32767 * 65535) by (nonlinear_arith)
            requires
                a <= 32767,
                d <= 65535,
        ;
        assert(b * c <= 65535 * 32767) by (nonlinear_arith)
            requires
                b <= 65535,
                c <= 32767,
        ;
        assert(a * c <= 32767 * 32767) by (nonlinear_arith)
            requires
                a <= 32767,
                c <= 32767,
        ;
    }
    let ad = a * d;
    let bd = b * d;
    let bc = b * c;
    let ac = a * c;
    let e = bd / 65536;
    let f = ad / 65536;
    let g = ad % 65536;
    let h = bc / 65536;
    let i = bc % 65536;
    let j = ac / 65536;
    let k = ac % 65536;
    let sum: u64 = ((e + g + i + 8) / 16) as u64 + ((f + h + k) as u64) * 4096 + (j as u64)
        * 268435456;
    let pattern: u64 = sum % 4294967296;
    let m: i32 = if pattern >= 2147483648 {
        (pattern as i64 - 4294967296) as i32
    } else {
        pattern as i32
    };
    if sign > 0 {
        m
    } else {
        -m
    }
}

} // verus!
