use tectonic::numbers::{get_positive_quad, get_unsigned_num, get_unsigned_triple, skip_bytes, sqxfw, ByteReader};

#[test]
fn reads_big_endian_unsigned_values() {
    let mut r = ByteReader::new(vec![0x12, 0x34, 0x56, 0x78, 0x9a, 0xbc, 0xde, 0xf0, 0x01]);
    assert_eq!(r.get_u16(), 0x1234);
    assert_eq!(r.get_u16(), 0x5678);
    assert_eq!(r.get_u32(), 0x9abc_def0);
    assert_eq!(r.get_u8(), 1);
    assert_eq!(r.remaining(), 0);
}

#[test]
fn reads_signed_values() {
    let mut r = ByteReader::new(vec![0xff, 0xfe, 0x80, 0xff, 0xff, 0xff, 0xff, 0x7f, 0xff]);
    assert_eq!(r.get_i16(), -2);
    assert_eq!(r.get_i8(), -128);
    assert_eq!(r.get_i32(), -1);
    assert_eq!(r.get_i16(), 0x7fff);
}

#[test]
fn reads_triples_and_sized_numbers() {
    let mut r = ByteReader::new(vec![1, 2, 3, 4, 5, 6, 7, 8, 9, 10, 11, 12, 13]);
    assert_eq!(get_unsigned_triple(&mut r), 0x010203);
    assert_eq!(get_unsigned_num(&mut r, 0), 4);
    assert_eq!(get_unsigned_num(&mut r, 1), 0x0506);
    assert_eq!(get_unsigned_num(&mut r, 2), 0x070809);
    assert_eq!(get_unsigned_num(&mut r, 7), 10);
    assert_eq!(r.remaining(), 3);
}

#[test]
fn unsigned_num_keeps_the_pattern_of_a_large_quad() {
    let mut r = ByteReader::new(vec![0xff, 0x00, 0x00, 0x01]);
    assert_eq!(get_unsigned_num(&mut r, 3), 0xff00_0001);
}

#[test]
fn skip_bytes_moves_on() {
    let mut r = ByteReader::new(vec![1, 2, 3, 4, 5]);
    skip_bytes(3, &mut r);
    assert_eq!(r.remaining(), 2);
    assert_eq!(r.get_u8(), 4);
}

#[test]
fn positive_quad_is_read() {
    let mut r = ByteReader::new(vec![0x00, 0x01, 0x00, 0x00]);
    assert_eq!(get_positive_quad(&mut r, "TFM", "size"), 65536);
}

#[test]
fn sqxfw_multiplies_by_a_fixword() {
    // 1.0 as a fixword is 2^20.
    assert_eq!(sqxfw(3, 1 << 20), 3);
    assert_eq!(sqxfw(-3, 1 << 20), -3);
    assert_eq!(sqxfw(131072, 1 << 20), 131072);
    // One half.
    assert_eq!(sqxfw(1000, 1 << 19), 500);
    assert_eq!(sqxfw(1000, -(1 << 19)), -500);
    assert_eq!(sqxfw(0, 12345), 0);
}

#[test]
fn sqxfw_is_symmetric_and_odd() {
    let pairs: [(i32, i32); 4] = [(5, 3 << 20), (123456, 654321), (-77777, 1 << 19), (1 << 20, -999)];
    for (a, b) in pairs {
        assert_eq!(sqxfw(a, b), sqxfw(b, a));
        assert_eq!(sqxfw(-a, b), -sqxfw(a, b));
    }
    // rounded product: 123456 * 654321 / 2^20 = 77037.9...
    assert_eq!(sqxfw(123456, 654321), 77038);
}
