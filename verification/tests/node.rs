use tectonic::node::{LRMode, MathNode, TextNode, ND};
use tectonic::node_mem::{Box, GlueSpec, Mem, NativeWord, OpenFile};

#[test]
fn node_codes_round_trip() {
    assert_eq!(TextNode::n(0), Some(TextNode::HList));
    assert_eq!(TextNode::n(8), Some(TextNode::WhatsIt));
    assert_eq!(TextNode::n(40), Some(TextNode::MarginKern));
    assert_eq!(TextNode::n(17), None);
    assert_eq!(TextNode::from(11).u16(), 11);
    assert_eq!(TextNode::Glue.u16(), 10);
}

#[test]
fn nd_tells_list_nodes_noads_and_unknown_codes_apart() {
    assert_eq!(ND::from(2), ND::Text(TextNode::Rule));
    assert_eq!(ND::from(40), ND::Text(TextNode::MarginKern));
    assert!(matches!(ND::from(16), ND::Math(_)));
    assert_eq!(ND::from(99), ND::Unknown(99));
    assert_eq!(ND::from(99).u16(), 99);
    assert_eq!(ND::from(20).u16(), 20);
    assert_eq!(ND::from_text(TextNode::Kern).u16(), 11);
    let m = MathNode::from(16);
    assert_eq!(ND::from_math(m).u16(), 16);
}

#[test]
fn memory_words_keep_what_is_written() {
    let mut mem = Mem::new(8);
    assert_eq!(mem.len(), 8);
    mem.set_b32_s0(3, -7);
    mem.set_b32_s1(3, 123456);
    assert_eq!(mem.b32_s0(3), -7);
    assert_eq!(mem.b32_s1(3), 123456);
    mem.set_b16(4, 1, 0xbeef);
    mem.set_b16(4, 0, 0x1234);
    assert_eq!(mem.b16(4, 1), 0xbeef);
    assert_eq!(mem.b16(4, 0), 0x1234);
    assert_eq!(mem.b16(4, 2), 0);
}

#[test]
fn node_fields_are_read_back() {
    let mut mem = Mem::new(8);
    let mut f = OpenFile(2);
    f.set_id(&mut mem, 17);
    assert_eq!(f.id(&mem), 17);
    assert_eq!(f.ptr(), 2);
}

#[test]
fn box_direction_and_glue_reference_counts() {
    let mut mem = Mem::new(8);
    let mut b = Box::from(1);
    b.set_lr_mode(&mut mem, LRMode::Reversed);
    assert_eq!(b.lr_mode(&mem), LRMode::Reversed);
    b.set_lr_mode(&mut mem, LRMode::DList);
    assert_eq!(b.lr_mode(&mem), LRMode::DList);
    assert_eq!(mem.b16(1, 0), 2);
    let mut g = GlueSpec(3);
    g.set_rc(&mut mem, 5);
    g.rc_inc(&mut mem);
    assert_eq!(g.rc(&mem), 6);
    g.rc_dec(&mut mem);
    g.rc_dec(&mut mem);
    assert_eq!(g.rc(&mem), 4);
    g.rc_zero(&mut mem);
    assert_eq!(g.rc(&mem), 0);
}

#[test]
fn native_word_text_is_read_four_units_to_a_word() {
    let mut mem = Mem::new(20);
    let mut nw = NativeWord::from(2);
    nw.set_length(&mut mem, 5);
    // the text starts at word 2 + 6 = 8
    for (i, u) in [0x48u16, 0x69, 0x21, 0x3f, 0x263a].iter().enumerate() {
        mem.set_b16(8 + i / 4, (i % 4) as u8, *u);
    }
    assert_eq!(nw.text(&mem), vec![0x48, 0x69, 0x21, 0x3f, 0x263a]);
}
