use tectonic::tt_glyf::{
    find_empty_slot, glyf_cmp, sort_glyphs_by_gid, tt_add_glyph, tt_build_finish, tt_build_glyph_tables,
    tt_build_init, tt_find_glyph, tt_get_index, tt_set_default_width, tt_glyph_desc,
};

fn desc(gid: u16, advw: u16) -> tt_glyph_desc {
    tt_glyph_desc {
        gid,
        ogid: gid,
        advw,
        advh: 0,
        lsb: 0,
        tsb: 0,
        llx: 0,
        lly: 0,
        urx: 0,
        ury: 0,
        length: 0,
        data: Vec::new(),
    }
}

#[test]
fn init_keeps_the_notdef_glyph() {
    let g = tt_build_init();
    assert_eq!(g.num_glyphs, 1);
    assert_eq!(g.max_glyphs, 256);
    assert_eq!(g.last_gid, 0);
    assert_eq!(g.emsize, 1);
    assert_eq!(g.gd.len(), 1);
    assert_eq!(g.gd[0].gid, 0);
    assert_eq!(g.gd[0].ogid, 0);
    assert_eq!(find_empty_slot(&g), 1);
}

#[test]
fn added_glyph_is_found_again() {
    let mut g = tt_build_init();
    assert_eq!(tt_add_glyph(&mut g, 37, 5), 5);
    assert_eq!(g.num_glyphs, 2);
    assert_eq!(g.last_gid, 5);
    assert_eq!(tt_find_glyph(&g, 37), 5);
    assert_eq!(tt_get_index(&g, 5), 1);
    // Unknown glyphs give 0.
    assert_eq!(tt_find_glyph(&g, 38), 0);
    assert_eq!(tt_get_index(&g, 6), 0);
    assert_eq!(find_empty_slot(&g), 1);
}

#[test]
fn taken_slot_adds_nothing() {
    let mut g = tt_build_init();
    tt_add_glyph(&mut g, 10, 3);
    assert_eq!(tt_add_glyph(&mut g, 11, 3), 3);
    assert_eq!(g.num_glyphs, 2);
    assert_eq!(tt_find_glyph(&g, 11), 0);
    assert_eq!(tt_find_glyph(&g, 10), 3);
}

#[test]
fn empty_slot_is_the_lowest_free_id() {
    let mut g = tt_build_init();
    tt_add_glyph(&mut g, 1, 1);
    tt_add_glyph(&mut g, 2, 2);
    tt_add_glyph(&mut g, 4, 4);
    assert_eq!(find_empty_slot(&g), 3);
}

#[test]
fn glyf_cmp_orders_by_new_id() {
    assert_eq!(glyf_cmp(&desc(1, 0), &desc(2, 0)), -1);
    assert_eq!(glyf_cmp(&desc(2, 0), &desc(1, 0)), 1);
    assert_eq!(glyf_cmp(&desc(7, 0), &desc(7, 9)), 0);
}

#[test]
fn sorting_orders_glyphs_by_new_id() {
    let mut g = tt_build_init();
    tt_add_glyph(&mut g, 30, 9);
    tt_add_glyph(&mut g, 10, 2);
    tt_add_glyph(&mut g, 20, 5);
    sort_glyphs_by_gid(&mut g);
    let gids: Vec<u16> = g.gd.iter().map(|d| d.gid).collect();
    let ogids: Vec<u16> = g.gd.iter().map(|d| d.ogid).collect();
    assert_eq!(gids, vec![0, 2, 5, 9]);
    assert_eq!(ogids, vec![0, 10, 20, 30]);
}

#[test]
fn default_width_is_the_most_frequent_one() {
    let mut g = tt_build_init();
    g.emsize = 1000;
    g.gd = vec![desc(0, 500), desc(1, 600), desc(2, 600), desc(3, 500), desc(4, 600), desc(5, 2000)];
    g.num_glyphs = 6;
    tt_set_default_width(&mut g);
    assert_eq!(g.dw, 600);
}

#[test]
fn default_width_ties_go_to_the_smaller_width() {
    let mut g = tt_build_init();
    g.emsize = 1000;
    g.gd = vec![desc(0, 700), desc(1, 300), desc(2, 700), desc(3, 300)];
    g.num_glyphs = 4;
    tt_set_default_width(&mut g);
    assert_eq!(g.dw, 300);
}

#[test]
fn glyph_tables_are_built() {
    let mut g = tt_build_init();
    tt_add_glyph(&mut g, 5, 2);
    g.gd[0].advw = 500;
    g.gd[0].lsb = 10;
    g.gd[0].data = vec![1, 2, 3];
    g.gd[0].length = 3;
    g.gd[1].advw = 600;
    g.gd[1].lsb = 20;
    g.gd[1].data = vec![9, 9, 9, 9, 9];
    g.gd[1].length = 5;
    let t = tt_build_glyph_tables(&mut g);
    assert_eq!(t.num_hmetrics, 2);
    assert_eq!(t.index_to_loc_format, 0);
    assert_eq!(t.glyf, vec![1, 2, 3, 0, 9, 9, 9, 9, 9, 0, 0, 0]);
    assert_eq!(t.hmtx, vec![1, 244, 0, 10, 2, 88, 0, 0, 0, 20]);
    assert_eq!(t.loca, vec![0, 0, 0, 2, 0, 2, 0, 6]);
    // The glyph programs are released.
    assert!(g.gd.iter().all(|d| d.length == 0 && d.data.is_empty()));
    tt_build_finish(g);
}

#[test]
fn negative_side_bearings_are_written_as_patterns() {
    let mut g = tt_build_init();
    g.gd[0].advw = 100;
    g.gd[0].lsb = -2;
    let t = tt_build_glyph_tables(&mut g);
    assert_eq!(t.num_hmetrics, 1);
    assert_eq!(t.hmtx, vec![0, 100, 0xff, 0xfe]);
    assert_eq!(t.loca, vec![0, 0, 0, 0]);
    assert!(t.glyf.is_empty());
}
