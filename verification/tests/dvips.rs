use tectonic::dvips::{
    parse_filename, skip_white, spc_dvips_check_special, spc_dvips_setup_handler, spc_handler_ps_literal, PsLiteralState,
    PsPosition,
};

#[test]
fn white_space_is_skipped() {
    assert_eq!(skip_white(b"  \tx", 0), 3);
    assert_eq!(skip_white(b"abc", 1), 1);
    assert_eq!(skip_white(b"   ", 0), 3);
}

#[test]
fn dvips_specials_are_recognized() {
    assert!(spc_dvips_check_special(b"header=foo.pro"));
    assert!(spc_dvips_check_special(b"  PSfile=a.eps"));
    assert!(spc_dvips_check_special(b"ps: plotfile x.ps"));
    assert!(spc_dvips_check_special(b"\" 0 0 moveto"));
    assert!(!spc_dvips_check_special(b"pdf:image x.pdf"));
    assert!(!spc_dvips_check_special(b""));
}

#[test]
fn setup_handler_finds_the_key() {
    assert_eq!(spc_dvips_setup_handler(b"PSfile=foo.eps"), Some((1, 6)));
    assert_eq!(spc_dvips_setup_handler(b"  header=x"), Some((0, 8)));
    assert_eq!(spc_dvips_setup_handler(b"ps: plotfile foo"), Some((3, 13)));
    assert_eq!(spc_dvips_setup_handler(b"ps:  1 2 3"), Some((6, 5)));
    assert_eq!(spc_dvips_setup_handler(b"\" newpath"), Some((9, 2)));
    assert_eq!(spc_dvips_setup_handler(b"nothing here"), None);
    assert_eq!(spc_dvips_setup_handler(b"=x"), None);
}

#[test]
fn file_names_are_parsed() {
    assert_eq!(parse_filename(b"\"a b.eps\" rest", 0), Some((1, 7, 9)));
    assert_eq!(parse_filename(b"'x.ps'", 0), Some((1, 4, 6)));
    assert_eq!(parse_filename(b"foo.eps llx=0", 0), Some((0, 7, 7)));
    assert_eq!(parse_filename(b"x= y", 2), None);
}

#[test]
fn ps_literal_blocks() {
    let mut st = PsLiteralState { block_pending: 0, position_set: false };
    assert_eq!(spc_handler_ps_literal(&mut st, b":[end] x"), Err(()));
    assert_eq!(st, PsLiteralState { block_pending: 0, position_set: false });
    assert_eq!(spc_handler_ps_literal(&mut st, b":  gsave"), Ok((PsPosition::Current, 3)));
    assert_eq!(spc_handler_ps_literal(&mut st, b":[begin] 1 0 moveto"), Ok((PsPosition::CurrentMadePending, 9)));
    assert_eq!(st, PsLiteralState { block_pending: 1, position_set: true });
    assert_eq!(spc_handler_ps_literal(&mut st, b": stroke"), Ok((PsPosition::Pending, 2)));
    assert_eq!(spc_handler_ps_literal(&mut st, b":[end]"), Ok((PsPosition::Pending, 6)));
    assert_eq!(st, PsLiteralState { block_pending: 0, position_set: false });
    assert_eq!(spc_handler_ps_literal(&mut st, b" newpath"), Ok((PsPosition::CurrentMadePending, 1)));
    assert_eq!(st, PsLiteralState { block_pending: 0, position_set: true });
}
