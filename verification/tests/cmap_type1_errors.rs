use tectonic::cmap_write::{block_count, mapDef, sputx};
use tectonic::type1::{font_flags, is_basefont, pdf_font_open_type1, Type1File, Type1OpenError};
use tectonic::xetex_errors::{
    confusion_is_internal, error, error_message_selector, post_error_interaction, ErrorOutcome, ErrorState,
    InteractionMode, TTHistory, LOG_ONLY, NO_PRINT, TERM_AND_LOG, TERM_ONLY,
};

fn entry(flag: i32, code: &[u8]) -> mapDef {
    mapDef { flag, len: code.len(), code: code.to_vec(), next: None }
}

fn table() -> Vec<mapDef> {
    (0..256).map(|_| entry(0, &[])).collect()
}

#[test]
fn hex_digits_are_upper_case() {
    let mut s = Vec::new();
    sputx(0xa5, &mut s, 10);
    sputx(0x0f, &mut s, 10);
    assert_eq!(s, b"A50F".to_vec());
}

#[test]
fn block_count_counts_consecutive_codes() {
    let mut t = table();
    t[10] = entry(1, &[0x00, 0x41]);
    t[11] = entry(1, &[0x00, 0x42]);
    t[12] = entry(4, &[0x00, 0x43]);
    t[13] = entry(1, &[0x00, 0x45]);
    assert_eq!(block_count(&t, 10), 2);
    assert_eq!(block_count(&t, 12), 0);
}

#[test]
fn block_count_stops_at_other_kinds_and_lengths() {
    let mut t = table();
    t[0] = entry(1, &[0x10]);
    t[1] = entry(1, &[0x11]);
    t[2] = entry(1 | 16, &[0x12]);
    assert_eq!(block_count(&t, 0), 1);
    let mut t = table();
    t[0] = entry(1, &[0x10]);
    t[1] = entry(1, &[0x00, 0x11]);
    assert_eq!(block_count(&t, 0), 0);
    let mut t = table();
    t[254] = entry(1, &[0xfe]);
    t[255] = entry(1, &[0xff]);
    assert_eq!(block_count(&t, 254), 1);
    let mut t = table();
    t[0] = entry(1, &[0xff]);
    t[1] = entry(1, &[0x00]);
    assert_eq!(block_count(&t, 0), 0);
}

#[test]
fn the_fourteen_base_fonts() {
    assert!(is_basefont(b"Times-Roman"));
    assert!(is_basefont(b"ZapfDingbats"));
    assert!(is_basefont(b"Courier-BoldOblique"));
    assert!(!is_basefont(b"Times"));
    assert!(!is_basefont(b"cmr10"));
}

#[test]
fn opening_type1_fonts() {
    let f = pdf_font_open_type1(b"Helvetica", Type1File::NotFound).ok().unwrap();
    assert_eq!(f.fontname, b"Helvetica".to_vec());
    assert_eq!(f.subtype, 0);
    assert_eq!(f.flags, Some(5));
    let f = pdf_font_open_type1(b"cmr10", Type1File::FontName(b"CMR10".to_vec())).ok().unwrap();
    assert_eq!(f.fontname, b"CMR10".to_vec());
    assert_eq!(f.flags, None);
    assert_eq!(pdf_font_open_type1(b"cmr10", Type1File::NotFound).err(), Some(Type1OpenError::NotFound));
    assert_eq!(pdf_font_open_type1(b"cmr10", Type1File::Unreadable).err(), Some(Type1OpenError::Unreadable));
}

#[test]
fn error_messages_go_where_they_can() {
    assert_eq!(error_message_selector(true, InteractionMode::Scroll), TERM_AND_LOG);
    assert_eq!(error_message_selector(true, InteractionMode::Batch), LOG_ONLY);
    assert_eq!(error_message_selector(false, InteractionMode::ErrorStop), TERM_ONLY);
    assert_eq!(error_message_selector(false, InteractionMode::Batch), NO_PRINT);
}

#[test]
fn errors_are_counted_up_to_a_hundred() {
    let mut s = ErrorState { history: TTHistory::WarningIssued, error_count: 0, halt_on_error: false };
    assert_eq!(error(&mut s), ErrorOutcome::Continue);
    assert_eq!(s.history, TTHistory::ErrorIssued);
    assert_eq!(s.error_count, 1);
    let mut s = ErrorState { history: TTHistory::ErrorIssued, error_count: 99, halt_on_error: false };
    assert_eq!(error(&mut s), ErrorOutcome::TooManyErrors);
    assert_eq!(s.history, TTHistory::FatalError);
}

#[test]
fn halting_on_errors() {
    let mut s = ErrorState { history: TTHistory::Spotless, error_count: 5, halt_on_error: true };
    assert_eq!(error(&mut s), ErrorOutcome::HaltOnError);
    assert_eq!(s.history, TTHistory::FatalError);
    assert_eq!(s.error_count, 5);
}

#[test]
fn fatal_messages_stop_waiting_for_the_user() {
    assert_eq!(post_error_interaction(InteractionMode::ErrorStop), InteractionMode::Scroll);
    assert_eq!(post_error_interaction(InteractionMode::Batch), InteractionMode::Batch);
    assert!(confusion_is_internal(TTHistory::Spotless));
    assert!(!confusion_is_internal(TTHistory::ErrorIssued));
}

#[test]
fn type1_font_flags() {
    assert_eq!(font_flags(false, false, false, None), 4);
    assert_eq!(font_flags(false, false, false, Some(b"CMR10")), 4 | 2);
    assert_eq!(font_flags(true, true, true, Some(b"CMSansCaps")), 4 | 64 | (1 << 18) | 1 | (1 << 17));
    assert_eq!(font_flags(false, false, true, Some(b"Sans")), 4 | 1);
}
