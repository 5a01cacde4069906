use tectonic::pdfresource::{get_category, ResourceStore};

#[test]
fn categories_have_fixed_ids() {
    assert_eq!(get_category(b"Font"), 0);
    assert_eq!(get_category(b"XObject"), 4);
    assert_eq!(get_category(b"ExtGState"), 8);
    assert_eq!(get_category(b"Nothing"), -1);
}

#[test]
fn defined_resources_are_found() {
    let mut store = ResourceStore::pdf_init_resources();
    assert_eq!(store.pdf_findresource(b"Font", b"F1"), -1);
    let id = store.pdf_defineresource(b"Font", b"F1", 42, 0);
    assert_eq!(id, 0);
    let id2 = store.pdf_defineresource(b"Font", b"F2", 43, 0);
    assert_eq!(id2, 1);
    let id3 = store.pdf_defineresource(b"XObject", b"Im1", 44, 0);
    assert_eq!(id3, 4 * 65536);
    assert_eq!(store.pdf_findresource(b"Font", b"F2"), 1);
    assert_eq!(store.pdf_findresource(b"XObject", b"Im1"), 4 * 65536);
    assert_eq!(store.pdf_findresource(b"XObject", b"F1"), -1);
}

#[test]
fn redefinition_keeps_the_id() {
    let mut store = ResourceStore::pdf_init_resources();
    store.pdf_defineresource(b"Pattern", b"P", 1, 0);
    let again = store.pdf_defineresource(b"Pattern", b"P", 2, 0);
    assert_eq!(again, 7 * 65536);
    assert_eq!(store.pdf_get_resource_reference(again), 2);
}

#[test]
fn reference_is_made_once() {
    let mut store = ResourceStore::pdf_init_resources();
    let id = store.pdf_defineresource(b"Shading", b"S", 9, 1);
    assert_eq!(store.pdf_get_resource_reference(id), 9);
    assert_eq!(store.pdf_get_resource_reference(id), 9);
    store.pdf_close_resources();
    assert_eq!(store.pdf_findresource(b"Shading", b"S"), -1);
}
