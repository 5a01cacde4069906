use tectonic::pdfnames::{
    build_name_tree, check_objects_defined, cmp_key, flat_table, named_object, pdf_delete_name_tree,
    pdf_names_add_object, pdf_names_close_object, pdf_names_create_tree, pdf_names_lookup_object,
    pdf_names_lookup_reference, pdf_new_name_tree, printable_key, NameTreeBody, ObjKind, PdfObject,
    TreeValue,
};
use std::cmp::Ordering;

fn obj(kind: ObjKind, label: Option<u32>) -> PdfObject {
    PdfObject { kind, label }
}

#[test]
fn added_objects_are_looked_up() {
    let mut names = pdf_new_name_tree();
    assert!(pdf_names_add_object(&mut names, b"page.1", obj(ObjKind::Dict, Some(7))).is_ok());
    assert_eq!(pdf_names_lookup_object(&names, b"page.1"), Some(obj(ObjKind::Dict, Some(7))));
    assert_eq!(pdf_names_lookup_object(&names, b"page.2"), None);
}

#[test]
fn empty_keys_and_redefinitions_are_refused() {
    let mut names = pdf_new_name_tree();
    assert!(pdf_names_add_object(&mut names, b"", obj(ObjKind::Null, None)).is_err());
    assert!(pdf_names_add_object(&mut names, b"k", obj(ObjKind::Number, None)).is_ok());
    assert!(pdf_names_add_object(&mut names, b"k", obj(ObjKind::Number, None)).is_err());
}

#[test]
fn forward_references_reach_the_object_defined_later() {
    let mut names = pdf_new_name_tree();
    let r = pdf_names_lookup_reference(&mut names, b"fig", 12);
    assert_eq!(r, 12);
    // Only a placeholder so far.
    assert_eq!(pdf_names_lookup_object(&names, b"fig"), None);
    assert!(pdf_names_add_object(&mut names, b"fig", obj(ObjKind::Stream, None)).is_ok());
    assert_eq!(pdf_names_lookup_object(&names, b"fig"), Some(obj(ObjKind::Stream, Some(12))));
    // A second reference gives the same label.
    assert_eq!(pdf_names_lookup_reference(&mut names, b"fig", 99), 12);
}

#[test]
fn reference_to_a_defined_object_labels_it() {
    let mut names = pdf_new_name_tree();
    pdf_names_add_object(&mut names, b"x", obj(ObjKind::Array, None)).unwrap();
    assert_eq!(pdf_names_lookup_reference(&mut names, b"x", 5), 5);
    assert_eq!(pdf_names_lookup_object(&names, b"x"), Some(obj(ObjKind::Array, Some(5))));
}

#[test]
fn objects_are_closed_once() {
    let mut names = pdf_new_name_tree();
    pdf_names_add_object(&mut names, b"a", obj(ObjKind::Dict, None)).unwrap();
    assert_eq!(pdf_names_close_object(&mut names, b"a"), 0);
    assert_eq!(pdf_names_close_object(&mut names, b"a"), -1);
    assert_eq!(pdf_names_close_object(&mut names, b"b"), -1);
    pdf_names_lookup_reference(&mut names, b"c", 3);
    assert_eq!(pdf_names_close_object(&mut names, b"c"), -1);
}

#[test]
fn undefined_objects_become_null() {
    let mut names = pdf_new_name_tree();
    pdf_names_lookup_reference(&mut names, b"u", 4);
    pdf_names_add_object(&mut names, b"d", obj(ObjKind::Dict, None)).unwrap();
    check_objects_defined(&mut names);
    assert_eq!(pdf_names_lookup_object(&names, b"u"), Some(obj(ObjKind::Null, Some(4))));
    let left = pdf_delete_name_tree(names);
    assert_eq!(left.len(), 2);
    assert_eq!(left[0].object, obj(ObjKind::Null, Some(4)));
    assert_eq!(left[1].object, obj(ObjKind::Dict, None));
}

#[test]
fn keys_are_printed_with_hex_escapes() {
    assert_eq!(printable_key(b"a b#"), b"a#20b#".to_vec());
    assert_eq!(printable_key(&[0x00, 0xff, b'Z']), b"#00#FFZ".to_vec());
}

#[test]
fn keys_order_empty_first_then_bytewise() {
    let n = |k: &[u8]| named_object { key: k.to_vec(), value: obj(ObjKind::Null, None) };
    assert_eq!(cmp_key(&n(b"a"), &n(b"b")), Ordering::Less);
    assert_eq!(cmp_key(&n(b"ab"), &n(b"a")), Ordering::Greater);
    assert_eq!(cmp_key(&n(b"ab"), &n(b"ab")), Ordering::Equal);
    assert_eq!(cmp_key(&n(b""), &n(b"a")), Ordering::Less);
    assert_eq!(cmp_key(&n(b"a"), &n(b"")), Ordering::Greater);
}

#[test]
fn flat_table_applies_the_filter() {
    let mut names = pdf_new_name_tree();
    pdf_names_add_object(&mut names, b"one", obj(ObjKind::Number, None)).unwrap();
    pdf_names_lookup_reference(&mut names, b"two", 8);
    let all = flat_table(&names, None);
    assert_eq!(all.len(), 2);
    assert_eq!(all[1].value, obj(ObjKind::Null, None));
    let filter = vec![(b"two".to_vec(), b"zwei".to_vec())];
    let some = flat_table(&names, Some(&filter));
    assert_eq!(some.len(), 1);
    assert_eq!(some[0].key, b"zwei".to_vec());
}

#[test]
fn small_trees_are_one_leaf() {
    let mut names = pdf_new_name_tree();
    for k in [b"c", b"a", b"b"] {
        pdf_names_add_object(&mut names, k, obj(ObjKind::String, Some(1))).unwrap();
    }
    let (tree, count) = pdf_names_create_tree(&names, None);
    assert_eq!(count, 3);
    let tree = tree.unwrap();
    assert!(tree.limits.is_none());
    match tree.body {
        NameTreeBody::Names(v) => {
            let keys: Vec<Vec<u8>> = v.iter().map(|p| p.0.clone()).collect();
            assert_eq!(keys, vec![b"a".to_vec(), b"b".to_vec(), b"c".to_vec()]);
            assert!(matches!(v[0].1, TreeValue::Ref(_)));
        }
        _ => panic!("expected a leaf"),
    }
}

#[test]
fn large_trees_split_in_four() {
    let objs: Vec<named_object> = (0..12u8)
        .map(|i| named_object { key: vec![b'a' + i], value: obj(ObjKind::Number, None) })
        .collect();
    let tree = build_name_tree(&objs, true);
    match tree.body {
        NameTreeBody::Kids(kids) => {
            assert_eq!(kids.len(), 4);
            let limits: Vec<(Vec<u8>, Vec<u8>)> = kids.iter().map(|k| k.limits.clone().unwrap()).collect();
            assert_eq!(limits[0], (b"a".to_vec(), b"c".to_vec()));
            assert_eq!(limits[3], (b"j".to_vec(), b"l".to_vec()));
            match &kids[1].body {
                NameTreeBody::Names(v) => {
                    assert_eq!(v.len(), 3);
                    assert!(matches!(v[0].1, TreeValue::Direct(_)));
                }
                _ => panic!("expected a leaf"),
            }
        }
        _ => panic!("expected kids"),
    }
}

#[test]
fn empty_tables_make_no_tree() {
    let names = pdf_new_name_tree();
    let (tree, count) = pdf_names_create_tree(&names, None);
    assert!(tree.is_none());
    assert_eq!(count, 0);
}

#[test]
fn adding_under_one_key_leaves_the_others() {
    let mut names = pdf_new_name_tree();
    pdf_names_add_object(&mut names, b"a", obj(ObjKind::Array, Some(1))).unwrap();
    let r = pdf_names_lookup_reference(&mut names, b"b", 5);
    assert_eq!(r, 5);
    pdf_names_add_object(&mut names, b"c", obj(ObjKind::Dict, None)).unwrap();
    assert_eq!(pdf_names_lookup_object(&names, b"a"), Some(obj(ObjKind::Array, Some(1))));
    assert_eq!(pdf_names_lookup_object(&names, b"b"), None);
    assert_eq!(pdf_names_lookup_object(&names, b"c"), Some(obj(ObjKind::Dict, None)));
}

#[test]
fn reference_to_a_defined_object_reaches_it() {
    let mut names = pdf_new_name_tree();
    assert!(pdf_names_add_object(&mut names, b"tab", obj(ObjKind::Dict, None)).is_ok());
    let r = pdf_names_lookup_reference(&mut names, b"tab", 21);
    assert_eq!(r, 21);
    assert_eq!(pdf_names_lookup_object(&names, b"tab"), Some(obj(ObjKind::Dict, Some(21))));
    // The key already holds a defined object: a later one is refused.
    assert!(pdf_names_add_object(&mut names, b"tab", obj(ObjKind::Array, None)).is_err());
    assert_eq!(pdf_names_lookup_object(&names, b"tab"), Some(obj(ObjKind::Dict, Some(21))));
}
