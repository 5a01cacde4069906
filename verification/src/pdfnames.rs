//! PDF name trees: objects stored under byte-string keys, and the balanced
//! tree of sorted keys that a PDF file holds them in.
use vstd::prelude::*;
use std::cmp::Ordering;

verus! {

/// The kind of a PDF object, as far as a name tree tells kinds apart.
#[derive(Clone, Copy, Debug, PartialEq, Eq, Structural)]
pub enum ObjKind {
    /// A placeholder for an object referred to before it is defined.
    Undefined,
    Null,
    Boolean,
    Number,
    Name,
    String,
    Array,
    Dict,
    Stream,
    Indirect,
}

/// A PDF object: its kind, and the label (object number) that references
/// to it use, once it has one.
#[derive(Clone, Copy, Debug, PartialEq, Eq, Structural)]
pub struct PdfObject {
    pub kind: ObjKind,
    pub label: Option<u32>,
}

/// An object stored in a name tree, and whether it was closed.
#[derive(Clone, Copy, Debug, PartialEq, Eq, Structural)]
pub struct obj_data {
    pub object: PdfObject,
    pub closed: i32,
}

/// One entry of a name tree.
pub struct NameEntry {
    pub key: Vec<u8>,
    pub value: obj_data,
}

/// The objects of a name tree by key; no key occurs twice.
pub struct NameTable {
    entries: Vec<NameEntry>,
}

/// The position of `key` among `s`, or -1.
pub open spec fn key_index(s: Seq<(Seq<u8>, obj_data)>, key: Seq<u8>) -> int
    decreases s.len(),
{
    if s.len() == 0 {
        -1
    } else if s.last().0 == key {
        s.len() - 1
    } else {
        key_index(s.drop_last(), key)
    }
}

pub proof fn lemma_key_index(s: Seq<(Seq<u8>, obj_data)>, key: Seq<u8>)
    ensures
        -1 <= key_index(s, key) < s.len(),
        key_index(s, key) >= 0 ==> s[key_index(s, key)].0 == key,
        key_index(s, key) < 0 ==> forall|k: int| 0 <= k < s.len() ==> #[trigger] s[k].0 != key,
    decreases s.len(),
{
    if s.len() > 0 {
        lemma_key_index(s.drop_last(), key);
        assert forall|k: int| 0 <= k < s.len() - 1 implies s.drop_last()[k] == #[trigger] s[k] by {}
    }
}

proof fn lemma_key_index_at(s: Seq<(Seq<u8>, obj_data)>, key: Seq<u8>, i: int)
    requires
        0 <= i < s.len(),
        s[i].0 == key,
        forall|a: int, b: int| 0 <= a < b < s.len() ==> s[a].0 != s[b].0,
    ensures
        key_index(s, key) == i,
    decreases s.len(),
{
    if i < s.len() - 1 {
        assert(s.last().0 != key);
        lemma_key_index_at(s.drop_last(), key, i);
    }
}

/// What the table holds under `key`.
pub open spec fn lookup(s: Seq<(Seq<u8>, obj_data)>, key: Seq<u8>) -> Option<obj_data> {
    if key_index(s, key) < 0 {
        None
    } else {
        Some(s[key_index(s, key)].1)
    }
}

/// Whether no key occurs twice.
pub open spec fn keys_distinct(s: Seq<(Seq<u8>, obj_data)>) -> bool {
    forall|a: int, b: int| 0 <= a < b < s.len() ==> s[a].0 != s[b].0
}

impl NameTable {
    /// The entries, in the order they were added.
    pub closed spec fn view(&self) -> Seq<(Seq<u8>, obj_data)> {
        self.entries@.map_values(|e: NameEntry| (e.key@, e.value))
    }

    /// No key occurs twice.
    pub open spec fn wf(&self) -> bool {
        keys_distinct(self.view())
    }

    /// The position of `key`, or -1.
    fn find(&self, key: &[u8]) -> (r: Option<usize>)
        requires
            self.wf(),
        ensures
            match r {
                Some(i) => i == key_index(self.view(), key@),
                None => key_index(self.view(), key@) < 0,
            },
    {
        proof {
            lemma_key_index(self.view(), key@);
        }
        let n = self.entries.len();
        let mut i: usize = 0;
        while i < n
            invariant
                i <= n,
                n == self.entries@.len(),
                n == self.view().len(),
                keys_distinct(self.view()),
                forall|k: int| 0 <= k < i ==> #[trigger] self.view()[k].0 != key@,
            decreases n - i,
        {
            assert(self.view()[i as int].0 == self.entries@[i as int].key@);
            if bytes_equal(&self.entries[i].key, key) {
                proof {
                    lemma_key_index_at(self.view(), key@, i as int);
                }
                return Some(i);
            }
            i = i + 1;
        }
        proof {
            if key_index(self.view(), key@) >= 0 {
                assert(self.view()[key_index(self.view(), key@)].0 == key@);
            }
        }
        None
    }
}

fn bytes_equal(a: &[u8], b: &[u8]) -> (r: bool)
    ensures
        r == (a@ == b@),
{
    if a.len() != b.len() {
        return false;
    }
    let mut i: usize = 0;
    while i < a.len()
        invariant
            i <= a@.len(),
            a@.len() == b@.len(),
            forall|k: int| 0 <= k < i ==> a@[k] == b@[k],
        decreases a@.len() - i,
    {
        if a[i] != b[i] {
            return false;
        }
        i = i + 1;
    }
    proof {
        assert(a@ =~= b@);
    }
    true
}

fn copy_bytes(a: &[u8]) -> (r: Vec<u8>)
    ensures
        r@ == a@,
{
    let mut r: Vec<u8> = Vec::new();
    let mut i: usize = 0;
    while i < a.len()
        invariant
            i <= a@.len(),
            r@ == a@.take(i as int),
        decreases a@.len() - i,
    {
        r.push(a[i]);
        proof {
            assert(a@.take(i + 1) =~= a@.take(i as int).push(a@[i as int]));
        }
        i = i + 1;
    }
    proof {
        assert(a@.take(a@.len() as int) =~= a@);
    }
    r
}

/// An empty name tree.
/// Adding `object` under `key` to the entries `v`: whether it is accepted,
/// and the entries after it. An empty key is refused; a new key is added
/// at the end; a placeholder is replaced by `object`, which takes the
/// placeholder's label; a defined object is not replaced.
pub open spec fn add_spec(v: Seq<(Seq<u8>, obj_data)>, key: Seq<u8>, object: PdfObject) -> (bool, Seq<(Seq<u8>, obj_data)>) {
    let i = key_index(v, key);
    if key.len() == 0 {
        (false, v)
    } else if i < 0 {
        (true, v.push((key, obj_data { object, closed: 0 })))
    } else if v[i].1.object.kind == ObjKind::Undefined {
        (true, v.update(i, (key, obj_data { object: PdfObject { kind: object.kind, label: v[i].1.object.label }, closed: v[i].1.closed })))
    } else {
        (false, v)
    }
}

/// A reference to `key` in the entries `v`: the label handed out, and the
/// entries after it. The object under the key keeps its label, or gets
/// `fresh` where it has none; where the key holds nothing, a placeholder
/// labelled `fresh` is stored under it (but not under an empty key).
pub open spec fn reference_spec(v: Seq<(Seq<u8>, obj_data)>, key: Seq<u8>, fresh: u32) -> (u32, Seq<(Seq<u8>, obj_data)>) {
    let i = key_index(v, key);
    if i >= 0 {
        let o = v[i].1.object;
        let l = match o.label {
            Some(l) => l,
            None => fresh,
        };
        (l, v.update(i, (key, obj_data { object: PdfObject { kind: o.kind, label: Some(l) }, closed: v[i].1.closed })))
    } else if key.len() == 0 {
        (fresh, v)
    } else {
        (fresh, v.push((key, obj_data { object: PdfObject { kind: ObjKind::Undefined, label: Some(fresh) }, closed: 0 })))
    }
}

/// The defined object under `key` in the entries `v`, if any.
pub open spec fn lookup_object_spec(v: Seq<(Seq<u8>, obj_data)>, key: Seq<u8>) -> Option<PdfObject> {
    match lookup(v, key) {
        Some(d) => if d.object.kind == ObjKind::Undefined { None } else { Some(d.object) },
        None => None,
    }
}

proof fn lemma_key_index_push(v: Seq<(Seq<u8>, obj_data)>, e: (Seq<u8>, obj_data), k: Seq<u8>)
    ensures
        key_index(v.push(e), k) == if e.0 == k { v.len() as int } else { key_index(v, k) },
{
    assert(v.push(e).drop_last() =~= v);
}

/// Replacing the value under a key keeps the keys, and so every position.
proof fn lemma_key_index_update(v: Seq<(Seq<u8>, obj_data)>, i: int, d: obj_data, k: Seq<u8>)
    requires
        keys_distinct(v),
        0 <= i < v.len(),
    ensures
        keys_distinct(v.update(i, (v[i].0, d))),
        key_index(v.update(i, (v[i].0, d)), k) == key_index(v, k),
{
    let u = v.update(i, (v[i].0, d));
    assert forall|m: int| 0 <= m < u.len() implies #[trigger] u[m].0 == v[m].0 by {}
    lemma_key_index(v, k);
    lemma_key_index(u, k);
    let j = key_index(v, k);
    if j >= 0 {
        lemma_key_index_at(u, k, j);
    } else if key_index(u, k) >= 0 {
        assert(v[key_index(u, k)].0 == k);
    }
}

/// Law: adding an object keeps the keys of the name tree distinct.
pub proof fn law_add_keeps_keys_distinct(v: Seq<(Seq<u8>, obj_data)>, key: Seq<u8>, object: PdfObject)
    requires
        keys_distinct(v),
    ensures
        keys_distinct(add_spec(v, key, object).1),
{
    lemma_key_index(v, key);
    let i = key_index(v, key);
    if key.len() > 0 && i >= 0 && v[i].1.object.kind == ObjKind::Undefined {
        lemma_key_index_update(v, i, obj_data { object: PdfObject { kind: object.kind, label: v[i].1.object.label }, closed: v[i].1.closed }, key);
    } else if key.len() > 0 && i < 0 {
        let u = v.push((key, obj_data { object, closed: 0 }));
        assert forall|a: int, b: int| 0 <= a < b < u.len() implies u[a].0 != u[b].0 by {
            if b == v.len() {
                assert(v[a].0 != key);
            } else {
                assert(v[a].0 != v[b].0);
            }
        }
    }
}

/// A read gives back what a write wrote: once `object` is accepted under
/// `key`, looking `key` up gives an object of its kind, which is `object`
/// itself where the key was new (and otherwise carries the label of the
/// placeholder it replaced).
pub proof fn law_add_then_lookup(v: Seq<(Seq<u8>, obj_data)>, key: Seq<u8>, object: PdfObject)
    requires
        keys_distinct(v),
        add_spec(v, key, object).0,
        object.kind != ObjKind::Undefined,
    ensures
        lookup_object_spec(add_spec(v, key, object).1, key) matches Some(o) && o.kind == object.kind,
        key_index(v, key) < 0 ==> lookup_object_spec(add_spec(v, key, object).1, key) == Some(object),
{
    lemma_key_index(v, key);
    let i = key_index(v, key);
    if i < 0 {
        lemma_key_index_push(v, (key, obj_data { object, closed: 0 }), key);
    } else {
        lemma_key_index_update(v, i, obj_data { object: PdfObject { kind: object.kind, label: v[i].1.object.label }, closed: v[i].1.closed }, key);
    }
}

/// Adding under `key` changes what any other key holds in no way.
pub proof fn law_add_keeps_other_keys(v: Seq<(Seq<u8>, obj_data)>, key: Seq<u8>, object: PdfObject, other: Seq<u8>)
    requires
        keys_distinct(v),
        other != key,
    ensures
        lookup(add_spec(v, key, object).1, other) == lookup(v, other),
{
    lemma_key_index(v, key);
    lemma_key_index(v, other);
    let i = key_index(v, key);
    if key.len() > 0 && i < 0 {
        lemma_key_index_push(v, (key, obj_data { object, closed: 0 }), other);
    } else if key.len() > 0 && v[i].1.object.kind == ObjKind::Undefined {
        lemma_key_index_update(v, i, obj_data { object: PdfObject { kind: object.kind, label: v[i].1.object.label }, closed: v[i].1.closed }, other);
    }
}

/// A key is defined once: after an object is accepted under `key`, any
/// further object under it is refused, and nothing changes.
pub proof fn law_add_twice_refused(v: Seq<(Seq<u8>, obj_data)>, key: Seq<u8>, first: PdfObject, second: PdfObject)
    requires
        keys_distinct(v),
        add_spec(v, key, first).0,
        first.kind != ObjKind::Undefined,
    ensures
        !add_spec(add_spec(v, key, first).1, key, second).0,
        add_spec(add_spec(v, key, first).1, key, second).1 == add_spec(v, key, first).1,
{
    law_add_then_lookup(v, key, first);
}

/// A reference reaches the object under its key: the label handed out for
/// `key` is the label of what `key` holds afterwards. Adding an object under
/// `key` afterwards succeeds exactly where the key held no defined object,
/// and the object added then carries that label; where the key held a
/// defined object, it stays and carries the label.
pub proof fn law_reference_then_add(v: Seq<(Seq<u8>, obj_data)>, key: Seq<u8>, fresh: u32, object: PdfObject)
    requires
        keys_distinct(v),
        key.len() > 0,
    ensures
        ({
            let (l, v1) = reference_spec(v, key, fresh);
            let added = add_spec(v1, key, object);
            &&& lookup(v1, key) matches Some(d) && d.object.label == Some(l)
            &&& added.0 == (lookup_object_spec(v, key) is None)
            &&& added.0 ==> (lookup(added.1, key) matches Some(d) && d.object == PdfObject { kind: object.kind, label: Some(l) })
            &&& added.0 && object.kind != ObjKind::Undefined ==> lookup_object_spec(added.1, key) == Some(
                PdfObject { kind: object.kind, label: Some(l) },
            )
            &&& !added.0 ==> lookup_object_spec(v1, key) == Some(PdfObject { kind: lookup_object_spec(v, key)->0.kind, label: Some(l) })
            &&& !added.0 ==> added.1 == v1
        }),
{
    lemma_key_index(v, key);
    let i = key_index(v, key);
    let (l, v1) = reference_spec(v, key, fresh);
    if i < 0 {
        let e = (key, obj_data { object: PdfObject { kind: ObjKind::Undefined, label: Some(fresh) }, closed: 0 });
        lemma_key_index_push(v, e, key);
        assert(v1 == v.push(e));
        assert(keys_distinct(v1)) by {
            assert forall|a: int, b: int| 0 <= a < b < v1.len() implies v1[a].0 != v1[b].0 by {
                if b == v.len() {
                    assert(v[a].0 != key);
                } else {
                    assert(v[a].0 != v[b].0);
                }
            }
        }
        let j = v.len() as int;
        lemma_key_index_update(v1, j, obj_data { object: PdfObject { kind: object.kind, label: v1[j].1.object.label }, closed: v1[j].1.closed }, key);
    } else {
        let o = v[i].1.object;
        let d1 = obj_data { object: PdfObject { kind: o.kind, label: Some(l) }, closed: v[i].1.closed };
        lemma_key_index_update(v, i, d1, key);
        if o.kind == ObjKind::Undefined {
            let d2 = obj_data { object: PdfObject { kind: object.kind, label: Some(l) }, closed: v[i].1.closed };
            lemma_key_index_update(v1, i, d2, key);
        }
    }
}

pub fn pdf_new_name_tree() -> (r: NameTable)
    ensures
        r.wf(),
        r.view().len() == 0,
{
    let r = NameTable { entries: Vec::new() };
    proof {
        assert(r.view() =~= Seq::<(Seq<u8>, obj_data)>::empty());
    }
    r
}

/// Adds `object` under `key`. An empty key is refused. Where the key holds
/// a placeholder, `object` takes its place and its label, so that the
/// references made to the placeholder reach it; where the key holds a
/// defined object, `object` is refused.
pub fn pdf_names_add_object(names: &mut NameTable, key: &[u8], object: PdfObject) -> (r: Result<(), ()>)
    requires
        old(names).wf(),
    ensures
        final(names).wf(),
        r is Ok == add_spec(old(names).view(), key@, object).0,
        final(names).view() == add_spec(old(names).view(), key@, object).1,
{
    if key.len() == 0 {
        return Err(());
    }
    let found = names.find(key);
    proof {
        lemma_key_index(names.view(), key@);
    }
    match found {
        None => {
            let ghost old_view = names.view();
            let entry = NameEntry { key: copy_bytes(key), value: obj_data { object, closed: 0 } };
            proof {
                assert(old_view.push((key@, obj_data { object, closed: 0 })) =~= names.entries@.push(entry).map_values(|e: NameEntry| (e.key@, e.value)));
            }
            names.entries.push(entry);
            proof {
                let v = names.view();
                assert forall|a: int, b: int| 0 <= a < b < v.len() implies v[a].0 != v[b].0 by {
                    if b == v.len() - 1 {
                        assert(old_view[a].0 != key@);
                    } else {
                        assert(old_view[a].0 != old_view[b].0);
                    }
                }
            }
            Ok(())
        },
        Some(iu) => {
            let old_data = names.entries[iu].value;
            assert(names.view()[iu as int] == (names.entries@[iu as int].key@, names.entries@[iu as int].value));
            if old_data.object.kind == ObjKind::Undefined {
                let ghost old_view = names.view();
                let new_data = obj_data { object: PdfObject { kind: object.kind, label: old_data.object.label }, closed: old_data.closed };
                proof {
                    assert(old_view.update(iu as int, (key@, new_data))
                        =~= names.entries@.update(iu as int, NameEntry { key: names.entries@[iu as int].key, value: new_data }).map_values(|e: NameEntry| (e.key@, e.value)));
                }
                names.entries[iu].value = new_data;
                proof {
                    let v = names.view();
                    assert forall|a: int, b: int| 0 <= a < b < v.len() implies v[a].0 != v[b].0 by {
                        assert(v[a].0 == old_view[a].0);
                        assert(v[b].0 == old_view[b].0);
                    }
                }
                Ok(())
            } else {
                Err(())
            }
        },
    }
}

/// A reference to the object under `key`: its label. Where the key holds
/// nothing, a placeholder labelled `fresh` is stored under it first (an
/// empty key stores nothing) and `fresh` is returned. A placeholder that
/// already holds a label keeps it; one without gets `fresh`.
pub fn pdf_names_lookup_reference(names: &mut NameTable, key: &[u8], fresh: u32) -> (r: u32)
    requires
        old(names).wf(),
    ensures
        final(names).wf(),
        r == reference_spec(old(names).view(), key@, fresh).0,
        final(names).view() == reference_spec(old(names).view(), key@, fresh).1,
{
    match names.find(key) {
        Some(iu) => {
            proof {
                lemma_key_index(names.view(), key@);
            }
            let old_data = names.entries[iu].value;
            assert(names.view()[iu as int] == (names.entries@[iu as int].key@, names.entries@[iu as int].value));
            let label = match old_data.object.label {
                Some(l) => l,
                None => fresh,
            };
            let ghost old_view = names.view();
            let new_data = obj_data { object: PdfObject { kind: old_data.object.kind, label: Some(label) }, closed: old_data.closed };
            proof {
                assert(old_view.update(iu as int, (key@, new_data))
                    =~= names.entries@.update(iu as int, NameEntry { key: names.entries@[iu as int].key, value: new_data }).map_values(|e: NameEntry| (e.key@, e.value)));
            }
            names.entries[iu].value = new_data;
            proof {
                let v = names.view();
                assert forall|a: int, b: int| 0 <= a < b < v.len() implies v[a].0 != v[b].0 by {
                    assert(v[a].0 == old_view[a].0);
                    assert(v[b].0 == old_view[b].0);
                }
            }
            label
        },
        None => {
            let placeholder = PdfObject { kind: ObjKind::Undefined, label: Some(fresh) };
            let _ = pdf_names_add_object(names, key, placeholder);
            fresh
        },
    }
}

/// The object under `key`, or `None` where there is none or only a
/// placeholder.
pub fn pdf_names_lookup_object(names: &NameTable, key: &[u8]) -> (r: Option<PdfObject>)
    requires
        names.wf(),
    ensures
        r == lookup_object_spec(names.view(), key@),
{
    match names.find(key) {
        Some(iu) => {
            proof {
                lemma_key_index(names.view(), key@);
            }
            assert(names.view()[iu as int] == (names.entries@[iu as int].key@, names.entries@[iu as int].value));
            let o = names.entries[iu].value.object;
            if o.kind == ObjKind::Undefined {
                None
            } else {
                Some(o)
            }
        },
        None => None,
    }
}

/// Closes the object under `key`: 0, or -1 where there is no defined object
/// under it or it was closed before.
pub fn pdf_names_close_object(names: &mut NameTable, key: &[u8]) -> (r: i32)
    requires
        old(names).wf(),
    ensures
        final(names).wf(),
        ({
            let i = key_index(old(names).view(), key@);
            if i < 0 || old(names).view()[i].1.object.kind == ObjKind::Undefined || old(names).view()[i].1.closed != 0 {
                r == -1 && final(names).view() == old(names).view()
            } else {
                r == 0 && final(names).view() == old(names).view().update(
                    i,
                    (key@, obj_data { object: old(names).view()[i].1.object, closed: 1 }),
                )
            }
        }),
{
    match names.find(key) {
        Some(iu) => {
            proof {
                lemma_key_index(names.view(), key@);
            }
            let old_data = names.entries[iu].value;
            assert(names.view()[iu as int] == (names.entries@[iu as int].key@, names.entries@[iu as int].value));
            if old_data.object.kind == ObjKind::Undefined || old_data.closed != 0 {
                return -1;
            }
            let ghost old_view = names.view();
            let new_data = obj_data { object: old_data.object, closed: 1 };
            proof {
                assert(old_view.update(iu as int, (key@, new_data))
                    =~= names.entries@.update(iu as int, NameEntry { key: names.entries@[iu as int].key, value: new_data }).map_values(|e: NameEntry| (e.key@, e.value)));
            }
            names.entries[iu].value = new_data;
            proof {
                let v = names.view();
                assert forall|a: int, b: int| 0 <= a < b < v.len() implies v[a].0 != v[b].0 by {
                    assert(v[a].0 == old_view[a].0);
                    assert(v[b].0 == old_view[b].0);
                }
            }
            0
        },
        None => -1,
    }
}

/// An entry whose placeholder was never defined holds a null object in its
/// place, with the placeholder's label.
pub open spec fn defined_entry(e: (Seq<u8>, obj_data)) -> (Seq<u8>, obj_data) {
    if e.1.object.kind == ObjKind::Undefined {
        (e.0, obj_data { object: PdfObject { kind: ObjKind::Null, label: e.1.object.label }, closed: e.1.closed })
    } else {
        e
    }
}

/// Puts a null object in place of each placeholder that was never defined
/// (keeping its label, so that the references to it reach the null).
pub fn check_objects_defined(names: &mut NameTable)
    requires
        old(names).wf(),
    ensures
        final(names).wf(),
        final(names).view() == old(names).view().map_values(|e: (Seq<u8>, obj_data)| defined_entry(e)),
{
    let ghost old_view = names.view();
    let n = names.entries.len();
    let mut i: usize = 0;
    while i < n
        invariant
            i <= n,
            n == names.entries@.len(),
            old_view.len() == n,
            names.view().len() == n,
            forall|k: int| 0 <= k < i ==> #[trigger] names.view()[k] == defined_entry(old_view[k]),
            forall|k: int| i <= k < n ==> #[trigger] names.view()[k] == old_view[k],
        decreases n - i,
    {
        assert(names.view()[i as int] == (names.entries@[i as int].key@, names.entries@[i as int].value));
        let d = names.entries[i].value;
        if d.object.kind == ObjKind::Undefined {
            let ghost before = names.view();
            let new_data = obj_data { object: PdfObject { kind: ObjKind::Null, label: d.object.label }, closed: d.closed };
            proof {
                assert(before.update(i as int, defined_entry(old_view[i as int]))
                    =~= names.entries@.update(i as int, NameEntry { key: names.entries@[i as int].key, value: new_data }).map_values(|e: NameEntry| (e.key@, e.value)));
            }
            names.entries[i].value = new_data;
        }
        i = i + 1;
    }
    proof {
        assert(names.view() =~= old_view.map_values(|e: (Seq<u8>, obj_data)| defined_entry(e)));
        let v = names.view();
        assert forall|a: int, b: int| 0 <= a < b < v.len() implies v[a].0 != v[b].0 by {
            assert(v[a].0 == old_view[a].0);
            assert(v[b].0 == old_view[b].0);
        }
    }
}

/// Releases a name tree, after putting null objects in place of the
/// placeholders never defined; returns the objects as they were then, in
/// the order of their keys' entries.
pub fn pdf_delete_name_tree(names: NameTable) -> (r: Vec<obj_data>)
    requires
        names.wf(),
    ensures
        r@ == names.view().map_values(|e: (Seq<u8>, obj_data)| defined_entry(e).1),
{
    let mut names = names;
    check_objects_defined(&mut names);
    let ghost v = names.view();
    let mut r: Vec<obj_data> = Vec::new();
    let n = names.entries.len();
    let mut i: usize = 0;
    while i < n
        invariant
            i <= n,
            n == names.entries@.len(),
            v == names.view(),
            r@ == v.take(i as int).map_values(|e: (Seq<u8>, obj_data)| e.1),
        decreases n - i,
    {
        assert(v[i as int] == (names.entries@[i as int].key@, names.entries@[i as int].value));
        r.push(names.entries[i].value);
        proof {
            assert(v.take(i + 1).map_values(|e: (Seq<u8>, obj_data)| e.1) =~= v.take(i as int).map_values(|e: (Seq<u8>, obj_data)| e.1).push(v[i as int].1));
        }
        i = i + 1;
    }
    proof {
        assert(v.take(n as int) =~= v);
        assert(r@ =~= names.view().map_values(|e: (Seq<u8>, obj_data)| e.1));
    }
    r
}

/// An object under its key, as a name tree lists them.
pub struct named_object {
    pub key: Vec<u8>,
    pub value: PdfObject,
}

/// The key and object of a named object, as plain values.
pub open spec fn nview(o: named_object) -> (Seq<u8>, PdfObject) {
    (o.key@, o.value)
}

/// The keys and objects of a list of named objects.
pub open spec fn nviews(s: Seq<named_object>) -> Seq<(Seq<u8>, PdfObject)> {
    s.map_values(|o: named_object| nview(o))
}

/// Byte-wise comparison of two strings: -1, 0 or 1.
pub open spec fn lex_order(a: Seq<u8>, b: Seq<u8>) -> int
    decreases a.len(),
{
    if a.len() == 0 {
        if b.len() == 0 {
            0
        } else {
            -1
        }
    } else if b.len() == 0 {
        1
    } else if a[0] < b[0] {
        -1
    } else if a[0] > b[0] {
        1
    } else {
        lex_order(a.drop_first(), b.drop_first())
    }
}

/// The order of keys in a name tree: an empty key first, then byte-wise.
pub open spec fn key_order(a: Seq<u8>, b: Seq<u8>) -> int {
    if a.len() == 0 {
        -1
    } else if b.len() == 0 {
        1
    } else {
        lex_order(a, b)
    }
}

/// Whether key `a` may stand before key `b`.
pub open spec fn key_le(a: Seq<u8>, b: Seq<u8>) -> bool {
    key_order(a, b) != 1
}

/// Whether the keys of `s` are in order.
pub open spec fn keys_sorted(s: Seq<(Seq<u8>, PdfObject)>) -> bool {
    forall|i: int, j: int| 0 <= i < j < s.len() ==> key_le(#[trigger] s[i].0, #[trigger] s[j].0)
}

proof fn lemma_lex_antisym(a: Seq<u8>, b: Seq<u8>)
    ensures
        lex_order(a, b) == -lex_order(b, a),
        -1 <= lex_order(a, b) <= 1,
    decreases a.len(),
{
    if a.len() > 0 && b.len() > 0 && a[0] == b[0] {
        lemma_lex_antisym(a.drop_first(), b.drop_first());
    }
}

proof fn lemma_lex_trans(a: Seq<u8>, b: Seq<u8>, c: Seq<u8>)
    requires
        lex_order(a, b) <= 0,
        lex_order(b, c) <= 0,
    ensures
        lex_order(a, c) <= 0,
    decreases a.len(),
{
    if a.len() > 0 && b.len() > 0 && c.len() > 0 && a[0] == b[0] && b[0] == c[0] {
        lemma_lex_trans(a.drop_first(), b.drop_first(), c.drop_first());
    }
}

/// Any two keys stand in order one way or the other.
pub proof fn lemma_key_le_total(a: Seq<u8>, b: Seq<u8>)
    ensures
        key_le(a, b) || key_le(b, a),
{
    lemma_lex_antisym(a, b);
}

/// The order of keys is transitive.
pub proof fn lemma_key_le_trans(a: Seq<u8>, b: Seq<u8>, c: Seq<u8>)
    requires
        key_le(a, b),
        key_le(b, c),
    ensures
        key_le(a, c),
{
    lemma_lex_antisym(a, b);
    lemma_lex_antisym(b, c);
    if a.len() > 0 && b.len() > 0 && c.len() > 0 {
        lemma_lex_trans(a, b, c);
    }
}

/// Compares the keys of two named objects: an empty key comes first, then
/// byte-wise order.
pub fn cmp_key(sd1: &named_object, sd2: &named_object) -> (r: Ordering)
    ensures
        match r {
            Ordering::Less => key_order(sd1.key@, sd2.key@) == -1,
            Ordering::Equal => key_order(sd1.key@, sd2.key@) == 0,
            Ordering::Greater => key_order(sd1.key@, sd2.key@) == 1,
        },
{
    let c = key_order_of(&sd1.key, &sd2.key);
    if c < 0 {
        Ordering::Less
    } else if c == 0 {
        Ordering::Equal
    } else {
        Ordering::Greater
    }
}

/// The order of two keys: -1, 0 or 1.
fn key_order_of(a: &Vec<u8>, b: &Vec<u8>) -> (r: i8)
    ensures
        r == key_order(a@, b@),
        -1 <= r <= 1,
{
    proof {
        lemma_lex_antisym(a@, b@);
        assert(a@.skip(0) =~= a@);
        assert(b@.skip(0) =~= b@);
    }
    if a.len() == 0 {
        return -1;
    }
    if b.len() == 0 {
        return 1;
    }
    let mut i: usize = 0;
    while i < a.len() && i < b.len() && a[i] == b[i]
        invariant
            i <= a@.len(),
            i <= b@.len(),
            lex_order(a@, b@) == lex_order(a@.skip(i as int), b@.skip(i as int)),
        decreases a@.len() - i,
    {
        proof {
            assert(a@.skip(i as int).drop_first() =~= a@.skip(i + 1));
            assert(b@.skip(i as int).drop_first() =~= b@.skip(i + 1));
        }
        i = i + 1;
    }
    if i == a.len() {
        if i == b.len() {
            0
        } else {
            -1
        }
    } else if i == b.len() {
        1
    } else if a[i] < b[i] {
        -1
    } else {
        1
    }
}

/// Whether the key of `x` may stand before that of `y`.
fn key_before(x: &named_object, y: &named_object) -> (r: bool)
    ensures
        r == key_le(x.key@, y.key@),
{
    match cmp_key(x, y) {
        Ordering::Greater => false,
        _ => true,
    }
}

/// Sorts named objects by key.
fn sort_named(v: Vec<named_object>) -> (r: Vec<named_object>)
    ensures
        keys_sorted(nviews(r@)),
        nviews(r@).to_multiset() == nviews(v@).to_multiset(),
{
    broadcast use vstd::seq_lib::group_to_multiset_ensures;

    let mut rest = v;
    let mut out: Vec<named_object> = Vec::new();
    let ghost orig = nviews(rest@);
    assert(nviews(out@).to_multiset() =~= vstd::multiset::Multiset::empty());
    while rest.len() > 0
        invariant
            nviews(rest@).to_multiset().add(nviews(out@).to_multiset()) == orig.to_multiset(),
            keys_sorted(nviews(out@)),
            forall|i: int, j: int|
                0 <= i < out@.len() && 0 <= j < rest@.len() ==> key_le(#[trigger] out@[i].key@, #[trigger] rest@[j].key@),
        decreases rest@.len(),
    {
        let mut m: usize = 0;
        let mut k: usize = 1;
        proof {
            lemma_lex_antisym(rest@[0].key@, rest@[0].key@);
        }
        while k < rest.len()
            invariant
                0 <= m < k <= rest@.len(),
                forall|q: int| 0 <= q < k ==> key_le(rest@[m as int].key@, #[trigger] rest@[q].key@),
            decreases rest@.len() - k,
        {
            if !key_before(&rest[m], &rest[k]) {
                    proof {
                        lemma_key_le_total(rest@[m as int].key@, rest@[k as int].key@);
                        assert forall|q: int| 0 <= q < k + 1 implies key_le(rest@[k as int].key@, #[trigger] rest@[q].key@) by {
                            if q < k {
                                lemma_key_le_trans(rest@[k as int].key@, rest@[m as int].key@, rest@[q].key@);
                            } else {
                                lemma_lex_antisym(rest@[k as int].key@, rest@[k as int].key@);
                            }
                        }
                    }
                    m = k;
            }
            k = k + 1;
        }
        let ghost r0 = rest@;
        let ghost o0 = out@;
        let x = rest.remove(m);
        out.push(x);
        proof {
            assert(nviews(rest@) =~= nviews(r0).remove(m as int));
            assert(nviews(out@) =~= nviews(o0).push(nview(x)));
            vstd::seq_lib::to_multiset_remove(nviews(r0), m as int);
            vstd::seq_lib::to_multiset_build(nviews(o0), nview(x));
            assert(nviews(r0).contains(nviews(r0)[m as int]));
            nviews(r0).to_multiset_ensures();
            assert(nviews(rest@).to_multiset().add(nviews(out@).to_multiset()) =~= nviews(r0).to_multiset().add(nviews(o0).to_multiset()));
            assert forall|i: int, j: int| 0 <= i < out@.len() && 0 <= j < rest@.len() implies key_le(
                #[trigger] out@[i].key@,
                #[trigger] rest@[j].key@,
            ) by {
                let jj = if j < m { j } else { j + 1 };
                assert(rest@[j] == r0[jj]);
                if i < o0.len() {
                    assert(out@[i] == o0[i]);
                } else {
                    assert(out@[i] == r0[m as int]);
                }
            }
            let ov = nviews(out@);
            assert forall|i: int, j: int| 0 <= i < j < ov.len() implies key_le(#[trigger] ov[i].0, #[trigger] ov[j].0) by {
                assert(ov[i].0 == out@[i].key@);
                assert(ov[j].0 == out@[j].key@);
                if j < o0.len() {
                    assert(out@[i] == o0[i]);
                    assert(out@[j] == o0[j]);
                    assert(nviews(o0)[i].0 == o0[i].key@);
                    assert(nviews(o0)[j].0 == o0[j].key@);
                } else {
                    assert(out@[i] == o0[i]);
                    assert(out@[j] == r0[m as int]);
                }
            }
        }
    }
    proof {
        assert(nviews(rest@) =~= Seq::<(Seq<u8>, PdfObject)>::empty());
        assert(nviews(rest@).to_multiset() =~= vstd::multiset::Multiset::empty());
        assert(nviews(out@).to_multiset() =~= orig.to_multiset());
    }
    out
}

/// How a byte of a key is shown: a printable byte as itself, any other as
/// `#` and two upper-case hex digits.
pub open spec fn printable_byte(b: u8) -> Seq<u8> {
    if 33 <= b <= 126 {
        seq![b]
    } else {
        seq![35u8, hex_digit(b / 16), hex_digit(b % 16)]
    }
}

/// An upper-case hex digit.
pub open spec fn hex_digit(d: u8) -> u8 {
    if d < 10 {
        (48 + d) as u8
    } else {
        (55 + d) as u8
    }
}

/// How a key is shown.
pub open spec fn printable(s: Seq<u8>) -> Seq<u8>
    decreases s.len(),
{
    if s.len() == 0 {
        Seq::empty()
    } else {
        printable(s.drop_last()) + printable_byte(s.last())
    }
}

/// A key as shown in messages.
pub fn printable_key(key: &[u8]) -> (r: Vec<u8>)
    ensures
        r@ == printable(key@),
{
    let mut r: Vec<u8> = Vec::new();
    let mut i: usize = 0;
    while i < key.len()
        invariant
            i <= key@.len(),
            r@ == printable(key@.take(i as int)),
        decreases key@.len() - i,
    {
        let b = key[i];
        if 33 <= b && b <= 126 {
            r.push(b);
        } else {
            r.push(35);
            let hi = b / 16;
            let lo = b % 16;
            r.push(if hi < 10 { 48 + hi } else { 55 + hi });
            r.push(if lo < 10 { 48 + lo } else { 55 + lo });
        }
        proof {
            assert(key@.take(i + 1).drop_last() =~= key@.take(i as int));
            assert(r@ =~= printable(key@.take(i as int)) + printable_byte(b));
        }
        i = i + 1;
    }
    proof {
        assert(key@.take(key@.len() as int) =~= key@);
    }
    r
}

/// The first replacement key that `filter` gives for `key`, if any.
pub open spec fn filter_lookup(f: Seq<(Seq<u8>, Seq<u8>)>, key: Seq<u8>) -> Option<Seq<u8>>
    decreases f.len(),
{
    if f.len() == 0 {
        None
    } else if f[0].0 == key {
        Some(f[0].1)
    } else {
        filter_lookup(f.drop_first(), key)
    }
}

/// An object as it goes into a name tree: a placeholder never defined
/// becomes a new null object.
pub open spec fn flat_object(o: PdfObject) -> PdfObject {
    if o.kind == ObjKind::Undefined {
        PdfObject { kind: ObjKind::Null, label: None }
    } else {
        o
    }
}

/// The objects of a table that go into a name tree, in table order. With a
/// filter, only the keys it names go in, under the key it gives them.
pub open spec fn flat_spec(s: Seq<(Seq<u8>, obj_data)>, filter: Option<Seq<(Seq<u8>, Seq<u8>)>>) -> Seq<(Seq<u8>, PdfObject)>
    decreases s.len(),
{
    if s.len() == 0 {
        Seq::empty()
    } else {
        let rest = flat_spec(s.drop_last(), filter);
        let e = s.last();
        match filter {
            None => rest.push((e.0, flat_object(e.1.object))),
            Some(f) => match filter_lookup(f, e.0) {
                None => rest,
                Some(k) => rest.push((k, flat_object(e.1.object))),
            },
        }
    }
}

/// The pairs of a filter, as plain values.
pub open spec fn pairs_view(f: Seq<(Vec<u8>, Vec<u8>)>) -> Seq<(Seq<u8>, Seq<u8>)> {
    f.map_values(|p: (Vec<u8>, Vec<u8>)| (p.0@, p.1@))
}

fn filter_find(f: &Vec<(Vec<u8>, Vec<u8>)>, key: &Vec<u8>) -> (r: Option<Vec<u8>>)
    ensures
        match r {
            Some(k) => filter_lookup(pairs_view(f@), key@) == Some(k@),
            None => filter_lookup(pairs_view(f@), key@) is None,
        },
{
    let n = f.len();
    let mut i: usize = 0;
    proof {
        assert(pairs_view(f@).skip(0) =~= pairs_view(f@));
    }
    while i < n
        invariant
            i <= n,
            n == f@.len(),
            filter_lookup(pairs_view(f@), key@) == filter_lookup(pairs_view(f@).skip(i as int), key@),
        decreases n - i,
    {
        proof {
            assert(pairs_view(f@).skip(i as int)[0] == (f@[i as int].0@, f@[i as int].1@));
            assert(pairs_view(f@).skip(i as int).drop_first() =~= pairs_view(f@).skip(i + 1));
        }
        if bytes_equal(&f[i].0, key) {
            return Some(f[i].1.clone());
        }
        i = i + 1;
    }
    proof {
        assert(pairs_view(f@).skip(n as int) =~= Seq::<(Seq<u8>, Seq<u8>)>::empty());
    }
    None
}

/// The objects of the table that go into a name tree (see `flat_spec`).
pub fn flat_table(ht_tab: &NameTable, filter: Option<&Vec<(Vec<u8>, Vec<u8>)>>) -> (r: Vec<named_object>)
    ensures
        nviews(r@) == flat_spec(ht_tab.view(), match filter { Some(f) => Some(pairs_view(f@)), None => None }),
{
    let ghost fv = match filter { Some(f) => Some(pairs_view(f@)), None => None::<Seq<(Seq<u8>, Seq<u8>)>> };
    let n = ht_tab.entries.len();
    let mut objects: Vec<named_object> = Vec::new();
    let mut i: usize = 0;
    proof {
        assert(ht_tab.view().take(0) =~= Seq::<(Seq<u8>, obj_data)>::empty());
        assert(nviews(objects@) =~= Seq::<(Seq<u8>, PdfObject)>::empty());
    }
    while i < n
        invariant
            i <= n,
            n == ht_tab.entries@.len(),
            n == ht_tab.view().len(),
            fv == match filter { Some(f) => Some(pairs_view(f@)), None => None::<Seq<(Seq<u8>, Seq<u8>)>> },
            nviews(objects@) == flat_spec(ht_tab.view().take(i as int), fv),
        decreases n - i,
    {
        let e = &ht_tab.entries[i];
        assert(ht_tab.view()[i as int] == (e.key@, e.value));
        assert(ht_tab.view().take(i + 1).drop_last() =~= ht_tab.view().take(i as int));
        let key: Option<Vec<u8>> = match filter {
            Some(f) => filter_find(f, &e.key),
            None => Some(e.key.clone()),
        };
        match key {
            Some(k) => {
                let value = if e.value.object.kind == ObjKind::Undefined {
                    PdfObject { kind: ObjKind::Null, label: None }
                } else {
                    e.value.object
                };
                let ghost before = objects@;
                objects.push(named_object { key: k, value });
                proof {
                    assert(nviews(objects@) =~= nviews(before).push(nview(objects@.last())));
                }
            },
            None => {},
        }
        i = i + 1;
    }
    proof {
        assert(ht_tab.view().take(n as int) =~= ht_tab.view());
    }
    objects
}

/// How an object stands in a leaf of a name tree: arrays, dictionaries,
/// streams and strings by reference, the rest directly.
pub enum TreeValue {
    Ref(PdfObject),
    Direct(PdfObject),
}

/// What a node of a name tree holds besides its limits.
pub enum NameTreeBody {
    /// An empty root.
    Empty,
    /// A leaf: keys and their objects.
    Names(Vec<(Vec<u8>, TreeValue)>),
    /// An intermediate node: four subtrees.
    Kids(Vec<NameTreeNode>),
}

/// A node of a name tree. Every node but the root holds the first and
/// last key below it.
pub struct NameTreeNode {
    pub limits: Option<(Vec<u8>, Vec<u8>)>,
    pub body: NameTreeBody,
}

pub open spec fn tree_value(o: PdfObject) -> TreeValue {
    match o.kind {
        ObjKind::Array | ObjKind::Dict | ObjKind::Stream | ObjKind::String => TreeValue::Ref(o),
        _ => TreeValue::Direct(o),
    }
}

pub open spec fn leaf_views(v: Seq<(Vec<u8>, TreeValue)>) -> Seq<(Seq<u8>, TreeValue)> {
    v.map_values(|p: (Vec<u8>, TreeValue)| (p.0@, p.1))
}

pub open spec fn leaf_entries(s: Seq<(Seq<u8>, PdfObject)>) -> Seq<(Seq<u8>, TreeValue)> {
    s.map_values(|e: (Seq<u8>, PdfObject)| (e.0, tree_value(e.1)))
}

/// Where part `i` of four of a list of length `n` starts: at `i * n / 4`.
pub open spec fn quarter_start(n: int, i: int) -> int {
    if i <= 0 {
        0
    } else if i == 1 {
        n / 4
    } else if i == 2 {
        (2 * n) / 4
    } else if i == 3 {
        (3 * n) / 4
    } else {
        n
    }
}

/// Part `i` of four of `s`.
pub open spec fn quarter<A>(s: Seq<A>, i: int) -> Seq<A> {
    s.subrange(quarter_start(s.len() as int, i), quarter_start(s.len() as int, i + 1))
}

/// Whether `node` is the name tree of the objects `s`, in their order: up
/// to eight objects make a leaf, more make a node of four subtrees over the
/// four quarters of `s`, and a root holds no limits.
pub open spec fn node_ok(node: NameTreeNode, s: Seq<(Seq<u8>, PdfObject)>, is_root: bool) -> bool
    decreases s.len(),
{
    &&& if is_root {
        node.limits is None
    } else {
        node.limits matches Some(l) && l.0@ == s[0].0 && l.1@ == s.last().0
    }
    &&& if s.len() == 0 {
        node.body is Empty
    } else if s.len() <= 8 {
        node.body matches NameTreeBody::Names(v) && leaf_views(v@) == leaf_entries(s)
    } else {
        node.body matches NameTreeBody::Kids(k) && k@.len() == 4 && node_ok(k@[0], quarter(s, 0), false)
            && node_ok(k@[1], quarter(s, 1), false) && node_ok(k@[2], quarter(s, 2), false)
            && node_ok(k@[3], quarter(s, 3), false)
    }
}

fn tree_value_of(o: PdfObject) -> (r: TreeValue)
    ensures
        r == tree_value(o),
{
    match o.kind {
        ObjKind::Array | ObjKind::Dict | ObjKind::Stream | ObjKind::String => TreeValue::Ref(o),
        _ => TreeValue::Direct(o),
    }
}

fn leaf_list(objs: &Vec<named_object>, start: usize, end: usize) -> (r: Vec<(Vec<u8>, TreeValue)>)
    requires
        start <= end <= objs@.len(),
    ensures
        leaf_views(r@) == leaf_entries(nviews(objs@).subrange(start as int, end as int)),
{
    let ghost s = nviews(objs@).subrange(start as int, end as int);
    let mut leaves: Vec<(Vec<u8>, TreeValue)> = Vec::new();
    let mut i: usize = start;
    proof {
        assert(leaf_views(leaves@) =~= leaf_entries(s.take(0)));
    }
    while i < end
        invariant
            start <= i <= end <= objs@.len(),
            s == nviews(objs@).subrange(start as int, end as int),
            leaf_views(leaves@) == leaf_entries(s.take(i - start)),
        decreases end - i,
    {
        let o = &objs[i];
        leaves.push((o.key.clone(), tree_value_of(o.value)));
        proof {
            assert(s[i - start] == nview(objs@[i as int]));
            assert(leaf_entries(s.take(i + 1 - start)) =~= leaf_entries(s.take(i - start)).push((s[i - start].0, tree_value(s[i - start].1))));
            assert(leaf_views(leaves@) =~= leaf_views(leaves@.drop_last()).push((leaves@.last().0@, leaves@.last().1)));
        }
        i = i + 1;
    }
    proof {
        assert(s.take(end - start) =~= s);
    }
    leaves
}

proof fn lemma_quarters(n: int)
    requires
        n > 8,
    ensures
        quarter_start(n, 1) == n / 4,
        quarter_start(n, 2) == n / 2,
        quarter_start(n, 3) == n - n / 4 - (if n % 4 == 0 { 0int } else { 1int }),
        0 < n / 4 < n / 2 < n - n / 4 - (if n % 4 == 0 { 0int } else { 1int }) < n,
{
}

fn build_range(objs: &Vec<named_object>, start: usize, end: usize, is_root: bool) -> (r: NameTreeNode)
    requires
        start <= end <= objs@.len(),
        is_root || start < end,
    ensures
        node_ok(r, nviews(objs@).subrange(start as int, end as int), is_root),
    decreases end - start, 1int,
{
    let ghost s = nviews(objs@).subrange(start as int, end as int);
    let limits = if is_root {
        None
    } else {
        assert(s[0] == nview(objs@[start as int]));
        assert(s.last() == nview(objs@[end - 1]));
        Some((objs[start].key.clone(), objs[end - 1].key.clone()))
    };
    let n = end - start;
    let body = if n == 0 {
        NameTreeBody::Empty
    } else if n <= 8 {
        NameTreeBody::Names(leaf_list(objs, start, end))
    } else {
        NameTreeBody::Kids(build_kids(objs, start, end))
    };
    NameTreeNode { limits, body }
}

#[verifier::rlimit(30)]
fn build_kids(objs: &Vec<named_object>, start: usize, end: usize) -> (r: Vec<NameTreeNode>)
    requires
        start <= end <= objs@.len(),
        end - start > 8,
    ensures
        ({
            let s = nviews(objs@).subrange(start as int, end as int);
            &&& r@.len() == 4
            &&& node_ok(r@[0], quarter(s, 0), false)
            &&& node_ok(r@[1], quarter(s, 1), false)
            &&& node_ok(r@[2], quarter(s, 2), false)
            &&& node_ok(r@[3], quarter(s, 3), false)
        }),
    decreases end - start, 0int,
{
    let ghost s = nviews(objs@).subrange(start as int, end as int);
    let n = end - start;
    let q1 = n / 4;
    let q2 = n / 2;
    let q3 = n - n / 4 - if n % 4 == 0 { 0 } else { 1 };
    proof {
        lemma_quarters(n as int);
    }
    let k0 = build_range(objs, start, start + q1, false);
    let k1 = build_range(objs, start + q1, start + q2, false);
    let k2 = build_range(objs, start + q2, start + q3, false);
    let k3 = build_range(objs, start + q3, end, false);
    proof {
        let all = nviews(objs@);
        assert(quarter(s, 0) =~= all.subrange(start as int, start + q1));
        assert(quarter(s, 1) =~= all.subrange(start + q1, start + q2));
        assert(quarter(s, 2) =~= all.subrange(start + q2, start + q3));
        assert(quarter(s, 3) =~= all.subrange(start + q3, end as int));
    }
    let mut kids: Vec<NameTreeNode> = Vec::new();
    kids.push(k0);
    kids.push(k1);
    kids.push(k2);
    kids.push(k3);
    kids
}

/// The name tree of `nobjects`, in their order (see `node_ok`).
pub fn build_name_tree(nobjects: &Vec<named_object>, is_root: bool) -> (r: NameTreeNode)
    requires
        is_root || nobjects@.len() > 0,
    ensures
        node_ok(r, nviews(nobjects@), is_root),
{
    let r = build_range(nobjects, 0, nobjects.len(), is_root);
    proof {
        assert(nviews(nobjects@).subrange(0, nobjects@.len() as int) =~= nviews(nobjects@));
    }
    r
}

/// The name tree of a table, with its keys sorted, and the number of
/// objects in it; no tree where there are none.
pub fn pdf_names_create_tree(names: &NameTable, filter: Option<&Vec<(Vec<u8>, Vec<u8>)>>) -> (r: (Option<NameTreeNode>, i32))
    ensures
        ({
            let flat = flat_spec(names.view(), match filter { Some(f) => Some(pairs_view(f@)), None => None });
            &&& r.1 == flat.len() as i32
            &&& (r.0 is None <==> flat.len() == 0)
            &&& (r.0 matches Some(t) ==> exists|s: Seq<(Seq<u8>, PdfObject)>|
                s.to_multiset() == flat.to_multiset() && keys_sorted(s) && #[trigger] node_ok(t, s, true))
        }),
{
    let flat = flat_table(names, filter);
    let len = flat.len();
    if len == 0 {
        (None, 0)
    } else {
        let sorted = sort_named(flat);
        let tree = build_name_tree(&sorted, true);
        proof {
            assert(nviews(sorted@).to_multiset().len() == nviews(sorted@).len()) by {
                vstd::seq_lib::to_multiset_len(nviews(sorted@));
                vstd::seq_lib::to_multiset_len(nviews(flat@));
            }
        }
        (Some(tree), len as i32)
    }
}

} // verus!
