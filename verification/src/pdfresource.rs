//! Named PDF resources (fonts, color spaces, patterns, ...), kept per
//! category and addressed by an id that packs the category and the position.
use vstd::prelude::*;

verus! {

/// The categories, in the order of their ids.
pub open spec fn category_name(i: int) -> Seq<u8> {
    if i == 0 {
        seq![70u8, 111, 110, 116]  // Font
    } else if i == 1 {
        seq![67u8, 73, 68, 70, 111, 110, 116]  // CIDFont
    } else if i == 2 {
        seq![69u8, 110, 99, 111, 100, 105, 110, 103]  // Encoding
    } else if i == 3 {
        seq![67u8, 77, 97, 112]  // CMap
    } else if i == 4 {
        seq![88u8, 79, 98, 106, 101, 99, 116]  // XObject
    } else if i == 5 {
        seq![67u8, 111, 108, 111, 114, 83, 112, 97, 99, 101]  // ColorSpace
    } else if i == 6 {
        seq![83u8, 104, 97, 100, 105, 110, 103]  // Shading
    } else if i == 7 {
        seq![80u8, 97, 116, 116, 101, 114, 110]  // Pattern
    } else {
        seq![69u8, 120, 116, 71, 83, 116, 97, 116, 101]  // ExtGState
    }
}

pub const NUM_CATEGORIES: usize = 9;

fn category_name_bytes(i: usize) -> (r: Vec<u8>)
    requires
        i < NUM_CATEGORIES,
    ensures
        r@ == category_name(i as int),
{
    let r = if i == 0 {
        vec![70u8, 111, 110, 116]
    } else if i == 1 {
        vec![67u8, 73, 68, 70, 111, 110, 116]
    } else if i == 2 {
        vec![69u8, 110, 99, 111, 100, 105, 110, 103]
    } else if i == 3 {
        vec![67u8, 77, 97, 112]
    } else if i == 4 {
        vec![88u8, 79, 98, 106, 101, 99, 116]
    } else if i == 5 {
        vec![67u8, 111, 108, 111, 114, 83, 112, 97, 99, 101]
    } else if i == 6 {
        vec![83u8, 104, 97, 100, 105, 110, 103]
    } else if i == 7 {
        vec![80u8, 97, 116, 116, 101, 114, 110]
    } else {
        vec![69u8, 120, 116, 71, 83, 116, 97, 116, 101]
    };
    assert(r@ =~= category_name(i as int));
    r
}

fn bytes_eq(a: &[u8], b: &[u8]) -> (r: bool)
    ensures
        r == (a@ == b@),
{
    if a.len() != b.len() {
        return false;
    }
    let mut k: usize = 0;
    while k < a.len()
        invariant
            a@.len() == b@.len(),
            k <= a@.len(),
            forall|j: int| 0 <= j < k ==> a@[j] == b@[j],
        decreases a@.len() - k,
    {
        if a[k] != b[k] {
            return false;
        }
        k = k + 1;
    }
    assert(a@ =~= b@);
    true
}

/// The id of a category, or -1.
pub open spec fn category_id(name: Seq<u8>) -> int {
    if exists|i: int| 0 <= i < 9 && category_name(i) == name {
        choose|i: int| 0 <= i < 9 && category_name(i) == name
    } else {
        -1
    }
}

proof fn lemma_category_names_distinct(i: int, j: int)
    requires
        0 <= i < 9,
        0 <= j < 9,
        i != j,
    ensures
        category_name(i) != category_name(j),
{
    if category_name(i) == category_name(j) {
        assert(category_name(i).len() == category_name(j).len());
        assert(category_name(i)[0] == category_name(j)[0]);
        assert(category_name(i)[1] == category_name(j)[1]);
    }
}

/// The id of the category called `category`, or -1.
pub fn get_category(category: &[u8]) -> (r: i32)
    ensures
        r == category_id(category@),
{
    let mut i: usize = 0;
    while i < NUM_CATEGORIES
        invariant
            i <= NUM_CATEGORIES,
            forall|j: int| 0 <= j < i ==> category_name(j) != category@,
        decreases NUM_CATEGORIES - i,
    {
        let name = category_name_bytes(i);
        if bytes_eq(category, name.as_slice()) {
            proof {
                let c = choose|c: int| 0 <= c < 9 && category_name(c) == category@;
                if c != i {
                    lemma_category_names_distinct(c, i as int);
                }
            }
            return i as i32;
        }
        i = i + 1;
    }
    -1
}

/// A resource id: the category in the high 16 bits, the position in the low.
pub open spec fn resource_id(cat_id: int, res_id: int) -> int {
    cat_id * 65536 + res_id
}

/// One named resource. Objects are identified by their labels.
pub struct pdf_res {
    pub ident: Vec<u8>,
    pub flags: i32,
    pub category: i32,
    /// The object itself, until it is flushed.
    pub object: Option<u32>,
    /// The indirect reference to the object, once made.
    pub reference: Option<u32>,
}

/// All resources, per category.
pub struct ResourceStore {
    resources: Vec<Vec<pdf_res>>,
}

impl ResourceStore {
    pub closed spec fn view(&self) -> Seq<Seq<pdf_res>> {
        self.resources@.map_values(|v: Vec<pdf_res>| v@)
    }

    pub open spec fn wf(&self) -> bool {
        &&& self.view().len() == NUM_CATEGORIES
        &&& forall|c: int| 0 <= c < NUM_CATEGORIES ==> #[trigger] self.view()[c].len() <= 65536
    }

    /// The position of the first resource named `name` in category `c`, or -1.
    pub open spec fn find_spec(&self, c: int, name: Seq<u8>) -> int {
        find_named(self.view()[c], name)
    }

    /// The id under which `name` is found in category `c`, or -1.
    pub open spec fn found_id(&self, c: int, name: Seq<u8>) -> int {
        let i = self.find_spec(c, name);
        if i < 0 {
            -1
        } else {
            resource_id(c, i)
        }
    }

    pub proof fn lemma_find_spec_bound(&self, c: int, name: Seq<u8>)
        requires
            0 <= c < self.view().len(),
        ensures
            -1 <= self.find_spec(c, name) < self.view()[c].len(),
            self.find_spec(c, name) >= 0 ==> self.view()[c][self.find_spec(c, name)].ident@ == name,
    {
        lemma_find_named(self.view()[c], name);
    }

    /// No resources yet.
    pub fn pdf_init_resources() -> (r: ResourceStore)
        ensures
            r.wf(),
            forall|c: int| 0 <= c < NUM_CATEGORIES ==> #[trigger] r.view()[c].len() == 0,
    {
        let mut resources: Vec<Vec<pdf_res>> = Vec::new();
        let mut i: usize = 0;
        while i < NUM_CATEGORIES
            invariant
                i <= NUM_CATEGORIES,
                resources@.len() == i,
                forall|c: int| 0 <= c < i ==> #[trigger] resources@[c]@.len() == 0,
            decreases NUM_CATEGORIES - i,
        {
            resources.push(Vec::new());
            i = i + 1;
        }
        ResourceStore { resources }
    }

    /// Drops all resources.
    pub fn pdf_close_resources(&mut self)
        ensures
            final(self).wf(),
            forall|c: int| 0 <= c < NUM_CATEGORIES ==> #[trigger] final(self).view()[c].len() == 0,
    {
        *self = ResourceStore::pdf_init_resources();
    }

    fn find_in(&self, cat: usize, name: &[u8]) -> (r: i32)
        requires
            self.wf(),
            cat < NUM_CATEGORIES,
        ensures
            r == self.find_spec(cat as int, name@),
    {
        let list = &self.resources[cat];
        assert(list@ == self.view()[cat as int]);
        let mut i: usize = 0;
        while i < list.len()
            invariant
                list@ == self.view()[cat as int],
                list@.len() <= 65536,
                i <= list@.len(),
                forall|k: int| 0 <= k < i ==> list@[k].ident@ != name@,
            decreases list@.len() - i,
        {
            if bytes_eq(list[i].ident.as_slice(), name) {
                proof {
                    lemma_find_named_unique(list@, name@, i as int);
                }
                return i as i32;
            }
            i = i + 1;
        }
        proof {
            lemma_find_named(list@, name@);
        }
        -1
    }

    /// The id of the resource `resname` of `category`, or -1 where there is
    /// none.
    pub fn pdf_findresource(&self, category: &[u8], resname: &[u8]) -> (r: i32)
        requires
            self.wf(),
            category_id(category@) >= 0,
        ensures
            r == self.found_id(category_id(category@), resname@),
    {
        let cat_id = get_category(category);
        let res_id = self.find_in(cat_id as usize, resname);
        proof {
            lemma_category_id_bound(category@);
            self.lemma_find_spec_bound(cat_id as int, resname@);
        }
        if res_id < 0 {
            -1
        } else {
            cat_id * 65536 + res_id
        }
    }

    /// Defines resource `resname` of `category` with `object`. With bit 0 of
    /// `flags` set the resource keeps only a reference to the object. A name
    /// defined before is redefined in place. Returns the resource id, the one
    /// under which `pdf_findresource` then finds `resname` (`found_id`). A
    /// category holds at most 65536 resources: the id keeps the position in
    /// its low 16 bits, which `pdf_get_resource_reference` reads back.
    #[verifier::rlimit(40)]
    pub fn pdf_defineresource(&mut self, category: &[u8], resname: &[u8], object: u32, flags: i32) -> (r: i32)
        requires
            old(self).wf(),
            category_id(category@) >= 0,
            old(self).find_spec(category_id(category@), resname@) < 0 ==> old(self).view()[category_id(
                category@,
            )].len() < 65536,
        ensures
            final(self).wf(),
            ({
                let c = category_id(category@);
                let i = old(self).find_spec(c, resname@);
                let n = old(self).view()[c].len();
                let res = pdf_res_spec(final(self).view()[c][if i < 0 { n as int } else { i }]);
                &&& r == resource_id(c, if i < 0 { n as int } else { i })
                &&& res.0 == resname@
                &&& res.1 == flags
                &&& res.2 == c
                &&& res.3 == if flags & 1 != 0 { None } else { Some(object) }
                &&& res.4 == if flags & 1 != 0 { Some(object) } else { None }
                &&& final(self).view()[c].len() as int == if i < 0 { n as int + 1 } else { n as int }
                &&& forall|k: int| 0 <= k < n && k != i ==> #[trigger] final(self).view()[c][k] == old(self).view()[c][k]
                &&& forall|d: int| 0 <= d < NUM_CATEGORIES && d != c ==> #[trigger] final(self).view()[d] == old(self).view()[d]
                &&& final(self).find_spec(c, resname@) == if i < 0 { n as int } else { i }
                &&& r == final(self).found_id(c, resname@)
            }),
    {
        let cat_id = get_category(category);
        let c = cat_id as usize;
        let res_id = self.find_in(c, resname);
        proof {
            lemma_category_id_bound(category@);
            self.lemma_find_spec_bound(cat_id as int, resname@);
        }
        let ghost old_view = self.view();
        let mut list: Vec<pdf_res> = Vec::new();
        std::mem::swap(&mut list, &mut self.resources[c]);
        assert(list@ == old_view[c as int]);
        assert(res_id < list@.len());
        let (object_field, reference_field) = if flags & 1 != 0 {
            (None, Some(object))
        } else {
            (Some(object), None)
        };
        let mut ident: Vec<u8> = Vec::new();
        let mut k: usize = 0;
        while k < resname.len()
            invariant
                k <= resname@.len(),
                ident@ == resname@.take(k as int),
            decreases resname@.len() - k,
        {
            ident.push(resname[k]);
            k = k + 1;
        }
        assert(ident@ =~= resname@);
        let new_res = pdf_res {
            ident,
            flags,
            category: cat_id,
            object: object_field,
            reference: reference_field,
        };
        let idx: usize;
        if res_id >= 0 {
            idx = res_id as usize;
            list.set(idx, new_res);
        } else {
            idx = list.len();
            list.push(new_res);
        }
        let ghost new_list = list@;
        std::mem::swap(&mut list, &mut self.resources[c]);
        proof {
            assert(self.view()[c as int] == new_list);
            assert forall|d: int| 0 <= d < NUM_CATEGORIES && d != c implies #[trigger] self.view()[d] == old_view[d] by {}
            let s = self.view()[c as int];
            let os = old_view[c as int];
            lemma_find_named(os, resname@);
            assert forall|q: int| 0 <= q < idx implies s[q].ident@ != resname@ by {
                assert(s[q] == os[q]);
            }
            lemma_find_named_unique(s, resname@, idx as int);
        }
        cat_id * 65536 + idx as i32
    }

    /// The object that resource `rc_id` refers to; the reference is made on
    /// first use.
    pub fn pdf_get_resource_reference(&mut self, rc_id: i32) -> (r: u32)
        requires
            old(self).wf(),
            rc_id >= 0,
            rc_id / 65536 < NUM_CATEGORIES,
            rc_id % 65536 < old(self).view()[rc_id as int / 65536].len(),
            ({
                let res = old(self).view()[rc_id as int / 65536][rc_id as int % 65536];
                res.reference is Some || res.object is Some
            }),
        ensures
            final(self).wf(),
            ({
                let c = rc_id as int / 65536;
                let i = rc_id as int % 65536;
                let res = old(self).view()[c][i];
                &&& r == match res.reference {
                    Some(x) => x,
                    None => res.object.unwrap(),
                }
                &&& final(self).view()[c][i].reference == Some(r)
            }),
    {
        let c = (rc_id / 65536) as usize;
        let i = (rc_id % 65536) as usize;
        let ghost old_view = self.view();
        let mut list: Vec<pdf_res> = Vec::new();
        std::mem::swap(&mut list, &mut self.resources[c]);
        assert(list@ == old_view[c as int]);
        let r = match list[i].reference {
            Some(x) => x,
            None => {
                let o = list[i].object.unwrap();
                list[i].reference = Some(o);
                o
            },
        };
        std::mem::swap(&mut list, &mut self.resources[c]);
        proof {
            assert forall|d: int| 0 <= d < NUM_CATEGORIES implies #[trigger] self.view()[d].len() <= 65536 by {
                if d != c {
                    assert(self.view()[d] == old_view[d]);
                }
            }
        }
        r
    }
}

/// The position of the first resource of `s` named `name`, or -1.
pub open spec fn find_named(s: Seq<pdf_res>, name: Seq<u8>) -> int
    decreases s.len(),
{
    if s.len() == 0 {
        -1
    } else {
        let r = find_named(s.drop_last(), name);
        if r >= 0 {
            r
        } else if s.last().ident@ == name {
            s.len() - 1
        } else {
            -1
        }
    }
}

pub proof fn lemma_find_named(s: Seq<pdf_res>, name: Seq<u8>)
    ensures
        -1 <= find_named(s, name) < s.len(),
        find_named(s, name) >= 0 ==> s[find_named(s, name)].ident@ == name,
        forall|k: int| 0 <= k < s.len() && (find_named(s, name) < 0 || k < find_named(s, name)) ==> s[k].ident@ != name,
    decreases s.len(),
{
    if s.len() > 0 {
        let t = s.drop_last();
        lemma_find_named(t, name);
        assert forall|k: int| 0 <= k < t.len() implies t[k] == s[k] by {}
    }
}

proof fn lemma_find_named_unique(s: Seq<pdf_res>, name: Seq<u8>, i: int)
    requires
        0 <= i < s.len(),
        s[i].ident@ == name,
        forall|k: int| 0 <= k < i ==> s[k].ident@ != name,
    ensures
        find_named(s, name) == i,
{
    lemma_find_named(s, name);
    let r = find_named(s, name);
    if r < 0 {
        assert(s[i].ident@ != name);
    } else if r < i {
        assert(s[r].ident@ != name);
    } else if i < r {
        assert(s[i].ident@ != name);
    }
}

proof fn lemma_category_id_bound(name: Seq<u8>)
    ensures
        -1 <= category_id(name) < 9,
{
}

/// The fields of a resource, as plain values.
pub open spec fn pdf_res_spec(r: pdf_res) -> (Seq<u8>, i32, i32, Option<u32>, Option<u32>) {
    (r.ident@, r.flags, r.category, r.object, r.reference)
}

/// A resource id names its category and position again.
pub proof fn law_resource_id_roundtrip(cat_id: int, res_id: int)
    requires
        0 <= cat_id < NUM_CATEGORIES,
        0 <= res_id < 65536,
    ensures
        resource_id(cat_id, res_id) / 65536 == cat_id,
        resource_id(cat_id, res_id) % 65536 == res_id,
{
}

} // verus!
