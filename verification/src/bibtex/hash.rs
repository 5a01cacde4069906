//! BibTeX's hash table: every string that the program knows (a command, a
//! field name, a cite key, a function, ...) is stored once per kind (its
//! "ilk") in a table with coalesced chaining, and its text once in a pool
//! of strings.
use vstd::prelude::*;
use crate::bibtex::text::lemma_vec_len;

verus! {

/// Whether `n` is a prime number.
pub open spec fn is_prime(n: int) -> bool {
    n >= 2 && forall|d: int| 2 <= d < n ==> #[trigger] (n % d) != 0
}

fn is_prime_exec(n: i32) -> (r: bool)
    requires
        n >= 2,
    ensures
        r == is_prime(n as int),
{
    let mut d: i32 = 2;
    while d < n
        invariant
            2 <= d <= n,
            forall|e: int| 2 <= e < d ==> #[trigger] (n as int % e) != 0,
        decreases n - d,
    {
        if n % d == 0 {
            return false;
        }
        d = d + 1;
    }
    true
}

/// The prime that the hash function of a table of `hash_size` entries
/// divides by: the smallest prime not below 17/20 of the size (rounded
/// down to a multiple of 17), searched up to `i32::MAX`.
pub fn compute_hash_prime(hash_size: i32) -> (r: i32)
    requires
        hash_size >= 0,
    ensures
        ({
            let want = if hash_size / 20 * 17 < 2 { 2 } else { hash_size / 20 * 17 };
            &&& r >= want
            &&& is_prime(r as int) || r == i32::MAX
            &&& forall|q: int| want <= q < r ==> !is_prime(q)
        }),
{
    let hash_want = hash_size / 20 * 17;
    let mut c: i32 = if hash_want < 2 { 2 } else { hash_want };
    let ghost want = c as int;
    while c < i32::MAX && !is_prime_exec(c)
        invariant
            2 <= want <= c,
            forall|q: int| want <= q < c ==> !is_prime(q),
        decreases i32::MAX - c,
    {
        c = c + 1;
    }
    c
}

/// The hash of a string: each byte is added to twice the hash so far,
/// modulo `prime`.
pub open spec fn hash_str(s: Seq<u8>, prime: int) -> int
    decreases s.len(),
{
    if s.len() == 0 {
        0
    } else {
        (2 * hash_str(s.drop_last(), prime) + s.last()) % prime
    }
}

/// The slot where the chain of a string starts.
pub open spec fn bucket(s: Seq<u8>, prime: int) -> int {
    hash_str(s, prime) + 1
}

/// Whether slot `to` is reached from slot `from` by following at most
/// `fuel` links.
pub open spec fn reaches(next: Seq<usize>, from: int, to: int, fuel: nat) -> bool
    decreases fuel,
{
    if from == to {
        true
    } else if fuel == 0 {
        false
    } else if 0 <= from < next.len() && next[from] != 0 {
        reaches(next, next[from] as int, to, (fuel - 1) as nat)
    } else {
        false
    }
}

/// A chain has one end: two slots without a link, both reached from
/// `from`, are the same.
proof fn lemma_one_end(next: Seq<usize>, from: int, p1: int, f1: nat, p2: int, f2: nat)
    requires
        0 <= p1 < next.len(),
        0 <= p2 < next.len(),
        next[p1] == 0,
        next[p2] == 0,
        reaches(next, from, p1, f1),
        reaches(next, from, p2, f2),
    ensures
        p1 == p2,
    decreases f1,
{
    if from != p1 && from != p2 {
        lemma_one_end(next, next[from] as int, p1, (f1 - 1) as nat, p2, (f2 - 1) as nat);
    }
}

/// A link added at the end of a chain keeps every path.
proof fn lemma_reaches_link(next: Seq<usize>, p: int, u: usize, from: int, to: int, fuel: nat)
    requires
        0 <= p < next.len(),
        next[p] == 0,
        reaches(next, from, to, fuel),
    ensures
        reaches(next.update(p, u), from, to, fuel),
    decreases fuel,
{
    if from != to {
        lemma_reaches_link(next, p, u, next[from] as int, to, (fuel - 1) as nat);
    }
}

/// A link added at the end of a chain extends the paths to its end.
proof fn lemma_reaches_extend(next: Seq<usize>, p: int, u: usize, from: int, fuel: nat)
    requires
        0 <= p < next.len(),
        next[p] == 0,
        u != 0,
        reaches(next, from, p, fuel),
    ensures
        reaches(next.update(p, u), from, u as int, fuel + 1),
    decreases fuel,
{
    let n2 = next.update(p, u);
    if from == u as int {
    } else if from == p {
        assert(n2[p] == u);
        assert(reaches(n2, u as int, u as int, fuel));
    } else {
        lemma_reaches_extend(next, p, u, next[from] as int, (fuel - 1) as nat);
        assert(n2[from] == next[from]);
    }
}

/// The strings of a BibTeX run, each stored once per kind.
pub struct StrTable {
    hash_prime: usize,
    hash_max: usize,
    next: Vec<usize>,
    text: Vec<usize>,
    ilk: Vec<u8>,
    info: Vec<i32>,
    used: usize,
    strings: Vec<Vec<u8>>,
    rank: Ghost<Seq<int>>,
    time: Ghost<int>,
}

impl StrTable {
    /// The number of slots.
    pub closed spec fn max(&self) -> int {
        self.hash_max as int
    }

    /// Whether slot `k` holds a string.
    pub closed spec fn occupied(&self, k: int) -> bool {
        1 <= k <= self.hash_max && self.text@[k] != 0
    }

    /// The number of the string in slot `k`.
    pub closed spec fn text_of(&self, k: int) -> int {
        self.text@[k] as int
    }

    /// The kind of the string in slot `k`.
    pub closed spec fn ilk_of(&self, k: int) -> u8 {
        self.ilk@[k]
    }

    /// What the program keeps with the string in slot `k` (`ilk_info`).
    pub closed spec fn info_of(&self, k: int) -> i32 {
        self.info@[k]
    }

    /// The slots that hold a string.
    pub closed spec fn taken(&self) -> Set<int> {
        Set::new(|k: int| self.occupied(k))
    }

    /// The number of strings held.
    pub open spec fn size(&self) -> nat {
        self.taken().len()
    }

    /// The pool of strings, by number (number 0 is not used).
    pub closed spec fn string_view(&self) -> Seq<Seq<u8>> {
        self.strings@.map_values(|v: Vec<u8>| v@)
    }

    /// The string and kind in slot `k`.
    pub closed spec fn entry(&self, k: int) -> (Seq<u8>, u8) {
        (self.strings@[self.text@[k] as int]@, self.ilk@[k])
    }

    /// The slot of each string and kind that the table holds.
    pub closed spec fn view(&self) -> Map<(Seq<u8>, u8), int> {
        Map::new(
            |e: (Seq<u8>, u8)| exists|k: int| self.occupied(k) && self.entry(k) == e,
            |e: (Seq<u8>, u8)| choose|k: int| self.occupied(k) && self.entry(k) == e,
        )
    }

    /// The last slot of the chain that strings hashing like `s` are linked
    /// into.
    pub closed spec fn chain_end(&self, s: Seq<u8>) -> int {
        choose|p: int|
            1 <= p <= self.hash_max && self.next@[p] == 0 && exists|f: nat| #[trigger] reaches(self.next@, bucket(s, self.hash_prime as int), p, f)
    }

    /// The chain from a slot has one end.
    proof fn lemma_chain_end(&self, s: Seq<u8>, p: int, f: nat)
        requires
            self.wf(),
            1 <= p <= self.hash_max,
            self.next@[p] == 0,
            reaches(self.next@, bucket(s, self.hash_prime as int), p, f),
        ensures
            self.chain_end(s) == p,
    {
        let q = self.chain_end(s);
        assert(reaches(self.next@, bucket(s, self.hash_prime as int), p, f));
        let g = choose|g: nat| #[trigger] reaches(self.next@, bucket(s, self.hash_prime as int), q, g);
        lemma_one_end(self.next@, bucket(s, self.hash_prime as int), p, f, q, g);
    }

    /// Whether a slot is free.
    pub closed spec fn has_room(&self) -> bool {
        exists|k: int| 1 <= k <= self.hash_max && self.text@[k] == 0
    }

    /// The table is well formed: the slots from `used` on are taken, links
    /// lead to taken slots allocated later, each string is reached from the
    /// slot where its chain starts, and no string and kind is held twice.
    pub closed spec fn wf(&self) -> bool {
        let m = self.hash_max as int;
        &&& self.next@.len() == m + 1
        &&& self.text@.len() == m + 1
        &&& self.ilk@.len() == m + 1
        &&& self.info@.len() == m + 1
        &&& self.rank@.len() == m + 1
        &&& 1 <= self.hash_prime <= self.hash_max < 0x4000_0000
        &&& 1 <= self.used <= m + 1
        &&& self.strings@.len() >= 1
        &&& self.time@ >= 0
        &&& self.text@[0] == 0
        &&& self.next@[0] == 0
        &&& forall|k: int| self.used <= k <= m ==> #[trigger] self.text@[k] != 0
        &&& forall|k: int|
            1 <= k <= m && #[trigger] self.next@[k] != 0 ==> {
                &&& self.text@[k] != 0
                &&& self.used <= self.next@[k] <= m
                &&& self.rank@[self.next@[k] as int] > self.rank@[k]
            }
        &&& forall|k: int|
            1 <= k <= m && #[trigger] self.text@[k] != 0 ==> {
                &&& self.text@[k] < self.strings@.len()
                &&& 0 <= self.rank@[k] < self.time@
            }
        &&& forall|k: int|
            #[trigger] self.occupied(k) ==> exists|f: nat| reaches(self.next@, bucket(self.entry(k).0, self.hash_prime as int), k, f)
        &&& forall|a: int, b: int| #[trigger] self.occupied(a) && #[trigger] self.occupied(b) && a != b ==> self.entry(a) != self.entry(b)
    }

    /// A slot holds a string exactly where it is a slot and its string
    /// number is not 0.
    pub proof fn lemma_occupied_iff(&self, k: int)
        ensures
            self.occupied(k) == (1 <= k <= self.max() && self.text_of(k) != 0),
    {
    }

    /// A taken slot is where its string and kind are found.
    pub proof fn lemma_view_at(&self, k: int)
        requires
            self.wf(),
            self.occupied(k),
        ensures
            self.view().contains_key(self.entry(k)),
            self.view()[self.entry(k)] == k,
    {
        let e = self.entry(k);
        assert(self.occupied(k) && self.entry(k) == e);
        let c = choose|c: int| self.occupied(c) && self.entry(c) == e;
        assert(self.occupied(c) && self.entry(c) == e);
    }

    /// A string and kind held are found in a taken slot that holds them.
    pub proof fn lemma_view_has(&self, e: (Seq<u8>, u8))
        requires
            self.wf(),
            self.view().contains_key(e),
        ensures
            self.occupied(self.view()[e]),
            1 <= self.view()[e] <= self.max(),
            0 < self.text_of(self.view()[e]) < self.string_view().len(),
            self.text_of(self.view()[e]) <= usize::MAX,
            self.max() < 0x4000_0000,
            self.entry(self.view()[e]) == e,
    {
    }

    /// The taken slots are finitely many, all among the slots.
    pub proof fn lemma_taken(&self)
        requires
            self.wf(),
        ensures
            self.taken().finite(),
            self.taken().subset_of(vstd::set_lib::set_int_range(1, self.max() + 1)),
            self.size() <= self.max(),
    {
        let r = vstd::set_lib::set_int_range(1, self.max() + 1);
        vstd::set_lib::lemma_int_range(1, self.max() + 1);
        assert(self.taken().subset_of(r));
        vstd::set_lib::lemma_len_subset(self.taken(), r);
    }

    /// A table holding fewer strings than it has slots has a free slot.
    pub proof fn lemma_room(&self)
        requires
            self.wf(),
            self.size() < self.max(),
        ensures
            self.has_room(),
    {
        self.lemma_taken();
        let r = vstd::set_lib::set_int_range(1, self.max() + 1);
        vstd::set_lib::lemma_int_range(1, self.max() + 1);
        if !self.has_room() {
            assert(r.subset_of(self.taken())) by {
                assert forall|k: int| r.contains(k) implies self.taken().contains(k) by {
                    assert(!(1 <= k <= self.hash_max && self.text@[k] == 0));
                }
            }
            vstd::set_lib::lemma_len_subset(r, self.taken());
        }
    }

    /// A slot is free exactly where fewer strings are held than there are
    /// slots.
    pub proof fn lemma_room_iff(&self)
        requires
            self.wf(),
        ensures
            self.has_room() == (self.size() < self.max()),
    {
        self.lemma_taken();
        if self.size() < self.max() {
            self.lemma_room();
        }
        if self.has_room() {
            let k = choose|k: int| 1 <= k <= self.hash_max && self.text@[k] == 0;
            let r = vstd::set_lib::set_int_range(1, self.max() + 1);
            vstd::set_lib::lemma_int_range(1, self.max() + 1);
            assert(self.taken().subset_of(r.remove(k)));
            vstd::set_lib::lemma_len_subset(self.taken(), r.remove(k));
        }
    }

    /// A new table of `hash_size` slots whose chains start in the first
    /// `hash_prime`; there is none where the prime is 0 or exceeds the size.
    pub fn new(hash_size: usize, hash_prime: usize) -> (r: Option<StrTable>)
        requires
            hash_size < 0x4000_0000,
        ensures
            r is Some <==> 1 <= hash_prime <= hash_size,
            r matches Some(t) ==> {
                &&& t.wf()
                &&& t.max() == hash_size
                &&& t.view() == Map::<(Seq<u8>, u8), int>::empty()
                &&& t.string_view() == seq![Seq::<u8>::empty()]
                &&& t.size() == 0
                &&& forall|k: int| 0 <= k <= t.max() ==> #[trigger] t.info_of(k) == 0
            },
    {
        if hash_prime < 1 || hash_prime > hash_size {
            return None;
        }
        let mut next: Vec<usize> = Vec::new();
        let mut text: Vec<usize> = Vec::new();
        let mut ilk: Vec<u8> = Vec::new();
        let mut info: Vec<i32> = Vec::new();
        let mut k: usize = 0;
        while k <= hash_size
            invariant
                k <= hash_size + 1,
                hash_size < 0x4000_0000,
                next@.len() == k,
                text@.len() == k,
                ilk@.len() == k,
                info@.len() == k,
                forall|i: int| 0 <= i < k ==> #[trigger] info@[i] == 0,
                forall|i: int| 0 <= i < k ==> #[trigger] next@[i] == 0,
                forall|i: int| 0 <= i < k ==> #[trigger] text@[i] == 0,
            decreases hash_size + 1 - k,
        {
            next.push(0);
            text.push(0);
            ilk.push(0);
            info.push(0);
            k = k + 1;
        }
        let mut strings: Vec<Vec<u8>> = Vec::new();
        strings.push(Vec::new());
        let t = StrTable {
            hash_prime,
            hash_max: hash_size,
            next,
            text,
            ilk,
            info,
            used: hash_size + 1,
            strings,
            rank: Ghost(Seq::new((hash_size + 1) as nat, |i: int| 0)),
            time: Ghost(0),
        };
        proof {
            assert forall|e: (Seq<u8>, u8)| !t.view().contains_key(e) by {
                if t.view().contains_key(e) {
                    let k = choose|k: int| t.occupied(k) && t.entry(k) == e;
                    assert(t.text@[k] == 0);
                }
            }
            assert(t.view() =~= Map::<(Seq<u8>, u8), int>::empty());
            assert(t.string_view() =~= seq![Seq::<u8>::empty()]);
            assert(t.taken() =~= Set::<int>::empty());
        }
        Some(t)
    }

    /// Whether a slot is free, so that a new string can be stored.
    pub fn has_free_slot(&self) -> (r: bool)
        requires
            self.wf(),
        ensures
            r == self.has_room(),
    {
        let mut k: usize = 1;
        while k <= self.hash_max
            invariant
                self.wf(),
                1 <= k <= self.hash_max + 1,
                forall|i: int| 1 <= i < k ==> #[trigger] self.text@[i] != 0,
            decreases self.hash_max + 1 - k,
        {
            if self.text[k] == 0 {
                return true;
            }
            k = k + 1;
        }
        false
    }

    /// The number of the string in slot `loc`.
    pub fn hash_text(&self, loc: usize) -> (r: usize)
        requires
            self.wf(),
            loc <= self.max(),
        ensures
            r == self.text_of(loc as int),
    {
        self.text[loc]
    }

    /// The kind of the string in slot `loc`.
    pub fn hash_ilk(&self, loc: usize) -> (r: u8)
        requires
            self.wf(),
            loc <= self.max(),
        ensures
            r == self.ilk_of(loc as int),
    {
        self.ilk[loc]
    }

    /// What is kept with the string in slot `loc` (`ilk_info`).
    pub fn ilk_info(&self, loc: usize) -> (r: i32)
        requires
            self.wf(),
            loc <= self.max(),
        ensures
            r == self.info_of(loc as int),
    {
        self.info[loc]
    }

    /// Keeps `v` with the string in slot `loc`; nothing else changes.
    pub fn set_ilk_info(&mut self, loc: usize, v: i32)
        requires
            old(self).wf(),
            loc <= old(self).max(),
        ensures
            final(self).wf(),
            final(self).max() == old(self).max(),
            final(self).view() == old(self).view(),
            final(self).string_view() == old(self).string_view(),
            final(self).size() == old(self).size(),
            final(self).info_of(loc as int) == v,
            forall|k: int| 0 <= k <= old(self).max() && k != loc ==> #[trigger] final(self).info_of(k) == old(self).info_of(k),
            forall|k: int| #[trigger] final(self).occupied(k) == old(self).occupied(k),
            forall|k: int| #[trigger] final(self).text_of(k) == old(self).text_of(k),
            forall|k: int| #[trigger] final(self).ilk_of(k) == old(self).ilk_of(k),
    {
        let ghost t0 = *self;
        self.info.set(loc, v);
        proof {
            assert forall|k: int| #[trigger] self.occupied(k) == t0.occupied(k) && self.entry(k) == t0.entry(k) by {}
            assert forall|k: int| #[trigger] self.occupied(k) implies exists|f: nat|
                reaches(self.next@, bucket(self.entry(k).0, self.hash_prime as int), k, f) by {
                assert(t0.occupied(k));
                assert(self.entry(k) == t0.entry(k));
                let f = choose|f: nat| reaches(t0.next@, bucket(t0.entry(k).0, t0.hash_prime as int), k, f);
                assert(reaches(self.next@, bucket(self.entry(k).0, self.hash_prime as int), k, f));
            }
            assert(self.wf());
            assert forall|x: (Seq<u8>, u8)| #[trigger] self.view().contains_key(x) == t0.view().contains_key(x) by {
                if self.view().contains_key(x) {
                    self.lemma_view_has(x);
                    t0.lemma_view_at(self.view()[x]);
                }
                if t0.view().contains_key(x) {
                    t0.lemma_view_has(x);
                    self.lemma_view_at(t0.view()[x]);
                }
            }
            assert forall|x: (Seq<u8>, u8)| #[trigger] self.view().contains_key(x) implies self.view()[x] == t0.view()[x] by {
                self.lemma_view_has(x);
                t0.lemma_view_at(self.view()[x]);
            }
            assert(self.view() =~= t0.view());
            assert(self.taken() =~= t0.taken());
        }
    }

    /// The number of slots (`hash_max`).
    pub fn hash_size(&self) -> (r: usize)
        ensures
            r == self.max(),
    {
        self.hash_max
    }

    /// The string number of a slot is a string of the pool.
    pub proof fn lemma_text_bound(&self, k: int)
        requires
            self.wf(),
        ensures
            1 <= k <= self.max() ==> self.text_of(k) < self.string_view().len(),
            self.max() < 0x4000_0000,
    {
    }

    /// The number of strings in the pool (number 0 included).
    pub fn num_strings(&self) -> (r: usize)
        ensures
            r == self.string_view().len(),
    {
        self.strings.len()
    }

    /// The text of string number `s`.
    pub fn string(&self, s: usize) -> (r: Vec<u8>)
        requires
            s < self.string_view().len(),
        ensures
            r@ == self.string_view()[s as int],
    {
        self.strings[s].clone()
    }

    /// `str_lookup`: looks up the string `buf[j..j + l]` of kind `ilk`.
    /// Returns its slot and whether it was found. Where it is not found and
    /// `insert_it` holds, it is stored in a free slot (its text is stored
    /// once, shared with the same string of another kind), and that slot
    /// is returned; otherwise nothing changes.
    pub fn str_lookup(&mut self, buf: &Vec<u8>, j: usize, l: usize, ilk: u8, insert_it: bool) -> (r: (usize, bool))
        requires
            old(self).wf(),
            j + l <= buf@.len(),
            insert_it && !old(self).view().contains_key((buf@.subrange(j as int, j + l), ilk)) ==> old(self).has_room(),
        ensures
            final(self).wf(),
            final(self).max() == old(self).max(),
            ({
                let e = (buf@.subrange(j as int, j + l), ilk);
                &&& r.1 == old(self).view().contains_key(e)
                &&& r.1 ==> r.0 == old(self).view()[e]
                &&& 1 <= r.0 <= old(self).max()
                &&& !r.1 && !insert_it ==> r.0 == old(self).chain_end(e.0)
                &&& !r.1 && insert_it ==> if old(self).occupied(old(self).chain_end(e.0)) {
                    forall|k: int| r.0 < k <= old(self).max() ==> #[trigger] old(self).occupied(k)
                } else {
                    r.0 == old(self).chain_end(e.0)
                }
                &&& if r.1 || !insert_it {
                    &&& final(self).view() == old(self).view()
                    &&& final(self).string_view() == old(self).string_view()
                } else {
                    &&& !old(self).occupied(r.0 as int)
                    &&& final(self).view() == old(self).view().insert(e, r.0 as int)
                    &&& final(self).string_view() == if exists|i: u8| #[trigger] old(self).view().contains_key((e.0, i)) {
                        old(self).string_view()
                    } else {
                        old(self).string_view().push(e.0)
                    }
                }
                &&& (r.1 || insert_it) ==> {
                    &&& final(self).string_view()[final(self).text_of(r.0 as int)] == e.0
                    &&& final(self).ilk_of(r.0 as int) == ilk
                }
                &&& final(self).size() == old(self).size() + if !r.1 && insert_it { 1nat } else { 0nat }
            }),
            forall|k: int| #[trigger] final(self).info_of(k) == old(self).info_of(k),
            forall|k: int|
                #[trigger] old(self).occupied(k) ==> final(self).occupied(k) && final(self).text_of(k) == old(self).text_of(k)
                    && final(self).ilk_of(k) == old(self).ilk_of(k),
    {
        let ghost name = buf@.subrange(j as int, j + l);
        let ghost e = (name, ilk);
        let ghost old_t = *self;
        assert(old_t == *old(self));
        let h = hash_of(buf, j, l, self.hash_prime);
        let mut p: usize = h + 1;
        let ghost b = p as int;
        let mut str_num: usize = 0;
        let ghost present = self.view().contains_key(e);
        let ghost target: int = if present { self.view()[e] } else { 0 };
        let ghost mut fp: nat = 0;
        proof {
            if present {
                self.lemma_view_has(e);
                assert(self.occupied(target));
            }
        }
        loop
            invariant
                *self == old_t,
                old_t == *old(self),
                self.wf(),
                name == buf@.subrange(j as int, j + l),
                e == (name, ilk),
                j + l <= buf@.len(),
                insert_it && !present ==> self.has_room(),
                b == bucket(name, self.hash_prime as int),
                1 <= p <= self.hash_max,
                reaches(self.next@, b, p as int, fp),
                present == self.view().contains_key(e),
                present ==> target == self.view()[e] && self.occupied(target) && self.entry(target) == e,
                present ==> exists|f: nat| reaches(self.next@, p as int, target, f),
                str_num == 0 || (0 < str_num < self.strings@.len() && self.strings@[str_num as int]@ == name),
                str_num != 0 ==> exists|i: u8| #[trigger] self.view().contains_key((name, i)),
                str_num == 0 ==> forall|k: int|
                    #[trigger] self.occupied(k) && self.entry(k).0 == name ==> exists|f: nat| reaches(self.next@, p as int, k, f),
            decreases self.time@ - self.rank@[p as int],
        {
            if self.text[p] > 0 {
                let tp = self.text[p];
                if range_equals(&self.strings[tp], buf, j, l) {
                    if self.ilk[p] == ilk {
                        proof {
                            assert(self.occupied(p as int));
                            assert(self.entry(p as int) == e);
                            self.lemma_view_at(p as int);
                        }
                        return (p, true);
                    } else {
                        proof {
                            assert(self.occupied(p as int));
                            self.lemma_view_at(p as int);
                            assert(self.view().contains_key((name, self.ilk@[p as int])));
                        }
                        str_num = tp;
                    }
                }
            }
            proof {
                if present {
                    let f = choose|f: nat| reaches(self.next@, p as int, target, f);
                    if p as int == target {
                        assert(self.entry(p as int) == e);
                    }
                    assert(p as int != target);
                    assert(f > 0 && self.next@[p as int] != 0 && reaches(self.next@, self.next@[p as int] as int, target, (f - 1) as nat));
                }
                if str_num == 0 && self.next@[p as int] != 0 {
                    assert forall|k: int|
                        #[trigger] self.occupied(k) && self.entry(k).0 == name implies exists|f: nat| reaches(self.next@, self.next@[p as int] as int, k, f) by {
                        let f = choose|f: nat| reaches(self.next@, p as int, k, f);
                        assert(k != p as int);
                        assert(reaches(self.next@, self.next@[p as int] as int, k, (f - 1) as nat));
                    }
                }
            }
            if self.next[p] == 0 {
                proof {
                    self.lemma_chain_end(name, p as int, fp);
                }
                if !insert_it {
                    return (p, false);
                }
                proof {
                    if str_num == 0 {
                        assert forall|i: u8| !#[trigger] self.view().contains_key((name, i)) by {
                            if self.view().contains_key((name, i)) {
                                self.lemma_view_has((name, i));
                                let k = self.view()[(name, i)];
                                let f = choose|f: nat| reaches(self.next@, p as int, k, f);
                                assert(k != p as int);
                                assert(false);
                            }
                        }
                    }
                }
                let q = self.insert_at_end(p, str_num, buf, j, l, ilk, Ghost(fp), Ghost(b));
                return (q, false);
            }
            proof {
                let nx = self.next@[p as int] as int;
                assert(self.text@[p as int] != 0);
                assert(self.text@[nx] != 0);
                assert(self.rank@[nx] < self.time@);
                assert(reaches(self.next@, b, self.next@[p as int] as int, fp + 1)) by {
                    lemma_reaches_extend_next(self.next@, b, p as int, fp);
                }
                fp = fp + 1;
            }
            p = self.next[p];
        }
    }

    /// Stores the predefined string `name` of kind `ilk` (where it is not
    /// stored yet) and returns its slot.
    pub fn pre_define(&mut self, name: &Vec<u8>, ilk: u8) -> (loc: usize)
        requires
            old(self).wf(),
            !old(self).view().contains_key((name@, ilk)) ==> old(self).has_room(),
        ensures
            final(self).wf(),
            final(self).max() == old(self).max(),
            final(self).view() == old(self).view().insert((name@, ilk), loc as int),
            old(self).view().contains_key((name@, ilk)) ==> loc == old(self).view()[(name@, ilk)],
            forall|k: int|
                #[trigger] old(self).occupied(k) ==> final(self).occupied(k) && final(self).text_of(k) == old(self).text_of(k)
                    && final(self).ilk_of(k) == old(self).ilk_of(k),
            1 <= loc <= old(self).max(),
            final(self).string_view()[final(self).text_of(loc as int)] == name@,
            final(self).ilk_of(loc as int) == ilk,
            final(self).size() <= old(self).size() + 1,
            forall|k: int| #[trigger] final(self).info_of(k) == old(self).info_of(k),
    {
        let ghost e = (name@, ilk);
        proof {
            assert(name@.subrange(0, name@.len() as int) =~= name@);
        }
        let (loc, found) = self.str_lookup(name, 0, name.len(), ilk, true);
        proof {
            assert(name@.subrange(0, name@.len() as int) =~= name@);
            if found {
                assert(old(self).view().insert(e, loc as int) =~= old(self).view());
            }
        }
        loc
    }

    /// Stores `buf[j..j + l]` of kind `ilk` at the end of the chain that
    /// ends in slot `p` (in `p` itself where it is free), with the string
    /// number `str_num` where it is not 0.
    fn insert_at_end(&mut self, p: usize, str_num: usize, buf: &Vec<u8>, j: usize, l: usize, ilk: u8, fp: Ghost<nat>, b: Ghost<int>) -> (q: usize)
        requires
            old(self).wf(),
            old(self).has_room(),
            j + l <= buf@.len(),
            1 <= p <= old(self).hash_max,
            old(self).next@[p as int] == 0,
            b@ == bucket(buf@.subrange(j as int, j + l), old(self).hash_prime as int),
            reaches(old(self).next@, b@, p as int, fp@),
            !old(self).view().contains_key((buf@.subrange(j as int, j + l), ilk)),
            str_num == 0 || (0 < str_num < old(self).strings@.len() && old(self).strings@[str_num as int]@ == buf@.subrange(j as int, j + l)),
        ensures
            final(self).wf(),
            final(self).max() == old(self).max(),
            1 <= q <= old(self).max(),
            !old(self).occupied(q as int),
            !old(self).occupied(p as int) ==> q == p,
            old(self).occupied(p as int) ==> forall|k: int| q < k <= old(self).max() ==> #[trigger] old(self).occupied(k),
            final(self).view() == old(self).view().insert((buf@.subrange(j as int, j + l), ilk), q as int),
            final(self).string_view() == if str_num > 0 {
                old(self).string_view()
            } else {
                old(self).string_view().push(buf@.subrange(j as int, j + l))
            },
            final(self).string_view()[final(self).text_of(q as int)] == buf@.subrange(j as int, j + l),
            final(self).ilk_of(q as int) == ilk,
            final(self).size() == old(self).size() + 1,
            forall|k: int| #[trigger] final(self).info_of(k) == old(self).info_of(k),
            forall|k: int|
                #[trigger] old(self).occupied(k) ==> final(self).occupied(k) && final(self).text_of(k) == old(self).text_of(k)
                    && final(self).ilk_of(k) == old(self).ilk_of(k),
    {
        let ghost name = buf@.subrange(j as int, j + l);
        let ghost e = (name, ilk);
        let ghost old_t = *self;
        let m = self.hash_max;
        let mut q = p;
        let ghost mut fq: nat = fp@;
        if self.text[p] > 0 {
            let mut u = self.used;
            let ghost free = choose|k: int| 1 <= k <= m && self.text@[k] == 0;
            assert(free < u);
            while self.text[u - 1] != 0
                invariant
                    *self == old_t,
                    self.wf(),
                    m == self.hash_max,
                    1 <= free < u <= self.used,
                    self.text@[free] == 0,
                    forall|k: int| u <= k <= m ==> #[trigger] self.text@[k] != 0,
                decreases u,
            {
                u = u - 1;
            }
            u = u - 1;
            proof {
                lemma_reaches_extend(self.next@, p as int, u, b@, fp@);
                assert forall|k: int| 1 <= k <= m && #[trigger] self.next@[k] != 0 implies self.next@[k] != u by {}
            }
            self.used = u;
            self.next.set(p, u);
            q = u;
            proof {
                fq = fp@ + 1;
            }
        }
        assert(self.text@[q as int] == 0);
        assert(reaches(self.next@, b@, q as int, fq));
        let s_num = if str_num > 0 {
            str_num
        } else {
            self.strings.push(copy_range(buf, j, l));
            self.strings.len() - 1
        };
        self.text.set(q, s_num);
        self.ilk.set(q, ilk);
        proof {
            self.rank@ = self.rank@.update(q as int, self.time@);
            self.time@ = self.time@ + 1;
        }
        proof {
            let t = *self;
            if str_num > 0 {
                assert(t.string_view() =~= old_t.string_view());
            } else {
                assert(t.string_view() =~= old_t.string_view().push(name));
            }
            assert forall|i: int| 0 <= i < old_t.strings@.len() implies #[trigger] t.strings@[i]@ == old_t.strings@[i]@ by {}
            assert(t.entry(q as int) == e);
            assert forall|k: int| #[trigger] t.occupied(k) && k != q implies old_t.occupied(k) && t.entry(k) == old_t.entry(k) by {}
            assert forall|k: int| #[trigger] t.occupied(k) implies exists|f: nat| reaches(t.next@, bucket(t.entry(k).0, t.hash_prime as int), k, f) by {
                if k == q {
                    assert(reaches(t.next@, bucket(t.entry(k).0, t.hash_prime as int), k, fq));
                } else {
                    assert(old_t.occupied(k));
                    let f = choose|f: nat| reaches(old_t.next@, bucket(old_t.entry(k).0, old_t.hash_prime as int), k, f);
                    if old_t.text@[p as int] > 0 {
                        lemma_reaches_link(old_t.next@, p as int, t.next@[p as int], bucket(old_t.entry(k).0, old_t.hash_prime as int), k, f);
                        assert(t.next@ == old_t.next@.update(p as int, t.next@[p as int]));
                    }
                    assert(reaches(t.next@, bucket(t.entry(k).0, t.hash_prime as int), k, f));
                }
            }
            assert forall|a: int, c: int| #[trigger] t.occupied(a) && #[trigger] t.occupied(c) && a != c implies t.entry(a) != t.entry(c) by {
                if a == q {
                    old_t.lemma_view_at(c);
                } else if c == q {
                    old_t.lemma_view_at(a);
                }
            }
            let m2 = t.hash_max as int;
            assert(t.next@.len() == m2 + 1);
            assert(t.text@.len() == m2 + 1);
            assert(t.ilk@.len() == m2 + 1);
            assert(t.rank@.len() == m2 + 1);
            assert(1 <= t.used <= m2 + 1);
            assert(t.text@[0] == 0);
            assert(t.next@[0] == 0);
            assert(forall|k: int| t.used <= k <= m2 ==> #[trigger] t.text@[k] != 0);
            assert(forall|k: int|
                1 <= k <= m2 && #[trigger] t.next@[k] != 0 ==> {
                    &&& t.text@[k] != 0
                    &&& t.used <= t.next@[k] <= m2
                    &&& t.rank@[t.next@[k] as int] > t.rank@[k]
                });
            assert(s_num < t.strings@.len());
            assert forall|k: int|
                1 <= k <= m2 && #[trigger] t.text@[k] != 0 implies {
                    &&& t.text@[k] < t.strings@.len()
                    &&& 0 <= t.rank@[k] < t.time@
                } by {
                if k != q {
                    assert(old_t.text@[k] == t.text@[k]);
                    assert(old_t.rank@[k] == t.rank@[k]);
                }
            }
            assert(t.wf());
            assert forall|x: (Seq<u8>, u8)| #[trigger] t.view().contains_key(x) == old_t.view().insert(e, q as int).contains_key(x) by {
                if t.view().contains_key(x) {
                    t.lemma_view_has(x);
                    let k = t.view()[x];
                    if k != q {
                        old_t.lemma_view_at(k);
                    }
                }
                if old_t.view().contains_key(x) {
                    old_t.lemma_view_has(x);
                    let k = old_t.view()[x];
                    t.lemma_view_at(k);
                }
                if x == e {
                    t.lemma_view_at(q as int);
                }
            }
            assert forall|x: (Seq<u8>, u8)| #[trigger] t.view().contains_key(x) implies t.view()[x] == old_t.view().insert(e, q as int)[x] by {
                t.lemma_view_has(x);
                let k = t.view()[x];
                if k != q {
                    old_t.lemma_view_at(k);
                }
            }
            assert(t.view() =~= old_t.view().insert(e, q as int));
            old_t.lemma_taken();
            assert(t.taken() =~= old_t.taken().insert(q as int));
            assert(!old_t.taken().contains(q as int));
        }
        q
    }

}

/// A path to a slot goes on along its link.
proof fn lemma_reaches_extend_next(next: Seq<usize>, from: int, p: int, fuel: nat)
    requires
        0 <= p < next.len(),
        next[p] != 0,
        reaches(next, from, p, fuel),
    ensures
        reaches(next, from, next[p] as int, fuel + 1),
    decreases fuel,
{
    if from == next[p] as int {
    } else if from == p {
        assert(reaches(next, next[p] as int, next[p] as int, fuel));
    } else {
        lemma_reaches_extend_next(next, next[from] as int, p, (fuel - 1) as nat);
    }
}

/// The hash of `buf[j..j + l]`.
fn hash_of(buf: &Vec<u8>, j: usize, l: usize, prime: usize) -> (h: usize)
    requires
        j + l <= buf@.len(),
        1 <= prime < 0x4000_0000,
    ensures
        h == hash_str(buf@.subrange(j as int, j + l), prime as int),
        h < prime,
{
    proof {
        lemma_vec_len(buf);
    }
    let mut h: usize = 0;
    let mut k = j;
    while k < j + l
        invariant
            j <= k <= j + l <= buf@.len(),
            buf@.len() <= usize::MAX,
            1 <= prime < 0x4000_0000,
            h < prime,
            h == hash_str(buf@.subrange(j as int, k as int), prime as int),
        decreases j + l - k,
    {
        proof {
            assert(buf@.subrange(j as int, k + 1).drop_last() =~= buf@.subrange(j as int, k as int));
        }
        h = (h + h + buf[k] as usize) % prime;
        k = k + 1;
    }
    h
}

/// Whether `a` holds the bytes `buf[j..j + l]`.
fn range_equals(a: &Vec<u8>, buf: &Vec<u8>, j: usize, l: usize) -> (r: bool)
    requires
        j + l <= buf@.len(),
    ensures
        r == (a@ == buf@.subrange(j as int, j + l)),
{
    proof {
        lemma_vec_len(buf);
    }
    if a.len() != l {
        return false;
    }
    let mut i: usize = 0;
    while i < l
        invariant
            i <= l,
            a@.len() == l,
            j + l <= buf@.len(),
            buf@.len() <= usize::MAX,
            forall|k: int| 0 <= k < i ==> a@[k] == buf@[j + k],
        decreases l - i,
    {
        if a[i] != buf[j + i] {
            return false;
        }
        i = i + 1;
    }
    proof {
        assert(a@ =~= buf@.subrange(j as int, j + l));
    }
    true
}

/// A copy of `buf[j..j + l]`.
fn copy_range(buf: &Vec<u8>, j: usize, l: usize) -> (r: Vec<u8>)
    requires
        j + l <= buf@.len(),
    ensures
        r@ == buf@.subrange(j as int, j + l),
{
    proof {
        lemma_vec_len(buf);
    }
    let mut r: Vec<u8> = Vec::new();
    let mut i: usize = 0;
    while i < l
        invariant
            i <= l,
            j + l <= buf@.len(),
            buf@.len() <= usize::MAX,
            r@ == buf@.subrange(j as int, j + i),
        decreases l - i,
    {
        r.push(buf[j + i]);
        proof {
            assert(buf@.subrange(j as int, j + i + 1) =~= buf@.subrange(j as int, j + i).push(buf@[j + i]));
        }
        i = i + 1;
    }
    r
}

/// Each string and kind has a slot of its own.
pub proof fn law_slots_distinct(t: StrTable, e1: (Seq<u8>, u8), e2: (Seq<u8>, u8))
    requires
        t.wf(),
        t.view().contains_key(e1),
        t.view().contains_key(e2),
        e1 != e2,
    ensures
        t.view()[e1] != t.view()[e2],
{
    t.lemma_view_has(e1);
    t.lemma_view_has(e2);
}

/// The slot of a string holds that string and its kind.
pub proof fn law_slot_holds_its_string(t: StrTable, e: (Seq<u8>, u8))
    requires
        t.wf(),
        t.view().contains_key(e),
    ensures
        1 <= t.view()[e] <= t.max(),
        t.string_view()[t.text_of(t.view()[e])] == e.0,
        t.ilk_of(t.view()[e]) == e.1,
{
    t.lemma_view_has(e);
}

/// A read gives back what a write wrote: once `str_lookup` has stored a
/// string of a kind in a slot, a later lookup of it finds that slot, and
/// the lookups of all other strings and kinds find what they found before.
pub proof fn law_lookup_after_insert(before: StrTable, after: StrTable, e: (Seq<u8>, u8), loc: int, other: (Seq<u8>, u8))
    requires
        after.view() == before.view().insert(e, loc),
        other != e,
    ensures
        after.view().contains_key(e),
        after.view()[e] == loc,
        after.view().contains_key(other) == before.view().contains_key(other),
        before.view().contains_key(other) ==> after.view()[other] == before.view()[other],
{
}

} // verus!
