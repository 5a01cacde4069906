//! The node memory of XeTeX: every node is a run of memory words in one
//! array, and its fields are halves or quarters of those words.
use vstd::prelude::*;
use crate::node::{LRMode, lrmode_of, lrmode_code};

verus! {

/// One memory word, seen as two 32-bit halves. The 16-bit quarters `b16.s0`
/// and `b16.s1` are the low and high halves of `b32.s0`; `b16.s2` and
/// `b16.s3` are those of `b32.s1`.
#[derive(Clone, Copy)]
pub struct MemoryWord {
    pub s0: u32,
    pub s1: u32,
}

/// The node memory.
pub struct Mem {
    words: Vec<MemoryWord>,
}

/// A 32-bit pattern as a signed number.
pub open spec fn signed32(x: u32) -> i32 {
    x as i32
}

/// Quarter `q` (0 to 3) of a word.
pub open spec fn quarter(w: MemoryWord, q: int) -> u16 {
    if q == 0 {
        (w.s0 % 65536) as u16
    } else if q == 1 {
        (w.s0 / 65536) as u16
    } else if q == 2 {
        (w.s1 % 65536) as u16
    } else {
        (w.s1 / 65536) as u16
    }
}

/// A word with quarter `q` replaced by `v`.
pub open spec fn with_quarter(w: MemoryWord, q: int, v: u16) -> MemoryWord {
    if q == 0 {
        MemoryWord { s0: ((w.s0 / 65536) * 65536 + v) as u32, s1: w.s1 }
    } else if q == 1 {
        MemoryWord { s0: (v * 65536 + w.s0 % 65536) as u32, s1: w.s1 }
    } else if q == 2 {
        MemoryWord { s0: w.s0, s1: ((w.s1 / 65536) * 65536 + v) as u32 }
    } else {
        MemoryWord { s0: w.s0, s1: (v * 65536 + w.s1 % 65536) as u32 }
    }
}

/// Setting a quarter and reading it back gives the value; the other quarters
/// keep theirs.
pub proof fn law_quarter_set_get(w: MemoryWord, q: int, r: int, v: u16)
    requires
        0 <= q < 4,
        0 <= r < 4,
    ensures
        quarter(with_quarter(w, q, v), r) == if r == q {
            v
        } else {
            quarter(w, r)
        },
{
}

impl Mem {
    pub closed spec fn view(&self) -> Seq<MemoryWord> {
        self.words@
    }

    pub proof fn lemma_len_bound(&self)
        ensures
            self.view().len() <= usize::MAX,
    {
        vstd::std_specs::vec::axiom_spec_len(&self.words);
    }

    /// A memory of `n` zero words.
    pub fn new(n: usize) -> (m: Mem)
        ensures
            m.view().len() == n,
            forall|i: int| 0 <= i < n ==> #[trigger] m.view()[i] == (MemoryWord { s0: 0, s1: 0 }),
    {
        let mut words: Vec<MemoryWord> = Vec::new();
        let mut i: usize = 0;
        while i < n
            invariant
                i <= n,
                words@.len() == i,
                forall|k: int| 0 <= k < i ==> #[trigger] words@[k] == (MemoryWord { s0: 0, s1: 0 }),
            decreases n - i,
        {
            words.push(MemoryWord { s0: 0, s1: 0 });
            i = i + 1;
        }
        Mem { words }
    }

    pub fn len(&self) -> (r: usize)
        ensures
            r == self.view().len(),
    {
        self.words.len()
    }

    /// `b32.s0` of word `p`.
    pub fn b32_s0(&self, p: usize) -> (r: i32)
        requires
            p < self.view().len(),
        ensures
            r == signed32(self.view()[p as int].s0),
    {
        self.words[p].s0 as i32
    }

    /// `b32.s1` of word `p`.
    pub fn b32_s1(&self, p: usize) -> (r: i32)
        requires
            p < self.view().len(),
        ensures
            r == signed32(self.view()[p as int].s1),
    {
        self.words[p].s1 as i32
    }

    /// Quarter `q` (`b16.s0` to `b16.s3`) of word `p`.
    pub fn b16(&self, p: usize, q: u8) -> (r: u16)
        requires
            p < self.view().len(),
            q < 4,
        ensures
            r == quarter(self.view()[p as int], q as int),
    {
        let w = self.words[p];
        if q == 0 {
            (w.s0 % 65536) as u16
        } else if q == 1 {
            (w.s0 / 65536) as u16
        } else if q == 2 {
            (w.s1 % 65536) as u16
        } else {
            (w.s1 / 65536) as u16
        }
    }

    /// Sets `b32.s0` of word `p`.
    pub fn set_b32_s0(&mut self, p: usize, v: i32)
        requires
            p < old(self).view().len(),
        ensures
            final(self).view() == old(self).view().update(
                p as int,
                MemoryWord { s0: v as u32, s1: old(self).view()[p as int].s1 },
            ),
    {
        let w = self.words[p];
        self.words.set(p, MemoryWord { s0: v as u32, s1: w.s1 });
    }

    /// Sets `b32.s1` of word `p`.
    pub fn set_b32_s1(&mut self, p: usize, v: i32)
        requires
            p < old(self).view().len(),
        ensures
            final(self).view() == old(self).view().update(
                p as int,
                MemoryWord { s0: old(self).view()[p as int].s0, s1: v as u32 },
            ),
    {
        let w = self.words[p];
        self.words.set(p, MemoryWord { s0: w.s0, s1: v as u32 });
    }

    /// Sets quarter `q` of word `p`.
    pub fn set_b16(&mut self, p: usize, q: u8, v: u16)
        requires
            p < old(self).view().len(),
            q < 4,
        ensures
            final(self).view() == old(self).view().update(
                p as int,
                with_quarter(old(self).view()[p as int], q as int, v),
            ),
    {
        let w = self.words[p];
        let nw = if q == 0 {
            MemoryWord { s0: (w.s0 / 65536) * 65536 + v as u32, s1: w.s1 }
        } else if q == 1 {
            MemoryWord { s0: (v as u32) * 65536 + w.s0 % 65536, s1: w.s1 }
        } else if q == 2 {
            MemoryWord { s0: w.s0, s1: (w.s1 / 65536) * 65536 + v as u32 }
        } else {
            MemoryWord { s0: w.s0, s1: (v as u32) * 65536 + w.s1 % 65536 }
        };
        self.words.set(p, nw);
    }
}

/// Reading back a signed half that was just set gives the value.
pub proof fn law_signed_half_roundtrip(v: i32)
    ensures
        signed32(v as u32) == v,
{
    assert(((v as u32) as i32) == v) by (bit_vector);
}


/// An `\openout` whatsit node.
pub struct OpenFile(pub usize);

impl OpenFile {
    pub fn ptr(&self) -> (r: usize)
        ensures
            r == self.0,
    {
        self.0
    }

    /// The `id` field.
    pub fn id(&self, mem: &Mem) -> (r: i32)
        requires
            self.0 + 1 < mem.view().len(),
        ensures
            r == signed32(mem.view()[self.0 + 1].s0),
    {
        proof {
            mem.lemma_len_bound();
        }
        mem.b32_s0(self.0 + 1)
    }

    pub fn set_id(&mut self, mem: &mut Mem, v: i32) -> (r: &mut Self)
        requires
            old(self).0 + 1 < old(mem).view().len(),
        ensures
            final(mem).view() == old(mem).view().update(old(self).0 + 1, MemoryWord { s0: v as u32, s1: old(mem).view()[old(self).0 + 1].s1 }),
            r.0 == old(self).0,
    {
        proof {
            mem.lemma_len_bound();
        }
        mem.set_b32_s0(self.0 + 1, v);
        self
    }

    /// The `name` field.
    pub fn name(&self, mem: &Mem) -> (r: i32)
        requires
            self.0 + 1 < mem.view().len(),
        ensures
            r == signed32(mem.view()[self.0 + 1].s1),
    {
        proof {
            mem.lemma_len_bound();
        }
        mem.b32_s1(self.0 + 1)
    }

    pub fn set_name(&mut self, mem: &mut Mem, v: i32) -> (r: &mut Self)
        requires
            old(self).0 + 1 < old(mem).view().len(),
        ensures
            final(mem).view() == old(mem).view().update(old(self).0 + 1, MemoryWord { s0: old(mem).view()[old(self).0 + 1].s0, s1: v as u32 }),
            r.0 == old(self).0,
    {
        proof {
            mem.lemma_len_bound();
        }
        mem.set_b32_s1(self.0 + 1, v);
        self
    }

    /// The `area` field.
    pub fn area(&self, mem: &Mem) -> (r: i32)
        requires
            self.0 + 2 < mem.view().len(),
        ensures
            r == signed32(mem.view()[self.0 + 2].s0),
    {
        proof {
            mem.lemma_len_bound();
        }
        mem.b32_s0(self.0 + 2)
    }

    pub fn set_area(&mut self, mem: &mut Mem, v: i32) -> (r: &mut Self)
        requires
            old(self).0 + 2 < old(mem).view().len(),
        ensures
            final(mem).view() == old(mem).view().update(old(self).0 + 2, MemoryWord { s0: v as u32, s1: old(mem).view()[old(self).0 + 2].s1 }),
            r.0 == old(self).0,
    {
        proof {
            mem.lemma_len_bound();
        }
        mem.set_b32_s0(self.0 + 2, v);
        self
    }

    /// The `ext` field.
    pub fn ext(&self, mem: &Mem) -> (r: i32)
        requires
            self.0 + 2 < mem.view().len(),
        ensures
            r == signed32(mem.view()[self.0 + 2].s1),
    {
        proof {
            mem.lemma_len_bound();
        }
        mem.b32_s1(self.0 + 2)
    }

    pub fn set_ext(&mut self, mem: &mut Mem, v: i32) -> (r: &mut Self)
        requires
            old(self).0 + 2 < old(mem).view().len(),
        ensures
            final(mem).view() == old(mem).view().update(old(self).0 + 2, MemoryWord { s0: old(mem).view()[old(self).0 + 2].s0, s1: v as u32 }),
            r.0 == old(self).0,
    {
        proof {
            mem.lemma_len_bound();
        }
        mem.set_b32_s1(self.0 + 2, v);
        self
    }

}

/// A `\write` whatsit node.
pub struct WriteFile(pub usize);

impl WriteFile {
    pub fn ptr(&self) -> (r: usize)
        ensures
            r == self.0,
    {
        self.0
    }

    /// The `id` field.
    pub fn id(&self, mem: &Mem) -> (r: i32)
        requires
            self.0 + 1 < mem.view().len(),
        ensures
            r == signed32(mem.view()[self.0 + 1].s0),
    {
        proof {
            mem.lemma_len_bound();
        }
        mem.b32_s0(self.0 + 1)
    }

    pub fn set_id(&mut self, mem: &mut Mem, v: i32) -> (r: &mut Self)
        requires
            old(self).0 + 1 < old(mem).view().len(),
        ensures
            final(mem).view() == old(mem).view().update(old(self).0 + 1, MemoryWord { s0: v as u32, s1: old(mem).view()[old(self).0 + 1].s1 }),
            r.0 == old(self).0,
    {
        proof {
            mem.lemma_len_bound();
        }
        mem.set_b32_s0(self.0 + 1, v);
        self
    }

    /// Reference count of the token list.
    pub fn tokens(&self, mem: &Mem) -> (r: i32)
        requires
            self.0 + 1 < mem.view().len(),
        ensures
            r == signed32(mem.view()[self.0 + 1].s1),
    {
        proof {
            mem.lemma_len_bound();
        }
        mem.b32_s1(self.0 + 1)
    }

    pub fn set_tokens(&mut self, mem: &mut Mem, v: i32) -> (r: &mut Self)
        requires
            old(self).0 + 1 < old(mem).view().len(),
        ensures
            final(mem).view() == old(mem).view().update(old(self).0 + 1, MemoryWord { s0: old(mem).view()[old(self).0 + 1].s0, s1: v as u32 }),
            r.0 == old(self).0,
    {
        proof {
            mem.lemma_len_bound();
        }
        mem.set_b32_s1(self.0 + 1, v);
        self
    }

}

/// A `\closeout` whatsit node.
pub struct CloseFile(pub usize);

impl CloseFile {
    pub fn ptr(&self) -> (r: usize)
        ensures
            r == self.0,
    {
        self.0
    }

    /// The `id` field.
    pub fn id(&self, mem: &Mem) -> (r: i32)
        requires
            self.0 + 1 < mem.view().len(),
        ensures
            r == signed32(mem.view()[self.0 + 1].s0),
    {
        proof {
            mem.lemma_len_bound();
        }
        mem.b32_s0(self.0 + 1)
    }

    pub fn set_id(&mut self, mem: &mut Mem, v: i32) -> (r: &mut Self)
        requires
            old(self).0 + 1 < old(mem).view().len(),
        ensures
            final(mem).view() == old(mem).view().update(old(self).0 + 1, MemoryWord { s0: v as u32, s1: old(mem).view()[old(self).0 + 1].s1 }),
            r.0 == old(self).0,
    {
        proof {
            mem.lemma_len_bound();
        }
        mem.set_b32_s0(self.0 + 1, v);
        self
    }

}

/// A language whatsit node.
pub struct Language(pub usize);

impl Language {
    pub fn ptr(&self) -> (r: usize)
        ensures
            r == self.0,
    {
        self.0
    }

    /// Language number, 0..255.
    pub fn lang(&self, mem: &Mem) -> (r: i32)
        requires
            self.0 + 1 < mem.view().len(),
        ensures
            r == signed32(mem.view()[self.0 + 1].s1),
    {
        proof {
            mem.lemma_len_bound();
        }
        mem.b32_s1(self.0 + 1)
    }

    pub fn set_lang(&mut self, mem: &mut Mem, v: i32) -> (r: &mut Self)
        requires
            old(self).0 + 1 < old(mem).view().len(),
        ensures
            final(mem).view() == old(mem).view().update(old(self).0 + 1, MemoryWord { s0: old(mem).view()[old(self).0 + 1].s0, s1: v as u32 }),
            r.0 == old(self).0,
    {
        proof {
            mem.lemma_len_bound();
        }
        mem.set_b32_s1(self.0 + 1, v);
        self
    }

    /// Minimum left fragment, range 1..63.
    pub fn lhm(&self, mem: &Mem) -> (r: u16)
        requires
            self.0 + 1 < mem.view().len(),
        ensures
            r == quarter(mem.view()[self.0 + 1], 1),
    {
        proof {
            mem.lemma_len_bound();
        }
        mem.b16(self.0 + 1, 1)
    }

    pub fn set_lhm(&mut self, mem: &mut Mem, v: u16) -> (r: &mut Self)
        requires
            old(self).0 + 1 < old(mem).view().len(),
        ensures
            final(mem).view() == old(mem).view().update(old(self).0 + 1, with_quarter(old(mem).view()[old(self).0 + 1], 1, v)),
            r.0 == old(self).0,
    {
        proof {
            mem.lemma_len_bound();
        }
        mem.set_b16(self.0 + 1, 1, v);
        self
    }

    /// Minimum right fragment, range 1..63.
    pub fn rhm(&self, mem: &Mem) -> (r: u16)
        requires
            self.0 + 1 < mem.view().len(),
        ensures
            r == quarter(mem.view()[self.0 + 1], 0),
    {
        proof {
            mem.lemma_len_bound();
        }
        mem.b16(self.0 + 1, 0)
    }

    pub fn set_rhm(&mut self, mem: &mut Mem, v: u16) -> (r: &mut Self)
        requires
            old(self).0 + 1 < old(mem).view().len(),
        ensures
            final(mem).view() == old(mem).view().update(old(self).0 + 1, with_quarter(old(mem).view()[old(self).0 + 1], 0, v)),
            r.0 == old(self).0,
    {
        proof {
            mem.lemma_len_bound();
        }
        mem.set_b16(self.0 + 1, 0, v);
        self
    }

}

/// A `\special` whatsit node.
pub struct Special(pub usize);

impl Special {
    pub fn ptr(&self) -> (r: usize)
        ensures
            r == self.0,
    {
        self.0
    }

    /// Reference count of the token list.
    pub fn tokens(&self, mem: &Mem) -> (r: i32)
        requires
            self.0 + 1 < mem.view().len(),
        ensures
            r == signed32(mem.view()[self.0 + 1].s1),
    {
        proof {
            mem.lemma_len_bound();
        }
        mem.b32_s1(self.0 + 1)
    }

    pub fn set_tokens(&mut self, mem: &mut Mem, v: i32) -> (r: &mut Self)
        requires
            old(self).0 + 1 < old(mem).view().len(),
        ensures
            final(mem).view() == old(mem).view().update(old(self).0 + 1, MemoryWord { s0: old(mem).view()[old(self).0 + 1].s0, s1: v as u32 }),
            r.0 == old(self).0,
    {
        proof {
            mem.lemma_len_bound();
        }
        mem.set_b32_s1(self.0 + 1, v);
        self
    }

}

/// An insertion node.
pub struct Insertion(pub usize);

impl Insertion {
    pub fn ptr(&self) -> (r: usize)
        ensures
            r == self.0,
    {
        self.0
    }

    /// The `box_reg` field.
    pub fn box_reg(&self, mem: &Mem) -> (r: u16)
        requires
            self.0 + 0 < mem.view().len(),
        ensures
            r == quarter(mem.view()[self.0 + 0], 0),
    {
        proof {
            mem.lemma_len_bound();
        }
        mem.b16(self.0, 0)
    }

    pub fn set_box_reg(&mut self, mem: &mut Mem, v: u16) -> (r: &mut Self)
        requires
            old(self).0 + 0 < old(mem).view().len(),
        ensures
            final(mem).view() == old(mem).view().update(old(self).0 + 0, with_quarter(old(mem).view()[old(self).0 + 0], 0, v)),
            r.0 == old(self).0,
    {
        proof {
            mem.lemma_len_bound();
        }
        mem.set_b16(self.0, 0, v);
        self
    }

    /// The floating penalty to be used.
    pub fn float_cost(&self, mem: &Mem) -> (r: i32)
        requires
            self.0 + 1 < mem.view().len(),
        ensures
            r == signed32(mem.view()[self.0 + 1].s1),
    {
        proof {
            mem.lemma_len_bound();
        }
        mem.b32_s1(self.0 + 1)
    }

    pub fn set_float_cost(&mut self, mem: &mut Mem, v: i32) -> (r: &mut Self)
        requires
            old(self).0 + 1 < old(mem).view().len(),
        ensures
            final(mem).view() == old(mem).view().update(old(self).0 + 1, MemoryWord { s0: old(mem).view()[old(self).0 + 1].s0, s1: v as u32 }),
            r.0 == old(self).0,
    {
        proof {
            mem.lemma_len_bound();
        }
        mem.set_b32_s1(self.0 + 1, v);
        self
    }

    /// A scaled depth.
    pub fn depth(&self, mem: &Mem) -> (r: i32)
        requires
            self.0 + 2 < mem.view().len(),
        ensures
            r == signed32(mem.view()[self.0 + 2].s1),
    {
        proof {
            mem.lemma_len_bound();
        }
        mem.b32_s1(self.0 + 2)
    }

    pub fn set_depth(&mut self, mem: &mut Mem, v: i32) -> (r: &mut Self)
        requires
            old(self).0 + 2 < old(mem).view().len(),
        ensures
            final(mem).view() == old(mem).view().update(old(self).0 + 2, MemoryWord { s0: old(mem).view()[old(self).0 + 2].s0, s1: v as u32 }),
            r.0 == old(self).0,
    {
        proof {
            mem.lemma_len_bound();
        }
        mem.set_b32_s1(self.0 + 2, v);
        self
    }

    /// A scaled height.
    pub fn height(&self, mem: &Mem) -> (r: i32)
        requires
            self.0 + 3 < mem.view().len(),
        ensures
            r == signed32(mem.view()[self.0 + 3].s1),
    {
        proof {
            mem.lemma_len_bound();
        }
        mem.b32_s1(self.0 + 3)
    }

    pub fn set_height(&mut self, mem: &mut Mem, v: i32) -> (r: &mut Self)
        requires
            old(self).0 + 3 < old(mem).view().len(),
        ensures
            final(mem).view() == old(mem).view().update(old(self).0 + 3, MemoryWord { s0: old(mem).view()[old(self).0 + 3].s0, s1: v as u32 }),
            r.0 == old(self).0,
    {
        proof {
            mem.lemma_len_bound();
        }
        mem.set_b32_s1(self.0 + 3, v);
        self
    }

    /// A pointer to a vlist.
    pub fn ins_ptr(&self, mem: &Mem) -> (r: i32)
        requires
            self.0 + 4 < mem.view().len(),
        ensures
            r == signed32(mem.view()[self.0 + 4].s0),
    {
        proof {
            mem.lemma_len_bound();
        }
        mem.b32_s0(self.0 + 4)
    }

    pub fn set_ins_ptr(&mut self, mem: &mut Mem, v: i32) -> (r: &mut Self)
        requires
            old(self).0 + 4 < old(mem).view().len(),
        ensures
            final(mem).view() == old(mem).view().update(old(self).0 + 4, MemoryWord { s0: v as u32, s1: old(mem).view()[old(self).0 + 4].s1 }),
            r.0 == old(self).0,
    {
        proof {
            mem.lemma_len_bound();
        }
        mem.set_b32_s0(self.0 + 4, v);
        self
    }

    /// A glue pointer.
    pub fn split_top_ptr(&self, mem: &Mem) -> (r: i32)
        requires
            self.0 + 4 < mem.view().len(),
        ensures
            r == signed32(mem.view()[self.0 + 4].s1),
    {
        proof {
            mem.lemma_len_bound();
        }
        mem.b32_s1(self.0 + 4)
    }

    pub fn set_split_top_ptr(&mut self, mem: &mut Mem, v: i32) -> (r: &mut Self)
        requires
            old(self).0 + 4 < old(mem).view().len(),
        ensures
            final(mem).view() == old(mem).view().update(old(self).0 + 4, MemoryWord { s0: old(mem).view()[old(self).0 + 4].s0, s1: v as u32 }),
            r.0 == old(self).0,
    {
        proof {
            mem.lemma_len_bound();
        }
        mem.set_b32_s1(self.0 + 4, v);
        self
    }

}

/// A math choice node; its four fields point at the lists for the four styles.
pub struct Choice(pub usize);

impl Choice {
    pub fn ptr(&self) -> (r: usize)
        ensures
            r == self.0,
    {
        self.0
    }

    /// The `display` field.
    pub fn display(&self, mem: &Mem) -> (r: i32)
        requires
            self.0 + 1 < mem.view().len(),
        ensures
            r == signed32(mem.view()[self.0 + 1].s0),
    {
        proof {
            mem.lemma_len_bound();
        }
        mem.b32_s0(self.0 + 1)
    }

    pub fn set_display(&mut self, mem: &mut Mem, v: i32) -> (r: &mut Self)
        requires
            old(self).0 + 1 < old(mem).view().len(),
        ensures
            final(mem).view() == old(mem).view().update(old(self).0 + 1, MemoryWord { s0: v as u32, s1: old(mem).view()[old(self).0 + 1].s1 }),
            r.0 == old(self).0,
    {
        proof {
            mem.lemma_len_bound();
        }
        mem.set_b32_s0(self.0 + 1, v);
        self
    }

    /// The `text` field.
    pub fn text(&self, mem: &Mem) -> (r: i32)
        requires
            self.0 + 1 < mem.view().len(),
        ensures
            r == signed32(mem.view()[self.0 + 1].s1),
    {
        proof {
            mem.lemma_len_bound();
        }
        mem.b32_s1(self.0 + 1)
    }

    pub fn set_text(&mut self, mem: &mut Mem, v: i32) -> (r: &mut Self)
        requires
            old(self).0 + 1 < old(mem).view().len(),
        ensures
            final(mem).view() == old(mem).view().update(old(self).0 + 1, MemoryWord { s0: old(mem).view()[old(self).0 + 1].s0, s1: v as u32 }),
            r.0 == old(self).0,
    {
        proof {
            mem.lemma_len_bound();
        }
        mem.set_b32_s1(self.0 + 1, v);
        self
    }

    /// The `script` field.
    pub fn script(&self, mem: &Mem) -> (r: i32)
        requires
            self.0 + 2 < mem.view().len(),
        ensures
            r == signed32(mem.view()[self.0 + 2].s0),
    {
        proof {
            mem.lemma_len_bound();
        }
        mem.b32_s0(self.0 + 2)
    }

    pub fn set_script(&mut self, mem: &mut Mem, v: i32) -> (r: &mut Self)
        requires
            old(self).0 + 2 < old(mem).view().len(),
        ensures
            final(mem).view() == old(mem).view().update(old(self).0 + 2, MemoryWord { s0: v as u32, s1: old(mem).view()[old(self).0 + 2].s1 }),
            r.0 == old(self).0,
    {
        proof {
            mem.lemma_len_bound();
        }
        mem.set_b32_s0(self.0 + 2, v);
        self
    }

    /// The `scriptscript` field.
    pub fn scriptscript(&self, mem: &Mem) -> (r: i32)
        requires
            self.0 + 2 < mem.view().len(),
        ensures
            r == signed32(mem.view()[self.0 + 2].s1),
    {
        proof {
            mem.lemma_len_bound();
        }
        mem.b32_s1(self.0 + 2)
    }

    pub fn set_scriptscript(&mut self, mem: &mut Mem, v: i32) -> (r: &mut Self)
        requires
            old(self).0 + 2 < old(mem).view().len(),
        ensures
            final(mem).view() == old(mem).view().update(old(self).0 + 2, MemoryWord { s0: old(mem).view()[old(self).0 + 2].s0, s1: v as u32 }),
            r.0 == old(self).0,
    {
        proof {
            mem.lemma_len_bound();
        }
        mem.set_b32_s1(self.0 + 2, v);
        self
    }

}

/// The dimensions shared by box-like nodes.
pub struct BaseBox(pub usize);

impl BaseBox {
    pub fn ptr(&self) -> (r: usize)
        ensures
            r == self.0,
    {
        self.0
    }

    /// A scaled width.
    pub fn width(&self, mem: &Mem) -> (r: i32)
        requires
            self.0 + 1 < mem.view().len(),
        ensures
            r == signed32(mem.view()[self.0 + 1].s1),
    {
        proof {
            mem.lemma_len_bound();
        }
        mem.b32_s1(self.0 + 1)
    }

    pub fn set_width(&mut self, mem: &mut Mem, v: i32) -> (r: &mut Self)
        requires
            old(self).0 + 1 < old(mem).view().len(),
        ensures
            final(mem).view() == old(mem).view().update(old(self).0 + 1, MemoryWord { s0: old(mem).view()[old(self).0 + 1].s0, s1: v as u32 }),
            r.0 == old(self).0,
    {
        proof {
            mem.lemma_len_bound();
        }
        mem.set_b32_s1(self.0 + 1, v);
        self
    }

    /// A scaled depth.
    pub fn depth(&self, mem: &Mem) -> (r: i32)
        requires
            self.0 + 2 < mem.view().len(),
        ensures
            r == signed32(mem.view()[self.0 + 2].s1),
    {
        proof {
            mem.lemma_len_bound();
        }
        mem.b32_s1(self.0 + 2)
    }

    pub fn set_depth(&mut self, mem: &mut Mem, v: i32) -> (r: &mut Self)
        requires
            old(self).0 + 2 < old(mem).view().len(),
        ensures
            final(mem).view() == old(mem).view().update(old(self).0 + 2, MemoryWord { s0: old(mem).view()[old(self).0 + 2].s0, s1: v as u32 }),
            r.0 == old(self).0,
    {
        proof {
            mem.lemma_len_bound();
        }
        mem.set_b32_s1(self.0 + 2, v);
        self
    }

    /// A scaled height.
    pub fn height(&self, mem: &Mem) -> (r: i32)
        requires
            self.0 + 3 < mem.view().len(),
        ensures
            r == signed32(mem.view()[self.0 + 3].s1),
    {
        proof {
            mem.lemma_len_bound();
        }
        mem.b32_s1(self.0 + 3)
    }

    pub fn set_height(&mut self, mem: &mut Mem, v: i32) -> (r: &mut Self)
        requires
            old(self).0 + 3 < old(mem).view().len(),
        ensures
            final(mem).view() == old(mem).view().update(old(self).0 + 3, MemoryWord { s0: old(mem).view()[old(self).0 + 3].s0, s1: v as u32 }),
            r.0 == old(self).0,
    {
        proof {
            mem.lemma_len_bound();
        }
        mem.set_b32_s1(self.0 + 3, v);
        self
    }

}

/// A delta node of the line breaker.
pub struct Delta(pub usize);

impl Delta {
    pub fn ptr(&self) -> (r: usize)
        ensures
            r == self.0,
    {
        self.0
    }

    /// The natural width difference.
    pub fn dwidth(&self, mem: &Mem) -> (r: i32)
        requires
            self.0 + 1 < mem.view().len(),
        ensures
            r == signed32(mem.view()[self.0 + 1].s1),
    {
        proof {
            mem.lemma_len_bound();
        }
        mem.b32_s1(self.0 + 1)
    }

    pub fn set_dwidth(&mut self, mem: &mut Mem, v: i32) -> (r: &mut Self)
        requires
            old(self).0 + 1 < old(mem).view().len(),
        ensures
            final(mem).view() == old(mem).view().update(old(self).0 + 1, MemoryWord { s0: old(mem).view()[old(self).0 + 1].s0, s1: v as u32 }),
            r.0 == old(self).0,
    {
        proof {
            mem.lemma_len_bound();
        }
        mem.set_b32_s1(self.0 + 1, v);
        self
    }

    /// The stretch difference in points.
    pub fn dstretch0(&self, mem: &Mem) -> (r: i32)
        requires
            self.0 + 2 < mem.view().len(),
        ensures
            r == signed32(mem.view()[self.0 + 2].s1),
    {
        proof {
            mem.lemma_len_bound();
        }
        mem.b32_s1(self.0 + 2)
    }

    pub fn set_dstretch0(&mut self, mem: &mut Mem, v: i32) -> (r: &mut Self)
        requires
            old(self).0 + 2 < old(mem).view().len(),
        ensures
            final(mem).view() == old(mem).view().update(old(self).0 + 2, MemoryWord { s0: old(mem).view()[old(self).0 + 2].s0, s1: v as u32 }),
            r.0 == old(self).0,
    {
        proof {
            mem.lemma_len_bound();
        }
        mem.set_b32_s1(self.0 + 2, v);
        self
    }

    /// The stretch difference in fil.
    pub fn dstretch1(&self, mem: &Mem) -> (r: i32)
        requires
            self.0 + 3 < mem.view().len(),
        ensures
            r == signed32(mem.view()[self.0 + 3].s1),
    {
        proof {
            mem.lemma_len_bound();
        }
        mem.b32_s1(self.0 + 3)
    }

    pub fn set_dstretch1(&mut self, mem: &mut Mem, v: i32) -> (r: &mut Self)
        requires
            old(self).0 + 3 < old(mem).view().len(),
        ensures
            final(mem).view() == old(mem).view().update(old(self).0 + 3, MemoryWord { s0: old(mem).view()[old(self).0 + 3].s0, s1: v as u32 }),
            r.0 == old(self).0,
    {
        proof {
            mem.lemma_len_bound();
        }
        mem.set_b32_s1(self.0 + 3, v);
        self
    }

    /// The stretch difference in fill.
    pub fn dstretch2(&self, mem: &Mem) -> (r: i32)
        requires
            self.0 + 4 < mem.view().len(),
        ensures
            r == signed32(mem.view()[self.0 + 4].s1),
    {
        proof {
            mem.lemma_len_bound();
        }
        mem.b32_s1(self.0 + 4)
    }

    pub fn set_dstretch2(&mut self, mem: &mut Mem, v: i32) -> (r: &mut Self)
        requires
            old(self).0 + 4 < old(mem).view().len(),
        ensures
            final(mem).view() == old(mem).view().update(old(self).0 + 4, MemoryWord { s0: old(mem).view()[old(self).0 + 4].s0, s1: v as u32 }),
            r.0 == old(self).0,
    {
        proof {
            mem.lemma_len_bound();
        }
        mem.set_b32_s1(self.0 + 4, v);
        self
    }

    /// The stretch difference in filll.
    pub fn dstretch3(&self, mem: &Mem) -> (r: i32)
        requires
            self.0 + 5 < mem.view().len(),
        ensures
            r == signed32(mem.view()[self.0 + 5].s1),
    {
        proof {
            mem.lemma_len_bound();
        }
        mem.b32_s1(self.0 + 5)
    }

    pub fn set_dstretch3(&mut self, mem: &mut Mem, v: i32) -> (r: &mut Self)
        requires
            old(self).0 + 5 < old(mem).view().len(),
        ensures
            final(mem).view() == old(mem).view().update(old(self).0 + 5, MemoryWord { s0: old(mem).view()[old(self).0 + 5].s0, s1: v as u32 }),
            r.0 == old(self).0,
    {
        proof {
            mem.lemma_len_bound();
        }
        mem.set_b32_s1(self.0 + 5, v);
        self
    }

    /// The shrink difference.
    pub fn dshrink(&self, mem: &Mem) -> (r: i32)
        requires
            self.0 + 6 < mem.view().len(),
        ensures
            r == signed32(mem.view()[self.0 + 6].s1),
    {
        proof {
            mem.lemma_len_bound();
        }
        mem.b32_s1(self.0 + 6)
    }

    pub fn set_dshrink(&mut self, mem: &mut Mem, v: i32) -> (r: &mut Self)
        requires
            old(self).0 + 6 < old(mem).view().len(),
        ensures
            final(mem).view() == old(mem).view().update(old(self).0 + 6, MemoryWord { s0: old(mem).view()[old(self).0 + 6].s0, s1: v as u32 }),
            r.0 == old(self).0,
    {
        proof {
            mem.lemma_len_bound();
        }
        mem.set_b32_s1(self.0 + 6, v);
        self
    }

}

/// A glue specification, with its reference count.
pub struct GlueSpec(pub usize);

impl GlueSpec {
    pub fn ptr(&self) -> (r: usize)
        ensures
            r == self.0,
    {
        self.0
    }

    /// Reference count.
    pub fn rc(&self, mem: &Mem) -> (r: i32)
        requires
            self.0 + 0 < mem.view().len(),
        ensures
            r == signed32(mem.view()[self.0 + 0].s1),
    {
        proof {
            mem.lemma_len_bound();
        }
        mem.b32_s1(self.0)
    }

    pub fn set_rc(&mut self, mem: &mut Mem, v: i32) -> (r: &mut Self)
        requires
            old(self).0 + 0 < old(mem).view().len(),
        ensures
            final(mem).view() == old(mem).view().update(old(self).0 + 0, MemoryWord { s0: old(mem).view()[old(self).0 + 0].s0, s1: v as u32 }),
            r.0 == old(self).0,
    {
        proof {
            mem.lemma_len_bound();
        }
        mem.set_b32_s1(self.0, v);
        self
    }

    /// Sets the reference count to zero.
    pub fn rc_zero(&mut self, mem: &mut Mem)
        requires
            old(self).0 + 0 < old(mem).view().len(),
        ensures
            final(mem).view() == old(mem).view().update(old(self).0 + 0, MemoryWord { s0: old(mem).view()[old(self).0 + 0].s0, s1: 0 }),
    {
        proof {
            mem.lemma_len_bound();
        }
        mem.set_b32_s1(self.0, 0);
    }

    /// Adds one to the reference count.
    pub fn rc_inc(&mut self, mem: &mut Mem)
        requires
            old(self).0 + 0 < old(mem).view().len(),
            signed32(old(mem).view()[old(self).0 + 0].s1) < i32::MAX,
        ensures
            final(mem).view() == old(mem).view().update(old(self).0 + 0, MemoryWord { s0: old(mem).view()[old(self).0 + 0].s0, s1: (signed32(old(mem).view()[old(self).0 + 0].s1) + 1) as u32 }),
    {
        proof {
            mem.lemma_len_bound();
        }
        let c = mem.b32_s1(self.0);
        mem.set_b32_s1(self.0, c + 1);
    }

    /// Takes one from the reference count.
    pub fn rc_dec(&mut self, mem: &mut Mem)
        requires
            old(self).0 + 0 < old(mem).view().len(),
            signed32(old(mem).view()[old(self).0 + 0].s1) > i32::MIN,
        ensures
            final(mem).view() == old(mem).view().update(old(self).0 + 0, MemoryWord { s0: old(mem).view()[old(self).0 + 0].s0, s1: (signed32(old(mem).view()[old(self).0 + 0].s1) - 1) as u32 }),
    {
        proof {
            mem.lemma_len_bound();
        }
        let c = mem.b32_s1(self.0);
        mem.set_b32_s1(self.0, c - 1);
    }

    /// The `size` field.
    pub fn size(&self, mem: &Mem) -> (r: i32)
        requires
            self.0 + 1 < mem.view().len(),
        ensures
            r == signed32(mem.view()[self.0 + 1].s1),
    {
        proof {
            mem.lemma_len_bound();
        }
        mem.b32_s1(self.0 + 1)
    }

    pub fn set_size(&mut self, mem: &mut Mem, v: i32) -> (r: &mut Self)
        requires
            old(self).0 + 1 < old(mem).view().len(),
        ensures
            final(mem).view() == old(mem).view().update(old(self).0 + 1, MemoryWord { s0: old(mem).view()[old(self).0 + 1].s0, s1: v as u32 }),
            r.0 == old(self).0,
    {
        proof {
            mem.lemma_len_bound();
        }
        mem.set_b32_s1(self.0 + 1, v);
        self
    }

    /// The `stretch` field.
    pub fn stretch(&self, mem: &Mem) -> (r: i32)
        requires
            self.0 + 2 < mem.view().len(),
        ensures
            r == signed32(mem.view()[self.0 + 2].s1),
    {
        proof {
            mem.lemma_len_bound();
        }
        mem.b32_s1(self.0 + 2)
    }

    pub fn set_stretch(&mut self, mem: &mut Mem, v: i32) -> (r: &mut Self)
        requires
            old(self).0 + 2 < old(mem).view().len(),
        ensures
            final(mem).view() == old(mem).view().update(old(self).0 + 2, MemoryWord { s0: old(mem).view()[old(self).0 + 2].s0, s1: v as u32 }),
            r.0 == old(self).0,
    {
        proof {
            mem.lemma_len_bound();
        }
        mem.set_b32_s1(self.0 + 2, v);
        self
    }

    /// The `shrink` field.
    pub fn shrink(&self, mem: &Mem) -> (r: i32)
        requires
            self.0 + 3 < mem.view().len(),
        ensures
            r == signed32(mem.view()[self.0 + 3].s1),
    {
        proof {
            mem.lemma_len_bound();
        }
        mem.b32_s1(self.0 + 3)
    }

    pub fn set_shrink(&mut self, mem: &mut Mem, v: i32) -> (r: &mut Self)
        requires
            old(self).0 + 3 < old(mem).view().len(),
        ensures
            final(mem).view() == old(mem).view().update(old(self).0 + 3, MemoryWord { s0: old(mem).view()[old(self).0 + 3].s0, s1: v as u32 }),
            r.0 == old(self).0,
    {
        proof {
            mem.lemma_len_bound();
        }
        mem.set_b32_s1(self.0 + 3, v);
        self
    }

}

/// A native word whatsit node (text shaped by the platform font machinery).
pub struct NativeWord(pub usize);

impl NativeWord {
    pub fn from(p: usize) -> (r: Self)
        ensures
            r.0 == p,
    {
        NativeWord(p)
    }

    pub fn ptr(&self) -> (r: usize)
        ensures
            r == self.0,
    {
        self.0
    }

    /// The dimensions of this node.
    pub fn base(&self) -> (r: BaseBox)
        ensures
            r.0 == self.0,
    {
        BaseBox(self.0)
    }

    /// The `size` field.
    pub fn size(&self, mem: &Mem) -> (r: u16)
        requires
            self.0 + 4 < mem.view().len(),
        ensures
            r == quarter(mem.view()[self.0 + 4], 3),
    {
        proof {
            mem.lemma_len_bound();
        }
        mem.b16(self.0 + 4, 3)
    }

    pub fn set_size(&mut self, mem: &mut Mem, v: u16) -> (r: &mut Self)
        requires
            old(self).0 + 4 < old(mem).view().len(),
        ensures
            final(mem).view() == old(mem).view().update(old(self).0 + 4, with_quarter(old(mem).view()[old(self).0 + 4], 3, v)),
            r.0 == old(self).0,
    {
        proof {
            mem.lemma_len_bound();
        }
        mem.set_b16(self.0 + 4, 3, v);
        self
    }

    /// The `font` field.
    pub fn font(&self, mem: &Mem) -> (r: u16)
        requires
            self.0 + 4 < mem.view().len(),
        ensures
            r == quarter(mem.view()[self.0 + 4], 2),
    {
        proof {
            mem.lemma_len_bound();
        }
        mem.b16(self.0 + 4, 2)
    }

    pub fn set_font(&mut self, mem: &mut Mem, v: u16) -> (r: &mut Self)
        requires
            old(self).0 + 4 < old(mem).view().len(),
        ensures
            final(mem).view() == old(mem).view().update(old(self).0 + 4, with_quarter(old(mem).view()[old(self).0 + 4], 2, v)),
            r.0 == old(self).0,
    {
        proof {
            mem.lemma_len_bound();
        }
        mem.set_b16(self.0 + 4, 2, v);
        self
    }

    /// Number of UTF-16 units in the text.
    pub fn length(&self, mem: &Mem) -> (r: u16)
        requires
            self.0 + 4 < mem.view().len(),
        ensures
            r == quarter(mem.view()[self.0 + 4], 1),
    {
        proof {
            mem.lemma_len_bound();
        }
        mem.b16(self.0 + 4, 1)
    }

    pub fn set_length(&mut self, mem: &mut Mem, v: u16) -> (r: &mut Self)
        requires
            old(self).0 + 4 < old(mem).view().len(),
        ensures
            final(mem).view() == old(mem).view().update(old(self).0 + 4, with_quarter(old(mem).view()[old(self).0 + 4], 1, v)),
            r.0 == old(self).0,
    {
        proof {
            mem.lemma_len_bound();
        }
        mem.set_b16(self.0 + 4, 1, v);
        self
    }

    /// The `glyph_count` field.
    pub fn glyph_count(&self, mem: &Mem) -> (r: u16)
        requires
            self.0 + 4 < mem.view().len(),
        ensures
            r == quarter(mem.view()[self.0 + 4], 0),
    {
        proof {
            mem.lemma_len_bound();
        }
        mem.b16(self.0 + 4, 0)
    }

    pub fn set_glyph_count(&mut self, mem: &mut Mem, v: u16) -> (r: &mut Self)
        requires
            old(self).0 + 4 < old(mem).view().len(),
        ensures
            final(mem).view() == old(mem).view().update(old(self).0 + 4, with_quarter(old(mem).view()[old(self).0 + 4], 0, v)),
            r.0 == old(self).0,
    {
        proof {
            mem.lemma_len_bound();
        }
        mem.set_b16(self.0 + 4, 0, v);
        self
    }

    /// The text: `length` UTF-16 units, four to a word, from the word after
    /// the fixed part of the node on.
    pub fn text(&self, mem: &Mem) -> (r: Vec<u16>)
        requires
            self.0 + 4 < mem.view().len(),
            self.0 + NATIVE_NODE_SIZE + (quarter(mem.view()[self.0 + 4], 1) + 3) / 4 <= mem.view().len(),
        ensures
            r@ == native_text(mem.view(), self.0 as int, quarter(mem.view()[self.0 + 4], 1) as int),
    {
        proof {
            mem.lemma_len_bound();
        }
        let len = self.length(mem);
        let base = self.0 + 6;
        let mut r: Vec<u16> = Vec::new();
        let mut i: u16 = 0;
        while i < len
            invariant
                i <= len,
                len == quarter(mem.view()[self.0 + 4], 1),
                base == self.0 + NATIVE_NODE_SIZE,
                base + (len + 3) / 4 <= mem.view().len(),
                r@ == native_text(mem.view(), self.0 as int, i as int),
            decreases len - i,
        {
            proof {
                assert(i / 4 < (len + 3) / 4);
                mem.lemma_len_bound();
            }
            let w = base + (i / 4) as usize;
            let q = (i % 4) as u8;
            let u = mem.b16(w, q);
            r.push(u);
            proof {
                assert(r@ =~= native_text(mem.view(), self.0 as int, i + 1));
            }
            i = i + 1;
        }
        r
    }
}

/// The fixed part of a native word node, in words.
pub const NATIVE_NODE_SIZE: usize = 6;

/// The first `len` UTF-16 units of the text of the native word node at
/// `p`: unit `i` is quarter `i % 4` of word `p + 6 + i / 4`.
pub open spec fn native_text(mem: Seq<MemoryWord>, p: int, len: int) -> Seq<u16> {
    Seq::new(len as nat, |i: int| quarter(mem[p + NATIVE_NODE_SIZE + i / 4], i % 4))
}

/// A native glyph whatsit node.
pub struct Glyph(pub usize);

impl Glyph {
    pub fn from(p: usize) -> (r: Self)
        ensures
            r.0 == p,
    {
        Glyph(p)
    }

    pub fn ptr(&self) -> (r: usize)
        ensures
            r == self.0,
    {
        self.0
    }

    /// The dimensions of this node.
    pub fn base(&self) -> (r: BaseBox)
        ensures
            r.0 == self.0,
    {
        BaseBox(self.0)
    }

    /// The `font` field.
    pub fn font(&self, mem: &Mem) -> (r: u16)
        requires
            self.0 + 4 < mem.view().len(),
        ensures
            r == quarter(mem.view()[self.0 + 4], 2),
    {
        proof {
            mem.lemma_len_bound();
        }
        mem.b16(self.0 + 4, 2)
    }

    pub fn set_font(&mut self, mem: &mut Mem, v: u16) -> (r: &mut Self)
        requires
            old(self).0 + 4 < old(mem).view().len(),
        ensures
            final(mem).view() == old(mem).view().update(old(self).0 + 4, with_quarter(old(mem).view()[old(self).0 + 4], 2, v)),
            r.0 == old(self).0,
    {
        proof {
            mem.lemma_len_bound();
        }
        mem.set_b16(self.0 + 4, 2, v);
        self
    }

    /// The `glyph` field.
    pub fn glyph(&self, mem: &Mem) -> (r: u16)
        requires
            self.0 + 4 < mem.view().len(),
        ensures
            r == quarter(mem.view()[self.0 + 4], 1),
    {
        proof {
            mem.lemma_len_bound();
        }
        mem.b16(self.0 + 4, 1)
    }

    pub fn set_glyph(&mut self, mem: &mut Mem, v: u16) -> (r: &mut Self)
        requires
            old(self).0 + 4 < old(mem).view().len(),
        ensures
            final(mem).view() == old(mem).view().update(old(self).0 + 4, with_quarter(old(mem).view()[old(self).0 + 4], 1, v)),
            r.0 == old(self).0,
    {
        proof {
            mem.lemma_len_bound();
        }
        mem.set_b16(self.0 + 4, 1, v);
        self
    }

}

/// An hlist or vlist box node.
pub struct Box(pub usize);

impl Box {
    pub fn from(p: usize) -> (r: Self)
        ensures
            r.0 == p,
    {
        Box(p)
    }

    pub fn ptr(&self) -> (r: usize)
        ensures
            r == self.0,
    {
        self.0
    }

    /// The dimensions of this node.
    pub fn base(&self) -> (r: BaseBox)
        ensures
            r.0 == self.0,
    {
        BaseBox(self.0)
    }

    /// The direction mode of the box (its subtype), which must be a code
    /// of `LRMode`.
    pub fn lr_mode(&self, mem: &Mem) -> (r: LRMode)
        requires
            self.0 + 0 < mem.view().len(),
            lrmode_of(quarter(mem.view()[self.0 + 0], 0)) is Some,
        ensures
            Some(r) == lrmode_of(quarter(mem.view()[self.0 + 0], 0)),
    {
        proof {
            mem.lemma_len_bound();
        }
        LRMode::from(mem.b16(self.0, 0))
    }

    pub fn set_lr_mode(&mut self, mem: &mut Mem, mode: LRMode) -> (r: &mut Self)
        requires
            old(self).0 + 0 < old(mem).view().len(),
        ensures
            final(mem).view() == old(mem).view().update(old(self).0 + 0, with_quarter(old(mem).view()[old(self).0 + 0], 0, lrmode_code(mode))),
            r.0 == old(self).0,
    {
        proof {
            mem.lemma_len_bound();
        }
        mem.set_b16(self.0, 0, mode.u16());
        self
    }

    /// The `shift_amount` field.
    pub fn shift_amount(&self, mem: &Mem) -> (r: i32)
        requires
            self.0 + 4 < mem.view().len(),
        ensures
            r == signed32(mem.view()[self.0 + 4].s1),
    {
        proof {
            mem.lemma_len_bound();
        }
        mem.b32_s1(self.0 + 4)
    }

    pub fn set_shift_amount(&mut self, mem: &mut Mem, v: i32) -> (r: &mut Self)
        requires
            old(self).0 + 4 < old(mem).view().len(),
        ensures
            final(mem).view() == old(mem).view().update(old(self).0 + 4, MemoryWord { s0: old(mem).view()[old(self).0 + 4].s0, s1: v as u32 }),
            r.0 == old(self).0,
    {
        proof {
            mem.lemma_len_bound();
        }
        mem.set_b32_s1(self.0 + 4, v);
        self
    }

    /// The list inside.
    pub fn list_ptr(&self, mem: &Mem) -> (r: i32)
        requires
            self.0 + 5 < mem.view().len(),
        ensures
            r == signed32(mem.view()[self.0 + 5].s1),
    {
        proof {
            mem.lemma_len_bound();
        }
        mem.b32_s1(self.0 + 5)
    }

    pub fn set_list_ptr(&mut self, mem: &mut Mem, v: i32) -> (r: &mut Self)
        requires
            old(self).0 + 5 < old(mem).view().len(),
        ensures
            final(mem).view() == old(mem).view().update(old(self).0 + 5, MemoryWord { s0: old(mem).view()[old(self).0 + 5].s0, s1: v as u32 }),
            r.0 == old(self).0,
    {
        proof {
            mem.lemma_len_bound();
        }
        mem.set_b32_s1(self.0 + 5, v);
        self
    }

}

/// An unset node of an alignment.
pub struct Unset(pub usize);

impl Unset {
    pub fn from(p: usize) -> (r: Self)
        ensures
            r.0 == p,
    {
        Unset(p)
    }

    pub fn ptr(&self) -> (r: usize)
        ensures
            r == self.0,
    {
        self.0
    }

    /// The dimensions of this node.
    pub fn base(&self) -> (r: BaseBox)
        ensures
            r.0 == self.0,
    {
        BaseBox(self.0)
    }

    /// The `columns` field.
    pub fn columns(&self, mem: &Mem) -> (r: u16)
        requires
            self.0 + 0 < mem.view().len(),
        ensures
            r == quarter(mem.view()[self.0 + 0], 0),
    {
        proof {
            mem.lemma_len_bound();
        }
        mem.b16(self.0, 0)
    }

    pub fn set_columns(&mut self, mem: &mut Mem, v: u16) -> (r: &mut Self)
        requires
            old(self).0 + 0 < old(mem).view().len(),
        ensures
            final(mem).view() == old(mem).view().update(old(self).0 + 0, with_quarter(old(mem).view()[old(self).0 + 0], 0, v)),
            r.0 == old(self).0,
    {
        proof {
            mem.lemma_len_bound();
        }
        mem.set_b16(self.0, 0, v);
        self
    }

    /// The `shrink` field.
    pub fn shrink(&self, mem: &Mem) -> (r: i32)
        requires
            self.0 + 4 < mem.view().len(),
        ensures
            r == signed32(mem.view()[self.0 + 4].s1),
    {
        proof {
            mem.lemma_len_bound();
        }
        mem.b32_s1(self.0 + 4)
    }

    pub fn set_shrink(&mut self, mem: &mut Mem, v: i32) -> (r: &mut Self)
        requires
            old(self).0 + 4 < old(mem).view().len(),
        ensures
            final(mem).view() == old(mem).view().update(old(self).0 + 4, MemoryWord { s0: old(mem).view()[old(self).0 + 4].s0, s1: v as u32 }),
            r.0 == old(self).0,
    {
        proof {
            mem.lemma_len_bound();
        }
        mem.set_b32_s1(self.0 + 4, v);
        self
    }

    /// The `stretch` field.
    pub fn stretch(&self, mem: &Mem) -> (r: i32)
        requires
            self.0 + 6 < mem.view().len(),
        ensures
            r == signed32(mem.view()[self.0 + 6].s1),
    {
        proof {
            mem.lemma_len_bound();
        }
        mem.b32_s1(self.0 + 6)
    }

    pub fn set_stretch(&mut self, mem: &mut Mem, v: i32) -> (r: &mut Self)
        requires
            old(self).0 + 6 < old(mem).view().len(),
        ensures
            final(mem).view() == old(mem).view().update(old(self).0 + 6, MemoryWord { s0: old(mem).view()[old(self).0 + 6].s0, s1: v as u32 }),
            r.0 == old(self).0,
    {
        proof {
            mem.lemma_len_bound();
        }
        mem.set_b32_s1(self.0 + 6, v);
        self
    }

    /// The list inside.
    pub fn list_ptr(&self, mem: &Mem) -> (r: i32)
        requires
            self.0 + 5 < mem.view().len(),
        ensures
            r == signed32(mem.view()[self.0 + 5].s1),
    {
        proof {
            mem.lemma_len_bound();
        }
        mem.b32_s1(self.0 + 5)
    }

    pub fn set_list_ptr(&mut self, mem: &mut Mem, v: i32) -> (r: &mut Self)
        requires
            old(self).0 + 5 < old(mem).view().len(),
        ensures
            final(mem).view() == old(mem).view().update(old(self).0 + 5, MemoryWord { s0: old(mem).view()[old(self).0 + 5].s0, s1: v as u32 }),
            r.0 == old(self).0,
    {
        proof {
            mem.lemma_len_bound();
        }
        mem.set_b32_s1(self.0 + 5, v);
        self
    }

}

/// A picture whatsit node.
pub struct Picture(pub usize);

impl Picture {
    pub fn from(p: usize) -> (r: Self)
        ensures
            r.0 == p,
    {
        Picture(p)
    }

    pub fn ptr(&self) -> (r: usize)
        ensures
            r == self.0,
    {
        self.0
    }

    /// The dimensions of this node.
    pub fn base(&self) -> (r: BaseBox)
        ensures
            r.0 == self.0,
    {
        BaseBox(self.0)
    }

}

/// A rule node.
pub struct Rule(pub usize);

impl Rule {
    pub fn from(p: usize) -> (r: Self)
        ensures
            r.0 == p,
    {
        Rule(p)
    }

    pub fn ptr(&self) -> (r: usize)
        ensures
            r == self.0,
    {
        self.0
    }

    /// The dimensions of this node.
    pub fn base(&self) -> (r: BaseBox)
        ensures
            r.0 == self.0,
    {
        BaseBox(self.0)
    }

}

} // verus!
