//! Recognition of dvips-style PostScript specials (`ps:`, `header=`,
//! `psfile=` and the like) and of the file names they carry.
use vstd::prelude::*;

verus! {

/// The white-space bytes of PDF and PostScript syntax.
pub open spec fn is_white(c: u8) -> bool {
    c == 32 || c == 9 || c == 10 || c == 13 || c == 12 || c == 0
}

/// The position of the first non-white byte at or after `pos`.
pub open spec fn skip_white_spec(buf: Seq<u8>, pos: int) -> int
    decreases buf.len() - pos,
{
    if pos >= buf.len() || !is_white(buf[pos]) {
        pos
    } else {
        skip_white_spec(buf, pos + 1)
    }
}

/// Skips white space from `pos` on.
pub fn skip_white(buf: &[u8], pos: usize) -> (r: usize)
    requires
        pos <= buf@.len(),
    ensures
        r == skip_white_spec(buf@, pos as int),
        pos <= r <= buf@.len(),
{
    let mut p = pos;
    while p < buf.len() && (buf[p] == 32 || buf[p] == 9 || buf[p] == 10 || buf[p] == 13 || buf[p]
        == 12 || buf[p] == 0)
        invariant
            pos <= p <= buf@.len(),
            skip_white_spec(buf@, pos as int) == skip_white_spec(buf@, p as int),
        decreases buf@.len() - p,
    {
        p = p + 1;
    }
    p
}

/// The keys of the dvips specials, in the order in which they are tried.
pub open spec fn dvips_key(i: int) -> Seq<u8> {
    if i == 0 {
        seq![104u8, 101, 97, 100, 101, 114]  // header
    } else if i == 1 {
        seq![80u8, 83, 102, 105, 108, 101]  // PSfile
    } else if i == 2 {
        seq![112u8, 115, 102, 105, 108, 101]  // psfile
    } else if i == 3 {
        seq![112u8, 115, 58, 32, 112, 108, 111, 116, 102, 105, 108, 101, 32]  // "ps: plotfile "
    } else if i == 4 {
        seq![80u8, 83, 58, 32, 112, 108, 111, 116, 102, 105, 108, 101, 32]  // "PS: plotfile "
    } else if i == 5 {
        seq![80u8, 83, 58]  // PS:
    } else if i == 6 {
        seq![112u8, 115, 58]  // ps:
    } else if i == 7 {
        seq![80u8, 83, 84, 58]  // PST:
    } else if i == 8 {
        seq![112u8, 115, 116, 58]  // pst:
    } else {
        seq![34u8, 32]  // "\" "
    }
}

/// Number of dvips special keys.
pub const NUM_DVIPS_KEYS: usize = 10;

/// The key of handler `i` (0 to 9).
pub fn dvips_key_bytes(i: usize) -> (r: Vec<u8>)
    requires
        i < NUM_DVIPS_KEYS,
    ensures
        r@ == dvips_key(i as int),
{
    let r = if i == 0 {
        vec![104u8, 101, 97, 100, 101, 114]
    } else if i == 1 {
        vec![80u8, 83, 102, 105, 108, 101]
    } else if i == 2 {
        vec![112u8, 115, 102, 105, 108, 101]
    } else if i == 3 {
        vec![112u8, 115, 58, 32, 112, 108, 111, 116, 102, 105, 108, 101, 32]
    } else if i == 4 {
        vec![80u8, 83, 58, 32, 112, 108, 111, 116, 102, 105, 108, 101, 32]
    } else if i == 5 {
        vec![80u8, 83, 58]
    } else if i == 6 {
        vec![112u8, 115, 58]
    } else if i == 7 {
        vec![80u8, 83, 84, 58]
    } else if i == 8 {
        vec![112u8, 115, 116, 58]
    } else {
        vec![34u8, 32]
    };
    assert(r@ =~= dvips_key(i as int));
    r
}

/// `buf` holds `key` at position `pos`.
pub open spec fn has_prefix_at(buf: Seq<u8>, pos: int, key: Seq<u8>) -> bool {
    pos + key.len() <= buf.len() && buf.subrange(pos, pos + key.len()) == key
}

fn starts_with_at(buf: &[u8], pos: usize, key: &Vec<u8>) -> (r: bool)
    requires
        pos <= buf@.len(),
    ensures
        r == has_prefix_at(buf@, pos as int, key@),
{
    if key.len() > buf.len() - pos {
        return false;
    }
    let blen = buf.len();
    let mut k: usize = 0;
    while k < key.len()
        invariant
            blen == buf@.len(),
            k <= key@.len(),
            pos + key@.len() <= buf@.len(),
            forall|j: int| 0 <= j < k ==> buf@[pos + j] == key@[j],
        decreases key@.len() - k,
    {
        if buf[pos + k] != key[k] {
            proof {
                assert(buf@.subrange(pos as int, pos + key@.len())[k as int] != key@[k as int]);
            }
            return false;
        }
        k = k + 1;
    }
    proof {
        assert(buf@.subrange(pos as int, pos + key@.len()) =~= key@);
    }
    true
}

/// Whether `buf`, after white space, starts with one of the dvips keys.
pub fn spc_dvips_check_special(buf: &[u8]) -> (r: bool)
    ensures
        r == {
            let p = skip_white_spec(buf@, 0);
            p < buf@.len() && exists|i: int| 0 <= i < 10 && has_prefix_at(buf@, p, #[trigger] dvips_key(i))
        },
{
    let p = skip_white(buf, 0);
    if p >= buf.len() {
        return false;
    }
    let mut i: usize = 0;
    while i < NUM_DVIPS_KEYS
        invariant
            i <= NUM_DVIPS_KEYS,
            p == skip_white_spec(buf@, 0),
            p <= buf@.len(),
            forall|j: int| 0 <= j < i ==> !has_prefix_at(buf@, p as int, #[trigger] dvips_key(j)),
        decreases NUM_DVIPS_KEYS - i,
    {
        let key = dvips_key_bytes(i);
        if starts_with_at(buf, p, &key) {
            return true;
        }
        i = i + 1;
    }
    false
}

/// Where the key of a dvips special ends: letters, then either a colon (and
/// an optional " plotfile "), or a double quote and a space.
pub open spec fn key_end_spec(buf: Seq<u8>, start: int) -> int {
    let a = letters_end(buf, start);
    if a < buf.len() && buf[a] == 58 {
        if has_prefix_at(buf, a + 1, seq![32u8, 112, 108, 111, 116, 102, 105, 108, 101, 32]) {
            a + 11
        } else {
            a + 1
        }
    } else if a + 1 < buf.len() && buf[a] == 34 && buf[a + 1] == 32 {
        a + 2
    } else {
        a
    }
}

/// The end of the run of ASCII letters starting at `pos`.
pub open spec fn letters_end(buf: Seq<u8>, pos: int) -> int
    decreases buf.len() - pos,
{
    if pos >= buf.len() || !((65 <= buf[pos] <= 90) || (97 <= buf[pos] <= 122)) {
        pos
    } else {
        letters_end(buf, pos + 1)
    }
}

/// The handler chosen for a dvips special: the first key equal to the
/// special's key.
pub open spec fn setup_handler_spec(buf: Seq<u8>) -> Option<(int, int)> {
    let start = skip_white_spec(buf, 0);
    let end = key_end_spec(buf, start);
    let key = buf.subrange(start, end);
    if end - start < 1 {
        None
    } else if exists|i: int| 0 <= i < 10 && dvips_key(i) == key {
        let i = choose|i: int|
            0 <= i < 10 && dvips_key(i) == key && forall|j: int| 0 <= j < i ==> dvips_key(j) != key;
        Some((i, skip_white_spec(buf, end)))
    } else {
        None
    }
}

/// Finds the handler of a dvips special: returns the index of the matching
/// key and where the special's arguments start, or `None` where the special
/// is not one of them.
pub fn spc_dvips_setup_handler(args: &[u8]) -> (r: Option<(usize, usize)>)
    ensures
        match r {
            Some((i, rest)) => setup_handler_spec(args@) == Some((i as int, rest as int)),
            None => setup_handler_spec(args@) is None,
        },
{
    let start = skip_white(args, 0);
    let mut a = start;
    while a < args.len() && ((65 <= args[a] && args[a] <= 90) || (97 <= args[a] && args[a] <= 122))
        invariant
            start <= a <= args@.len(),
            letters_end(args@, start as int) == letters_end(args@, a as int),
        decreases args@.len() - a,
    {
        a = a + 1;
    }
    let plot: Vec<u8> = vec![32u8, 112, 108, 111, 116, 102, 105, 108, 101, 32];
    assert(plot@ =~= seq![32u8, 112, 108, 111, 116, 102, 105, 108, 101, 32]);
    let end = if a < args.len() && args[a] == 58 {
        if starts_with_at(args, a + 1, &plot) {
            a + 11
        } else {
            a + 1
        }
    } else if a < args.len() && args.len() - a > 1 && args[a] == 34 && args[a + 1] == 32 {
        a + 2
    } else {
        a
    };
    if end - start < 1 {
        return None;
    }
    let ghost key = args@.subrange(start as int, end as int);
    let mut i: usize = 0;
    while i < NUM_DVIPS_KEYS
        invariant
            i <= NUM_DVIPS_KEYS,
            start <= end <= args@.len(),
            key == args@.subrange(start as int, end as int),
            start == skip_white_spec(args@, 0),
            end == key_end_spec(args@, start as int),
            forall|j: int| 0 <= j < i ==> dvips_key(j) != key,
        decreases NUM_DVIPS_KEYS - i,
    {
        let k = dvips_key_bytes(i);
        let mut same = k.len() == end - start;
        if same {
            let mut q: usize = 0;
            while q < k.len()
                invariant
                    q <= k@.len(),
                    k@.len() == end - start,
                    start <= end <= args@.len(),
                    same == forall|j: int| 0 <= j < q ==> k@[j] == args@[start + j],
                decreases k@.len() - q,
            {
                if k[q] != args[start + q] {
                    same = false;
                }
                q = q + 1;
            }
            proof {
                if same {
                    assert(k@ =~= key);
                } else {
                    let j = choose|j: int| 0 <= j < q && k@[j] != args@[start + j];
                    assert(key[j] == args@[start + j]);
                }
            }
        }
        if same {
            let rest = skip_white(args, end);
            return Some((i, rest));
        }
        i = i + 1;
    }
    None
}

/// The file name of a `psfile=` or `header=` special, starting at `pos`:
/// quoted by `"` or `'`, or ended by a space. The result gives where the
/// name starts, its length, and the position after it (after the closing
/// quote, if any).
pub open spec fn parse_filename_spec(buf: Seq<u8>, pos: int) -> Option<(int, int, int)> {
    if pos >= buf.len() {
        None
    } else {
        let quoted = buf[pos] == 34 || buf[pos] == 39;
        let q = if quoted { buf[pos] } else { 32u8 };
        let start = if quoted { pos + 1 } else { pos };
        let stop = find_byte(buf, start, q);
        let after = if quoted { stop + 1 } else { stop };
        if stop - start == 0 {
            None
        } else {
            Some((start, stop - start, after))
        }
    }
}

/// The position of the first `c` at or after `pos`, or the end.
pub open spec fn find_byte(buf: Seq<u8>, pos: int, c: u8) -> int
    decreases buf.len() - pos,
{
    if pos >= buf.len() || buf[pos] == c {
        pos
    } else {
        find_byte(buf, pos + 1, c)
    }
}

/// Reads a file name; see `parse_filename_spec`. A quoted name must be
/// closed.
pub fn parse_filename(buf: &[u8], pos: usize) -> (r: Option<(usize, usize, usize)>)
    requires
        pos <= buf@.len(),
        pos < buf@.len() && (buf@[pos as int] == 34 || buf@[pos as int] == 39) ==> find_byte(
            buf@,
            pos + 1,
            buf@[pos as int],
        ) < buf@.len(),
    ensures
        match r {
            Some((s, n, a)) => parse_filename_spec(buf@, pos as int) == Some(
                (s as int, n as int, a as int),
            ),
            None => parse_filename_spec(buf@, pos as int) is None,
        },
{
    if pos >= buf.len() {
        return None;
    }
    let quoted = buf[pos] == 34 || buf[pos] == 39;
    let q: u8 = if quoted { buf[pos] } else { 32 };
    let start = if quoted { pos + 1 } else { pos };
    let mut p = start;
    while p < buf.len() && buf[p] != q
        invariant
            start <= p <= buf@.len(),
            find_byte(buf@, start as int, q) == find_byte(buf@, p as int, q),
        decreases buf@.len() - p,
    {
        p = p + 1;
    }
    let after = if quoted { p + 1 } else { p };
    if p - start == 0 {
        None
    } else {
        Some((start, p - start, after))
    }
}

/// What inline PostScript (`ps:`) specials keep from one to the next: the
/// number of open `ps::[begin]` blocks, and whether a position is pending
/// (the one where the last block, or the last plain `ps:` special, began).
#[derive(Clone, Copy, Debug, PartialEq, Eq, Structural)]
pub struct PsLiteralState {
    pub block_pending: i32,
    pub position_set: bool,
}

/// Where the code of a `ps:` special is placed.
#[derive(Clone, Copy, Debug, PartialEq, Eq, Structural)]
pub enum PsPosition {
    /// At the current point, which becomes the pending position.
    CurrentMadePending,
    /// At the pending position.
    Pending,
    /// At the current point.
    Current,
}

pub open spec fn begin_key() -> Seq<u8> {
    seq![58u8, 91, 98, 101, 103, 105, 110, 93]
}

pub open spec fn end_key() -> Seq<u8> {
    seq![58u8, 91, 101, 110, 100, 93]
}

/// A `ps:` special whose argument (after the key) is `args`: the state
/// after it, where its code is placed, and where its code starts; `None`
/// for a `::[end]` without its `::[begin]`. `ps::[begin]` opens a block at
/// the current point; `ps::[end]` closes one, at the pending position;
/// `ps::` goes to the pending position where there is one; a plain `ps:`
/// makes the current point the pending position.
pub open spec fn ps_literal_spec(st: PsLiteralState, args: Seq<u8>) -> Option<(PsLiteralState, PsPosition, int)> {
    if has_prefix_at(args, 0, begin_key()) {
        Some((
            PsLiteralState { block_pending: (st.block_pending + 1) as i32, position_set: true },
            PsPosition::CurrentMadePending,
            skip_white_spec(args, 8),
        ))
    } else if has_prefix_at(args, 0, end_key()) {
        if st.block_pending <= 0 {
            None
        } else {
            Some((
                PsLiteralState { block_pending: (st.block_pending - 1) as i32, position_set: false },
                PsPosition::Pending,
                skip_white_spec(args, 6),
            ))
        }
    } else if args.len() > 0 && args[0] == 58 {
        Some((st, if st.position_set { PsPosition::Pending } else { PsPosition::Current }, skip_white_spec(args, 1)))
    } else {
        Some((PsLiteralState { position_set: true, ..st }, PsPosition::CurrentMadePending, skip_white_spec(args, 0)))
    }
}

/// The decisions of a `ps:` special (see `ps_literal_spec`): updates the
/// state and says where the code goes and where it starts (the code itself
/// is run by the PostScript interpreter). `Err` for an unmatched
/// `ps::[end]`, which leaves the state as it is.
pub fn spc_handler_ps_literal(st: &mut PsLiteralState, args: &[u8]) -> (r: Result<(PsPosition, usize), ()>)
    requires
        args@.len() > 0,
        old(st).block_pending < i32::MAX,
    ensures
        match ps_literal_spec(*old(st), args@) {
            Some((s2, pos, start)) => r == Ok::<(PsPosition, usize), ()>((pos, start as usize)) && *final(st) == s2,
            None => r is Err && *final(st) == *old(st),
        },
{
    let begin: Vec<u8> = vec![58u8, 91, 98, 101, 103, 105, 110, 93];
    let end: Vec<u8> = vec![58u8, 91, 101, 110, 100, 93];
    proof {
        assert(begin@ =~= begin_key());
        assert(end@ =~= end_key());
    }
    if starts_with_at(args, 0, &begin) {
        st.block_pending = st.block_pending + 1;
        st.position_set = true;
        Ok((PsPosition::CurrentMadePending, skip_white(args, 8)))
    } else if starts_with_at(args, 0, &end) {
        if st.block_pending <= 0 {
            return Err(());
        }
        st.block_pending = st.block_pending - 1;
        st.position_set = false;
        Ok((PsPosition::Pending, skip_white(args, 6)))
    } else if args[0] == 58 {
        let pos = if st.position_set { PsPosition::Pending } else { PsPosition::Current };
        Ok((pos, skip_white(args, 1)))
    } else {
        st.position_set = true;
        Ok((PsPosition::CurrentMadePending, skip_white(args, 0)))
    }
}

/// The count of open blocks never falls below zero, and a `ps::[end]` is
/// refused exactly where no block is open.
pub proof fn law_blocks_balance(st: PsLiteralState, args: Seq<u8>)
    requires
        st.block_pending >= 0,
        st.block_pending < i32::MAX,
    ensures
        ps_literal_spec(st, args) matches Some((s2, _, _)) ==> s2.block_pending >= 0,
        has_prefix_at(args, 0, end_key()) ==> (ps_literal_spec(st, args) is None <==> st.block_pending == 0),
{
    if has_prefix_at(args, 0, end_key()) {
        assert(!has_prefix_at(args, 0, begin_key())) by {
            assert(args[2] == end_key()[2]);
            if has_prefix_at(args, 0, begin_key()) {
                assert(args.subrange(0, 8)[2] == begin_key()[2]);
                assert(args.subrange(0, 6)[2] == end_key()[2]);
            }
        }
    }
}

/// A `ps::[begin]` and then a `ps::[end]` leave as many blocks open as
/// before, and the code of the end goes where the block began.
pub proof fn law_begin_then_end(st: PsLiteralState, b: Seq<u8>, e: Seq<u8>)
    requires
        0 <= st.block_pending < i32::MAX,
        has_prefix_at(b, 0, begin_key()),
        has_prefix_at(e, 0, end_key()),
    ensures
        ps_literal_spec(st, b) matches Some((s1, p1, _)) && p1 == PsPosition::CurrentMadePending && (
        ps_literal_spec(s1, e) matches Some((s2, p2, _)) && s2.block_pending == st.block_pending && p2
            == PsPosition::Pending),
{
    assert(!has_prefix_at(e, 0, begin_key())) by {
        if has_prefix_at(e, 0, begin_key()) {
            assert(e.subrange(0, 8)[2] == begin_key()[2]);
            assert(e.subrange(0, 6)[2] == end_key()[2]);
        }
    }
}

/// The keys of the dvips specials are pairwise different, so each handler
/// is chosen by its own key; the keys differ even where they differ only in
/// case (`PSfile` and `psfile`, `PS:` and `ps:`).
pub proof fn law_dvips_keys_distinct(i: int, j: int)
    requires
        0 <= i < j < 10,
    ensures
        dvips_key(i) != dvips_key(j),
{
    if dvips_key(i).len() == dvips_key(j).len() {
        assert(dvips_key(i)[0] != dvips_key(j)[0]);
    }
}

/// A special that is a key followed by a space chooses that key's handler,
/// with its arguments after the space: every key is read whole as a key.
pub proof fn law_dvips_key_chooses_its_handler(i: int)
    requires
        0 <= i < 10,
    ensures
        setup_handler_spec(dvips_key(i).push(32u8)) == Some((i, dvips_key(i).len() as int + 1)),
{
    let key = dvips_key(i);
    let b = key.push(32u8);
    let n = key.len() as int;
    assert(b.subrange(0, n) =~= key);
    assert(!is_white(b[0]));
    assert(skip_white_spec(b, 0) == 0);
    reveal_with_fuel(letters_end, 8);
    assert(key_end_spec(b, 0) == n) by {
        if i == 3 || i == 4 {
            assert(letters_end(b, 0) == 2);
            assert(b.subrange(3, 13) =~= seq![32u8, 112, 108, 111, 116, 102, 105, 108, 101, 32]);
        } else if i == 5 || i == 6 {
            assert(letters_end(b, 0) == 2);
            assert(!has_prefix_at(b, 3, seq![32u8, 112, 108, 111, 116, 102, 105, 108, 101, 32]));
        } else if i == 7 || i == 8 {
            assert(letters_end(b, 0) == 3);
            assert(!has_prefix_at(b, 4, seq![32u8, 112, 108, 111, 116, 102, 105, 108, 101, 32]));
        } else if i == 9 {
            assert(letters_end(b, 0) == 0);
        } else {
            assert(letters_end(b, 0) == 6);
        }
    }
    assert(skip_white_spec(b, n + 1) == n + 1);
    assert(skip_white_spec(b, n) == n + 1);
    assert forall|j: int| 0 <= j < 10 && j != i implies dvips_key(j) != key by {
        if j < i {
            law_dvips_keys_distinct(j, i);
        } else {
            law_dvips_keys_distinct(i, j);
        }
    }
    assert(dvips_key(i) == key);
}

} // verus!
