//! A hash-array-mapped trie of 32-byte keys and values inside a byte arena.
//!
//! The arena starts with a control prefix: the offset of the root branch
//! (u32 LE) and the offset of the first unused byte (u32 LE). A leaf is the
//! tag `1`, its key and its value. A branch is the tag `2` and 32 child
//! offsets (u32 LE), one per 5-bit slot; `0` marks an empty slot. A key is its
//! own hash: at depth `d` its slot is bits `[5d, 5d+5)` of the key, most
//! significant bit first. Updates copy the path they change into unused space
//! and then switch the root, so every write is complete or not made at all.
//! Removal drops branches left empty and folds a branch below the root that
//! keeps a single leaf back into that leaf.

use vstd::prelude::*;
use crate::bytes::{le_value, le_bytes, read_le, push_le, push_all, array_at, bytes_eq, lemma_le_bytes_len, lemma_le_round_trip, pow256};
use crate::error::ProgramError;
use crate::layout::Word;

verus! {

pub const HAMT_HEADER: usize = 8;
pub const LEAF_TAG: u8 = 1;
pub const BRANCH_TAG: u8 = 2;
pub const LEAF_SIZE: usize = 65;
pub const BRANCH_SIZE: usize = 129;
/// The largest arena: offsets must fit in 32 bits with room for one path.
pub const MAX_ARENA: usize = 0xFFFF_0000;
/// Room for the nodes that one update writes, at most.
pub const PATH_ROOM: usize = 6890;

/// Bit `i` of a key, most significant bit of the first byte first.
pub open spec fn key_bit(k: Seq<u8>, i: int) -> int {
    if 0 <= i < 256 && i / 8 < k.len() {
        ((k[i / 8] >> ((7 - i % 8) as u8)) & 1u8) as int
    } else {
        0
    }
}

/// The slot a key takes at depth `d`.
pub open spec fn slot(k: Seq<u8>, d: int) -> int {
    16 * key_bit(k, 5 * d) + 8 * key_bit(k, 5 * d + 1) + 4 * key_bit(k, 5 * d + 2) + 2 * key_bit(
        k,
        5 * d + 3,
    ) + key_bit(k, 5 * d + 4)
}

/// Two keys take the same slots at every depth below `d`.
pub open spec fn slots_agree(a: Seq<u8>, b: Seq<u8>, d: int) -> bool {
    forall|j: int| 0 <= j < d ==> slot(a, j) == slot(b, j)
}

/// The u32 at `o`.
pub open spec fn word_at(s: Seq<u8>, o: int) -> int {
    le_value(s.subrange(o, o + 4)) as int
}

/// What the trie below the node at `off`, reached at depth `d`, holds for `k`.
pub open spec fn lookup(s: Seq<u8>, off: int, k: Seq<u8>, d: int) -> Option<Seq<u8>>
    decreases 52 - d,
{
    if d < 0 || d > 52 || off < 8 || off >= s.len() {
        None
    } else if s[off] == LEAF_TAG {
        if off + 65 > s.len() {
            None
        } else if s.subrange(off + 1, off + 33) == k {
            Some(s.subrange(off + 33, off + 65))
        } else {
            None
        }
    } else if s[off] == BRANCH_TAG && d < 52 {
        if off + 129 > s.len() {
            None
        } else {
            let c = word_at(s, off + 1 + 4 * slot(k, d));
            if c == 0 {
                None
            } else {
                lookup(s, c, k, d + 1)
            }
        }
    } else {
        None
    }
}

/// The path of `k` from the node at `off` lies in `[8, top)`, and a leaf on it
/// has a key that takes the same slots as `k` above it.
pub open spec fn sound(s: Seq<u8>, off: int, k: Seq<u8>, d: int, top: int) -> bool
    decreases 52 - d,
{
    if d < 0 || d > 52 || off < 8 || off >= top || top > s.len() {
        false
    } else if s[off] == LEAF_TAG {
        off + 65 <= top && slots_agree(s.subrange(off + 1, off + 33), k, d)
    } else if s[off] == BRANCH_TAG && d < 52 {
        off + 129 <= top && {
            let c = word_at(s, off + 1 + 4 * slot(k, d));
            c == 0 || sound(s, c, k, d + 1, top)
        }
    } else {
        false
    }
}

pub open spec fn root_of(s: Seq<u8>) -> int {
    word_at(s, 0)
}

pub open spec fn top_of(s: Seq<u8>) -> int {
    word_at(s, 4)
}

/// What the arena holds for `k`.
pub open spec fn get(s: Seq<u8>, k: Seq<u8>) -> Option<Seq<u8>> {
    lookup(s, root_of(s), k, 0)
}

/// The arena is a trie: a sane control prefix, a root branch, and every
/// key's path inside the used space.
pub open spec fn wf(s: Seq<u8>) -> bool {
    &&& 8 + 129 <= s.len() <= MAX_ARENA
    &&& 8 <= root_of(s)
    &&& root_of(s) + 129 <= top_of(s) <= s.len()
    &&& s[root_of(s)] == BRANCH_TAG
    &&& forall|k: Seq<u8>| k.len() == 32 ==> #[trigger] sound(s, root_of(s), k, 0, top_of(s))
}

/// The two arenas hold the same bytes in `[8, top)`.
pub open spec fn agree(s: Seq<u8>, t: Seq<u8>, top: int) -> bool {
    top <= s.len() && top <= t.len() && forall|i: int| 8 <= i < top ==> s[i] == t[i]
}

proof fn lemma_agree_subrange(s: Seq<u8>, t: Seq<u8>, top: int, a: int, b: int)
    requires
        agree(s, t, top),
        8 <= a <= b <= top,
    ensures
        s.subrange(a, b) == t.subrange(a, b),
{
    assert(s.subrange(a, b) =~= t.subrange(a, b));
}

proof fn lemma_slot_range(k: Seq<u8>, d: int)
    ensures
        0 <= slot(k, d) < 32,
{
    lemma_bit_range(k, 5 * d);
    lemma_bit_range(k, 5 * d + 1);
    lemma_bit_range(k, 5 * d + 2);
    lemma_bit_range(k, 5 * d + 3);
    lemma_bit_range(k, 5 * d + 4);
}

proof fn lemma_bit_range(k: Seq<u8>, i: int)
    ensures
        0 <= key_bit(k, i) <= 1,
{
    if 0 <= i < 256 && i / 8 < k.len() {
        let b = k[i / 8];
        let sh = (7 - i % 8) as u8;
        assert((b >> sh) & 1u8 <= 1u8) by (bit_vector);
    }
}

/// A path that stays below `top` reads the same in any arena that agrees
/// there, and stays below any larger bound.
pub proof fn lemma_frame(s: Seq<u8>, t: Seq<u8>, off: int, k: Seq<u8>, d: int, top: int, top2: int)
    requires
        sound(s, off, k, d, top),
        agree(s, t, top),
        top <= top2 <= t.len(),
    ensures
        sound(t, off, k, d, top2),
        lookup(t, off, k, d) == lookup(s, off, k, d),
    decreases 52 - d,
{
    lemma_slot_range(k, d);
    if s[off] == LEAF_TAG {
        lemma_agree_subrange(s, t, top, off + 1, off + 33);
        lemma_agree_subrange(s, t, top, off + 33, off + 65);
    } else {
        let w = off + 1 + 4 * slot(k, d);
        lemma_agree_subrange(s, t, top, w, w + 4);
        let c = word_at(s, w);
        if c != 0 {
            lemma_frame(s, t, c, k, d + 1, top, top2);
        }
    }
}

/// Two different keys part at some depth of the trie.
pub proof fn lemma_keys_part(a: Seq<u8>, b: Seq<u8>)
    requires
        a.len() == 32,
        b.len() == 32,
        a != b,
    ensures
        exists|d: int| 0 <= d <= 51 && slot(a, d) != slot(b, d),
{
    let i = choose|i: int| 0 <= i < 32 && a[i] != b[i];
    if !(exists|i: int| 0 <= i < 32 && a[i] != b[i]) {
        assert(a =~= b);
    }
    let x = a[i];
    let y = b[i];
    assert(x != y ==> ((x >> 7u8) & 1u8 != (y >> 7u8) & 1u8 || (x >> 6u8) & 1u8 != (y >> 6u8) & 1u8
        || (x >> 5u8) & 1u8 != (y >> 5u8) & 1u8 || (x >> 4u8) & 1u8 != (y >> 4u8) & 1u8 || (x
        >> 3u8) & 1u8 != (y >> 3u8) & 1u8 || (x >> 2u8) & 1u8 != (y >> 2u8) & 1u8 || (x >> 1u8)
        & 1u8 != (y >> 1u8) & 1u8 || (x >> 0u8) & 1u8 != (y >> 0u8) & 1u8)) by (bit_vector);
    let j: int = if (x >> 7u8) & 1u8 != (y >> 7u8) & 1u8 {
        0
    } else if (x >> 6u8) & 1u8 != (y >> 6u8) & 1u8 {
        1
    } else if (x >> 5u8) & 1u8 != (y >> 5u8) & 1u8 {
        2
    } else if (x >> 4u8) & 1u8 != (y >> 4u8) & 1u8 {
        3
    } else if (x >> 3u8) & 1u8 != (y >> 3u8) & 1u8 {
        4
    } else if (x >> 2u8) & 1u8 != (y >> 2u8) & 1u8 {
        5
    } else if (x >> 1u8) & 1u8 != (y >> 1u8) & 1u8 {
        6
    } else {
        7
    };
    assert((x >> ((7 - j) as u8)) & 1u8 != (y >> ((7 - j) as u8)) & 1u8);
    let p = 8 * i + j;
    lemma_bit_index(i, j);
    assert(key_bit(a, p) != key_bit(b, p));
    let d = p / 5;
    lemma_slot_differs(a, b, d, p);
}

proof fn lemma_bit_index(i: int, j: int)
    requires
        0 <= i < 32,
        0 <= j < 8,
    ensures
        (8 * i + j) / 8 == i,
        (8 * i + j) % 8 == j,
        0 <= (8 * i + j) / 5 <= 51,
        5 * ((8 * i + j) / 5) <= 8 * i + j < 5 * ((8 * i + j) / 5) + 5,
{
}

proof fn lemma_slot_differs(a: Seq<u8>, b: Seq<u8>, d: int, p: int)
    requires
        5 * d <= p < 5 * d + 5,
        key_bit(a, p) != key_bit(b, p),
    ensures
        slot(a, d) != slot(b, d),
{
    lemma_bit_range(a, 5 * d);
    lemma_bit_range(a, 5 * d + 1);
    lemma_bit_range(a, 5 * d + 2);
    lemma_bit_range(a, 5 * d + 3);
    lemma_bit_range(a, 5 * d + 4);
    lemma_bit_range(b, 5 * d);
    lemma_bit_range(b, 5 * d + 1);
    lemma_bit_range(b, 5 * d + 2);
    lemma_bit_range(b, 5 * d + 3);
    lemma_bit_range(b, 5 * d + 4);
}

/// A leaf answers the same at any depth it can be reached at.
proof fn lemma_leaf_depth(s: Seq<u8>, off: int, k: Seq<u8>, d: int, e: int)
    requires
        0 <= d <= 52,
        0 <= e <= 52,
        8 <= off < s.len(),
        s[off] == LEAF_TAG,
    ensures
        lookup(s, off, k, d) == lookup(s, off, k, e),
{
}

} // verus!

verus! {

/// The bytes of a leaf.
pub open spec fn leaf_bytes(k: Seq<u8>, v: Seq<u8>) -> Seq<u8> {
    seq![LEAF_TAG] + k + v
}

/// The child offsets of a branch, four bytes each.
pub open spec fn words(ch: Seq<u32>) -> Seq<u8>
    decreases ch.len(),
{
    if ch.len() == 0 {
        Seq::empty()
    } else {
        words(ch.drop_last()) + le_bytes(ch.last() as nat, 4)
    }
}

/// The bytes of a branch with these 32 child offsets.
pub open spec fn branch_bytes(ch: Seq<u32>) -> Seq<u8> {
    seq![BRANCH_TAG] + words(ch)
}

proof fn lemma_words(ch: Seq<u32>)
    ensures
        words(ch).len() == 4 * ch.len(),
        forall|j: int|
            0 <= j < ch.len() ==> #[trigger] words(ch).subrange(4 * j, 4 * j + 4) == le_bytes(
                ch[j] as nat,
                4,
            ),
    decreases ch.len(),
{
    if ch.len() > 0 {
        let p = ch.drop_last();
        lemma_words(p);
        lemma_le_bytes_len(ch.last() as nat, 4);
        assert forall|j: int| 0 <= j < ch.len() implies #[trigger] words(ch).subrange(
            4 * j,
            4 * j + 4,
        ) == le_bytes(ch[j] as nat, 4) by {
            if j < p.len() {
                assert(words(ch).subrange(4 * j, 4 * j + 4) =~= words(p).subrange(4 * j, 4 * j + 4));
            } else {
                assert(words(ch).subrange(4 * j, 4 * j + 4) =~= le_bytes(ch.last() as nat, 4));
            }
        }
    }
}

proof fn lemma_pow256_4()
    ensures
        pow256(4) == 4294967296,
{
    reveal_with_fuel(pow256, 5);
}

/// Reading a u32 back from its four bytes.
proof fn lemma_word_round_trip(x: u32)
    ensures
        le_value(le_bytes(x as nat, 4)) == x,
{
    lemma_pow256_4();
    lemma_le_round_trip(x as nat, 4);
}

/// After appending `x` to `v`, the old bytes stay and `x` stands at the end.
proof fn lemma_append(v: Seq<u8>, x: Seq<u8>)
    ensures
        (v + x).subrange(v.len() as int, (v.len() + x.len()) as int) == x,
        agree(v, v + x, v.len() as int),
{
    assert((v + x).subrange(v.len() as int, (v.len() + x.len()) as int) =~= x);
}

/// A branch written at `b` answers each slot with the child given for it.
proof fn lemma_branch_at(t: Seq<u8>, b: int, ch: Seq<u32>, j: int)
    requires
        ch.len() == 32,
        0 <= b,
        b + 129 <= t.len(),
        t.subrange(b, b + 129) == branch_bytes(ch),
        0 <= j < 32,
    ensures
        t[b] == BRANCH_TAG,
        word_at(t, b + 1 + 4 * j) == ch[j],
{
    lemma_words(ch);
    assert(t[b] == t.subrange(b, b + 129)[0]);
    assert forall|i: int| 0 <= i < 4 implies #[trigger] t.subrange(b + 1 + 4 * j, b + 1 + 4 * j + 4)[i]
        == words(ch).subrange(4 * j, 4 * j + 4)[i] by {
        assert(t[b + 1 + 4 * j + i] == t.subrange(b, b + 129)[1 + 4 * j + i]);
        assert(branch_bytes(ch)[1 + 4 * j + i] == words(ch)[4 * j + i]);
    }
    assert(t.subrange(b + 1 + 4 * j, b + 1 + 4 * j + 4) =~= words(ch).subrange(4 * j, 4 * j + 4));
    lemma_word_round_trip(ch[j]);
}

/// A leaf written at `b` holds its key and value.
proof fn lemma_leaf_at(t: Seq<u8>, b: int, k: Seq<u8>, v: Seq<u8>)
    requires
        k.len() == 32,
        v.len() == 32,
        0 <= b,
        b + 65 <= t.len(),
        t.subrange(b, b + 65) == leaf_bytes(k, v),
    ensures
        t[b] == LEAF_TAG,
        t.subrange(b + 1, b + 33) == k,
        t.subrange(b + 33, b + 65) == v,
{
    assert(t[b] == t.subrange(b, b + 65)[0]);
    assert(t.subrange(b + 1, b + 33) =~= t.subrange(b, b + 65).subrange(1, 33));
    assert(t.subrange(b + 33, b + 65) =~= t.subrange(b, b + 65).subrange(33, 65));
    assert(leaf_bytes(k, v).subrange(1, 33) =~= k);
    assert(leaf_bytes(k, v).subrange(33, 65) =~= v);
}

fn push_leaf(out: &mut Vec<u8>, key: &Word, value: &Word)
    ensures
        final(out)@ == old(out)@ + leaf_bytes(key@, value@),
{
    out.push(LEAF_TAG);
    push_all(out, key);
    push_all(out, value);
    assert(final(out)@ =~= old(out)@ + leaf_bytes(key@, value@));
}

fn push_branch(out: &mut Vec<u8>, ch: &Vec<u32>)
    ensures
        final(out)@ == old(out)@ + branch_bytes(ch@),
{
    out.push(BRANCH_TAG);
    let mut i: usize = 0;
    while i < ch.len()
        invariant
            i <= ch@.len(),
            out@ == old(out)@ + seq![BRANCH_TAG] + words(ch@.subrange(0, i as int)),
        decreases ch@.len() - i,
    {
        proof {
            assert(ch@.subrange(0, i + 1).drop_last() =~= ch@.subrange(0, i as int));
        }
        push_le(out, ch[i] as u64, 4);
        i = i + 1;
    }
    assert(ch@.subrange(0, i as int) =~= ch@);
    assert(final(out)@ =~= old(out)@ + branch_bytes(ch@));
}

/// Bit `i` of `key`.
fn bit_of(key: &Word, i: usize) -> (r: usize)
    ensures
        r == key_bit(key@, i as int),
        r <= 1,
{
    proof {
        lemma_bit_range(key@, i as int);
    }
    if i < 256 {
        ((key[i / 8] >> ((7 - i % 8) as u8)) & 1u8) as usize
    } else {
        0
    }
}

/// The slot of `key` at depth `d`.
fn slot_of(key: &Word, d: usize) -> (r: usize)
    requires
        d <= 52,
    ensures
        r == slot(key@, d as int),
        r < 32,
{
    let i = 5 * d;
    16 * bit_of(key, i) + 8 * bit_of(key, i + 1) + 4 * bit_of(key, i + 2) + 2 * bit_of(key, i + 3)
        + bit_of(key, i + 4)
}

} // verus!

verus! {

/// The arena an update sees: the used bytes of `s`, then the nodes written
/// so far.
pub open spec fn staged(s: Seq<u8>, top: int, pending: Seq<u8>) -> Seq<u8> {
    s.subrange(0, top) + pending
}

pub open spec fn grows(a: Seq<u8>, b: Seq<u8>) -> bool {
    a.len() <= b.len() && b.subrange(0, a.len() as int) == a
}

/// For every key that takes the slots of `key` above depth `d`, the trie at
/// `n` in `t` holds `value` for `key` and, for the rest, what the trie at
/// `off` in `v` holds.
#[verifier::opaque]
pub open spec fn replaced(
    v: Seq<u8>,
    off: int,
    t: Seq<u8>,
    n: int,
    key: Seq<u8>,
    value: Seq<u8>,
    d: int,
) -> bool {
    forall|k: Seq<u8>|
        k.len() == 32 && slots_agree(k, key, d) ==> #[trigger] sound(t, n, k, d, t.len() as int)
            && lookup(t, n, k, d) == (if k == key {
            Some(value)
        } else {
            lookup(v, off, k, d)
        })
}

/// Every key that takes the slots of `key` above depth `d` has a sound path
/// from the node at `off`.
#[verifier::opaque]
pub open spec fn covers(v: Seq<u8>, off: int, key: Seq<u8>, d: int, top: int) -> bool {
    forall|k: Seq<u8>| k.len() == 32 && slots_agree(k, key, d) ==> #[trigger] sound(v, off, k, d, top)
}

proof fn lemma_covers_key(v: Seq<u8>, off: int, key: Seq<u8>, d: int, top: int)
    requires
        covers(v, off, key, d, top),
        key.len() == 32,
    ensures
        sound(v, off, key, d, top),
{
    reveal(covers);
}

proof fn lemma_covers_child(v: Seq<u8>, off: int, c: int, key: Seq<u8>, d: int, top: int)
    requires
        covers(v, off, key, d, top),
        0 <= d < 52,
        v[off] == BRANCH_TAG,
        c == word_at(v, off + 1 + 4 * slot(key, d)),
        c != 0,
    ensures
        covers(v, c, key, d + 1, top),
{
    reveal(covers);
    assert forall|k: Seq<u8>| k.len() == 32 && slots_agree(k, key, d + 1) implies #[trigger] sound(
        v,
        c,
        k,
        d + 1,
        top,
    ) by {
        assert(sound(v, off, k, d, top));
        lemma_slot_range(k, d);
    }
}

proof fn lemma_staged_agree(s: Seq<u8>, top: int, p: Seq<u8>, q: Seq<u8>)
    requires
        8 <= top <= s.len(),
        grows(p, q),
    ensures
        agree(s, staged(s, top, p), top),
        agree(staged(s, top, p), staged(s, top, q), top + p.len()),
        staged(s, top, q).len() == top + q.len(),
{
    assert forall|i: int| 8 <= i < top + p.len() implies staged(s, top, p)[i] == staged(
        s,
        top,
        q,
    )[i] by {
        if i >= top {
            assert(q.subrange(0, p.len() as int)[i - top] == q[i - top]);
        }
    }
}

proof fn lemma_push_grows(p: Seq<u8>, x: Seq<u8>, q: Seq<u8>)
    requires
        grows(q, p),
    ensures
        grows(q, p + x),
{
    assert((p + x).subrange(0, q.len() as int) =~= p.subrange(0, q.len() as int));
}

proof fn lemma_grows_refl(p: Seq<u8>)
    ensures
        grows(p, p),
{
    assert(p.subrange(0, p.len() as int) =~= p);
}

/// A branch at `n` whose slots for `other` and `key` hold the old leaf and a
/// new leaf, and whose other slots are empty.
proof fn lemma_fork(
    v0: Seq<u8>,
    t: Seq<u8>,
    leaf_off: int,
    l: int,
    n: int,
    ch: Seq<u32>,
    other: Seq<u8>,
    key: Seq<u8>,
    value: Seq<u8>,
    d: int,
)
    requires
        0 <= d < 52,
        other.len() == 32,
        key.len() == 32,
        value.len() == 32,
        other != key,
        slots_agree(other, key, d),
        8 <= leaf_off,
        leaf_off + 65 <= v0.len(),
        v0[leaf_off] == LEAF_TAG,
        v0.subrange(leaf_off + 1, leaf_off + 33) == other,
        agree(v0, t, v0.len() as int),
        8 <= l,
        l + 65 <= t.len(),
        t.subrange(l, l + 65) == leaf_bytes(key, value),
        8 <= n,
        n + 129 <= t.len(),
        t.subrange(n, n + 129) == branch_bytes(ch),
        ch.len() == 32,
        slot(other, d) != slot(key, d),
        ch[slot(other, d)] == leaf_off,
        ch[slot(key, d)] == l,
        forall|j: int| 0 <= j < 32 && j != slot(other, d) && j != slot(key, d) ==> ch[j] == 0,
    ensures
        replaced(v0, leaf_off, t, n, key, value, d),
{
    reveal(replaced);
    lemma_leaf_at(t, l, key, value);
    lemma_agree_subrange(v0, t, v0.len() as int, leaf_off + 1, leaf_off + 33);
    lemma_agree_subrange(v0, t, v0.len() as int, leaf_off + 33, leaf_off + 65);
    assert forall|k: Seq<u8>| k.len() == 32 && slots_agree(k, key, d) implies #[trigger] sound(
        t,
        n,
        k,
        d,
        t.len() as int,
    ) && lookup(t, n, k, d) == (if k == key {
        Some(value)
    } else {
        lookup(v0, leaf_off, k, d)
    }) by {
        let j = slot(k, d);
        lemma_slot_range(k, d);
        lemma_slot_range(key, d);
        lemma_slot_range(other, d);
        lemma_branch_at(t, n, ch, j);
        assert(t[n] == BRANCH_TAG);
        if j == slot(key, d) {
            assert(slots_agree(key, k, d + 1));
            assert(word_at(t, n + 1 + 4 * j) == l);
            assert(sound(t, l, k, d + 1, t.len() as int));
            assert(lookup(t, l, k, d + 1) == (if k == key { Some(value) } else { None::<Seq<u8>> }));
            if k != key {
                assert(k != other);
                assert(lookup(v0, leaf_off, k, d) == None::<Seq<u8>>);
            }
        } else if j == slot(other, d) {
            assert(slots_agree(other, k, d + 1));
            assert(k != key);
            assert(t[leaf_off] == v0[leaf_off]);
            assert(sound(t, leaf_off, k, d + 1, t.len() as int));
            lemma_leaf_depth(t, leaf_off, k, d + 1, d);
            assert(lookup(t, leaf_off, k, d) == lookup(v0, leaf_off, k, d));
        } else {
            assert(k != key);
            assert(k != other);
            assert(ch[j] == 0);
        }
    }
}

/// A branch at `n` whose one child, in the slot of `key`, is the trie at `c`.
proof fn lemma_deeper(
    v0: Seq<u8>,
    t1: Seq<u8>,
    t: Seq<u8>,
    leaf_off: int,
    c: int,
    n: int,
    ch: Seq<u32>,
    other: Seq<u8>,
    key: Seq<u8>,
    value: Seq<u8>,
    d: int,
)
    requires
        0 <= d < 52,
        other.len() == 32,
        key.len() == 32,
        other != key,
        slots_agree(other, key, d),
        slot(other, d) == slot(key, d),
        8 <= leaf_off,
        leaf_off + 65 <= v0.len(),
        v0[leaf_off] == LEAF_TAG,
        v0.subrange(leaf_off + 1, leaf_off + 33) == other,
        8 <= c,
        replaced(v0, leaf_off, t1, c, key, value, d + 1),
        agree(t1, t, t1.len() as int),
        8 <= n,
        n + 129 <= t.len(),
        t.subrange(n, n + 129) == branch_bytes(ch),
        ch.len() == 32,
        ch[slot(key, d)] == c,
        forall|j: int| 0 <= j < 32 && j != slot(key, d) ==> ch[j] == 0,
    ensures
        replaced(v0, leaf_off, t, n, key, value, d),
{
    reveal(replaced);
    assert forall|k: Seq<u8>| k.len() == 32 && slots_agree(k, key, d) implies #[trigger] sound(
        t,
        n,
        k,
        d,
        t.len() as int,
    ) && lookup(t, n, k, d) == (if k == key {
        Some(value)
    } else {
        lookup(v0, leaf_off, k, d)
    }) by {
        let j = slot(k, d);
        lemma_slot_range(k, d);
        lemma_slot_range(key, d);
        lemma_branch_at(t, n, ch, j);
        if j == slot(key, d) {
            assert(slots_agree(k, key, d + 1));
            assert(sound(t1, c, k, d + 1, t1.len() as int));
            lemma_frame(t1, t, c, k, d + 1, t1.len() as int, t.len() as int);
            lemma_leaf_depth(v0, leaf_off, k, d + 1, d);
        } else {
            assert(k != key);
            assert(k != other);
        }
    }
}

/// Builds, below the leaf at `leaf_off` holding `other`, the branches that
/// part it from `key`, with a new leaf for `key`.
#[verifier::rlimit(50)]
fn pair(
    s: &[u8],
    top: usize,
    pending: &mut Vec<u8>,
    leaf_off: usize,
    other: &Word,
    key: &Word,
    value: &Word,
    d: usize,
) -> (r: Option<usize>)
    requires
        8 <= top <= s@.len() <= MAX_ARENA,
        d <= 52,
        old(pending)@.len() + (53 - d) * 130 <= PATH_ROOM,
        8 <= leaf_off,
        leaf_off + 65 <= top,
        s@[leaf_off as int] == LEAF_TAG,
        s@.subrange(leaf_off + 1, leaf_off + 33) == other@,
    ensures
        grows(old(pending)@, final(pending)@),
        final(pending)@.len() <= old(pending)@.len() + (53 - d) * 130,
        r matches Some(n) ==> top + old(pending)@.len() <= n && n + 129 <= top + final(pending)@.len(),
        other@ != key@ && slots_agree(other@, key@, d as int) ==> (r matches Some(n) && replaced(
            staged(s@, top as int, old(pending)@),
            leaf_off as int,
            staged(s@, top as int, final(pending)@),
            n as int,
            key@,
            value@,
            d as int,
        )),
    decreases 52 - d,
{
    let ghost v0 = staged(s@, top as int, old(pending)@);
    if d >= 52 {
        proof {
            lemma_grows_refl(old(pending)@);
            if other@ != key@ && slots_agree(other@, key@, d as int) {
                lemma_keys_part(other@, key@);
            }
        }
        return None;
    }
    let a = slot_of(other, d);
    let b = slot_of(key, d);
    let mut ch: Vec<u32> = vec![0u32; 32];
    proof {
        lemma_grows_refl(old(pending)@);
        lemma_staged_agree(s@, top as int, old(pending)@, old(pending)@);
        assert(v0[leaf_off as int] == s@[leaf_off as int]);
        assert(v0.subrange(leaf_off + 1, leaf_off + 33) =~= s@.subrange(leaf_off + 1, leaf_off + 33));
    }
    if a != b {
        let l = top + pending.len();
        push_leaf(pending, key, value);
        let ghost mid = pending@;
        ch[a] = leaf_off as u32;
        ch[b] = l as u32;
        let n = top + pending.len();
        push_branch(pending, &ch);
        proof {
            let t = staged(s@, top as int, pending@);
            lemma_words(ch@);
            assert(t =~= v0 + leaf_bytes(key@, value@) + branch_bytes(ch@));
            lemma_append(v0, leaf_bytes(key@, value@));
            lemma_append(v0 + leaf_bytes(key@, value@), branch_bytes(ch@));
            assert(t.subrange(l as int, l + 65) =~= leaf_bytes(key@, value@));
            lemma_push_grows(old(pending)@, leaf_bytes(key@, value@), old(pending)@);
            lemma_push_grows(mid, branch_bytes(ch@), old(pending)@);
            lemma_staged_agree(s@, top as int, old(pending)@, pending@);
            if other@ != key@ && slots_agree(other@, key@, d as int) {
                lemma_words(ch@);
                lemma_fork(v0, t, leaf_off as int, l as int, n as int, ch@, other@, key@, value@, d as int);
            }
        }
        Some(n)
    } else {
        let c = pair(s, top, pending, leaf_off, other, key, value, d + 1);
        match c {
            None => None,
            Some(c) => {
                let ghost mid = pending@;
                ch[b] = c as u32;
                let n = top + pending.len();
                push_branch(pending, &ch);
                proof {
                    let t1 = staged(s@, top as int, mid);
                    let t = staged(s@, top as int, pending@);
                    lemma_words(ch@);
                    assert(t =~= t1 + branch_bytes(ch@));
                    lemma_append(t1, branch_bytes(ch@));
                    lemma_push_grows(mid, branch_bytes(ch@), old(pending)@);
                    lemma_staged_agree(s@, top as int, old(pending)@, pending@);
                    if other@ != key@ && slots_agree(other@, key@, d as int) {
                        assert(slots_agree(other@, key@, d + 1));
                        lemma_words(ch@);
                        lemma_deeper(v0, t1, t, leaf_off as int, c as int, n as int, ch@, other@, key@, value@, d as int);
                    }
                }
                Some(n)
            },
        }
    }
}

} // verus!

verus! {

/// A new leaf holds its value for its key and nothing for other keys.
proof fn lemma_new_leaf(t: Seq<u8>, l: int, key: Seq<u8>, value: Seq<u8>, d: int)
    requires
        0 <= d <= 52,
        key.len() == 32,
        value.len() == 32,
        8 <= l,
        l + 65 <= t.len(),
        t.subrange(l, l + 65) == leaf_bytes(key, value),
    ensures
        forall|k: Seq<u8>|
            k.len() == 32 && slots_agree(k, key, d) ==> #[trigger] sound(t, l, k, d, t.len() as int)
                && lookup(t, l, k, d) == (if k == key {
                Some(value)
            } else {
                None::<Seq<u8>>
            }),
{
    reveal(replaced);
    lemma_leaf_at(t, l, key, value);
    assert forall|k: Seq<u8>| k.len() == 32 && slots_agree(k, key, d) implies #[trigger] sound(
        t,
        l,
        k,
        d,
        t.len() as int,
    ) && lookup(t, l, k, d) == (if k == key {
        Some(value)
    } else {
        None::<Seq<u8>>
    }) by {
        assert(slots_agree(key, k, d));
    }
}

/// A copy at `n` of the branch at `off`, with the slot of `key` now holding
/// the trie at `nc`, which replaced the child `c`.
proof fn lemma_copy_branch(
    v0: Seq<u8>,
    top: int,
    t1: Seq<u8>,
    t: Seq<u8>,
    off: int,
    c: int,
    nc: int,
    n: int,
    ch: Seq<u32>,
    key: Seq<u8>,
    value: Seq<u8>,
    d: int,
)
    requires
        0 <= d < 52,
        key.len() == 32,
        8 <= top <= v0.len(),
        8 <= off,
        off + 129 <= top,
        v0[off] == BRANCH_TAG,
        covers(v0, off, key, d, top),
        ch.len() == 32,
        c == word_at(v0, off + 1 + 4 * slot(key, d)),
        ch[slot(key, d)] == nc,
        forall|j: int| 0 <= j < 32 && j != slot(key, d) ==> ch[j] == word_at(v0, off + 1 + 4 * j),
        replaced(v0, c, t1, nc, key, value, d + 1),
        8 <= nc,
        agree(v0, t1, v0.len() as int),
        agree(t1, t, t1.len() as int),
        8 <= n,
        n + 129 <= t.len(),
        t.subrange(n, n + 129) == branch_bytes(ch),
    ensures
        replaced(v0, off, t, n, key, value, d),
{
    reveal(replaced);
    reveal(covers);
    assert forall|k: Seq<u8>| k.len() == 32 && slots_agree(k, key, d) implies #[trigger] sound(
        t,
        n,
        k,
        d,
        t.len() as int,
    ) && lookup(t, n, k, d) == (if k == key {
        Some(value)
    } else {
        lookup(v0, off, k, d)
    }) by {
        let j = slot(k, d);
        lemma_slot_range(k, d);
        lemma_slot_range(key, d);
        lemma_branch_at(t, n, ch, j);
        assert(sound(v0, off, k, d, top));
        if j == slot(key, d) {
            assert(slots_agree(k, key, d + 1));
            assert(sound(t1, nc, k, d + 1, t1.len() as int));
            lemma_frame(t1, t, nc, k, d + 1, t1.len() as int, t.len() as int);
        } else {
            assert(k != key);
            let cj = word_at(v0, off + 1 + 4 * j);
            if cj != 0 {
                assert(sound(v0, cj, k, d + 1, top));
                assert(agree(v0, t, top)) by {
                    assert forall|i: int| 8 <= i < top implies v0[i] == t[i] by {
                        assert(v0[i] == t1[i]);
                    }
                }
                lemma_frame(v0, t, cj, k, d + 1, top, t.len() as int);
            }
        }
    }
}

/// Writes, past the used space, a copy of the path of `key` from the node at
/// `off` with `key` bound to `value`; gives the copy's offset.
fn ins(
    s: &[u8],
    top: usize,
    pending: &mut Vec<u8>,
    off: usize,
    key: &Word,
    value: &Word,
    d: usize,
) -> (r: Option<usize>)
    requires
        8 <= top <= s@.len() <= MAX_ARENA,
        d <= 52,
        old(pending)@.len() + (53 - d) * 130 <= PATH_ROOM,
    ensures
        grows(old(pending)@, final(pending)@),
        final(pending)@.len() <= old(pending)@.len() + (53 - d) * 130,
        r matches Some(n) ==> top + old(pending)@.len() <= n && n + 65 <= top + final(pending)@.len(),
        r matches Some(n) ==> (s@[off as int] == BRANCH_TAG ==> n + 129 <= top + final(pending)@.len()
            && staged(s@, top as int, final(pending)@)[n as int] == BRANCH_TAG),
        covers(staged(s@, top as int, old(pending)@), off as int, key@, d as int, top as int) ==> (
        r matches Some(n) && replaced(
            staged(s@, top as int, old(pending)@),
            off as int,
            staged(s@, top as int, final(pending)@),
            n as int,
            key@,
            value@,
            d as int,
        )),
    decreases 52 - d, 1nat,
{
    let ghost v0 = staged(s@, top as int, old(pending)@);
    let ghost good = covers(v0, off as int, key@, d as int, top as int);
    proof {
        lemma_grows_refl(old(pending)@);
        lemma_staged_agree(s@, top as int, old(pending)@, old(pending)@);
        if good {
            lemma_covers_key(v0, off as int, key@, d as int, top as int);
        }
    }
    if off < 8 || off >= top {
        return None;
    }
    let tag = s[off];
    proof {
        assert(v0[off as int] == s@[off as int]);
    }
    if tag == LEAF_TAG {
        if 65 > top - off {
            return None;
        }
        let other: [u8; 32] = array_at(s, off + 1);
        proof {
            assert(v0.subrange(off + 1, off + 33) =~= s@.subrange(off + 1, off + 33));
        }
        if bytes_eq(&other, key) {
            let n = top + pending.len();
            push_leaf(pending, key, value);
            proof {
                let t = staged(s@, top as int, pending@);
                assert(t =~= v0 + leaf_bytes(key@, value@));
                lemma_append(v0, leaf_bytes(key@, value@));
                lemma_push_grows(old(pending)@, leaf_bytes(key@, value@), old(pending)@);
                lemma_leaf_replaced(v0, off as int, t, n as int, key@, value@, d as int);
            }
            Some(n)
        } else {
            pair(s, top, pending, off, &other, key, value, d)
        }
    } else if tag == BRANCH_TAG && d < 52 {
        if 129 > top - off {
            return None;
        }
        ins_branch(s, top, pending, off, key, value, d)
    } else {
        None
    }
}

/// A leaf for `key` written over the leaf that held `key`.
proof fn lemma_leaf_replaced(v0: Seq<u8>, off: int, t: Seq<u8>, n: int, key: Seq<u8>, value: Seq<u8>, d: int)
    requires
        0 <= d <= 52,
        key.len() == 32,
        value.len() == 32,
        8 <= off,
        off + 65 <= v0.len(),
        v0[off] == LEAF_TAG,
        v0.subrange(off + 1, off + 33) == key,
        8 <= n,
        n + 65 <= t.len(),
        t.subrange(n, n + 65) == leaf_bytes(key, value),
    ensures
        replaced(v0, off, t, n, key, value, d),
{
    reveal(replaced);
    lemma_new_leaf(t, n, key, value, d);
}

/// `ins` at a branch: copies it with the slot of `key` replaced.
fn ins_branch(
    s: &[u8],
    top: usize,
    pending: &mut Vec<u8>,
    off: usize,
    key: &Word,
    value: &Word,
    d: usize,
) -> (r: Option<usize>)
    requires
        8 <= top <= s@.len() <= MAX_ARENA,
        d < 52,
        8 <= off,
        off + 129 <= top,
        s@[off as int] == BRANCH_TAG,
        old(pending)@.len() + (53 - d) * 130 <= PATH_ROOM,
    ensures
        grows(old(pending)@, final(pending)@),
        final(pending)@.len() <= old(pending)@.len() + (53 - d) * 130,
        r matches Some(n) ==> top + old(pending)@.len() <= n && n + 129 <= top + final(pending)@.len()
            && staged(s@, top as int, final(pending)@)[n as int] == BRANCH_TAG,
        covers(staged(s@, top as int, old(pending)@), off as int, key@, d as int, top as int) ==> (
        r matches Some(n) && replaced(
            staged(s@, top as int, old(pending)@),
            off as int,
            staged(s@, top as int, final(pending)@),
            n as int,
            key@,
            value@,
            d as int,
        )),
    decreases 52 - d, 0nat,
{
    let ghost v0 = staged(s@, top as int, old(pending)@);
    let ghost good = covers(v0, off as int, key@, d as int, top as int);
    proof {
        lemma_grows_refl(old(pending)@);
        lemma_staged_agree(s@, top as int, old(pending)@, old(pending)@);
        assert(v0[off as int] == s@[off as int]);
    }
    let sl = slot_of(key, d);
    let mut ch: Vec<u32> = Vec::new();
    let mut i: usize = 0;
    while i < 32
        invariant
            i <= 32,
            8 <= off,
            off + 129 <= top <= s@.len(),
            ch@.len() == i,
            forall|j: int| 0 <= j < i ==> ch@[j] == word_at(s@, off + 1 + 4 * j),
        decreases 32 - i,
    {
        let w = read_le(s, off + 1 + 4 * i, 4);
        proof {
            crate::bytes::lemma_le_value_bound(s@.subrange(off + 1 + 4 * i, off + 1 + 4 * i + 4));
            lemma_pow256_4();
        }
        ch.push(w as u32);
        i = i + 1;
    }
    proof {
        assert forall|j: int| 0 <= j < 32 implies ch@[j] == word_at(v0, off + 1 + 4 * j) by {
            lemma_agree_subrange(s@, v0, top as int, off + 1 + 4 * j, off + 1 + 4 * j + 4);
        }
    }
    let c = ch[sl];
    let child = if c == 0 {
        let l = top + pending.len();
        push_leaf(pending, key, value);
        proof {
            let t1 = staged(s@, top as int, pending@);
            assert(t1 =~= v0 + leaf_bytes(key@, value@));
            lemma_append(v0, leaf_bytes(key@, value@));
            lemma_push_grows(old(pending)@, leaf_bytes(key@, value@), old(pending)@);
            lemma_absent_replaced(v0, t1, l as int, key@, value@, d + 1);
        }
        Some(l)
    } else {
        proof {
            if good {
                lemma_covers_child(v0, off as int, c as int, key@, d as int, top as int);
            }
        }
        ins(s, top, pending, c as usize, key, value, d + 1)
    };
    match child {
        None => None,
        Some(nc) => {
            let ghost mid = pending@;
            ch[sl] = nc as u32;
            let n = top + pending.len();
            push_branch(pending, &ch);
            proof {
                let t1 = staged(s@, top as int, mid);
                let t = staged(s@, top as int, pending@);
                lemma_words(ch@);
                assert(t =~= t1 + branch_bytes(ch@));
                lemma_append(t1, branch_bytes(ch@));
                lemma_push_grows(mid, branch_bytes(ch@), old(pending)@);
                lemma_staged_agree(s@, top as int, old(pending)@, mid);
                lemma_staged_agree(s@, top as int, old(pending)@, pending@);
                assert(t[n as int] == t.subrange(n as int, n + 129)[0]);
                if good {
                    lemma_copy_branch(
                        v0,
                        top as int,
                        t1,
                        t,
                        off as int,
                        c as int,
                        nc as int,
                        n as int,
                        ch@,
                        key@,
                        value@,
                        d as int,
                    );
                }
            }
            Some(n)
        },
    }
}

/// A new leaf in an empty slot replaces nothing.
proof fn lemma_absent_replaced(v0: Seq<u8>, t: Seq<u8>, l: int, key: Seq<u8>, value: Seq<u8>, d: int)
    requires
        0 <= d <= 52,
        key.len() == 32,
        value.len() == 32,
        8 <= l,
        l + 65 <= t.len(),
        t.subrange(l, l + 65) == leaf_bytes(key, value),
    ensures
        replaced(v0, 0, t, l, key, value, d),
{
    reveal(replaced);
    lemma_new_leaf(t, l, key, value, d);
}

} // verus!

verus! {

/// Writes `src` into `data` at `at`.
pub fn write_at(data: &mut Vec<u8>, at: usize, src: &[u8])
    requires
        at + src@.len() <= old(data)@.len(),
    ensures
        final(data)@ == old(data)@.subrange(0, at as int) + src@ + old(data)@.subrange(
            at + src@.len(),
            old(data)@.len() as int,
        ),
{
    let dlen = data.len();
    let mut i: usize = 0;
    while i < src.len()
        invariant
            i <= src@.len(),
            at + src@.len() <= old(data)@.len(),
            dlen == old(data)@.len(),
            data@.len() == old(data)@.len(),
            forall|j: int| 0 <= j < at ==> data@[j] == old(data)@[j],
            forall|j: int| 0 <= j < i ==> data@[at + j] == src@[j],
            forall|j: int| at + src@.len() <= j < data@.len() ==> data@[j] == old(data)@[j],
            forall|j: int| at + i <= j < at + src@.len() ==> data@[j] == old(data)@[j],
        decreases src@.len() - i,
    {
        data[at + i] = src[i];
        i = i + 1;
    }
    assert(data@ =~= old(data)@.subrange(0, at as int) + src@ + old(data)@.subrange(
        at + src@.len(),
        old(data)@.len() as int,
    ));
}

/// The control prefix for a root at `root` and used space up to `top`.
fn header(root: usize, top: usize) -> (r: Vec<u8>)
    requires
        root < 0x1_0000_0000,
        top < 0x1_0000_0000,
    ensures
        r@ == le_bytes(root as nat, 4) + le_bytes(top as nat, 4),
        r@.len() == 8,
{
    let mut h: Vec<u8> = Vec::new();
    push_le(&mut h, root as u64, 4);
    push_le(&mut h, top as u64, 4);
    proof {
        lemma_le_bytes_len(root as nat, 4);
        lemma_le_bytes_len(top as nat, 4);
    }
    h
}

proof fn lemma_header_read(f: Seq<u8>, root: int, top: int)
    requires
        0 <= root < 0x1_0000_0000,
        0 <= top < 0x1_0000_0000,
        f.len() >= 8,
        f.subrange(0, 8) == le_bytes(root as nat, 4) + le_bytes(top as nat, 4),
    ensures
        root_of(f) == root,
        top_of(f) == top,
{
    lemma_le_bytes_len(root as nat, 4);
    lemma_le_bytes_len(top as nat, 4);
    lemma_pow256_4();
    lemma_le_round_trip(root as nat, 4);
    lemma_le_round_trip(top as nat, 4);
    assert(f.subrange(0, 4) =~= f.subrange(0, 8).subrange(0, 4));
    assert(f.subrange(4, 8) =~= f.subrange(0, 8).subrange(4, 8));
    assert((le_bytes(root as nat, 4) + le_bytes(top as nat, 4)).subrange(0, 4) =~= le_bytes(root as nat, 4));
    assert((le_bytes(root as nat, 4) + le_bytes(top as nat, 4)).subrange(4, 8) =~= le_bytes(top as nat, 4));
}

/// The smallest arena: the control prefix and the root branch.
pub const HAMT_MIN: usize = 137;

/// A trie over an arena of bytes.
pub struct Hamt {
    pub data: Vec<u8>,
}

impl Hamt {
    /// The arena's length is one the trie can use.
    pub open spec fn valid(&self) -> bool {
        HAMT_MIN <= self.data@.len() <= MAX_ARENA
    }

    pub open spec fn wf(&self) -> bool {
        wf(self.data@)
    }

    /// What the trie holds for `k`.
    pub open spec fn spec_get(&self, k: Seq<u8>) -> Option<Seq<u8>> {
        get(self.data@, k)
    }

    /// Binds a trie to `data`; with `reset`, makes it an empty trie.
    pub fn new(data: Vec<u8>, reset: bool) -> (r: Result<Hamt, ProgramError>)
        ensures
            data@.len() < HAMT_MIN <==> r == Err::<Hamt, _>(ProgramError::AccountDataTooSmall),
            data@.len() > MAX_ARENA <==> r == Err::<Hamt, _>(ProgramError::InvalidAccountData),
            HAMT_MIN <= data@.len() <= MAX_ARENA ==> r is Ok,
            r matches Ok(h) ==> h.valid() && h.data@.len() == data@.len(),
            r matches Ok(h) ==> (!reset ==> h.data@ == data@),
            r matches Ok(h) ==> (reset ==> h.wf() && forall|k: Seq<u8>| #[trigger] h.spec_get(k) is None),
            r matches Ok(h) ==> (reset ==> top_of(h.data@) == HAMT_MIN),
    {
        if data.len() < HAMT_MIN {
            return Err(ProgramError::AccountDataTooSmall);
        }
        if data.len() > MAX_ARENA {
            return Err(ProgramError::InvalidAccountData);
        }
        let mut data = data;
        if reset {
            let mut init = header(HAMT_HEADER, HAMT_MIN);
            let zeros: Vec<u32> = vec![0u32; 32];
            push_branch(&mut init, &zeros);
            proof {
                lemma_words(zeros@);
            }
            write_at(&mut data, 0, init.as_slice());
            proof {
                let f = data@;
                assert(forall|j: int| 0 <= j < 32 ==> zeros@[j] == 0u32);
                assert(init@.len() == 137);
                assert(f.subrange(0, 137) =~= init@);
                assert(f.subrange(0, 8) =~= init@.subrange(0, 8));
                assert(init@.subrange(0, 8) =~= le_bytes(8, 4) + le_bytes(137, 4));
                lemma_header_read(f, 8, 137);
                assert(init@.subrange(8, 137) =~= branch_bytes(zeros@));
                assert(f.subrange(8, 137) =~= branch_bytes(zeros@));
                assert forall|k: Seq<u8>|
                    #![trigger get(f, k)]
                    #![trigger sound(f, 8, k, 0, 137)]
                    get(f, k) is None && (k.len() == 32 ==> sound(f, 8, k, 0, 137)) by {
                    lemma_slot_range(k, 0);
                    lemma_branch_at(f, 8, zeros@, slot(k, 0));
                }
            }
        }
        Ok(Hamt { data })
    }

    /// The value stored for `key`, if any.
    pub fn find(&self, key: &Word) -> (r: Option<Word>)
        requires
            self.valid(),
        ensures
            r is None <==> self.spec_get(key@) is None,
            r matches Some(v) ==> self.spec_get(key@) == Some(v@),
    {
        Hamt::find_in(self.data.as_slice(), key)
    }

    /// The value stored for `key` in the trie held by `s`, if any.
    pub fn find_in(s: &[u8], key: &Word) -> (r: Option<Word>)
        requires
            8 <= s@.len(),
        ensures
            r is None <==> get(s@, key@) is None,
            r matches Some(v) ==> get(s@, key@) == Some(v@),
    {
        let len = s.len();
        let r0 = read_le(s, 0, 4);
        proof {
            crate::bytes::lemma_le_value_bound(s@.subrange(0, 4));
            lemma_pow256_4();
        }
        let mut off = r0 as usize;
        let mut d: usize = 0;
        loop
            invariant
                len == s@.len(),
                d <= 52,
                get(s@, key@) == lookup(s@, off as int, key@, d as int),
            decreases 52 - d,
        {
            if off < 8 || off >= len {
                return None;
            }
            let tag = s[off];
            if tag == LEAF_TAG {
                if 65 > len - off {
                    return None;
                }
                if bytes_eq(&s[off + 1..off + 33], key) {
                    let v: [u8; 32] = array_at(s, off + 33);
                    return Some(v);
                }
                return None;
            } else if tag == BRANCH_TAG && d < 52 {
                if 129 > len - off {
                    return None;
                }
                let sl = slot_of(key, d);
                let w = read_le(s, off + 1 + 4 * sl, 4);
                proof {
                    crate::bytes::lemma_le_value_bound(s@.subrange(off + 1 + 4 * sl, off + 1 + 4 * sl + 4));
                    lemma_pow256_4();
                }
                let c = w as usize;
                if c == 0 {
                    return None;
                }
                off = c;
                d = d + 1;
            } else {
                return None;
            }
        }
    }

    /// Binds `key` to `value`; binding a key to the value it has already
    /// changes nothing. Fails, leaving every byte as it was, when the unused
    /// space cannot hold the copied path.
    pub fn insert(&mut self, key: &Word, value: &Word) -> (r: Result<(), ProgramError>)
        requires
            old(self).valid(),
        ensures
            final(self).valid(),
            final(self).data@.len() == old(self).data@.len(),
            r is Err ==> r == Err::<(), _>(ProgramError::OutOfStorage) && final(self).data@ == old(
                self,
            ).data@,
            old(self).wf() && r is Ok ==> final(self).wf() && forall|k: Seq<u8>|
                k.len() == 32 ==> #[trigger] final(self).spec_get(k) == (if k == key@ {
                    Some(value@)
                } else {
                    old(self).spec_get(k)
                }),
            old(self).wf() && top_of(old(self).data@) + PATH_ROOM <= old(self).data@.len() ==> r is Ok,
            old(self).spec_get(key@) == Some(value@) ==> r is Ok && final(self).data@ == old(self).data@,
            old(self).wf() && r is Ok ==> top_of(final(self).data@) <= top_of(old(self).data@) + PATH_ROOM,
    {
        match self.find(key) {
            Some(v) => {
                if bytes_eq(&v, value) {
                    proof {
                        assert(v =~= *value);
                    }
                    return Ok(());
                }
            },
            None => {},
        }
        let len = self.data.len();
        let r0 = read_le(self.data.as_slice(), 0, 4);
        let t0 = read_le(self.data.as_slice(), 4, 4);
        proof {
            crate::bytes::lemma_le_value_bound(self.data@.subrange(0, 4));
            crate::bytes::lemma_le_value_bound(self.data@.subrange(4, 8));
            lemma_pow256_4();
        }
        let root = r0 as usize;
        let top = t0 as usize;
        if top < 8 || top > len {
            return Err(ProgramError::OutOfStorage);
        }
        let ghost s = self.data@;
        let mut pending: Vec<u8> = Vec::new();
        proof {
            let v0 = staged(s, top as int, pending@);
            if wf(s) {
                lemma_grows_refl(pending@);
                lemma_staged_agree(s, top as int, pending@, pending@);
                reveal(covers);
                assert forall|k: Seq<u8>| k.len() == 32 && slots_agree(k, key@, 0) implies #[trigger] sound(
                    v0,
                    root as int,
                    k,
                    0,
                    top as int,
                ) by {
                    assert(sound(s, root as int, k, 0, top as int));
                    lemma_frame(s, v0, root as int, k, 0, top as int, top as int);
                }
            }
        }
        let copied = ins(self.data.as_slice(), top, &mut pending, root, key, value, 0);
        match copied {
            None => Err(ProgramError::OutOfStorage),
            Some(n) => {
                if pending.len() > len - top {
                    return Err(ProgramError::OutOfStorage);
                }
                let new_top = top + pending.len();
                write_at(&mut self.data, top, pending.as_slice());
                let h = header(n, new_top);
                write_at(&mut self.data, 0, h.as_slice());
                proof {
                    let f = self.data@;
                    let t = staged(s, top as int, pending@);
                    assert(f.subrange(0, 8) =~= h@);
                    lemma_header_read(f, n as int, new_top as int);
                    assert(agree(t, f, t.len() as int)) by {
                        assert forall|i: int| 8 <= i < t.len() implies t[i] == f[i] by {
                            if i >= top {
                                assert(t[i] == pending@[i - top]);
                            }
                        }
                    }
                    if wf(s) {
                        let v0 = staged(s, top as int, Seq::<u8>::empty());
                        lemma_grows_refl(Seq::<u8>::empty());
                        lemma_staged_agree(s, top as int, Seq::<u8>::empty(), Seq::<u8>::empty());
                        reveal(replaced);
                        assert(f[n as int] == t[n as int]);
                        assert forall|k: Seq<u8>|
                            #![trigger get(f, k)]
                            #![trigger sound(f, n as int, k, 0, new_top as int)]
                            k.len() == 32 implies sound(
                            f,
                            n as int,
                            k,
                            0,
                            new_top as int,
                        ) && get(f, k) == (if k == key@ {
                            Some(value@)
                        } else {
                            get(s, k)
                        }) by {
                            assert(slots_agree(k, key@, 0));
                            assert(sound(t, n as int, k, 0, t.len() as int));
                            lemma_frame(t, f, n as int, k, 0, t.len() as int, t.len() as int);
                            assert(sound(s, root as int, k, 0, top as int));
                            lemma_frame(s, v0, root as int, k, 0, top as int, top as int);
                        }
                    }
                }
                Ok(())
            },
        }
    }
}

} // verus!

verus! {

/// For every key that takes the slots of `key` above depth `d`, the trie at
/// `n` in `t` (empty when `n` is 0) holds nothing for `key` and, for the
/// rest, what the trie at `off` in `v` holds.
#[verifier::opaque]
pub open spec fn pruned(v: Seq<u8>, off: int, t: Seq<u8>, n: int, key: Seq<u8>, d: int) -> bool {
    forall|k: Seq<u8>|
        k.len() == 32 && slots_agree(k, key, d) ==> (n == 0 || sound(
            t,
            n,
            k,
            d,
            t.len() as int,
        )) && #[trigger] lookup(t, n, k, d) == (if k == key {
            None
        } else {
            lookup(v, off, k, d)
        })
}

/// `w` is what the trie at `off` in `v` holds for `key`.
pub open spec fn found(w: Option<Word>, v: Seq<u8>, off: int, key: Seq<u8>, d: int) -> bool {
    &&& w is None <==> lookup(v, off, key, d) is None
    &&& w matches Some(x) ==> lookup(v, off, key, d) == Some(x@)
}

/// A node left as it was still answers as before.
proof fn lemma_kept(v0: Seq<u8>, top: int, t: Seq<u8>, off: int, key: Seq<u8>, d: int)
    requires
        covers(v0, off, key, d, top),
        8 <= top <= v0.len(),
        agree(v0, t, v0.len() as int),
        lookup(v0, off, key, d) is None,
    ensures
        pruned(v0, off, t, off, key, d),
{
    reveal(covers);
    reveal(pruned);
    assert forall|k: Seq<u8>| k.len() == 32 && slots_agree(k, key, d) implies (off == 0
        || sound(t, off, k, d, t.len() as int)) && #[trigger] lookup(t, off, k, d) == (if k
        == key {
        None
    } else {
        lookup(v0, off, k, d)
    }) by {
        assert(sound(v0, off, k, d, top));
        assert(agree(v0, t, top)) by {
            assert forall|i: int| 8 <= i < top implies v0[i] == t[i] by {}
        }
        lemma_frame(v0, t, off, k, d, top, t.len() as int);
    }
}

/// A copy at `n` of the branch at `off`, with the slot of `key` now holding
/// the pruned trie at `nc`.
proof fn lemma_copy_branch_pruned(
    v0: Seq<u8>,
    top: int,
    t1: Seq<u8>,
    t: Seq<u8>,
    off: int,
    c: int,
    nc: int,
    n: int,
    ch: Seq<u32>,
    key: Seq<u8>,
    d: int,
)
    requires
        0 <= d < 52,
        key.len() == 32,
        8 <= top <= v0.len(),
        8 <= off,
        off + 129 <= top,
        v0[off] == BRANCH_TAG,
        covers(v0, off, key, d, top),
        ch.len() == 32,
        c == word_at(v0, off + 1 + 4 * slot(key, d)),
        c != 0,
        ch[slot(key, d)] == nc,
        forall|j: int| 0 <= j < 32 && j != slot(key, d) ==> ch[j] == word_at(v0, off + 1 + 4 * j),
        pruned(v0, c, t1, nc, key, d + 1),
        agree(v0, t1, v0.len() as int),
        agree(t1, t, t1.len() as int),
        8 <= n,
        n + 129 <= t.len(),
        t.subrange(n, n + 129) == branch_bytes(ch),
    ensures
        pruned(v0, off, t, n, key, d),
{
    reveal(pruned);
    reveal(covers);
    assert forall|k: Seq<u8>| k.len() == 32 && slots_agree(k, key, d) implies (n == 0
        || sound(t, n, k, d, t.len() as int)) && #[trigger] lookup(t, n, k, d) == (if k == key {
        None
    } else {
        lookup(v0, off, k, d)
    }) by {
        let j = slot(k, d);
        lemma_slot_range(k, d);
        lemma_slot_range(key, d);
        lemma_branch_at(t, n, ch, j);
        assert(sound(v0, off, k, d, top));
        if j == slot(key, d) {
            assert(slots_agree(k, key, d + 1));
            assert(lookup(t1, nc, k, d + 1) == (if k == key { None } else { lookup(v0, c, k, d + 1) }));
            if nc != 0 {
                assert(sound(t1, nc, k, d + 1, t1.len() as int));
                lemma_frame(t1, t, nc, k, d + 1, t1.len() as int, t.len() as int);
            }
        } else {
            assert(k != key);
            let cj = word_at(v0, off + 1 + 4 * j);
            if cj != 0 {
                assert(sound(v0, cj, k, d + 1, top));
                assert(agree(v0, t, top)) by {
                    assert forall|i: int| 8 <= i < top implies v0[i] == t[i] by {
                        assert(v0[i] == t1[i]);
                    }
                }
                lemma_frame(v0, t, cj, k, d + 1, top, t.len() as int);
            }
        }
    }
}

/// A branch whose every slot is empty below the root holds nothing.
proof fn lemma_all_empty(v0: Seq<u8>, top: int, off: int, c: int, nc: int, ch: Seq<u32>, key: Seq<u8>, d: int, t1: Seq<u8>)
    requires
        0 <= d < 52,
        key.len() == 32,
        8 <= off,
        off + 129 <= top <= v0.len(),
        v0[off] == BRANCH_TAG,
        covers(v0, off, key, d, top),
        ch.len() == 32,
        c == word_at(v0, off + 1 + 4 * slot(key, d)),
        c != 0,
        ch[slot(key, d)] == nc,
        forall|j: int| 0 <= j < 32 && j != slot(key, d) ==> ch[j] == word_at(v0, off + 1 + 4 * j),
        forall|j: int| 0 <= j < 32 ==> ch[j] == 0,
        pruned(v0, c, t1, nc, key, d + 1),
    ensures
        pruned(v0, off, t1, 0, key, d),
{
    reveal(pruned);
    reveal(covers);
    assert forall|k: Seq<u8>| k.len() == 32 && slots_agree(k, key, d) implies (0 == 0
        || sound(t1, 0, k, d, t1.len() as int)) && #[trigger] lookup(t1, 0, k, d) == (if k == key {
        None
    } else {
        lookup(v0, off, k, d)
    }) by {
        let j = slot(k, d);
        lemma_slot_range(k, d);
        lemma_slot_range(key, d);
        assert(ch[j] == 0);
        if j == slot(key, d) {
            assert(slots_agree(k, key, d + 1));
            assert(lookup(t1, nc, k, d + 1) == (if k == key { None } else { lookup(v0, c, k, d + 1) }));
            assert(lookup(t1, nc, k, d + 1) == None::<Seq<u8>>);
        } else {
            assert(ch[j] == word_at(v0, off + 1 + 4 * j));
        }
        assert(lookup(t1, 0, k, d) == None::<Seq<u8>>);
    }
}

/// The one non-empty slot, when there is exactly one.
fn single_child(ch: &Vec<u32>) -> (r: Option<usize>)
    requires
        ch@.len() == 32,
    ensures
        r matches Some(j) ==> j < 32 && ch@[j as int] != 0 && forall|q: int| 0 <= q < 32 && q != j ==> ch@[q] == 0,
{
    let mut found: Option<usize> = None;
    let mut q: usize = 0;
    while q < 32
        invariant
            q <= 32,
            ch@.len() == 32,
            found matches Some(j) ==> j < q && ch@[j as int] != 0 && forall|x: int| 0 <= x < q && x != j ==> ch@[x] == 0,
            found is None ==> forall|x: int| 0 <= x < q ==> ch@[x] == 0,
        decreases 32 - q,
    {
        if ch[q] != 0 {
            if found.is_some() {
                return None;
            }
            found = Some(q);
        }
        q = q + 1;
    }
    found
}

/// Whether `a` and `b` take the same slots above depth `d`.
fn same_slots(a: &Word, b: &Word, d: usize) -> (r: bool)
    requires
        d <= 52,
    ensures
        r == slots_agree(a@, b@, d as int),
{
    let mut j: usize = 0;
    while j < d
        invariant
            j <= d <= 52,
            slots_agree(a@, b@, j as int),
        decreases d - j,
    {
        if slot_of(a, j) != slot_of(b, j) {
            return false;
        }
        j = j + 1;
    }
    true
}

/// A branch below the root left with one leaf, in a slot its key takes,
/// answers as that leaf does.
proof fn lemma_collapse(
    v0: Seq<u8>,
    top: int,
    t1: Seq<u8>,
    off: int,
    c: int,
    nc: int,
    ch: Seq<u32>,
    key: Seq<u8>,
    d: int,
    leaf: int,
    k3: Seq<u8>,
    j: int,
)
    requires
        0 <= d < 52,
        key.len() == 32,
        k3.len() == 32,
        8 <= off,
        off + 129 <= top <= v0.len(),
        v0[off] == BRANCH_TAG,
        covers(v0, off, key, d, top),
        ch.len() == 32,
        c == word_at(v0, off + 1 + 4 * slot(key, d)),
        c != 0,
        ch[slot(key, d)] == nc,
        forall|q: int| 0 <= q < 32 && q != slot(key, d) ==> ch[q] == word_at(v0, off + 1 + 4 * q),
        0 <= j < 32,
        ch[j] == leaf,
        forall|q: int| 0 <= q < 32 && q != j ==> ch[q] == 0,
        pruned(v0, c, t1, nc, key, d + 1),
        agree(v0, t1, v0.len() as int),
        8 <= leaf,
        leaf + 65 <= top,
        v0[leaf] == LEAF_TAG,
        v0.subrange(leaf + 1, leaf + 33) == k3,
        slot(k3, d) == j,
        slots_agree(k3, key, d),
    ensures
        pruned(v0, off, t1, leaf, key, d),
{
    reveal(pruned);
    reveal(covers);
    lemma_slot_range(key, d);
    lemma_agree_subrange(v0, t1, v0.len() as int, leaf + 1, leaf + 33);
    lemma_agree_subrange(v0, t1, v0.len() as int, leaf + 33, leaf + 65);
    assert(t1[leaf] == v0[leaf]);
    assert forall|k: Seq<u8>| k.len() == 32 && slots_agree(k, key, d) implies (leaf == 0 || sound(
        t1,
        leaf,
        k,
        d,
        t1.len() as int,
    )) && #[trigger] lookup(t1, leaf, k, d) == (if k == key {
        None
    } else {
        lookup(v0, off, k, d)
    }) by {
        let q = slot(k, d);
        lemma_slot_range(k, d);
        assert(slots_agree(k3, k, d));
        if q == slot(key, d) {
            assert(slots_agree(k, key, d + 1));
            assert(lookup(t1, nc, k, d + 1) == (if k == key { None } else { lookup(v0, c, k, d + 1) }));
            if j != slot(key, d) {
                assert(nc == 0);
                assert(k != k3);
            } else {
                assert(nc == leaf);
                lemma_leaf_depth(t1, leaf, k, d + 1, d);
            }
        } else if q == j {
            assert(word_at(v0, off + 1 + 4 * q) == leaf);
            assert(k != key);
            lemma_leaf_depth(v0, leaf, k, d + 1, d);
        } else {
            assert(word_at(v0, off + 1 + 4 * q) == ch[q]);
            assert(k != key);
            assert(k != k3);
        }
    }
}

/// Writes, past the used space, a copy of the path of `key` from the node at
/// `off` with `key` unbound; gives the copy's offset (0 for an empty trie,
/// `off` when nothing changed) and the value that was bound.
#[verifier::rlimit(60)]
fn rem(
    s: &[u8],
    top: usize,
    pending: &mut Vec<u8>,
    off: usize,
    key: &Word,
    d: usize,
) -> (r: Option<(usize, Option<Word>)>)
    requires
        8 <= top <= s@.len() <= MAX_ARENA,
        d <= 52,
        old(pending)@.len() + (53 - d) * 130 <= PATH_ROOM,
    ensures
        grows(old(pending)@, final(pending)@),
        final(pending)@.len() <= old(pending)@.len() + (53 - d) * 130,
        r matches Some((n, _)) ==> n == 0 || n == off || (8 <= n < top) || (top + old(pending)@.len() <= n && n + 65
            <= top + final(pending)@.len()),
        r matches Some((n, _)) ==> (d == 0 && n != off && s@[off as int] == BRANCH_TAG ==> n + 129
            <= top + final(pending)@.len() && staged(s@, top as int, final(pending)@)[n as int]
            == BRANCH_TAG && n >= top + old(pending)@.len()),
        covers(staged(s@, top as int, old(pending)@), off as int, key@, d as int, top as int) ==> (
        r matches Some((n, w)) && pruned(
            staged(s@, top as int, old(pending)@),
            off as int,
            staged(s@, top as int, final(pending)@),
            n as int,
            key@,
            d as int,
        ) && found(w, staged(s@, top as int, old(pending)@), off as int, key@, d as int)),
    decreases 52 - d,
{
    let ghost v0 = staged(s@, top as int, old(pending)@);
    let ghost good = covers(v0, off as int, key@, d as int, top as int);
    proof {
        lemma_grows_refl(old(pending)@);
        lemma_staged_agree(s@, top as int, old(pending)@, old(pending)@);
        if good {
            lemma_covers_key(v0, off as int, key@, d as int, top as int);
        }
    }
    if off < 8 || off >= top {
        return None;
    }
    let tag = s[off];
    proof {
        assert(v0[off as int] == s@[off as int]);
    }
    if tag == LEAF_TAG {
        if 65 > top - off {
            return None;
        }
        let other: [u8; 32] = array_at(s, off + 1);
        proof {
            assert(v0.subrange(off + 1, off + 33) =~= s@.subrange(off + 1, off + 33));
            assert(v0.subrange(off + 33, off + 65) =~= s@.subrange(off + 33, off + 65));
        }
        if bytes_eq(&other, key) {
            let w: [u8; 32] = array_at(s, off + 33);
            proof {
                reveal(pruned);
            }
            Some((0, Some(w)))
        } else {
            proof {
                if good {
                    lemma_kept(v0, top as int, v0, off as int, key@, d as int);
                }
            }
            Some((off, None))
        }
    } else if tag == BRANCH_TAG && d < 52 {
        if 129 > top - off {
            return None;
        }
        let sl = slot_of(key, d);
        let mut ch: Vec<u32> = Vec::new();
        let mut i: usize = 0;
        while i < 32
            invariant
                i <= 32,
                8 <= off,
                off + 129 <= top <= s@.len(),
                ch@.len() == i,
                forall|j: int| 0 <= j < i ==> ch@[j] == word_at(s@, off + 1 + 4 * j),
            decreases 32 - i,
        {
            let w = read_le(s, off + 1 + 4 * i, 4);
            proof {
                crate::bytes::lemma_le_value_bound(s@.subrange(off + 1 + 4 * i, off + 1 + 4 * i + 4));
                lemma_pow256_4();
            }
            ch.push(w as u32);
            i = i + 1;
        }
        proof {
            assert forall|j: int| 0 <= j < 32 implies ch@[j] == word_at(v0, off + 1 + 4 * j) by {
                lemma_agree_subrange(s@, v0, top as int, off + 1 + 4 * j, off + 1 + 4 * j + 4);
            }
        }
        let c = ch[sl];
        if c == 0 {
            proof {
                if good {
                    lemma_kept(v0, top as int, v0, off as int, key@, d as int);
                }
            }
            return Some((off, None));
        }
        proof {
            if good {
                lemma_covers_child(v0, off as int, c as int, key@, d as int, top as int);
            }
        }
        let child = rem(s, top, pending, c as usize, key, d + 1);
        match child {
            None => None,
            Some((nc, w)) => {
                let ghost mid = pending@;
                let ghost t1 = staged(s@, top as int, mid);
                proof {
                    lemma_staged_agree(s@, top as int, old(pending)@, mid);
                }
                if nc == c as usize && d > 0 {
                    proof {
                        if good {
                            reveal(pruned);
                            assert(lookup(t1, c as int, key@, d + 1) is None);
                            lemma_covers_child(v0, off as int, c as int, key@, d as int, top as int);
                            lemma_covers_key(v0, c as int, key@, d + 1, top as int);
                            lemma_frame(v0, t1, c as int, key@, d + 1, top as int, t1.len() as int);
                            assert(lookup(v0, c as int, key@, d + 1) is None);
                            lemma_kept(v0, top as int, t1, off as int, key@, d as int);
                        }
                    }
                    return Some((off, w));
                }
                ch[sl] = nc as u32;
                if d > 0 {
                    let mut any = false;
                    let mut j: usize = 0;
                    while j < 32
                        invariant
                            j <= 32,
                            ch@.len() == 32,
                            !any ==> forall|q: int| 0 <= q < j ==> ch@[q] == 0,
                        decreases 32 - j,
                    {
                        if ch[j] != 0 {
                            any = true;
                        }
                        j = j + 1;
                    }
                    if !any {
                        proof {
                            if good {
                                lemma_all_empty(v0, top as int, off as int, c as int, nc as int, ch@, key@, d as int, t1);
                            }
                        }
                        return Some((0, w));
                    }
                    match single_child(&ch) {
                        Some(j) => {
                            {
                                let leaf = ch[j] as usize;
                                if leaf >= 8 && leaf < top && top - leaf >= 65 && s[leaf] == LEAF_TAG {
                                    let k3: [u8; 32] = array_at(s, leaf + 1);
                                    if slot_of(&k3, d) == j && same_slots(&k3, key, d) {
                                        proof {
                                            if good {
                                                assert(v0[leaf as int] == s@[leaf as int]);
                                                assert(v0.subrange(leaf + 1, leaf + 33) =~= s@.subrange(leaf + 1, leaf + 33));
                                                lemma_collapse(v0, top as int, t1, off as int, c as int, nc as int, ch@, key@, d as int, leaf as int, k3@, j as int);
                                            }
                                        }
                                        return Some((leaf, w));
                                    }
                                }
                            }
                        },
                        None => {},
                    }
                }
                let n = top + pending.len();
                push_branch(pending, &ch);
                proof {
                    let t = staged(s@, top as int, pending@);
                    lemma_words(ch@);
                    assert(t =~= t1 + branch_bytes(ch@));
                    lemma_append(t1, branch_bytes(ch@));
                    lemma_push_grows(mid, branch_bytes(ch@), old(pending)@);
                    lemma_staged_agree(s@, top as int, old(pending)@, pending@);
                    assert(t[n as int] == t.subrange(n as int, n + 129)[0]);
                    if good {
                        lemma_copy_branch_pruned(
                            v0,
                            top as int,
                            t1,
                            t,
                            off as int,
                            c as int,
                            nc as int,
                            n as int,
                            ch@,
                            key@,
                            d as int,
                        );
                    }
                }
                Some((n, w))
            },
        }
    } else {
        None
    }
}

} // verus!

verus! {

impl Hamt {
    /// Unbinds `key` and gives the value it had. Fails, leaving every byte
    /// as it was, when the unused space cannot hold the copied path.
    pub fn remove(&mut self, key: &Word) -> (r: Result<Option<Word>, ProgramError>)
        requires
            old(self).valid(),
        ensures
            final(self).valid(),
            final(self).data@.len() == old(self).data@.len(),
            r is Err ==> r == Err::<Option<Word>, _>(ProgramError::OutOfStorage) && final(self).data@
                == old(self).data@,
            old(self).wf() && r is Ok ==> final(self).wf(),
            old(self).wf() ==> (r matches Ok(w) ==> (w is None <==> old(self).spec_get(key@) is None)
                && (w matches Some(x) ==> old(self).spec_get(key@) == Some(x@))),
            old(self).wf() && r is Ok ==> forall|k: Seq<u8>|
                k.len() == 32 ==> #[trigger] final(self).spec_get(k) == (if k == key@ {
                    None
                } else {
                    old(self).spec_get(k)
                }),
            old(self).wf() && top_of(old(self).data@) + PATH_ROOM <= old(self).data@.len() ==> r is Ok,
    {
        let len = self.data.len();
        let r0 = read_le(self.data.as_slice(), 0, 4);
        let t0 = read_le(self.data.as_slice(), 4, 4);
        proof {
            crate::bytes::lemma_le_value_bound(self.data@.subrange(0, 4));
            crate::bytes::lemma_le_value_bound(self.data@.subrange(4, 8));
            lemma_pow256_4();
        }
        let root = r0 as usize;
        let top = t0 as usize;
        if top < 8 || top > len {
            return Err(ProgramError::OutOfStorage);
        }
        let ghost s = self.data@;
        let ghost v0 = staged(s, top as int, Seq::<u8>::empty());
        let mut pending: Vec<u8> = Vec::new();
        proof {
            lemma_grows_refl(pending@);
            lemma_staged_agree(s, top as int, pending@, pending@);
            if wf(s) {
                reveal(covers);
                assert forall|k: Seq<u8>| k.len() == 32 && slots_agree(k, key@, 0) implies #[trigger] sound(
                    v0,
                    root as int,
                    k,
                    0,
                    top as int,
                ) by {
                    assert(sound(s, root as int, k, 0, top as int));
                    lemma_frame(s, v0, root as int, k, 0, top as int, top as int);
                }
            }
        }
        let copied = rem(self.data.as_slice(), top, &mut pending, root, key, 0);
        match copied {
            None => Err(ProgramError::OutOfStorage),
            Some((n, w)) => {
                let ghost t = staged(s, top as int, pending@);
                proof {
                    lemma_staged_agree(s, top as int, Seq::<u8>::empty(), pending@);
                    if wf(s) {
                        assert(sound(s, root as int, key@, 0, top as int));
                        lemma_frame(s, v0, root as int, key@, 0, top as int, top as int);
                    }
                }
                if n == root {
                    proof {
                        if wf(s) {
                            reveal(pruned);
                            assert(slots_agree(key@, key@, 0));
                            assert(lookup(t, root as int, key@, 0) == None::<Seq<u8>>);
                            assert(sound(v0, root as int, key@, 0, top as int));
                            lemma_frame(v0, t, root as int, key@, 0, top as int, t.len() as int);
                        }
                    }
                    return Ok(w);
                }
                if pending.len() > len - top {
                    return Err(ProgramError::OutOfStorage);
                }
                let new_top = top + pending.len();
                write_at(&mut self.data, top, pending.as_slice());
                let h = header(n, new_top);
                write_at(&mut self.data, 0, h.as_slice());
                proof {
                    let f = self.data@;
                    assert(f.subrange(0, 8) =~= h@);
                    lemma_header_read(f, n as int, new_top as int);
                    assert(agree(t, f, t.len() as int)) by {
                        assert forall|i: int| 8 <= i < t.len() implies t[i] == f[i] by {
                            if i >= top {
                                assert(t[i] == pending@[i - top]);
                            }
                        }
                    }
                    if wf(s) {
                        reveal(pruned);
                        assert(f[n as int] == t[n as int]);
                        assert forall|k: Seq<u8>|
                            #![trigger get(f, k)]
                            #![trigger sound(f, n as int, k, 0, new_top as int)]
                            k.len() == 32 implies sound(f, n as int, k, 0, new_top as int) && get(f, k)
                            == (if k == key@ {
                            None
                        } else {
                            get(s, k)
                        }) by {
                            assert(slots_agree(k, key@, 0));
                            assert(lookup(t, n as int, k, 0) == (if k == key@ { None } else { lookup(v0, root as int, k, 0) }));
                            assert(sound(t, n as int, k, 0, t.len() as int));
                            lemma_frame(t, f, n as int, k, 0, t.len() as int, t.len() as int);
                            assert(sound(s, root as int, k, 0, top as int));
                            lemma_frame(s, v0, root as int, k, 0, top as int, top as int);
                        }
                    }
                }
                Ok(w)
            },
        }
    }
}

} // verus!
