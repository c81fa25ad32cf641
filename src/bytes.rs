//! Little- and big-endian integers over byte sequences.

use vstd::prelude::*;

verus! {

/// `256^n`.
pub open spec fn pow256(n: nat) -> nat
    decreases n,
{
    if n == 0 {
        1
    } else {
        256 * pow256((n - 1) as nat)
    }
}

/// The number that `s` holds, least significant byte first.
pub open spec fn le_value(s: Seq<u8>) -> nat
    decreases s.len(),
{
    if s.len() == 0 {
        0
    } else {
        s[0] as nat + 256 * le_value(s.skip(1))
    }
}

/// The `n` least significant bytes of `v`, least significant first.
pub open spec fn le_bytes(v: nat, n: nat) -> Seq<u8>
    decreases n,
{
    if n == 0 {
        Seq::empty()
    } else {
        seq![(v % 256) as u8] + le_bytes(v / 256, (n - 1) as nat)
    }
}

pub proof fn lemma_le_bytes_len(v: nat, n: nat)
    ensures
        le_bytes(v, n).len() == n,
    decreases n,
{
    if n > 0 {
        lemma_le_bytes_len(v / 256, (n - 1) as nat);
    }
}

pub proof fn lemma_le_value_bound(s: Seq<u8>)
    ensures
        le_value(s) < pow256(s.len()),
    decreases s.len(),
{
    if s.len() > 0 {
        lemma_le_value_bound(s.skip(1));
    }
}

/// Decoding what was encoded gives the number back, when it fits.
pub proof fn lemma_le_round_trip(v: nat, n: nat)
    requires
        v < pow256(n),
    ensures
        le_value(le_bytes(v, n)) == v,
    decreases n,
{
    if n > 0 {
        let s = le_bytes(v, n);
        assert(s.skip(1) =~= le_bytes(v / 256, (n - 1) as nat));
        lemma_le_round_trip(v / 256, (n - 1) as nat);
    }
}

proof fn lemma_le_value_step(s: Seq<u8>, i: int)
    requires
        0 <= i < s.len(),
    ensures
        le_value(s.subrange(i, s.len() as int)) == s[i] as nat + 256 * le_value(
            s.subrange(i + 1, s.len() as int),
        ),
{
    assert(s.subrange(i, s.len() as int).skip(1) =~= s.subrange(i + 1, s.len() as int));
}

/// Reads `n` bytes of `s` from `start` as a little-endian number.
pub fn read_le(s: &[u8], start: usize, n: usize) -> (r: u64)
    requires
        n <= 8,
        start + n <= s@.len(),
    ensures
        r as nat == le_value(s@.subrange(start as int, start + n)),
{
    let ghost t = s@.subrange(start as int, start + n);
    let len = s.len();
    let mut acc: u64 = 0;
    let mut i: usize = n;
    proof {
        assert(t.subrange(n as int, n as int) =~= Seq::<u8>::empty());
    }
    while i > 0
        invariant
            i <= n <= 8,
            start + n <= s@.len(),
            len == s@.len(),
            t == s@.subrange(start as int, start + n),
            acc as nat == le_value(t.subrange(i as int, n as int)),
        decreases i,
    {
        proof {
            lemma_le_value_step(t, i - 1);
            lemma_le_value_bound(t.subrange(i as int, n as int));
            assert(pow256((n - i) as nat) <= pow256(7)) by {
                lemma_pow256_mono((n - i) as nat, 7);
            }
            assert(pow256(7) == 72057594037927936nat) by {
                reveal_with_fuel(pow256, 8);
            }
        }
        acc = acc * 256 + s[start + (i - 1)] as u64;
        i = i - 1;
    }
    proof {
        assert(t.subrange(0, n as int) =~= t);
    }
    acc
}

proof fn lemma_pow256_mono(a: nat, b: nat)
    requires
        a <= b,
    ensures
        pow256(a) <= pow256(b),
    decreases b,
{
    if a < b {
        lemma_pow256_mono(a, (b - 1) as nat);
    }
}

/// Appends the `n` least significant bytes of `v`, least significant first.
pub fn push_le(out: &mut Vec<u8>, v: u64, n: usize)
    requires
        n <= 8,
    ensures
        final(out)@ == old(out)@ + le_bytes(v as nat, n as nat),
{
    let ghost start = old(out)@;
    let mut x: u64 = v;
    let mut i: usize = 0;
    while i < n
        invariant
            i <= n,
            out@ + le_bytes(x as nat, (n - i) as nat) == start + le_bytes(v as nat, n as nat),
        decreases n - i,
    {
        proof {
            assert(le_bytes(x as nat, (n - i) as nat) =~= seq![(x % 256) as u8] + le_bytes(
                (x / 256) as nat,
                (n - i - 1) as nat,
            ));
            assert(out@.push((x % 256) as u8) + le_bytes((x / 256) as nat, (n - i - 1) as nat)
                =~= out@ + le_bytes(x as nat, (n - i) as nat));
        }
        out.push((x % 256) as u8);
        x = x / 256;
        i = i + 1;
    }
    proof {
        assert(out@ + le_bytes(x as nat, 0) =~= out@);
    }
}

} // verus!

verus! {

/// Copies `N` bytes of `s` from `start` into an array.
pub fn array_at<const N: usize>(s: &[u8], start: usize) -> (r: [u8; N])
    requires
        start + N <= s@.len(),
    ensures
        r@ == s@.subrange(start as int, start + N),
{
    let mut a = [0u8; N];
    let len = s.len();
    let mut i: usize = 0;
    while i < N
        invariant
            i <= N,
            start + N <= s@.len(),
            len == s@.len(),
            a@.len() == N,
            forall|j: int| 0 <= j < i ==> a@[j] == s@[start + j],
        decreases N - i,
    {
        a[i] = s[start + i];
        i = i + 1;
    }
    assert(a@ =~= s@.subrange(start as int, start + N));
    a
}

/// Appends every byte of `s`.
pub fn push_all(out: &mut Vec<u8>, s: &[u8])
    ensures
        final(out)@ == old(out)@ + s@,
{
    let mut i: usize = 0;
    while i < s.len()
        invariant
            i <= s@.len(),
            out@ == old(out)@ + s@.subrange(0, i as int),
        decreases s@.len() - i,
    {
        proof {
            assert(s@.subrange(0, i + 1) =~= s@.subrange(0, i as int).push(s@[i as int]));
        }
        out.push(s[i]);
        i = i + 1;
    }
    assert(s@.subrange(0, i as int) =~= s@);
}

} // verus!

verus! {

/// Whether two byte strings are equal.
pub fn bytes_eq(a: &[u8], b: &[u8]) -> (r: bool)
    ensures
        r == (a@ == b@),
{
    if a.len() != b.len() {
        return false;
    }
    let mut i: usize = 0;
    while i < a.len()
        invariant
            i <= a@.len() == b@.len(),
            forall|j: int| 0 <= j < i ==> a@[j] == b@[j],
        decreases a@.len() - i,
    {
        if a[i] != b[i] {
            return false;
        }
        i = i + 1;
    }
    assert(a@ =~= b@);
    true
}

/// `a` comes before `b` in lexicographic order; both have length `n`.
pub open spec fn lex_lt(a: Seq<u8>, b: Seq<u8>) -> bool {
    exists|i: int|
        0 <= i < a.len() && i < b.len() && a[i] < b[i] && a.subrange(0, i) == b.subrange(0, i)
}

/// Compares two byte strings of one length: -1, 0 or 1.
pub fn bytes_cmp(a: &[u8], b: &[u8]) -> (r: i8)
    requires
        a@.len() == b@.len(),
    ensures
        r == 0 <==> a@ == b@,
        r < 0 <==> lex_lt(a@, b@),
        r > 0 <==> lex_lt(b@, a@),
        -1 <= r <= 1,
{
    let mut i: usize = 0;
    while i < a.len()
        invariant
            i <= a@.len() == b@.len(),
            a@.subrange(0, i as int) == b@.subrange(0, i as int),
        decreases a@.len() - i,
    {
        if a[i] != b[i] {
            proof {
                assert forall|k: int| 0 <= k < i implies a@[k] == b@[k] by {
                    assert(a@.subrange(0, i as int)[k] == b@.subrange(0, i as int)[k]);
                }
                if a[i as int] < b[i as int] {
                    assert(lex_lt(a@, b@));
                    assert(!lex_lt(b@, a@)) by {
                        if lex_lt(b@, a@) {
                            let k = choose|k: int|
                                0 <= k < b.len() && k < a.len() && b@[k] < a@[k]
                                    && b@.subrange(0, k) == a@.subrange(0, k);
                            if k < i {
                            } else if k > i {
                                assert(b@.subrange(0, k)[i as int] == a@.subrange(0, k)[i as int]);
                            }
                        }
                    }
                } else {
                    assert(lex_lt(b@, a@));
                    assert(!lex_lt(a@, b@)) by {
                        if lex_lt(a@, b@) {
                            let k = choose|k: int|
                                0 <= k < a.len() && k < b.len() && a@[k] < b@[k]
                                    && a@.subrange(0, k) == b@.subrange(0, k);
                            if k < i {
                            } else if k > i {
                                assert(b@.subrange(0, k)[i as int] == a@.subrange(0, k)[i as int]);
                            }
                        }
                    }
                }
            }
            if a[i] < b[i] {
                return -1;
            } else {
                return 1;
            }
        }
        proof {
            assert(a@.subrange(0, i + 1) =~= a@.subrange(0, i as int).push(a@[i as int]));
            assert(b@.subrange(0, i + 1) =~= b@.subrange(0, i as int).push(b@[i as int]));
        }
        i = i + 1;
    }
    proof {
        assert(a@ =~= a@.subrange(0, i as int));
        assert(b@ =~= b@.subrange(0, i as int));
        assert(!lex_lt(a@, b@));
        assert(!lex_lt(b@, a@));
    }
    0
}

} // verus!

verus! {

pub proof fn lemma_lex_trans(a: Seq<u8>, b: Seq<u8>, c: Seq<u8>)
    requires
        lex_lt(a, b),
        lex_lt(b, c),
    ensures
        lex_lt(a, c),
{
    let i = choose|i: int| 0 <= i < a.len() && i < b.len() && a[i] < b[i] && a.subrange(0, i) == b.subrange(0, i);
    let j = choose|j: int| 0 <= j < b.len() && j < c.len() && b[j] < c[j] && b.subrange(0, j) == c.subrange(0, j);
    if i < j {
        assert(b.subrange(0, j)[i] == c.subrange(0, j)[i]);
        assert forall|q: int| 0 <= q < i implies a.subrange(0, i)[q] == c.subrange(0, i)[q] by {
            assert(a.subrange(0, i)[q] == b.subrange(0, i)[q]);
            assert(b.subrange(0, j)[q] == c.subrange(0, j)[q]);
        }
        assert(a.subrange(0, i) =~= c.subrange(0, i));
    } else if j < i {
        assert(a.subrange(0, i)[j] == b.subrange(0, i)[j]);
        assert forall|q: int| 0 <= q < j implies a.subrange(0, j)[q] == c.subrange(0, j)[q] by {
            assert(a.subrange(0, i)[q] == b.subrange(0, i)[q]);
            assert(b.subrange(0, j)[q] == c.subrange(0, j)[q]);
        }
        assert(a.subrange(0, j) =~= c.subrange(0, j));
    } else {
        assert(a.subrange(0, i) =~= c.subrange(0, i));
    }
}

} // verus!

verus! {

/// Two byte strings of one length are equal or one comes first.
pub proof fn lemma_lex_total(a: Seq<u8>, b: Seq<u8>)
    requires
        a.len() == b.len(),
    ensures
        a == b || lex_lt(a, b) || lex_lt(b, a),
    decreases a.len(),
{
    if a.len() > 0 {
        if a[0] < b[0] {
            assert(a.subrange(0, 0) =~= b.subrange(0, 0));
        } else if b[0] < a[0] {
            assert(a.subrange(0, 0) =~= b.subrange(0, 0));
        } else {
            lemma_lex_total(a.skip(1), b.skip(1));
            if a.skip(1) == b.skip(1) {
                assert forall|q: int| 0 <= q < a.len() implies a[q] == b[q] by {
                    if q > 0 {
                        assert(a.skip(1)[q - 1] == b.skip(1)[q - 1]);
                    }
                }
                assert(a =~= b);
            } else if lex_lt(a.skip(1), b.skip(1)) {
                let i = choose|i: int|
                    0 <= i < a.skip(1).len() && i < b.skip(1).len() && a.skip(1)[i] < b.skip(1)[i]
                        && a.skip(1).subrange(0, i) == b.skip(1).subrange(0, i);
                assert forall|q: int| 0 <= q < i + 1 implies #[trigger] a.subrange(0, i + 1)[q] == b.subrange(0, i + 1)[q] by {
                    if q > 0 {
                        assert(a.skip(1).subrange(0, i)[q - 1] == b.skip(1).subrange(0, i)[q - 1]);
                    }
                }
                assert(a.subrange(0, i + 1) =~= b.subrange(0, i + 1));
                assert(lex_lt(a, b));
            } else {
                let i = choose|i: int|
                    0 <= i < b.skip(1).len() && i < a.skip(1).len() && b.skip(1)[i] < a.skip(1)[i]
                        && b.skip(1).subrange(0, i) == a.skip(1).subrange(0, i);
                assert forall|q: int| 0 <= q < i + 1 implies #[trigger] b.subrange(0, i + 1)[q] == a.subrange(0, i + 1)[q] by {
                    if q > 0 {
                        assert(b.skip(1).subrange(0, i)[q - 1] == a.skip(1).subrange(0, i)[q - 1]);
                    }
                }
                assert(b.subrange(0, i + 1) =~= a.subrange(0, i + 1));
                assert(lex_lt(b, a));
            }
        }
    } else {
        assert(a =~= b);
    }
}

} // verus!
