//! The persisted form of a paused machine: a pair of length-prefixed blobs
//! (u64 LE length, then the bytes), the frame stack and the staged state.
//! Decoding checks every length and tag, and fails rather than guess.

use vstd::prelude::*;
use crate::bytes::{push_all, push_le, read_le, array_at};
use crate::instruction::Log;
use crate::layout::{Address, Word};
use crate::state::Effect;

verus! {

/// Appends a u64, little-endian.
pub fn put_u64(out: &mut Vec<u8>, x: u64)
    ensures
        final(out)@ == old(out)@ + crate::bytes::le_bytes(x as nat, 8),
{
    push_le(out, x, 8);
}

/// Appends a length-prefixed byte string.
pub fn put_bytes(out: &mut Vec<u8>, b: &[u8])
    ensures
        final(out)@ == old(out)@ + crate::bytes::le_bytes(b@.len(), 8) + b@,
{
    put_u64(out, b.len() as u64);
    push_all(out, b);
    assert(final(out)@ =~= old(out)@ + crate::bytes::le_bytes(b@.len(), 8) + b@);
}

/// Reads a u64 at `pos`; gives it and the position after it.
pub fn get_u64(s: &[u8], pos: usize) -> (r: Option<(u64, usize)>)
    ensures
        r is Some <==> pos + 8 <= s@.len(),
        r matches Some((x, p)) ==> p == pos + 8 && x as nat == crate::bytes::le_value(s@.subrange(pos as int, pos + 8)),
{
    if pos > s.len() || s.len() - pos < 8 {
        return None;
    }
    Some((read_le(s, pos, 8), pos + 8))
}

/// Reads a length-prefixed byte string at `pos`.
pub fn get_bytes(s: &[u8], pos: usize) -> (r: Option<(Vec<u8>, usize)>)
    ensures
        r matches Some((b, p)) ==> p == pos + 8 + b@.len() && p <= s@.len() && b@ == s@.subrange(pos + 8, p as int)
            && crate::bytes::le_value(s@.subrange(pos as int, pos + 8)) == b@.len(),
{
    let (n, p) = match get_u64(s, pos) {
        Some(x) => x,
        None => {
            return None;
        },
    };
    if n > (s.len() - p) as u64 {
        return None;
    }
    let end = p + n as usize;
    let mut b: Vec<u8> = Vec::new();
    push_all(&mut b, &s[p..end]);
    Some((b, end))
}

fn get_byte(s: &[u8], pos: usize) -> (r: Option<(u8, usize)>)
    ensures
        r matches Some((x, p)) ==> p == pos + 1 && p <= s@.len() && x == s@[pos as int],
{
    if pos >= s.len() {
        return None;
    }
    Some((s[pos], pos + 1))
}

fn get_address(s: &[u8], pos: usize) -> (r: Option<(Address, usize)>)
    ensures
        r matches Some((a, p)) ==> p == pos + 20 && p <= s@.len() && a@ == s@.subrange(pos as int, p as int),
{
    if pos > s.len() || s.len() - pos < 20 {
        return None;
    }
    Some((array_at(s, pos), pos + 20))
}

fn get_word(s: &[u8], pos: usize) -> (r: Option<(Word, usize)>)
    ensures
        r matches Some((a, p)) ==> p == pos + 32 && p <= s@.len() && a@ == s@.subrange(pos as int, p as int),
{
    if pos > s.len() || s.len() - pos < 32 {
        return None;
    }
    Some((array_at(s, pos), pos + 32))
}

/// Appends one effect: a tag, the address, then the fields of its kind.
pub fn put_effect(out: &mut Vec<u8>, e: &Effect)
    ensures
        final(out)@.len() > old(out)@.len(),
        final(out)@.subrange(0, old(out)@.len() as int) == old(out)@,
{
    let ghost o = out@;
    match e {
        Effect::Storage { address, key, value } => {
            out.push(0u8);
            push_all(out, address);
            push_all(out, key);
            push_all(out, value);
        },
        Effect::Balance { address, value } => {
            out.push(1u8);
            push_all(out, address);
            put_u64(out, *value);
        },
        Effect::Nonce { address, value } => {
            out.push(2u8);
            push_all(out, address);
            put_u64(out, *value);
        },
        Effect::Code { address, code } => {
            out.push(3u8);
            push_all(out, address);
            put_bytes(out, code.as_slice());
        },
        Effect::Log(l) => {
            out.push(4u8);
            push_all(out, &l.address);
            put_u64(out, l.topics.len() as u64);
            let mut i: usize = 0;
            while i < l.topics.len()
                invariant
                    i <= l.topics@.len(),
                    out@.len() > o.len(),
                    out@.subrange(0, o.len() as int) == o,
                decreases l.topics@.len() - i,
            {
                let ghost before = out@;
                push_all(out, &l.topics[i]);
                proof {
                    assert(out@.subrange(0, o.len() as int) =~= before.subrange(0, o.len() as int));
                }
                i = i + 1;
            }
            let ghost before = out@;
            put_bytes(out, l.data.as_slice());
            proof {
                assert(out@.subrange(0, o.len() as int) =~= before.subrange(0, o.len() as int));
            }
        },
        Effect::Delete { address } => {
            out.push(5u8);
            push_all(out, address);
        },
        Effect::Invoke(ix) => {
            out.push(6u8);
            push_all(out, &ix.program_id);
            put_u64(out, ix.accounts.len() as u64);
            let mut i: usize = 0;
            while i < ix.accounts.len()
                invariant
                    i <= ix.accounts@.len(),
                    out@.len() > o.len(),
                    out@.subrange(0, o.len() as int) == o,
                decreases ix.accounts@.len() - i,
            {
                let ghost before = out@;
                let m = ix.accounts[i];
                push_all(out, &m.pubkey);
                out.push(if m.is_signer { 1u8 } else { 0u8 });
                out.push(if m.is_writable { 1u8 } else { 0u8 });
                proof {
                    assert(out@.subrange(0, o.len() as int) =~= before.subrange(0, o.len() as int));
                }
                i = i + 1;
            }
            let ghost before = out@;
            put_bytes(out, ix.data.as_slice());
            proof {
                assert(out@.subrange(0, o.len() as int) =~= before.subrange(0, o.len() as int));
            }
        },
    }
    proof {
        assert(out@.subrange(0, o.len() as int) =~= o);
    }
}

/// Reads one effect at `pos`; `None` when the bytes are not one.
pub fn get_effect(s: &[u8], pos: usize) -> (r: Option<(Effect, usize)>)
    ensures
        r matches Some((_, p)) ==> pos < p <= s@.len(),
{
    if pos < s.len() && s[pos] == 6 {
        return get_invoke(s, pos + 1);
    }
    let (tag, p) = match get_byte(s, pos) {
        Some(x) => x,
        None => {
            return None;
        },
    };
    let (address, p) = match get_address(s, p) {
        Some(x) => x,
        None => {
            return None;
        },
    };
    if tag == 0 {
        let (key, p) = match get_word(s, p) {
            Some(x) => x,
            None => {
                return None;
            },
        };
        let (value, p) = match get_word(s, p) {
            Some(x) => x,
            None => {
                return None;
            },
        };
        Some((Effect::Storage { address, key, value }, p))
    } else if tag == 1 || tag == 2 {
        let (value, p) = match get_u64(s, p) {
            Some(x) => x,
            None => {
                return None;
            },
        };
        if tag == 1 {
            Some((Effect::Balance { address, value }, p))
        } else {
            Some((Effect::Nonce { address, value }, p))
        }
    } else if tag == 3 {
        let (code, p) = match get_bytes(s, p) {
            Some(x) => x,
            None => {
                return None;
            },
        };
        Some((Effect::Code { address, code }, p))
    } else if tag == 4 {
        let (n, p) = match get_u64(s, p) {
            Some(x) => x,
            None => {
                return None;
            },
        };
        if n > ((s.len() - p) / 32) as u64 {
            return None;
        }
        let mut topics: Vec<Word> = Vec::new();
        let mut q = p;
        let mut i: u64 = 0;
        while i < n
            invariant
                pos < q <= s@.len(),
                i <= n,
            decreases n - i,
        {
            let (t, q2) = match get_word(s, q) {
                Some(x) => x,
                None => {
                    return None;
                },
            };
            topics.push(t);
            q = q2;
            i = i + 1;
        }
        let (data, q) = match get_bytes(s, q) {
            Some(x) => x,
            None => {
                return None;
            },
        };
        Some((Effect::Log(Log { address, topics, data }), q))
    } else if tag == 5 {
        Some((Effect::Delete { address }, p))
    } else {
        None
    }
}

/// Reads a staged host instruction at `pos`, just past its tag.
fn get_invoke(s: &[u8], pos: usize) -> (r: Option<(Effect, usize)>)
    ensures
        r matches Some((_, p)) ==> pos < p <= s@.len(),
{
    let (program_id, p) = match get_word(s, pos) {
        Some(x) => x,
        None => {
            return None;
        },
    };
    let (n, p) = match get_u64(s, p) {
        Some(x) => x,
        None => {
            return None;
        },
    };
    if n > ((s.len() - p) / 34) as u64 {
        return None;
    }
    let mut accounts: Vec<crate::instruction::AccountMeta> = Vec::new();
    let mut q = p;
    let mut i: u64 = 0;
    while i < n
        invariant
            pos < q <= s@.len(),
            i <= n,
        decreases n - i,
    {
        let (pubkey, q2) = match get_word(s, q) {
            Some(x) => x,
            None => {
                return None;
            },
        };
        let (signer, q3) = match get_byte(s, q2) {
            Some(x) => x,
            None => {
                return None;
            },
        };
        let (writable, q4) = match get_byte(s, q3) {
            Some(x) => x,
            None => {
                return None;
            },
        };
        accounts.push(crate::instruction::AccountMeta { pubkey, is_signer: signer != 0, is_writable: writable != 0 });
        q = q4;
        i = i + 1;
    }
    let (data, q) = match get_bytes(s, q) {
        Some(x) => x,
        None => {
            return None;
        },
    };
    Some((Effect::Invoke(crate::instruction::Instruction { program_id, accounts, data }), q))
}


/// The bincode form of a pair of byte strings: each as its length (u64 LE)
/// and its bytes.
pub open spec fn pair_bytes(a: Seq<u8>, b: Seq<u8>) -> Seq<u8> {
    crate::bytes::le_bytes(a.len(), 8) + a + crate::bytes::le_bytes(b.len(), 8) + b
}

/// `s` starts with a whole pair: both lengths and both byte strings fit.
pub open spec fn pair_ok(s: Seq<u8>) -> bool {
    &&& s.len() >= 8
    &&& 16 + crate::bytes::le_value(s.subrange(0, 8)) <= s.len()
    &&& 16 + crate::bytes::le_value(s.subrange(0, 8)) + crate::bytes::le_value(
        s.subrange(8 + crate::bytes::le_value(s.subrange(0, 8)) as int, 16 + crate::bytes::le_value(s.subrange(0, 8)) as int),
    ) <= s.len()
}

/// Relies on `bincode::serialize` with its default options (fixed-width
/// little-endian integers): a tuple of two byte vectors is each vector's
/// length as a u64, then its bytes. Serializing into memory without a size
/// limit does not fail.
#[verifier::external_body]
fn bincode_pair(a: &[u8], b: &[u8]) -> (r: Vec<u8>)
    ensures
        r@ == pair_bytes(a@, b@),
{
    bincode::serialize(&(a.to_vec(), b.to_vec())).unwrap_or_default()
}

/// Relies on `bincode::deserialize` with its default options, which accept
/// trailing bytes: the pair at the start of `s`, if a whole one is there.
#[verifier::external_body]
fn bincode_unpair(s: &[u8]) -> (r: Option<(Vec<u8>, Vec<u8>)>)
    ensures
        r matches Some((a, b)) ==> 16 + a@.len() + b@.len() <= s@.len() && s@.subrange(0, 16 + a@.len() + b@.len() as int)
            == pair_bytes(a@, b@),
        pair_ok(s@) ==> r is Some,
{
    bincode::deserialize::<(Vec<u8>, Vec<u8>)>(s).ok()
}

/// Appends a pair of blobs in bincode's form.
pub fn put_pair(out: &mut Vec<u8>, a: &[u8], b: &[u8])
    ensures
        final(out)@ == old(out)@ + pair_bytes(a@, b@),
{
    let enc = bincode_pair(a, b);
    push_all(out, enc.as_slice());
}

/// Reads back a pair written by `put_pair`; `None` unless a whole pair is
/// at the start of `s`.
pub fn get_pair(s: &[u8]) -> (r: Option<(Vec<u8>, Vec<u8>)>)
    ensures
        r matches Some((a, b)) ==> 16 + a@.len() + b@.len() <= s@.len() && s@.subrange(0, 16 + a@.len() + b@.len() as int)
            == pair_bytes(a@, b@),
        pair_ok(s@) ==> r is Some,
{
    bincode_unpair(s)
}

/// A pair of blobs reads back as written, whatever follows it.
pub proof fn lemma_pair_round_trip(a: Seq<u8>, b: Seq<u8>, tail: Seq<u8>)
    requires
        a.len() < 0x1_0000_0000_0000_0000,
        b.len() < 0x1_0000_0000_0000_0000,
    ensures
        ({
            let s = crate::bytes::le_bytes(a.len(), 8) + a + crate::bytes::le_bytes(b.len(), 8) + b + tail;
            &&& crate::bytes::le_value(s.subrange(0, 8)) == a.len()
            &&& s.subrange(8, 8 + a.len() as int) == a
            &&& crate::bytes::le_value(s.subrange(8 + a.len() as int, 16 + a.len() as int)) == b.len()
            &&& s.subrange(16 + a.len() as int, 16 + a.len() as int + b.len() as int) == b
        }),
{
    let la = crate::bytes::le_bytes(a.len(), 8);
    let lb = crate::bytes::le_bytes(b.len(), 8);
    let s = la + a + lb + b + tail;
    crate::bytes::lemma_le_bytes_len(a.len(), 8);
    crate::bytes::lemma_le_bytes_len(b.len(), 8);
    assert(crate::bytes::pow256(8) == 0x1_0000_0000_0000_0000) by {
        reveal_with_fuel(crate::bytes::pow256, 9);
    }
    crate::bytes::lemma_le_round_trip(a.len(), 8);
    crate::bytes::lemma_le_round_trip(b.len(), 8);
    assert(s.subrange(0, 8) =~= la);
    assert(s.subrange(8, 8 + a.len() as int) =~= a);
    assert(s.subrange(8 + a.len() as int, 16 + a.len() as int) =~= lb);
    assert(s.subrange(16 + a.len() as int, 16 + a.len() as int + b.len() as int) =~= b);
}

} // verus!
