//! Keccak-256 and the addresses of created contracts.

use vstd::prelude::*;
use crate::bytes::push_all;
use crate::layout::{Address, Word};

verus! {

/// The Keccak-256 digest of `data`.
pub uninterp spec fn keccak256(data: Seq<u8>) -> Seq<u8>;

/// Relies on `sha3::Keccak256::digest`: the 32-byte Keccak-256 digest of the
/// input, which depends on the input alone.
#[verifier::external_body]
pub(crate) fn keccak256_digest(data: &[u8]) -> (r: Word)
    ensures
        r@ == keccak256(data@),
{
    let digest = <sha3::Keccak256 as sha3::Digest>::digest(data);
    let mut out = [0u8; 32];
    out.copy_from_slice(digest.as_slice());
    out
}

/// The shortest big-endian bytes of `n`: none for zero.
pub open spec fn be_min(n: nat) -> Seq<u8>
    decreases n,
{
    if n == 0 {
        Seq::empty()
    } else {
        be_min(n / 256) + seq![(n % 256) as u8]
    }
}

/// RLP of a byte string shorter than 56 bytes.
pub open spec fn rlp_short_bytes(b: Seq<u8>) -> Seq<u8> {
    if b.len() == 1 && b[0] < 0x80 {
        b
    } else {
        seq![(0x80 + b.len()) as u8] + b
    }
}

/// RLP of the list `[address, nonce]`.
pub open spec fn rlp_address_nonce(a: Seq<u8>, nonce: nat) -> Seq<u8> {
    let payload = rlp_short_bytes(a) + rlp_short_bytes(be_min(nonce));
    seq![(0xc0 + payload.len()) as u8] + payload
}

/// Relies on `rlp::RlpStream`: a two-item list of the address as a byte
/// string and the nonce as an integer.
#[verifier::external_body]
fn rlp_of_address_nonce(caller: &Address, nonce: u64) -> (r: Vec<u8>)
    ensures
        r@ == rlp_address_nonce(caller@, nonce as nat),
{
    let mut stream = rlp::RlpStream::new_list(2);
    let address: &[u8] = &caller[..];
    stream.append(&address);
    stream.append(&nonce);
    stream.out().to_vec()
}

/// The last 20 bytes of a 32-byte word.
pub open spec fn low_address(w: Seq<u8>) -> Seq<u8> {
    w.subrange(12, 32)
}

fn address_of(w: &Word) -> (r: Address)
    ensures
        r@ == low_address(w@),
{
    crate::bytes::array_at(w, 12)
}

/// Keccak-256 of `code`: the hash of an account's code.
pub fn code_hash_of(code: &[u8]) -> (r: Word)
    ensures
        r@ == keccak256(code@),
{
    keccak256_digest(code)
}

/// The address CREATE2 gives: the low 20 bytes of
/// `keccak(0xff || caller || salt || code_hash)`.
pub open spec fn create2_address(caller: Seq<u8>, salt: Seq<u8>, code_hash: Seq<u8>) -> Seq<u8> {
    low_address(keccak256(seq![0xffu8] + caller + salt + code_hash))
}

/// The address CREATE gives: the low 20 bytes of `keccak(rlp([caller, nonce]))`.
pub open spec fn create_address(caller: Seq<u8>, nonce: nat) -> Seq<u8> {
    low_address(keccak256(rlp_address_nonce(caller, nonce)))
}

/// The address of a contract made by CREATE2.
pub fn create2_address_of(caller: &Address, salt: &Word, code_hash: &Word) -> (r: Address)
    ensures
        r@ == create2_address(caller@, salt@, code_hash@),
{
    let mut buf: Vec<u8> = Vec::new();
    buf.push(0xffu8);
    push_all(&mut buf, caller);
    push_all(&mut buf, salt);
    push_all(&mut buf, code_hash);
    assert(buf@ =~= seq![0xffu8] + caller@ + salt@ + code_hash@);
    let h = keccak256_digest(buf.as_slice());
    address_of(&h)
}

/// The address of a contract made by CREATE.
pub fn create_address_of(caller: &Address, nonce: u64) -> (r: Address)
    ensures
        r@ == create_address(caller@, nonce as nat),
{
    let enc = rlp_of_address_nonce(caller, nonce);
    let h = keccak256_digest(enc.as_slice());
    address_of(&h)
}

/// CREATE2 addresses depend on their inputs alone: the same caller, salt
/// and code land on one address, whatever else differs.
pub proof fn lemma_create_deterministic(caller: Seq<u8>, salt: Seq<u8>, code_a: Seq<u8>, code_b: Seq<u8>)
    requires
        code_a == code_b,
    ensures
        create2_address(caller, salt, keccak256(code_a)) == create2_address(caller, salt, keccak256(code_b)),
{
}

} // verus!

verus! {

/// The code hash depends on the code alone: equal code, equal hash. (The
/// converse rests on Keccak-256 being collision resistant, which nothing
/// here can prove.)
pub proof fn lemma_code_hash_of_equal_code(a: Seq<u8>, b: Seq<u8>)
    requires
        a == b,
    ensures
        keccak256(a) == keccak256(b),
{
}

} // verus!
