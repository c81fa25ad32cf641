//! The fixed header at the head of every account blob.

use vstd::prelude::*;
use crate::bytes::{le_bytes, le_value, read_le, array_at, lemma_le_round_trip, lemma_le_bytes_len};
use crate::error::ProgramError;

verus! {

/// A 20-byte EVM address.
pub type Address = [u8; 20];

/// A 32-byte host account key.
pub type Pubkey = [u8; 32];

/// A 256-bit word: a storage key or value, big-endian.
pub type Word = [u8; 32];

/// The header: ether address, derivation bump, transaction count, funder key
/// and code length, little-endian where numeric.
#[derive(Debug, Clone, Copy, PartialEq, Eq)]
pub struct AccountData {
    pub ether: Address,
    pub nonce: u8,
    pub trx_count: u64,
    pub signer: Pubkey,
    pub code_size: u32,
}

/// The header's length in bytes.
pub const ACCOUNT_DATA_SIZE: usize = 65;

impl AccountData {
    /// The header's bytes.
    pub open spec fn spec_bytes(self) -> Seq<u8> {
        self.ether@ + seq![self.nonce] + le_bytes(self.trx_count as nat, 8) + self.signer@
            + le_bytes(self.code_size as nat, 4)
    }

    /// `self` is what the first bytes of `s` hold.
    pub open spec fn read_from(self, s: Seq<u8>) -> bool {
        &&& s.len() >= 65
        &&& self.ether@ == s.subrange(0, 20)
        &&& self.nonce == s[20]
        &&& self.trx_count as nat == le_value(s.subrange(21, 29))
        &&& self.signer@ == s.subrange(29, 61)
        &&& self.code_size as nat == le_value(s.subrange(61, 65))
    }

    /// Parses the header at the head of `input`, and gives the rest.
    pub fn unpack(input: &[u8]) -> (r: Result<(AccountData, &[u8]), ProgramError>)
        ensures
            input@.len() < 65 <==> r is Err,
            r is Err ==> r == Err::<(AccountData, &[u8]), _>(ProgramError::InvalidAccountData),
            r matches Ok((h, rest)) ==> h.read_from(input@) && rest@ == input@.subrange(
                65,
                input@.len() as int,
            ),
    {
        if input.len() < ACCOUNT_DATA_SIZE {
            return Err(ProgramError::InvalidAccountData);
        }
        let ether: [u8; 20] = array_at(input, 0);
        let nonce = input[20];
        let trx_count = read_le(input, 21, 8);
        let signer: [u8; 32] = array_at(input, 29);
        let code_size = read_le(input, 61, 4);
        proof {
            crate::bytes::lemma_le_value_bound(input@.subrange(61, 65));
            assert(crate::bytes::pow256(4) == 4294967296nat) by {
                reveal_with_fuel(crate::bytes::pow256, 5);
            }
        }
        let h = AccountData { ether, nonce, trx_count, signer, code_size: code_size as u32 };
        let rest = &input[65..input.len()];
        Ok((h, rest))
    }

    /// Writes the header at the head of `dst`; the bytes after it are kept.
    pub fn pack(&self, dst: &mut [u8]) -> (r: Result<(), ProgramError>)
        ensures
            old(dst)@.len() < 65 <==> r is Err,
            r is Err ==> r == Err::<(), _>(ProgramError::AccountDataTooSmall) && final(dst)@ == old(
                dst,
            )@,
            r is Ok ==> final(dst)@ == self.spec_bytes() + old(dst)@.subrange(
                65,
                old(dst)@.len() as int,
            ),
    {
        if dst.len() < ACCOUNT_DATA_SIZE {
            return Err(ProgramError::AccountDataTooSmall);
        }
        let mut bytes: Vec<u8> = Vec::new();
        crate::bytes::push_all(&mut bytes, &self.ether);
        bytes.push(self.nonce);
        crate::bytes::push_le(&mut bytes, self.trx_count, 8);
        crate::bytes::push_all(&mut bytes, &self.signer);
        crate::bytes::push_le(&mut bytes, self.code_size as u64, 4);
        proof {
            lemma_le_bytes_len(self.trx_count as nat, 8);
            lemma_le_bytes_len(self.code_size as nat, 4);
            assert(bytes@ =~= self.spec_bytes());
        }
        let len = dst.len();
        let mut i: usize = 0;
        while i < ACCOUNT_DATA_SIZE
            invariant
                i <= 65,
                len == dst@.len() == old(dst)@.len(),
                len >= 65,
                bytes@ == self.spec_bytes(),
                bytes@.len() == 65,
                forall|j: int| 0 <= j < i ==> dst@[j] == bytes@[j],
                forall|j: int| 65 <= j < len ==> dst@[j] == old(dst)@[j],
            decreases 65 - i,
        {
            dst[i] = bytes[i];
            i = i + 1;
        }
        assert(dst@ =~= self.spec_bytes() + old(dst)@.subrange(65, old(dst)@.len() as int));
        Ok(())
    }
}

/// Reading back a packed header gives the same header, whatever follows it.
pub proof fn lemma_pack_unpack(h: AccountData, tail: Seq<u8>)
    ensures
        h.read_from(h.spec_bytes() + tail),
        (h.spec_bytes() + tail).subrange(65, 65 + tail.len() as int) == tail,
        forall|g: AccountData| g.read_from(h.spec_bytes() + tail) ==> g == h,
{
    let s = h.spec_bytes() + tail;
    lemma_le_bytes_len(h.trx_count as nat, 8);
    lemma_le_bytes_len(h.code_size as nat, 4);
    assert(s.subrange(21, 29) =~= le_bytes(h.trx_count as nat, 8));
    assert(s.subrange(61, 65) =~= le_bytes(h.code_size as nat, 4));
    assert(crate::bytes::pow256(8) == 18446744073709551616nat) by {
        reveal_with_fuel(crate::bytes::pow256, 9);
    }
    assert(crate::bytes::pow256(4) == 4294967296nat) by {
        reveal_with_fuel(crate::bytes::pow256, 5);
    }
    lemma_le_round_trip(h.trx_count as nat, 8);
    lemma_le_round_trip(h.code_size as nat, 4);
    assert(s.subrange(0, 20) =~= h.ether@);
    assert(s.subrange(29, 61) =~= h.signer@);
    assert(s.subrange(65, 65 + tail.len() as int) =~= tail);
    assert forall|g: AccountData| g.read_from(s) implies g == h by {
        assert(g.ether =~= h.ether);
        assert(g.signer =~= h.signer);
    }
}

} // verus!
