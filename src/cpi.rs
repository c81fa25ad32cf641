//! The call hook: a CALL to a reserved address asks the host to invoke
//! another program. Its input is
//! `program_id_len:u16 BE, program_id, accounts_len:u16 BE,
//! [needs_translate:u8, key (20 bytes if translated, else 32), is_signer:u8,
//! is_writable:u8]*, data_len:u16 BE, data`.

use vstd::prelude::*;
use crate::bytes::{array_at, push_all};
use crate::layout::{Address, Pubkey};

verus! {

/// The reserved address `0xff00…0000` whose calls go to the host.
pub open spec fn is_hook_address(a: Seq<u8>) -> bool {
    a.len() == 20 && a[0] == 0xff && forall|i: int| 1 <= i < 20 ==> a[i] == 0
}

/// Whether `address` is the reserved address of the call hook.
pub fn is_solana_address(address: &Address) -> (r: bool)
    ensures
        r == is_hook_address(address@),
{
    if address[0] != 0xff {
        return false;
    }
    let mut i: usize = 1;
    while i < 20
        invariant
            1 <= i <= 20,
            forall|j: int| 1 <= j < i ==> address@[j] == 0,
        decreases 20 - i,
    {
        if address[i] != 0 {
            return false;
        }
        i = i + 1;
    }
    true
}

/// An account named in a hook payload: a host key, or an EVM address to be
/// translated into the key of the account that represents it.
#[derive(Debug, Clone, Copy, PartialEq, Eq)]
pub enum CpiKey {
    Host(Pubkey),
    Ether(Address),
}

#[derive(Debug, Clone, Copy, PartialEq, Eq)]
pub struct CpiAccount {
    pub key: CpiKey,
    pub is_signer: bool,
    pub is_writable: bool,
}

/// A decoded hook payload.
#[derive(Debug, Clone, PartialEq, Eq)]
pub struct CpiPayload {
    pub program_id: Vec<u8>,
    pub accounts: Vec<CpiAccount>,
    pub data: Vec<u8>,
}

pub open spec fn be16(s: Seq<u8>, at: int) -> int {
    s[at] as int * 256 + s[at + 1] as int
}

/// The length of the account entry that starts at `at`.
pub open spec fn entry_len(s: Seq<u8>, at: int) -> int {
    if s[at] != 0 {
        23
    } else {
        35
    }
}

/// The account entry at `at`, read from `s` (which has room for it).
pub open spec fn entry_at(s: Seq<u8>, at: int, a: CpiAccount) -> bool {
    let n = entry_len(s, at);
    &&& n == 23 ==> (a.key matches CpiKey::Ether(e) && e@ == s.subrange(at + 1, at + 21))
    &&& n == 35 ==> (a.key matches CpiKey::Host(k) && k@ == s.subrange(at + 1, at + 33))
    &&& a.is_signer == (s[at + n - 2] != 0)
    &&& a.is_writable == (s[at + n - 1] != 0)
}

/// Where the entry after `count` entries from `at` starts, if they all fit.
pub open spec fn entries_end(s: Seq<u8>, at: int, count: nat) -> Option<int>
    decreases count,
{
    if count == 0 {
        Some(at)
    } else if at + 1 > s.len() || at + entry_len(s, at) > s.len() {
        None
    } else {
        entries_end(s, at + entry_len(s, at), (count - 1) as nat)
    }
}

/// The entries `accounts` are those of `s` from `at`.
pub open spec fn entries_from(s: Seq<u8>, at: int, accounts: Seq<CpiAccount>) -> bool
    decreases accounts.len(),
{
    if accounts.len() == 0 {
        true
    } else {
        entry_at(s, at, accounts[0]) && entries_from(
            s,
            at + entry_len(s, at),
            accounts.skip(1),
        )
    }
}

/// Where the account entries start.
pub open spec fn accounts_start(s: Seq<u8>) -> int {
    4 + be16(s, 0)
}

/// Whether `s` is a whole payload.
pub open spec fn payload_ok(s: Seq<u8>) -> bool {
    &&& s.len() >= 2
    &&& accounts_start(s) <= s.len()
    &&& entries_end(s, accounts_start(s), be16(s, accounts_start(s) - 2) as nat) matches Some(e)
        && e + 2 <= s.len() && e + 2 + be16(s, e) <= s.len()
}

proof fn lemma_entries_push(s: Seq<u8>, at: int, accounts: Seq<CpiAccount>, a: CpiAccount, end: int)
    requires
        entries_from(s, at, accounts),
        entries_end(s, at, accounts.len()) == Some(end),
        end + 1 <= s.len(),
        end + entry_len(s, end) <= s.len(),
        entry_at(s, end, a),
    ensures
        entries_from(s, at, accounts.push(a)),
        entries_end(s, at, accounts.len() + 1) == Some(end + entry_len(s, end)),
    decreases accounts.len(),
{
    if accounts.len() > 0 {
        let n = entry_len(s, at);
        assert(accounts.push(a).skip(1) =~= accounts.skip(1).push(a));
        lemma_entries_push(s, at + n, accounts.skip(1), a, end);
        assert(accounts.push(a)[0] == accounts[0]);
    } else {
        assert(end == at);
        assert(accounts.push(a).skip(1) =~= Seq::<CpiAccount>::empty());
        assert(accounts.push(a)[0] == a);
        assert(entries_end(s, at + entry_len(s, at), 0) == Some(at + entry_len(s, at)));
        assert(entries_from(s, at + entry_len(s, at), Seq::<CpiAccount>::empty()));
    }
}

fn read_be16(s: &[u8], at: usize) -> (r: usize)
    requires
        at + 2 <= s@.len(),
    ensures
        r == be16(s@, at as int),
        r < 65536,
{
    s[at] as usize * 256 + s[at + 1] as usize
}

/// `p` is the payload that the whole payload `s` holds.
pub open spec fn parsed(s: Seq<u8>, p: CpiPayload) -> bool {
    let start = accounts_start(s);
    let end = entries_end(s, start, p.accounts@.len()).unwrap();
    &&& payload_ok(s)
    &&& p.program_id@ == s.subrange(2, start - 2)
    &&& p.accounts@.len() == be16(s, start - 2)
    &&& entries_from(s, start, p.accounts@)
    &&& entries_end(s, start, p.accounts@.len()) is Some
    &&& p.data@ == s.subrange(end + 2, end + 2 + be16(s, end))
}

/// Decodes a hook payload; `None` when it is cut short.
pub fn parse_payload(input: &[u8]) -> (r: Option<CpiPayload>)
    ensures
        r is Some <==> payload_ok(input@),
        r matches Some(p) ==> parsed(input@, p),
        r matches Some(p) ==> {
            let s = input@;
            let start = accounts_start(s);
            let end = entries_end(s, start, p.accounts@.len()).unwrap();
            &&& p.program_id@ == s.subrange(2, start - 2)
            &&& p.accounts@.len() == be16(s, start - 2)
            &&& entries_from(s, start, p.accounts@)
            &&& entries_end(s, start, p.accounts@.len()) is Some
            &&& p.data@ == s.subrange(end + 2, end + 2 + be16(s, end))
        },
{
    let len = input.len();
    if len < 2 {
        return None;
    }
    let id_len = read_be16(input, 0);
    if id_len + 4 > len {
        return None;
    }
    let mut program_id: Vec<u8> = Vec::new();
    push_all(&mut program_id, &input[2..2 + id_len]);
    let count = read_be16(input, 2 + id_len);
    let start = 4 + id_len;
    let mut pos: usize = start;
    let mut accounts: Vec<CpiAccount> = Vec::new();
    let mut i: usize = 0;
    while i < count
        invariant
            len == input@.len(),
            start == accounts_start(input@),
            count == be16(input@, start - 2),
            start <= pos <= len,
            i <= count,
            accounts@.len() == i,
            entries_from(input@, start as int, accounts@),
            entries_end(input@, start as int, i as nat) == Some(pos as int),
            entries_end(input@, start as int, count as nat) == entries_end(
                input@,
                pos as int,
                (count - i) as nat,
            ),
        decreases count - i,
    {
        if pos >= len {
            return None;
        }
        let translate = input[pos] != 0;
        let n: usize = if translate { 23 } else { 35 };
        if n > len - pos {
            return None;
        }
        let key = if translate {
            let e: [u8; 20] = array_at(input, pos + 1);
            CpiKey::Ether(e)
        } else {
            let k: [u8; 32] = array_at(input, pos + 1);
            CpiKey::Host(k)
        };
        let a = CpiAccount { key, is_signer: input[pos + n - 2] != 0, is_writable: input[pos + n - 1] != 0 };
        proof {
            lemma_entries_push(input@, start as int, accounts@, a, pos as int);
        }
        accounts.push(a);
        pos = pos + n;
        i = i + 1;
    }
    if len - pos < 2 {
        return None;
    }
    let data_len = read_be16(input, pos);
    if data_len > len - pos - 2 {
        return None;
    }
    let mut data: Vec<u8> = Vec::new();
    push_all(&mut data, &input[pos + 2..pos + 2 + data_len]);
    Some(CpiPayload { program_id, accounts, data })
}

} // verus!
