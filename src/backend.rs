//! The accounts an execution may touch, indexed by EVM address, and the EVM
//! backend over them: reads, the commit of staged effects, and the call hook.

use vstd::prelude::*;
use crate::account::SolidityAccount;
use crate::bytes::{bytes_cmp, bytes_eq, lex_lt, lemma_lex_trans, lemma_lex_total};
use crate::cpi::{is_hook_address, is_solana_address, parse_payload, CpiKey};
use crate::crypto::{code_hash_of, keccak256};
use crate::error::ProgramError;
use crate::exit::{ExitError, ExitReason, ExitSucceed};
use crate::hamt::get;
use crate::instruction::{AccountMeta, Instruction, Log};
use crate::layout::{Address, Pubkey, Word};

verus! {

/// A host account handed to the program.
#[derive(Debug, Clone)]
pub struct HostAccount {
    pub key: Pubkey,
    pub owner: Pubkey,
    pub lamports: u64,
    pub data: Vec<u8>,
}

/// A host account reads as an account of the backend: one the program does
/// not own, or one whose bytes hold a header and the code it announces.
pub open spec fn parses(info: HostAccount, program_id: Pubkey) -> bool {
    info.owner != program_id || (info.data@.len() >= 65 && 65 + crate::bytes::le_value(info.data@.subrange(61, 65))
        <= info.data@.len())
}

/// An account of the backend: one this program owns and reads as an EVM
/// account, or a foreign one of which only the balance is known.
#[derive(Debug, Clone)]
pub enum BackendAccount {
    Evm(SolidityAccount),
    Foreign { key: Pubkey, lamports: u64 },
}

/// The EVM address a host key stands for: its last 20 bytes.
pub open spec fn address_of_key(key: Seq<u8>) -> Seq<u8> {
    key.subrange(12, 32)
}

/// The EVM address a host key stands for.
pub fn solidity_address(key: &Pubkey) -> (r: Address)
    ensures
        r@ == address_of_key(key@),
{
    crate::bytes::array_at(key, 12)
}

impl BackendAccount {
    pub open spec fn wf(&self) -> bool {
        match self {
            BackendAccount::Evm(a) => a.wf(),
            BackendAccount::Foreign { .. } => true,
        }
    }

    pub open spec fn spec_address(&self) -> Seq<u8> {
        match self {
            BackendAccount::Evm(a) => a.account_data.ether@,
            BackendAccount::Foreign { key, .. } => address_of_key(key@),
        }
    }

    pub open spec fn spec_key(&self) -> Pubkey {
        match self {
            BackendAccount::Evm(a) => a.solana_address,
            BackendAccount::Foreign { key, .. } => *key,
        }
    }

    pub open spec fn spec_lamports(&self) -> u64 {
        match self {
            BackendAccount::Evm(a) => a.lamports,
            BackendAccount::Foreign { lamports, .. } => *lamports,
        }
    }

    pub open spec fn spec_nonce(&self) -> u64 {
        match self {
            BackendAccount::Evm(a) => a.account_data.trx_count,
            BackendAccount::Foreign { .. } => 0,
        }
    }

    pub open spec fn spec_code(&self) -> Seq<u8> {
        match self {
            BackendAccount::Evm(a) => a.spec_code(),
            BackendAccount::Foreign { .. } => Seq::empty(),
        }
    }

    pub fn get_address(&self) -> (r: Address)
        ensures
            r@ == self.spec_address(),
    {
        match self {
            BackendAccount::Evm(a) => a.get_ether(),
            BackendAccount::Foreign { key, .. } => solidity_address(key),
        }
    }

    pub fn get_key(&self) -> (r: Pubkey)
        ensures
            r == self.spec_key(),
    {
        match self {
            BackendAccount::Evm(a) => a.solana_address,
            BackendAccount::Foreign { key, .. } => *key,
        }
    }
}

/// An EVM account's balance and nonce.
#[derive(Debug, Clone, Copy, PartialEq, Eq, Structural)]
pub struct Basic {
    pub balance: u64,
    pub nonce: u64,
}

/// How a contract address is chosen.
#[derive(Debug, Clone, Copy, PartialEq, Eq)]
pub enum CreateScheme {
    Legacy { caller: Address },
    Create2 { caller: Address, code_hash: Word, salt: Word },
    Fixed(Address),
}

/// One staged change to commit.
#[derive(Debug, Clone)]
pub enum Apply {
    Modify {
        address: Address,
        basic: Basic,
        code: Option<Vec<u8>>,
        storage: Vec<(Word, Word)>,
        reset_storage: bool,
    },
    Delete { address: Address },
}

/// What the call hook made of a call.
#[derive(Debug, Clone)]
pub enum CallHook {
    /// The call ends here with this reason and return data.
    Exit(ExitReason, Vec<u8>),
}

/// How the call hook answers `input`: `InvalidRange` with nothing recorded
/// when the payload is cut short, names a program id that is not a key or an
/// unknown EVM address; else `Stopped` with the instruction it asks for
/// recorded. The return data is empty either way.
pub open spec fn hook_answer(b: SolanaBackend, b2: SolanaBackend, input: Seq<u8>, r: Option<(ExitReason, Vec<u8>)>) -> bool {
    &&& r matches Some((_, d)) && d@.len() == 0
    &&& !crate::cpi::payload_ok(input) ==> r.unwrap().0 == ExitReason::Error(ExitError::InvalidRange) && b2.invocations == b.invocations
    &&& crate::cpi::payload_ok(input) ==> (exists|p: crate::cpi::CpiPayload|
        crate::cpi::parsed(input, p) && (b.unresolvable(p) ==> r.unwrap().0 == ExitReason::Error(ExitError::InvalidRange)
            && b2.invocations == b.invocations) && (!b.unresolvable(p) ==> r.unwrap().0 == ExitReason::Succeed(ExitSucceed::Stopped)
            && b2.invocations@.len() == b.invocations@.len() + 1 && b2.invocations@.drop_last() == b.invocations@
            && b.built_from(p, b2.invocations@.last())))
}

/// What the call hook makes of `input`: `InvalidRange` and no instruction
/// when the payload is cut short, names a program id that is not a key or
/// an unknown EVM address; else `Stopped` and the instruction it asks for.
pub open spec fn hook_result(b: SolanaBackend, input: Seq<u8>, r: (ExitReason, Option<Instruction>)) -> bool {
    &&& !crate::cpi::payload_ok(input) ==> r.0 == ExitReason::Error(ExitError::InvalidRange) && r.1 is None
    &&& crate::cpi::payload_ok(input) ==> (exists|p: crate::cpi::CpiPayload|
        crate::cpi::parsed(input, p) && (b.unresolvable(p) ==> r.0 == ExitReason::Error(ExitError::InvalidRange) && r.1 is None)
            && (!b.unresolvable(p) ==> r.0 == ExitReason::Succeed(ExitSucceed::Stopped) && (r.1 matches Some(ix)
            && b.built_from(p, ix))))
}

/// The aliases are ordered by address.
pub open spec fn sorted(al: Seq<(Address, usize)>) -> bool {
    forall|i: int, j: int|
        0 <= i < j < al.len() ==> al[i].0@ == al[j].0@ || lex_lt(#[trigger] al[i].0@, #[trigger] al[j].0@)
}

/// Where `addr` would stand in the ordered aliases.
fn lower_bound(al: &Vec<(Address, usize)>, addr: &Address) -> (r: usize)
    requires
        sorted(al@),
    ensures
        r <= al@.len(),
        forall|i: int| 0 <= i < r ==> lex_lt(#[trigger] al@[i].0@, addr@),
        forall|i: int| r <= i < al@.len() ==> !lex_lt(#[trigger] al@[i].0@, addr@),
{
    let mut lo: usize = 0;
    let mut hi: usize = al.len();
    while lo < hi
        invariant
            lo <= hi <= al@.len(),
            sorted(al@),
            forall|i: int| 0 <= i < lo ==> lex_lt(#[trigger] al@[i].0@, addr@),
            forall|i: int| hi <= i < al@.len() ==> !lex_lt(#[trigger] al@[i].0@, addr@),
        decreases hi - lo,
    {
        let mid = lo + (hi - lo) / 2;
        let c = bytes_cmp(&al[mid].0, addr);
        if c < 0 {
            proof {
                assert forall|i: int| 0 <= i <= mid implies lex_lt(#[trigger] al@[i].0@, addr@) by {
                    if i < mid {
                        assert(al@[i].0@ == al@[mid as int].0@ || lex_lt(al@[i].0@, al@[mid as int].0@));
                        if al@[i].0@ != al@[mid as int].0@ {
                            lemma_lex_trans(al@[i].0@, al@[mid as int].0@, addr@);
                        }
                    }
                }
            }
            lo = mid + 1;
        } else {
            proof {
                assert forall|i: int| mid <= i < al@.len() implies !lex_lt(#[trigger] al@[i].0@, addr@) by {
                    if i > mid {
                        assert(al@[mid as int].0@ == al@[i].0@ || lex_lt(al@[mid as int].0@, al@[i].0@));
                        if lex_lt(al@[i].0@, addr@) && al@[mid as int].0@ != al@[i].0@ {
                            lemma_lex_trans(al@[mid as int].0@, al@[i].0@, addr@);
                        }
                    }
                }
            }
            hi = mid;
        }
    }
    lo
}

/// The position of the first alias that names `a`.
pub open spec fn first_alias(al: Seq<(Address, usize)>, a: Seq<u8>) -> int {
    choose|j: int| 0 <= j < al.len() && al[j].0@ == a && forall|q: int| 0 <= q < j ==> (#[trigger] al[q]).0@ != a
}

/// The account position an address resolves to through the aliases: that
/// of the first alias naming it.
pub fn find_in(al: &Vec<(Address, usize)>, addr: &Address) -> (r: Option<usize>)
    requires
        sorted(al@),
    ensures
        r is None <==> forall|j: int| 0 <= j < al@.len() ==> (#[trigger] al@[j]).0@ != addr@,
        r matches Some(i) ==> exists|j: int| 0 <= j < al@.len() && (#[trigger] al@[j]).0@ == addr@ && al@[j].1 == i,
        r matches Some(i) ==> 0 <= first_alias(al@, addr@) < al@.len() && al@[first_alias(al@, addr@)].0@ == addr@
            && i == al@[first_alias(al@, addr@)].1,
{
    let lb = lower_bound(al, addr);
    if lb < al.len() && bytes_eq(&al[lb].0, addr) {
        assert(al@[lb as int].0@ == addr@);
        proof {
            assert forall|q: int| 0 <= q < lb implies (#[trigger] al@[q]).0@ != addr@ by {
                assert(lex_lt(al@[q].0@, addr@));
            }
            let j = first_alias(al@, addr@);
            assert(0 <= j < al@.len() && al@[j].0@ == addr@ && forall|q: int| 0 <= q < j ==> (#[trigger] al@[q]).0@ != addr@);
            if j < lb {
                assert(lex_lt(al@[j].0@, addr@));
            }
            if j > lb {
                assert(al@[lb as int].0@ != addr@);
            }
            assert(j == lb);
        }
        Some(al[lb].1)
    } else {
        proof {
            assert forall|j: int| 0 <= j < al@.len() implies (#[trigger] al@[j]).0@ != addr@ by {
                if j >= lb as int && al@[j].0@ == addr@ {
                    assert(al@[lb as int].0@ == al@[j].0@ || lex_lt(al@[lb as int].0@, al@[j].0@));
                }
            }
        }
        None
    }
}

/// Adds an alias where its address keeps the order; gives its position.
fn insert_alias(al: &mut Vec<(Address, usize)>, addr: Address, index: usize) -> (pos: usize)
    requires
        sorted(old(al)@),
    ensures
        sorted(final(al)@),
        pos <= old(al)@.len(),
        final(al)@ == old(al)@.insert(pos as int, (addr, index)),
{
    let pos = lower_bound(al, &addr);
    let ghost o = al@;
    al.insert(pos, (addr, index));
    proof {
        let n = al@;
        assert forall|i: int, j: int| 0 <= i < j < n.len() implies n[i].0@ == n[j].0@ || lex_lt(
            #[trigger] n[i].0@,
            #[trigger] n[j].0@,
        ) by {
            if j < pos {
                assert(o[i] == n[i] && o[j] == n[j]);
            } else if j == pos {
                assert(n[i] == o[i]);
            } else if i < pos {
                assert(n[i] == o[i] && n[j] == o[j - 1]);
                lemma_lex_total(o[j - 1].0@, addr@);
                if lex_lt(addr@, o[j - 1].0@) {
                    lemma_lex_trans(o[i].0@, addr@, o[j - 1].0@);
                }
            } else if i == pos {
                assert(n[j] == o[j - 1]);
                lemma_lex_total(o[j - 1].0@, addr@);
            } else {
                assert(n[i] == o[i - 1] && n[j] == o[j - 1]);
            }
        }
    }
    pos
}

} // verus!

verus! {

/// The backend: the accounts of one instruction, and the index from EVM
/// address to account.
pub struct SolanaBackend {
    pub accounts: Vec<BackendAccount>,
    pub aliases: Vec<(Address, usize)>,
    /// Host invocations the call hook asked for, in order.
    pub invocations: Vec<Instruction>,
    pub block_number: u64,
    pub block_timestamp: u64,
    pub origin: Address,
}

/// The zero word.
pub open spec fn zero_word() -> Seq<u8> {
    Seq::new(32, |i: int| 0u8)
}

impl SolanaBackend {
    pub open spec fn wf(&self) -> bool {
        &&& sorted(self.aliases@)
        &&& forall|j: int| 0 <= j < self.aliases@.len() ==> (#[trigger] self.aliases@[j]).1 < self.accounts@.len()
        &&& forall|i: int| 0 <= i < self.accounts@.len() ==> (#[trigger] self.accounts@[i]).wf()
    }

    /// Some alias names `addr`.
    pub open spec fn known(&self, addr: Seq<u8>) -> bool {
        exists|j: int| 0 <= j < self.aliases@.len() && (#[trigger] self.aliases@[j]).0@ == addr
    }

    /// The position of the account that `a` resolves to.
    pub open spec fn index_of(&self, a: Seq<u8>) -> int {
        self.aliases@[first_alias(self.aliases@, a)].1 as int
    }

    /// Balance and nonce as read: zero for an address that names no account.
    pub open spec fn spec_basic(&self, a: Seq<u8>) -> Basic {
        if !self.known(a) {
            Basic { balance: 0, nonce: 0 }
        } else {
            Basic {
                balance: self.accounts@[self.index_of(a)].spec_lamports(),
                nonce: self.accounts@[self.index_of(a)].spec_nonce(),
            }
        }
    }

    /// Code as read: none for an address that names no account.
    pub open spec fn spec_code_of(&self, a: Seq<u8>) -> Seq<u8> {
        if !self.known(a) {
            Seq::empty()
        } else {
            self.accounts@[self.index_of(a)].spec_code()
        }
    }

    /// Storage as read: zero for an address that names no account.
    pub open spec fn spec_storage_of(&self, a: Seq<u8>, k: Seq<u8>) -> Seq<u8> {
        if !self.known(a) {
            zero_word()
        } else {
            self.accounts@[self.index_of(a)].spec_storage_value(k)
        }
    }

    /// `addr` names the account at `i`.
    pub open spec fn resolves(&self, addr: Seq<u8>, i: int) -> bool {
        exists|j: int| 0 <= j < self.aliases@.len() && (#[trigger] self.aliases@[j]).0@ == addr && self.aliases@[j].1 == i
    }

    /// Builds the backend over the accounts of an instruction: those the
    /// program owns are read as EVM accounts, the others by balance alone.
    pub fn new(
        program_id: &Pubkey,
        infos: &Vec<HostAccount>,
        block_number: u64,
        block_timestamp: u64,
        origin: Address,
    ) -> (r: Result<SolanaBackend, ProgramError>)
        ensures
            r is Err ==> r == Err::<SolanaBackend, _>(ProgramError::InvalidAccountData),
            r is Ok <==> forall|i: int| 0 <= i < infos@.len() ==> #[trigger] parses(infos@[i], *program_id),
            r matches Ok(b) ==> {
                &&& b.wf()
                &&& b.accounts@.len() == infos@.len()
                &&& b.aliases@.len() == infos@.len()
                &&& b.invocations@.len() == 0
                &&& b.block_number == block_number
                &&& b.block_timestamp == block_timestamp
                &&& b.origin == origin
                &&& forall|i: int| 0 <= i < infos@.len() ==> (#[trigger] b.accounts@[i]).spec_key() == infos@[i].key
                    && b.accounts@[i].spec_lamports() == infos@[i].lamports
                    && ((b.accounts@[i] is Evm) <==> infos@[i].owner == *program_id)
                    && b.resolves(b.accounts@[i].spec_address(), i)
                    && (b.accounts@[i] matches BackendAccount::Evm(a) ==> a.data@ == infos@[i].data@)
            },
    {
        let mut accounts: Vec<BackendAccount> = Vec::new();
        let mut aliases: Vec<(Address, usize)> = Vec::new();
        let mut i: usize = 0;
        while i < infos.len()
            invariant
                i <= infos@.len(),
                accounts@.len() == i,
                aliases@.len() == i,
                forall|k: int| 0 <= k < i ==> #[trigger] parses(infos@[k], *program_id),
                sorted(aliases@),
                forall|j: int| 0 <= j < aliases@.len() ==> (#[trigger] aliases@[j]).1 < i,
                forall|k: int| 0 <= k < i ==> (#[trigger] accounts@[k]).wf() && accounts@[k].spec_key() == infos@[k].key
                    && accounts@[k].spec_lamports() == infos@[k].lamports
                    && ((accounts@[k] is Evm) <==> infos@[k].owner == *program_id)
                    && (accounts@[k] matches BackendAccount::Evm(a) ==> a.data@ == infos@[k].data@)
                    && exists|j: int| 0 <= j < aliases@.len() && (#[trigger] aliases@[j]).0@ == accounts@[k].spec_address() && aliases@[j].1 == k,
            decreases infos@.len() - i,
        {
            let info = &infos[i];
            let acc = if bytes_eq(&info.owner, program_id) {
                let mut data: Vec<u8> = Vec::new();
                crate::bytes::push_all(&mut data, info.data.as_slice());
                proof {
                    assert(info.owner =~= *program_id);
                }
                match SolidityAccount::new(info.key, data, info.lamports) {
                    Ok(a) => BackendAccount::Evm(a),
                    Err(e) => {
                        assert(!parses(infos@[i as int], *program_id));
                        return Err(e);
                    },
                }
            } else {
                BackendAccount::Foreign { key: info.key, lamports: info.lamports }
            };
            proof {
                if info.owner@ == program_id@ {
                    assert(info.owner =~= *program_id);
                }
            }
            let address = acc.get_address();
            let ghost old_al = aliases@;
            let ghost old_acc = accounts@;
            let ghost acc_g = acc;
            let pos = insert_alias(&mut aliases, address, i);
            accounts.push(acc);
            proof {
                assert(accounts@[i as int] == acc_g);
                assert forall|k: int| 0 <= k < i implies accounts@[k] == old_acc[k] by {}
                assert(acc_g.spec_key() == infos@[i as int].key);
                assert(acc_g.spec_lamports() == infos@[i as int].lamports);
                assert(acc_g matches BackendAccount::Evm(a) ==> a.data@ == infos@[i as int].data@);
                assert((acc_g is Evm) <==> infos@[i as int].owner == *program_id);
                assert forall|k: int| 0 <= k < i + 1 implies (#[trigger] accounts@[k]).wf() && accounts@[k].spec_key() == infos@[k].key
                    && accounts@[k].spec_lamports() == infos@[k].lamports
                    && ((accounts@[k] is Evm) <==> infos@[k].owner == *program_id)
                    && (accounts@[k] matches BackendAccount::Evm(a) ==> a.data@ == infos@[k].data@)
                    && exists|j: int| 0 <= j < aliases@.len() && (#[trigger] aliases@[j]).0@ == accounts@[k].spec_address() && aliases@[j].1 == k by {
                    if k < i {
                        let j0 = choose|j: int| 0 <= j < old_al.len() && (#[trigger] old_al[j]).0@ == accounts@[k].spec_address() && old_al[j].1 == k;
                        if j0 < pos {
                            assert(aliases@[j0] == old_al[j0]);
                        } else {
                            assert(aliases@[j0 + 1] == old_al[j0]);
                        }
                    } else {
                        assert(aliases@[pos as int] == (address, i));
                    }
                }
                assert forall|j: int| 0 <= j < aliases@.len() implies (#[trigger] aliases@[j]).1 < i + 1 by {
                    if j < pos {
                        assert(aliases@[j] == old_al[j]);
                    } else if j > pos {
                        assert(aliases@[j] == old_al[j - 1]);
                    }
                }
            }
            i = i + 1;
        }
        let b = SolanaBackend {
            accounts,
            aliases,
            invocations: Vec::new(),
            block_number,
            block_timestamp,
            origin,
        };
        proof {
            assert forall|k: int| 0 <= k < infos@.len() implies b.resolves(b.accounts@[k].spec_address(), k) by {
                let j = choose|j: int| 0 <= j < b.aliases@.len() && (#[trigger] b.aliases@[j]).0@ == b.accounts@[k].spec_address() && b.aliases@[j].1 == k;
            }
        }
        Ok(b)
    }

    pub fn get_address_by_index(&self, index: usize) -> (r: Address)
        requires
            index < self.accounts@.len(),
        ensures
            r@ == self.accounts@[index as int].spec_address(),
    {
        self.accounts[index].get_address()
    }

    /// The position of the account that `address` names.
    pub fn find_account(&self, address: &Address) -> (r: Option<usize>)
        requires
            self.wf(),
        ensures
            r is None <==> !self.known(address@),
            r matches Some(i) ==> self.resolves(address@, i as int) && i < self.accounts@.len() && i == self.index_of(address@),
    {
        let r = find_in(&self.aliases, address);
        proof {
            if r is None {
                if self.known(address@) {
                    let j = choose|j: int| 0 <= j < self.aliases@.len() && (#[trigger] self.aliases@[j]).0@ == address@;
                }
            }
        }
        r
    }

    /// Lets `address` name the account whose host key is `pubkey`, if there
    /// is one.
    pub fn add_alias(&mut self, address: &Address, pubkey: &Pubkey)
        requires
            old(self).wf(),
        ensures
            final(self).wf(),
            final(self).accounts == old(self).accounts,
            final(self).invocations == old(self).invocations,
            final(self).origin == old(self).origin,
            final(self).block_number == old(self).block_number,
            final(self).block_timestamp == old(self).block_timestamp,
            forall|a: Seq<u8>, i: int| old(self).resolves(a, i) ==> final(self).resolves(a, i),
            forall|i: int| 0 <= i < old(self).accounts@.len() && old(self).accounts@[i].spec_key() == *pubkey
                && (forall|q: int| 0 <= q < i ==> old(self).accounts@[q].spec_key() != *pubkey)
                ==> final(self).resolves(address@, i),
    {
        let mut i: usize = 0;
        while i < self.accounts.len()
            invariant
                *self == *old(self),
                old(self).wf(),
                i <= self.accounts@.len(),
                forall|q: int| 0 <= q < i ==> self.accounts@[q].spec_key() != *pubkey,
            decreases self.accounts@.len() - i,
        {
            let key = self.accounts[i].get_key();
            if bytes_eq(&key, pubkey) {
                proof {
                    assert(key =~= *pubkey);
                }
                let ghost old_al = self.aliases@;
                let pos = insert_alias(&mut self.aliases, *address, i);
                proof {
                    assert(self.aliases@[pos as int] == (*address, i));
                    assert forall|a: Seq<u8>, k: int| #[trigger] old(self).resolves(a, k) implies self.resolves(a, k) by {
                        let j0 = choose|j: int| 0 <= j < old_al.len() && (#[trigger] old_al[j]).0@ == a && old_al[j].1 == k;
                        if j0 < pos {
                            assert(self.aliases@[j0] == old_al[j0]);
                        } else {
                            assert(self.aliases@[j0 + 1] == old_al[j0]);
                        }
                    }
                    assert forall|j: int| 0 <= j < self.aliases@.len() implies (#[trigger] self.aliases@[j]).1 < self.accounts@.len() by {
                        if j < pos {
                            assert(self.aliases@[j] == old_al[j]);
                        } else if j > pos {
                            assert(self.aliases@[j] == old_al[j - 1]);
                        }
                    }
                }
                return;
            }
            proof {
                if key == *pubkey {
                    assert(key@ == pubkey@);
                }
            }
            i = i + 1;
        }
    }
}

} // verus!

verus! {

impl BackendAccount {
    /// The value an EVM read of storage slot `k` gives: zero where the
    /// account holds no trie or nothing under `k`.
    pub open spec fn spec_storage_value(&self, k: Seq<u8>) -> Seq<u8> {
        match self {
            BackendAccount::Evm(a) => if a.account_data.code_size != 0 && a.spec_storage().len()
                >= crate::hamt::HAMT_MIN && get(a.spec_storage(), k) is Some {
                get(a.spec_storage(), k).unwrap()
            } else {
                zero_word()
            },
            BackendAccount::Foreign { .. } => zero_word(),
        }
    }

    pub fn code_bytes(&self) -> (r: &[u8])
        requires
            self.wf(),
        ensures
            r@ == self.spec_code(),
    {
        match self {
            BackendAccount::Evm(a) => a.code_bytes(),
            BackendAccount::Foreign { .. } => {
                let e: &[u8] = &[];
                assert(e@ =~= Seq::<u8>::empty());
                e
            },
        }
    }

    pub fn storage_value(&self, index: &Word) -> (r: Word)
        requires
            self.wf(),
        ensures
            r@ == self.spec_storage_value(index@),
    {
        match self {
            BackendAccount::Evm(a) => match a.storage(index) {
                Ok(Some(v)) => v,
                _ => {
                    let z = [0u8; 32];
                    assert(z@ =~= zero_word());
                    z
                },
            },
            BackendAccount::Foreign { .. } => {
                let z = [0u8; 32];
                assert(z@ =~= zero_word());
                z
            },
        }
    }
}

impl SolanaBackend {
    pub fn account_exists(&self, address: &Address) -> (r: bool)
        requires
            self.wf(),
        ensures
            r == self.known(address@),
    {
        self.find_account(address).is_some()
    }

    /// Balance and nonce: zero for an address that names no account.
    pub fn basic(&self, address: &Address) -> (r: Basic)
        requires
            self.wf(),
        ensures
            r == self.spec_basic(address@),
            !self.known(address@) ==> r == (Basic { balance: 0, nonce: 0 }),
            self.known(address@) ==> (exists|i: int| self.resolves(address@, i) && 0 <= i < self.accounts@.len()
                && r.balance == self.accounts@[i].spec_lamports() && r.nonce == self.accounts@[i].spec_nonce()),
    {
        match self.find_account(address) {
            None => Basic { balance: 0, nonce: 0 },
            Some(i) => match &self.accounts[i] {
                BackendAccount::Evm(a) => Basic { balance: a.lamports, nonce: a.account_data.trx_count },
                BackendAccount::Foreign { lamports, .. } => Basic { balance: *lamports, nonce: 0 },
            },
        }
    }

    /// Keccak-256 of the code; that of no bytes for an unknown address.
    pub fn code_hash(&self, address: &Address) -> (r: Word)
        requires
            self.wf(),
        ensures
            r@ == keccak256(self.spec_code_of(address@)),
            !self.known(address@) ==> r@ == keccak256(Seq::empty()),
            self.known(address@) ==> (exists|i: int| self.resolves(address@, i) && 0 <= i < self.accounts@.len()
                && r@ == keccak256(self.accounts@[i].spec_code())),
    {
        match self.find_account(address) {
            None => {
                let e: &[u8] = &[];
                assert(e@ =~= Seq::<u8>::empty());
                code_hash_of(e)
            },
            Some(i) => code_hash_of(self.accounts[i].code_bytes()),
        }
    }

    pub fn code_size(&self, address: &Address) -> (r: usize)
        requires
            self.wf(),
        ensures
            r == self.spec_code_of(address@).len(),
            !self.known(address@) ==> r == 0,
            self.known(address@) ==> (exists|i: int| self.resolves(address@, i) && 0 <= i < self.accounts@.len()
                && r == self.accounts@[i].spec_code().len()),
    {
        match self.find_account(address) {
            None => 0,
            Some(i) => self.accounts[i].code_bytes().len(),
        }
    }

    pub fn code(&self, address: &Address) -> (r: Vec<u8>)
        requires
            self.wf(),
        ensures
            r@ == self.spec_code_of(address@),
            !self.known(address@) ==> r@ == Seq::<u8>::empty(),
            self.known(address@) ==> (exists|i: int| self.resolves(address@, i) && 0 <= i < self.accounts@.len()
                && r@ == self.accounts@[i].spec_code()),
    {
        let mut out: Vec<u8> = Vec::new();
        match self.find_account(address) {
            None => {},
            Some(i) => crate::bytes::push_all(&mut out, self.accounts[i].code_bytes()),
        }
        out
    }

    /// The value in storage slot `index`: zero when unknown or unset.
    pub fn storage(&self, address: &Address, index: &Word) -> (r: Word)
        requires
            self.wf(),
        ensures
            r@ == self.spec_storage_of(address@, index@),
            !self.known(address@) ==> r@ == zero_word(),
            self.known(address@) ==> (exists|i: int| self.resolves(address@, i) && 0 <= i < self.accounts@.len()
                && r@ == self.accounts@[i].spec_storage_value(index@)),
    {
        match self.find_account(address) {
            None => {
                let z = [0u8; 32];
                assert(z@ =~= zero_word());
                z
            },
            Some(i) => self.accounts[i].storage_value(index),
        }
    }

    pub fn origin(&self) -> (r: Address)
        ensures
            r == self.origin,
    {
        self.origin
    }

    pub fn block_number(&self) -> (r: u64)
        ensures
            r == self.block_number,
    {
        self.block_number
    }

    pub fn block_timestamp(&self) -> (r: u64)
        ensures
            r == self.block_timestamp,
    {
        self.block_timestamp
    }

    /// Block hashes are not known here: always zero.
    pub fn block_hash(&self, _number: u64) -> (r: Word)
        ensures
            r@ == zero_word(),
    {
        let z = [0u8; 32];
        assert(z@ =~= zero_word());
        z
    }

    pub fn block_coinbase(&self) -> (r: Address)
        ensures
            forall|i: int| 0 <= i < 20 ==> r@[i] == 0,
    {
        [0u8; 20]
    }

    pub fn gas_price(&self) -> (r: u64)
        ensures
            r == 0,
    {
        0
    }

    pub fn block_difficulty(&self) -> (r: u64)
        ensures
            r == 0,
    {
        0
    }

    pub fn block_gas_limit(&self) -> (r: u64)
        ensures
            r == 0,
    {
        0
    }

    pub fn chain_id(&self) -> (r: u64)
        ensures
            r == 0,
    {
        0
    }

    /// Registers a created address: under CREATE2 it names the account
    /// whose host key is the salt.
    pub fn create(&mut self, scheme: &CreateScheme, address: &Address)
        requires
            old(self).wf(),
        ensures
            final(self).wf(),
            final(self).accounts == old(self).accounts,
            final(self).invocations == old(self).invocations,
            forall|a: Seq<u8>, i: int| old(self).resolves(a, i) ==> final(self).resolves(a, i),
            scheme matches CreateScheme::Create2 { salt, .. } ==> forall|i: int|
                0 <= i < old(self).accounts@.len() && old(self).accounts@[i].spec_key() == salt && (forall|q: int|
                    0 <= q < i ==> old(self).accounts@[q].spec_key() != salt) ==> final(self).resolves(address@, i),
    {
        let key: Pubkey = match scheme {
            CreateScheme::Create2 { salt, .. } => *salt,
            _ => [0u8; 32],
        };
        self.add_alias(address, &key);
    }
}

} // verus!

verus! {

impl SolanaBackend {
    /// The payload names a program id that is not a key, or an EVM address
    /// that names no account.
    pub open spec fn unresolvable(&self, p: crate::cpi::CpiPayload) -> bool {
        p.program_id@.len() != 32 || exists|j: int| 0 <= j < p.accounts@.len()
            && ((#[trigger] p.accounts@[j]).key matches CpiKey::Ether(e) && !self.known(e@))
    }

    /// `ix` is the host instruction the payload asks for: the same program,
    /// data and flags, with each EVM address replaced by the key of the
    /// account it names.
    pub open spec fn built_from(&self, p: crate::cpi::CpiPayload, ix: Instruction) -> bool {
        &&& ix.program_id@ == p.program_id@
        &&& ix.data@ == p.data@
        &&& ix.accounts@.len() == p.accounts@.len()
        &&& forall|j: int| 0 <= j < p.accounts@.len() ==> #[trigger] ix.accounts@[j].is_signer == p.accounts@[j].is_signer
            && ix.accounts@[j].is_writable == p.accounts@[j].is_writable
            && (p.accounts@[j].key matches CpiKey::Host(k) ==> ix.accounts@[j].pubkey == k)
            && (p.accounts@[j].key matches CpiKey::Ether(e) ==> ix.accounts@[j].pubkey == self.accounts@[self.index_of(e@)].spec_key())
    }

    /// The host instruction a decoded hook payload asks for: EVM addresses
    /// are turned into the host keys of the accounts they name. `None` when
    /// the program id is not a key, or an address names no account.
    pub fn resolve_payload(&self, p: &crate::cpi::CpiPayload) -> (r: Option<Instruction>)
        requires
            self.wf(),
        ensures
            r is None <==> self.unresolvable(*p),
            r matches Some(ix) ==> self.built_from(*p, ix),
    {
        if p.program_id.len() != 32 {
            return None;
        }
        let program_id: [u8; 32] = crate::bytes::array_at(p.program_id.as_slice(), 0);
        assert(p.program_id@.subrange(0, 32) =~= p.program_id@);
        let mut metas: Vec<AccountMeta> = Vec::new();
        let mut j: usize = 0;
        while j < p.accounts.len()
            invariant
                self.wf(),
                j <= p.accounts@.len(),
                metas@.len() == j,
                forall|q: int| 0 <= q < p.accounts@.len() && q < j ==> !((#[trigger] p.accounts@[q]).key matches CpiKey::Ether(e) && !self.known(e@)),
                forall|q: int|
                0 <= q < j ==> #[trigger] metas@[q].is_signer == p.accounts@[q].is_signer
                    && metas@[q].is_writable == p.accounts@[q].is_writable && (p.accounts@[q].key matches CpiKey::Host(k) ==> metas@[q].pubkey == k)
                    && (p.accounts@[q].key matches CpiKey::Ether(e) ==> metas@[q].pubkey == self.accounts@[self.index_of(e@)].spec_key()),
            decreases p.accounts@.len() - j,
        {
            let a = p.accounts[j];
            let key = match a.key {
                CpiKey::Host(k) => k,
                CpiKey::Ether(e) => match self.find_account(&e) {
                    None => {
                        return None;
                    },
                    Some(i) => self.accounts[i].get_key(),
                },
            };
            metas.push(AccountMeta { pubkey: key, is_signer: a.is_signer, is_writable: a.is_writable });
            j = j + 1;
        }
        let mut data: Vec<u8> = Vec::new();
        crate::bytes::push_all(&mut data, p.data.as_slice());
        Some(Instruction { program_id, accounts: metas, data })
    }

    /// The call hook's answer: for the reserved address, how the call ends
    /// and the host instruction it asks for, if any; `None` for any other
    /// address.
    pub fn hook(&self, code_address: &Address, input: &[u8]) -> (r: Option<(ExitReason, Option<Instruction>)>)
        requires
            self.wf(),
        ensures
            !is_hook_address(code_address@) ==> r is None,
            is_hook_address(code_address@) ==> (r matches Some(x) && hook_result(*self, input@, x)),
    {
        if !is_solana_address(code_address) {
            return None;
        }
        let payload = match parse_payload(input) {
            None => {
                return Some((ExitReason::Error(ExitError::InvalidRange), None));
            },
            Some(p) => p,
        };
        match self.resolve_payload(&payload) {
            None => Some((ExitReason::Error(ExitError::InvalidRange), None)),
            Some(ix) => Some((ExitReason::Succeed(ExitSucceed::Stopped), Some(ix))),
        }
    }

    /// The call hook. A call to the reserved address decodes its input as a
    /// host instruction, records it for the host to invoke, and stops with
    /// success; a payload that is cut short or names an unknown address
    /// ends the call with `InvalidRange` and records nothing. Calls to other
    /// addresses are left to the interpreter (`None`).
    pub fn call_inner(&mut self, code_address: &Address, input: &[u8]) -> (r: Option<(ExitReason, Vec<u8>)>)
        requires
            old(self).wf(),
        ensures
            final(self).wf(),
            final(self).accounts == old(self).accounts,
            final(self).aliases == old(self).aliases,
            !is_hook_address(code_address@) ==> r is None && *final(self) == *old(self),
            final(self).origin == old(self).origin,
            final(self).block_number == old(self).block_number,
            final(self).block_timestamp == old(self).block_timestamp,
            is_hook_address(code_address@) ==> (r matches Some((reason, data)) && data@.len() == 0 && (
                reason == ExitReason::Succeed(ExitSucceed::Stopped) || reason == ExitReason::Error(ExitError::InvalidRange))),
            r matches Some((reason, _)) && reason == ExitReason::Error(ExitError::InvalidRange) ==> final(self).invocations == old(self).invocations,
            is_hook_address(code_address@) && crate::cpi::payload_ok(input@) ==> (exists|p: crate::cpi::CpiPayload|
                crate::cpi::parsed(input@, p) && (old(self).unresolvable(p) ==> (r matches Some((reason, d)) && reason == ExitReason::Error(ExitError::InvalidRange) && d@.len() == 0 && final(self).invocations == old(self).invocations))
                    && (!old(self).unresolvable(p) ==> (r matches Some((reason, d)) && reason == ExitReason::Succeed(ExitSucceed::Stopped) && d@.len() == 0
                        && final(self).invocations@.len() == old(self).invocations@.len() + 1
                        && final(self).invocations@.drop_last() == old(self).invocations@
                        && old(self).built_from(p, final(self).invocations@.last())))),
            r matches Some((reason, _)) && reason == ExitReason::Succeed(ExitSucceed::Stopped) ==> crate::cpi::payload_ok(input@)
                && final(self).invocations@.len() == old(self).invocations@.len() + 1
                && final(self).invocations@.subrange(0, old(self).invocations@.len() as int) == old(self).invocations@,
            is_hook_address(code_address@) && !crate::cpi::payload_ok(input@) ==> (r matches Some((reason, _)) && reason == ExitReason::Error(ExitError::InvalidRange)),
            is_hook_address(code_address@) ==> hook_answer(*old(self), *final(self), input@, r),
    {
        match self.hook(code_address, input) {
            None => None,
            Some((reason, None)) => Some((reason, Vec::new())),
            Some((reason, Some(ix))) => {
                let ghost before = self.invocations@;
                self.invocations.push(ix);
                assert(self.invocations@.subrange(0, before.len() as int) =~= before);
                assert(self.invocations@.drop_last() =~= before);
                Some((ExitReason::Succeed(ExitSucceed::Stopped), Vec::new()))
            },
        }
    }
}

} // verus!

verus! {

impl SolanaBackend {
    /// The staged change writes back the account at position `i`.
    pub open spec fn names_index(&self, a: Apply, i: int) -> bool {
        match a {
            Apply::Modify { address, .. } => !is_hook_address(address@) && self.known(address@) && self.index_of(address@) == i,
            Apply::Delete { .. } => false,
        }
    }

    /// The account a staged change is for is one of ours, or the change is
    /// for the hook address, or it is a deletion.
    pub open spec fn names_target(&self, a: Apply) -> bool {
        match a {
            Apply::Modify { address, .. } => is_hook_address(address@) || self.known(address@),
            Apply::Delete { .. } => true,
        }
    }

    /// Commits staged effects in order: each `Modify` writes back the account
    /// its address names (a foreign account takes the balance alone);
    /// `Delete` records nothing yet. The reserved hook address is skipped.
    /// Fails with `NotEnoughAccountKeys` on an address that names no
    /// account; an error leaves the effects before it written.
    #[verifier::rlimit(100)]
    pub fn apply(&mut self, values: &Vec<Apply>, _logs: &Vec<Log>, _delete_empty: bool) -> (r: Result<(), ProgramError>)
        requires
            old(self).wf(),
        ensures
            final(self).aliases == old(self).aliases,
            final(self).invocations == old(self).invocations,
            final(self).accounts@.len() == old(self).accounts@.len(),
            r is Ok ==> final(self).wf(),
            final(self).origin == old(self).origin,
            forall|i: int| 0 <= i < old(self).accounts@.len() ==> (#[trigger] final(self).accounts@[i]).spec_address() == old(self).accounts@[i].spec_address()
                && final(self).accounts@[i].spec_key() == old(self).accounts@[i].spec_key(),
            r is Ok ==> forall|j: int| 0 <= j < values@.len() ==> old(self).names_target(#[trigger] values@[j]),
            !(forall|j: int| 0 <= j < values@.len() ==> old(self).names_target(#[trigger] values@[j])) ==> r is Err,
            forall|i: int| 0 <= i < old(self).accounts@.len() && (forall|j: int| 0 <= j < values@.len() ==> !old(self).names_index(
                #[trigger] values@[j], i)) ==> #[trigger] final(self).accounts@[i] == old(self).accounts@[i],
            (forall|j: int| 0 <= j < values@.len() ==> old(self).names_target(#[trigger] values@[j])) ==> r != Err::<(), ProgramError>(
                ProgramError::NotEnoughAccountKeys),
            (forall|j: int| 0 <= j < values@.len() ==> (#[trigger] values@[j]) is Delete) ==> r is Ok && final(self).accounts == old(self).accounts,
    {
        let mut j: usize = 0;
        while j < values.len()
            invariant
                j <= values@.len(),
                self.wf(),
                self.aliases == old(self).aliases,
                self.invocations == old(self).invocations,
                self.accounts@.len() == old(self).accounts@.len(),
                forall|q: int| 0 <= q < j ==> old(self).names_target(#[trigger] values@[q]),
                (forall|q: int| 0 <= q < values@.len() ==> (#[trigger] values@[q]) is Delete) ==> self.accounts == old(self).accounts,
                self.origin == old(self).origin,
                forall|i: int| 0 <= i < old(self).accounts@.len() && (forall|q: int| 0 <= q < j ==> !old(self).names_index(
                    #[trigger] values@[q], i)) ==> #[trigger] self.accounts@[i] == old(self).accounts@[i],
                forall|i: int| 0 <= i < old(self).accounts@.len() ==> (#[trigger] self.accounts@[i]).spec_address() == old(self).accounts@[i].spec_address()
                    && self.accounts@[i].spec_key() == old(self).accounts@[i].spec_key(),
            decreases values@.len() - j,
        {
            match &values[j] {
                Apply::Modify { address, basic, code, storage, reset_storage } => {
                    if !is_solana_address(address) {
                        let i = match self.find_account(address) {
                            None => {
                                return Err(ProgramError::NotEnoughAccountKeys);
                            },
                            Some(i) => i,
                        };
                        let ghost before = self.accounts@;
                        let res = match &mut self.accounts[i] {
                            BackendAccount::Evm(a) => a.update(basic.nonce, basic.balance, code, storage, *reset_storage),
                            BackendAccount::Foreign { lamports, .. } => {
                                *lamports = basic.balance;
                                Ok(())
                            },
                        };
                        match res {
                            Ok(()) => {},
                            Err(e) => {
                                return Err(e);
                            },
                        }
                        proof {
                            assert forall|k: int| 0 <= k < self.accounts@.len() implies (#[trigger] self.accounts@[k]).wf() by {
                                if k != i {
                                    assert(self.accounts@[k] == before[k]);
                                }
                            }
                            assert forall|k: int| 0 <= k < old(self).accounts@.len() && (forall|q: int| 0 <= q < j + 1 ==> !old(self).names_index(
                                #[trigger] values@[q], k)) implies #[trigger] self.accounts@[k] == old(self).accounts@[k] by {
                                assert(old(self).names_index(values@[j as int], i as int));
                                if k != i {
                                    assert(self.accounts@[k] == before[k]);
                                }
                            }
                            assert forall|k: int| 0 <= k < old(self).accounts@.len() implies (#[trigger] self.accounts@[k]).spec_address()
                                == old(self).accounts@[k].spec_address() && self.accounts@[k].spec_key() == old(self).accounts@[k].spec_key() by {
                                if k != i {
                                    assert(self.accounts@[k] == before[k]);
                                }
                            }
                        }
                    }
                },
                Apply::Delete { .. } => {},
            }
            j = j + 1;
        }
        Ok(())
    }
}

} // verus!
