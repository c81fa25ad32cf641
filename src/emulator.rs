//! The off-chain emulator's view of host accounts: it derives the host key
//! of each EVM address it meets, keeps the accounts the host had, remembers
//! those it lacked, and reports which accounts a real call will need.

use vstd::prelude::*;
use crate::account::SolidityAccount;
use crate::backend::{Apply, Basic, zero_word};
use crate::bytes::bytes_eq;
use crate::layout::{Address, Pubkey, Word};

verus! {

/// The program-derived key for `seed` under `program`.
pub uninterp spec fn pda_of(seed: Seq<u8>, program: Seq<u8>) -> Seq<u8>;

/// The key derived from `base`, the text `seed` and `owner`.
pub uninterp spec fn seeded_key(base: Seq<u8>, seed: Seq<char>, owner: Seq<u8>) -> Seq<u8>;

/// The base58 text of `bytes`.
pub uninterp spec fn base58(bytes: Seq<u8>) -> Seq<char>;

/// Relies on `solana_program::pubkey::Pubkey::try_find_program_address`: the
/// derived key for the one seed, which depends on the seed and the program
/// alone; `None` when no bump gives a key.
#[verifier::external_body]
fn find_program_address(seed: &Address, program_id: &Pubkey) -> (r: Option<(Pubkey, u8)>)
    ensures
        r matches Some((k, _)) ==> k@ == pda_of(seed@, program_id@),
{
    let program = solana_program::pubkey::Pubkey::new_from_array(*program_id);
    solana_program::pubkey::Pubkey::try_find_program_address(&[&seed[..]], &program)
        .map(|(k, bump)| (k.to_bytes(), bump))
}

/// The marker that program-derived keys end with, which an owner may not.
pub open spec fn pda_marker() -> Seq<u8> {
    seq![
        80u8, 114, 111, 103, 114, 97, 109, 68, 101, 114, 105, 118, 101, 100, 65, 100, 100, 114, 101, 115, 115
    ]
}

/// `owner` ends with the marker of program-derived keys.
pub open spec fn ends_with_marker(owner: Seq<u8>) -> bool {
    owner.len() >= 21 && owner.subrange(owner.len() - 21, owner.len() as int) == pda_marker()
}

/// A text of at most 32 ASCII characters.
pub open spec fn short_ascii(seed: Seq<char>) -> bool {
    seed.len() <= 32 && forall|i: int| 0 <= i < seed.len() ==> (seed[i] as u32) < 128
}

/// Relies on `solana_program::pubkey::Pubkey::create_with_seed`: the key
/// derived from base, seed and owner; it refuses only a seed over 32 bytes
/// and an owner that ends with the program-derived marker.
#[verifier::external_body]
fn create_with_seed(base: &Pubkey, seed: &str, owner: &Pubkey) -> (r: Option<Pubkey>)
    ensures
        r matches Some(k) ==> k@ == seeded_key(base@, seed@, owner@),
        short_ascii(seed@) && !ends_with_marker(owner@) ==> r is Some,
{
    let base = solana_program::pubkey::Pubkey::new_from_array(*base);
    let owner = solana_program::pubkey::Pubkey::new_from_array(*owner);
    solana_program::pubkey::Pubkey::create_with_seed(&base, seed, &owner).ok().map(|k| k.to_bytes())
}

/// Relies on `bs58::encode(..).into_string()`: the base58 text of the bytes.
#[verifier::external_body]
pub(crate) fn to_base58(data: &[u8]) -> (r: String)
    ensures
        r@ == base58(data@),
{
    bs58::encode(data).into_string()
}

/// The lower-case hex digit of `n`.
pub open spec fn hex_digit(n: u8) -> char {
    if n < 10 {
        (('0' as u8) + n) as char
    } else {
        (('a' as u8) + n - 10) as char
    }
}

/// Two lower-case hex digits per byte.
pub open spec fn hex_of(b: Seq<u8>) -> Seq<char>
    decreases b.len(),
{
    if b.len() == 0 {
        Seq::empty()
    } else {
        hex_of(b.drop_last()) + seq![hex_digit(b.last() / 16), hex_digit(b.last() % 16)]
    }
}

/// Relies on `hex::encode`: two lower-case hex digits for each byte.
#[verifier::external_body]
pub(crate) fn to_hex(data: &[u8]) -> (r: String)
    ensures
        r@ == hex_of(data@),
{
    hex::encode(data)
}

/// An account the emulator needs and the host lacks: by host key, or by
/// EVM address.
#[derive(Debug, Clone, Copy, PartialEq, Eq)]
pub enum Key {
    Solana { key: Pubkey },
    Solidity { address: Address },
}

/// An account the host had, as the emulator keeps it.
#[derive(Debug, Clone)]
pub struct SolanaAccount {
    pub address: Address,
    pub key: Pubkey,
    pub account: SolidityAccount,
    pub writable: bool,
}

impl SolanaAccount {
    pub fn new(address: Address, key: Pubkey, account: SolidityAccount) -> (r: SolanaAccount)
        ensures
            r.address == address && r.key == key && r.account == account && !r.writable,
    {
        SolanaAccount { address, key, account, writable: false }
    }
}

/// One line of the report: an account, its key, whether the call writes it
/// and whether it must be created first.
#[derive(Debug, Clone, PartialEq, Eq)]
pub struct AccountJSON {
    pub address: String,
    pub key: String,
    pub writable: bool,
    pub new: bool,
}

/// What the host sent holds a header and the code it announces.
pub open spec fn fetched_ok(fetched: Option<(Vec<u8>, u64)>) -> bool {
    match fetched {
        Some((d, _)) => d@.len() >= 65 && 65 + crate::bytes::le_value(d@.subrange(61, 65)) <= d@.len(),
        None => false,
    }
}

/// `acc` keeps, unwritten, what the host sent for `address` under `key`.
pub open spec fn kept_from(acc: SolanaAccount, address: Address, key: Pubkey, fetched: Option<(Vec<u8>, u64)>) -> bool {
    match fetched {
        Some((d, l)) => acc.address == address && acc.key == key && !acc.writable && acc.account.data
            == crate::account::Data::Emulator(d) && acc.account.lamports == l && acc.account.solana_address == key
            && acc.account.wf(),
        None => false,
    }
}

/// A staged change modifies the account of `a`.
pub open spec fn modifies(v: Apply, a: Seq<u8>) -> bool {
    match v {
        Apply::Modify { address, .. } => address@ == a,
        Apply::Delete { .. } => false,
    }
}

/// `n2` is `n` with `address` listed once as missing.
pub open spec fn missing_noted(n: Seq<Key>, n2: Seq<Key>, address: Address) -> bool {
    if (exists|i: int| 0 <= i < n.len() && n[i] == (Key::Solidity { address })) {
        n2 == n
    } else {
        n2 == n.push(Key::Solidity { address })
    }
}

/// `line` reports `k` as an account to create; an EVM address comes with
/// the host key it maps to (empty when none could be derived).
pub open spec fn reported_new(s: EmulatorAccountStorage, line: AccountJSON, k: Key) -> bool {
    &&& line.new && !line.writable
    &&& k matches Key::Solana { key } ==> line.address@.len() == 0 && line.key@ == base58(key@)
    &&& k matches Key::Solidity { address } ==> line.address@ == seq!['0', 'x'] + hex_of(address@)
        && (line.key@.len() == 0 || (address@ == s.contract_id@ ==> line.key@ == base58(pda_of(address@, s.program_id@)))
            && (address@ != s.contract_id@ ==> line.key@ == base58(seeded_key(s.base_account@, base58(address@), s.program_id@))))
        && (address@ != s.contract_id@ && short_ascii(base58(address@)) && !ends_with_marker(s.program_id@) ==> line.key@ == base58(
            seeded_key(s.base_account@, base58(address@), s.program_id@)))
}

/// `0x` and the hex digits of an address.
fn hex_address(a: &Address) -> (r: String)
    ensures
        r@ == seq!['0', 'x'] + hex_of(a@),
{
    let mut text = String::from_str("0x");
    proof {
        reveal_strlit("0x");
    }
    let hex = to_hex(a);
    text.append(hex.as_str());
    assert(text@ =~= seq!['0', 'x'] + hex_of(a@));
    text
}

/// The emulator's accounts.
pub struct EmulatorAccountStorage {
    pub accounts: Vec<SolanaAccount>,
    pub new_accounts: Vec<Key>,
    pub program_id: Pubkey,
    pub contract_id: Address,
    pub caller_id: Address,
    pub base_account: Pubkey,
    pub block_number: u64,
    pub block_timestamp: i64,
}

impl EmulatorAccountStorage {
    /// Addresses are kept once each.
    pub open spec fn wf(&self) -> bool {
        forall|i: int, j: int| 0 <= i < j < self.accounts@.len() ==> (#[trigger] self.accounts@[i]).address@ != (#[trigger] self.accounts@[j]).address@
    }

    /// Every kept account reads as an EVM account.
    pub open spec fn accounts_wf(&self) -> bool {
        forall|i: int| 0 <= i < self.accounts@.len() ==> (#[trigger] self.accounts@[i]).account.wf()
    }

    pub open spec fn known(&self, address: Seq<u8>) -> bool {
        exists|i: int| 0 <= i < self.accounts@.len() && (#[trigger] self.accounts@[i]).address@ == address
    }

    /// Starts with no accounts; the slot and time come from the host.
    pub fn new(
        base_account: Pubkey,
        program_id: Pubkey,
        contract_id: Address,
        caller_id: Address,
        block_number: u64,
        block_timestamp: i64,
    ) -> (r: EmulatorAccountStorage)
        ensures
            r.wf(),
            r.accounts_wf(),
            r.accounts@.len() == 0,
            r.new_accounts@.len() == 0,
            r.program_id == program_id && r.contract_id == contract_id && r.caller_id == caller_id
                && r.base_account == base_account && r.block_number == block_number && r.block_timestamp == block_timestamp,
    {
        EmulatorAccountStorage {
            accounts: Vec::new(),
            new_accounts: Vec::new(),
            program_id,
            contract_id,
            caller_id,
            base_account,
            block_number,
            block_timestamp,
        }
    }

    /// The host key of `address`: for the contract, derived from the
    /// program; for others, from the base key and the base58 address.
    pub fn get_account_solana_address(&self, address: &Address) -> (r: Option<Pubkey>)
        ensures
            address@ == self.contract_id@ ==> (r matches Some(k) ==> k@ == pda_of(address@, self.program_id@)),
            address@ != self.contract_id@ ==> (r matches Some(k) ==> k@ == seeded_key(self.base_account@, base58(address@), self.program_id@)),
            address@ != self.contract_id@ && short_ascii(base58(address@)) && !ends_with_marker(self.program_id@) ==> r is Some,
    {
        let is_contract = bytes_eq(address, &self.contract_id);
        proof {
            if address@ == self.contract_id@ {
                assert(*address =~= self.contract_id);
            }
        }
        if is_contract {
            match find_program_address(address, &self.program_id) {
                Some((k, _)) => Some(k),
                None => None,
            }
        } else {
            let seed = to_base58(address);
            create_with_seed(&self.base_account, seed.as_str(), &self.program_id)
        }
    }

    fn find(&self, address: &Address) -> (r: Option<usize>)
        ensures
            r is None <==> !self.known(address@),
            r matches Some(i) ==> i < self.accounts@.len() && self.accounts@[i as int].address@ == address@,
    {
        let mut i: usize = 0;
        while i < self.accounts.len()
            invariant
                i <= self.accounts@.len(),
                forall|j: int| 0 <= j < i ==> (#[trigger] self.accounts@[j]).address@ != address@,
            decreases self.accounts@.len() - i,
        {
            if bytes_eq(&self.accounts[i].address, address) {
                return Some(i);
            }
            i = i + 1;
        }
        None
    }

    /// Whether `address` must still be looked up on the host.
    pub fn needs_fetch(&self, address: &Address) -> (r: bool)
        ensures
            r == !self.known(address@),
    {
        self.find(address).is_none()
    }

    /// Records what the host had for `address`: `fetched` holds the data
    /// and balance of its account, or is `None` when the host lacked it, in
    /// which case the address is reported as one to create. Gives whether
    /// the account is there.
    pub fn create_acc_if_not_exists(&mut self, address: &Address, key: &Pubkey, fetched: Option<(Vec<u8>, u64)>) -> (r: bool)
        requires
            old(self).wf(),
        ensures
            final(self).wf(),
            old(self).known(address@) ==> r && *final(self) == *old(self),
            !old(self).known(address@) ==> (r <==> final(self).known(address@)),
            forall|a: Seq<u8>| old(self).known(a) ==> final(self).known(a),
            old(self).accounts_wf() ==> final(self).accounts_wf(),
            !old(self).known(address@) && fetched_ok(fetched) ==> r && final(self).new_accounts == old(self).new_accounts
                && final(self).accounts@.len() == old(self).accounts@.len() + 1 && final(self).accounts@.drop_last() == old(
                self,
            ).accounts@ && kept_from(final(self).accounts@.last(), *address, *key, fetched),
            !old(self).known(address@) && !fetched_ok(fetched) ==> !r && final(self).accounts == old(self).accounts
                && missing_noted(old(self).new_accounts@, final(self).new_accounts@, *address),
    {
        if self.find(address).is_some() {
            return true;
        }
        match fetched {
            Some((data, lamports)) => match SolidityAccount::new_emulator(*key, data, lamports) {
                Ok(account) => {
                    let ghost before = self.accounts@;
                    self.accounts.push(SolanaAccount::new(*address, *key, account));
                    proof {
                        assert(self.accounts@.drop_last() =~= before);
                        assert(self.accounts@[before.len() as int].address == *address);
                        assert forall|a: Seq<u8>| #[trigger] old(self).known(a) implies self.known(a) by {
                            let i = choose|i: int| 0 <= i < before.len() && (#[trigger] before[i]).address@ == a;
                            assert(self.accounts@[i] == before[i]);
                        }
                        assert forall|i: int, j: int| 0 <= i < j < self.accounts@.len() implies (#[trigger] self.accounts@[i]).address@ != (#[trigger] self.accounts@[j]).address@ by {
                            if j == before.len() {
                                assert(self.accounts@[i] == before[i]);
                            } else {
                                assert(self.accounts@[i] == before[i]);
                                assert(self.accounts@[j] == before[j]);
                            }
                        }
                    }
                    true
                },
                Err(_) => {
                    self.note_missing(*address);
                    false
                },
            },
            None => {
                self.note_missing(*address);
                false
            },
        }
    }

    /// Records `address` as one the host lacked, once.
    fn note_missing(&mut self, address: Address)
        ensures
            final(self).accounts == old(self).accounts,
            missing_noted(old(self).new_accounts@, final(self).new_accounts@, address),
            forall|x: Seq<u8>| old(self).known(x) == final(self).known(x),
    {
        let mut i: usize = 0;
        while i < self.new_accounts.len()
            invariant
                i <= self.new_accounts@.len(),
                forall|q: int| 0 <= q < i ==> self.new_accounts@[q] != (Key::Solidity { address }),
            decreases self.new_accounts@.len() - i,
        {
            match self.new_accounts[i] {
                Key::Solidity { address: a } => {
                    if bytes_eq(&a, &address) {
                        proof {
                            assert(a =~= address);
                        }
                        return;
                    }
                    proof {
                        if a == address {
                            assert(a@ == address@);
                        }
                    }
                },
                Key::Solana { .. } => {},
            }
            i = i + 1;
        }
        self.new_accounts.push(Key::Solidity { address });
    }

    /// Marks the accounts the staged effects modify as written.
    pub fn apply(&mut self, values: &Vec<Apply>)
        requires
            old(self).wf(),
        ensures
            final(self).wf(),
            final(self).accounts@.len() == old(self).accounts@.len(),
            final(self).new_accounts == old(self).new_accounts,
            forall|i: int| 0 <= i < old(self).accounts@.len() ==> (#[trigger] final(self).accounts@[i]).address == old(self).accounts@[i].address
                && (old(self).accounts@[i].writable ==> final(self).accounts@[i].writable),
            forall|i: int| 0 <= i < old(self).accounts@.len() ==> (#[trigger] final(self).accounts@[i]).account == old(self).accounts@[i].account,
            forall|i: int| 0 <= i < old(self).accounts@.len() ==> (#[trigger] final(self).accounts@[i]).key == old(self).accounts@[i].key,
            forall|i: int| 0 <= i < old(self).accounts@.len() ==> (#[trigger] final(self).accounts@[i]).writable == (old(self).accounts@[i].writable
                || exists|j: int| 0 <= j < values@.len() && modifies(#[trigger] values@[j], old(self).accounts@[i].address@)),
    {
        let mut j: usize = 0;
        while j < values.len()
            invariant
                j <= values@.len(),
                self.wf(),
                self.accounts@.len() == old(self).accounts@.len(),
                self.new_accounts == old(self).new_accounts,
                forall|i: int| 0 <= i < old(self).accounts@.len() ==> (#[trigger] self.accounts@[i]).address == old(self).accounts@[i].address
                    && (old(self).accounts@[i].writable ==> self.accounts@[i].writable),
                forall|i: int| 0 <= i < old(self).accounts@.len() ==> (#[trigger] self.accounts@[i]).account == old(self).accounts@[i].account,
                forall|i: int| 0 <= i < old(self).accounts@.len() ==> (#[trigger] self.accounts@[i]).key == old(self).accounts@[i].key,
                forall|i: int| 0 <= i < old(self).accounts@.len() ==> (#[trigger] self.accounts@[i]).writable == (old(self).accounts@[i].writable
                    || exists|q: int| 0 <= q < j && modifies(#[trigger] values@[q], old(self).accounts@[i].address@)),
            decreases values@.len() - j,
        {
            let ghost wb = self.accounts@;
            match &values[j] {
                Apply::Modify { address, .. } => {
                    match self.find(address) {
                        Some(i) => {
                            let ghost before = self.accounts@;
                            self.accounts[i].writable = true;
                            proof {
                                assert forall|q: int, r: int| 0 <= q < r < self.accounts@.len() implies (#[trigger] self.accounts@[q]).address@ != (#[trigger] self.accounts@[r]).address@ by {
                                    assert(self.accounts@[q].address == before[q].address);
                                    assert(self.accounts@[r].address == before[r].address);
                                }
                                assert forall|q: int| 0 <= q < old(self).accounts@.len() implies (#[trigger] self.accounts@[q]).account == old(self).accounts@[q].account by {
                                    assert(self.accounts@[q].account == before[q].account);
                                }
                                assert forall|q: int| 0 <= q < old(self).accounts@.len() implies (#[trigger] self.accounts@[q]).key == old(self).accounts@[q].key by {
                                    assert(self.accounts@[q].key == before[q].key);
                                }
                            }
                        },
                        None => {},
                    }
                },
                Apply::Delete { .. } => {},
            }
            proof {
                assert forall|i: int| 0 <= i < old(self).accounts@.len() implies (#[trigger] self.accounts@[i]).writable == (old(
                    self,
                ).accounts@[i].writable || exists|q: int| 0 <= q < j + 1 && modifies(#[trigger] values@[q], old(self).accounts@[i].address@)) by {
                    let ai = old(self).accounts@[i].address@;
                    assert(wb[i].address@ == ai);
                    if modifies(values@[j as int], ai) {
                        assert(self.accounts@[i].writable);
                    } else {
                        assert(self.accounts@[i].writable == wb[i].writable);
                        if exists|q: int| 0 <= q < j + 1 && modifies(#[trigger] values@[q], ai) {
                            let q = choose|q: int| 0 <= q < j + 1 && modifies(#[trigger] values@[q], ai);
                            assert(q < j);
                        }
                    }
                }
            }
            j = j + 1;
        }
    }

    /// The report: every account met, with its key and whether it is
    /// written, then every address the host lacked, marked new.
    pub fn get_used_accounts(&self) -> (r: Vec<AccountJSON>)
        ensures
            r@.len() == self.accounts@.len() + self.new_accounts@.len(),
            forall|i: int| 0 <= i < self.accounts@.len() ==> (#[trigger] r@[i]).writable == self.accounts@[i].writable && !r@[i].new
                && r@[i].address@ == seq!['0', 'x'] + hex_of(self.accounts@[i].address@) && r@[i].key@ == base58(self.accounts@[i].key@),
            forall|j: int| 0 <= j < self.new_accounts@.len() ==> reported_new(*self, #[trigger] r@[self.accounts@.len() + j], self.new_accounts@[j]),
    {
        let mut out: Vec<AccountJSON> = Vec::new();
        let mut i: usize = 0;
        while i < self.accounts.len()
            invariant
                i <= self.accounts@.len(),
                out@.len() == i,
                forall|q: int| 0 <= q < i ==> (#[trigger] out@[q]).writable == self.accounts@[q].writable && !out@[q].new
                    && out@[q].address@ == seq!['0', 'x'] + hex_of(self.accounts@[q].address@) && out@[q].key@ == base58(self.accounts@[q].key@),
            decreases self.accounts@.len() - i,
        {
            let a = &self.accounts[i];
            let address = hex_address(&a.address);
            out.push(AccountJSON { address, key: to_base58(&a.key), writable: a.writable, new: false });
            i = i + 1;
        }
        let mut j: usize = 0;
        while j < self.new_accounts.len()
            invariant
                j <= self.new_accounts@.len(),
                out@.len() == self.accounts@.len() + j,
                forall|q: int| 0 <= q < self.accounts@.len() ==> (#[trigger] out@[q]).writable == self.accounts@[q].writable && !out@[q].new
                    && out@[q].address@ == seq!['0', 'x'] + hex_of(self.accounts@[q].address@) && out@[q].key@ == base58(self.accounts@[q].key@),
                forall|q: int| 0 <= q < j ==> reported_new(*self, #[trigger] out@[self.accounts@.len() + q], self.new_accounts@[q]),
            decreases self.new_accounts@.len() - j,
        {
            match self.new_accounts[j] {
                Key::Solana { key } => {
                    out.push(AccountJSON { address: String::new(), key: to_base58(&key), writable: false, new: true });
                },
                Key::Solidity { address } => {
                    let key = match self.get_account_solana_address(&address) {
                        Some(k) => to_base58(&k),
                        None => {
                            let e = String::new();
                            assert(e@.len() == 0);
                            e
                        },
                    };
                    let text = hex_address(&address);
                    out.push(AccountJSON { address: text, key, writable: false, new: true });
                },
            }
            proof {
                assert(out@[self.accounts@.len() + j] == out@.last());
            }
            j = j + 1;
        }
        out
    }
}


impl EmulatorAccountStorage {
    /// The account of `address` is one the host had.
    pub fn account_exists(&self, address: &Address) -> (r: bool)
        ensures
            r == self.known(address@),
    {
        self.find(address).is_some()
    }

    /// The caller that started the emulated transaction.
    pub fn origin(&self) -> (r: Address)
        ensures
            r == self.caller_id,
    {
        self.caller_id
    }

    pub fn block_number(&self) -> (r: u64)
        ensures
            r == self.block_number,
    {
        self.block_number
    }

    pub fn block_timestamp(&self) -> (r: i64)
        ensures
            r == self.block_timestamp,
    {
        self.block_timestamp
    }

    /// Balance and nonce; zero for an account the host lacked.
    pub fn basic(&self, address: &Address) -> (r: Basic)
        ensures
            !self.known(address@) ==> r == (Basic { balance: 0, nonce: 0 }),
            self.known(address@) ==> (exists|i: int| 0 <= i < self.accounts@.len() && (#[trigger] self.accounts@[i]).address@ == address@
                && r.balance == self.accounts@[i].account.lamports && r.nonce == self.accounts@[i].account.account_data.trx_count),
    {
        match self.find(address) {
            None => Basic { balance: 0, nonce: 0 },
            Some(i) => Basic { balance: self.accounts[i].account.lamports, nonce: self.accounts[i].account.account_data.trx_count },
        }
    }

    /// The code; empty for an account the host lacked.
    pub fn code(&self, address: &Address) -> (r: Vec<u8>)
        requires
            self.accounts_wf(),
        ensures
            !self.known(address@) ==> r@ == Seq::<u8>::empty(),
            self.known(address@) ==> (exists|i: int| 0 <= i < self.accounts@.len() && (#[trigger] self.accounts@[i]).address@ == address@
                && r@ == self.accounts@[i].account.spec_code()),
    {
        let mut out: Vec<u8> = Vec::new();
        match self.find(address) {
            None => {},
            Some(i) => crate::bytes::push_all(&mut out, self.accounts[i].account.code_bytes()),
        }
        out
    }

    pub fn code_size(&self, address: &Address) -> (r: usize)
        requires
            self.accounts_wf(),
        ensures
            !self.known(address@) ==> r == 0,
            self.known(address@) ==> (exists|i: int| 0 <= i < self.accounts@.len() && (#[trigger] self.accounts@[i]).address@ == address@
                && r == self.accounts@[i].account.spec_code().len()),
    {
        match self.find(address) {
            None => 0,
            Some(i) => self.accounts[i].account.code_bytes().len(),
        }
    }

    /// Keccak-256 of the code; that of no bytes for an account the host lacked.
    pub fn code_hash(&self, address: &Address) -> (r: Word)
        requires
            self.accounts_wf(),
        ensures
            !self.known(address@) ==> r@ == crate::crypto::keccak256(Seq::empty()),
            self.known(address@) ==> (exists|i: int| 0 <= i < self.accounts@.len() && (#[trigger] self.accounts@[i]).address@ == address@
                && r@ == crate::crypto::keccak256(self.accounts@[i].account.spec_code())),
    {
        match self.find(address) {
            None => {
                let e: &[u8] = &[];
                assert(e@ =~= Seq::<u8>::empty());
                crate::crypto::code_hash_of(e)
            },
            Some(i) => crate::crypto::code_hash_of(self.accounts[i].account.code_bytes()),
        }
    }

    /// The value in a storage slot; zero when unknown or unset.
    pub fn storage(&self, address: &Address, index: &Word) -> (r: Word)
        requires
            self.accounts_wf(),
        ensures
            !self.known(address@) ==> r@ == zero_word(),
            self.known(address@) ==> (exists|i: int| 0 <= i < self.accounts@.len() && (#[trigger] self.accounts@[i]).address@ == address@
                && r@ == crate::backend::BackendAccount::Evm(self.accounts@[i].account).spec_storage_value(index@)),
    {
        match self.find(address) {
            None => {
                let z = [0u8; 32];
                assert(z@ =~= zero_word());
                z
            },
            Some(i) => {
                let a = &self.accounts[i].account;
                let r = match a.storage(index) {
                    Ok(Some(v)) => v,
                    _ => {
                        let z = [0u8; 32];
                        assert(z@ =~= zero_word());
                        z
                    },
                };
                r
            },
        }
    }
}

impl EmulatorAccountStorage {
    /// The derivation seeds (ether address and bump) of the kept account of
    /// `address`.
    fn seeds_of(&self, address: &Address) -> (r: Option<(Address, u8)>)
        ensures
            r is None <==> !self.known(address@),
            r matches Some((e, n)) ==> (exists|i: int| 0 <= i < self.accounts@.len() && (#[trigger] self.accounts@[i]).address@ == address@
                && e == self.accounts@[i].account.account_data.ether && n == self.accounts@[i].account.account_data.nonce),
    {
        match self.find(address) {
            None => None,
            Some(i) => Some((self.accounts[i].account.account_data.ether, self.accounts[i].account.account_data.nonce)),
        }
    }

    /// The derivation seeds of the contract's account, once fetched.
    pub fn get_contract_seeds(&self) -> (r: Option<(Address, u8)>)
        ensures
            r is None <==> !self.known(self.contract_id@),
            r matches Some((e, n)) ==> (exists|i: int| 0 <= i < self.accounts@.len() && (#[trigger] self.accounts@[i]).address@ == self.contract_id@
                && e == self.accounts@[i].account.account_data.ether && n == self.accounts@[i].account.account_data.nonce),
    {
        self.seeds_of(&self.contract_id)
    }

    /// The derivation seeds of the caller's account, once fetched.
    pub fn get_caller_seeds(&self) -> (r: Option<(Address, u8)>)
        ensures
            r is None <==> !self.known(self.caller_id@),
            r matches Some((e, n)) ==> (exists|i: int| 0 <= i < self.accounts@.len() && (#[trigger] self.accounts@[i]).address@ == self.caller_id@
                && e == self.accounts@[i].account.account_data.ether && n == self.accounts@[i].account.account_data.nonce),
    {
        self.seeds_of(&self.caller_id)
    }
}
} // verus!
