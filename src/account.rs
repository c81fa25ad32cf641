//! One host account seen as an EVM account: header, code and storage trie.

use vstd::prelude::*;
use crate::error::ProgramError;
use crate::hamt::{get, Hamt, HAMT_MIN, MAX_ARENA};
use crate::layout::{AccountData, Address, Pubkey, Word, ACCOUNT_DATA_SIZE};

verus! {

/// The bytes of a host account: those of a live account on chain, or a copy
/// fetched for emulation that is never written back.
#[derive(Debug, Clone)]
pub enum Data {
    Program(Vec<u8>),
    Emulator(Vec<u8>),
}

impl Data {
    pub open spec fn view(&self) -> Seq<u8> {
        match self {
            Data::Program(v) => v@,
            Data::Emulator(v) => v@,
        }
    }

    pub fn bytes(&self) -> (r: &Vec<u8>)
        ensures
            r@ == self@,
    {
        match self {
            Data::Program(v) => v,
            Data::Emulator(v) => v,
        }
    }

    /// Takes the bytes out, leaving none.
    fn take_bytes(&mut self) -> (r: Vec<u8>)
        ensures
            r@ == old(self)@,
            final(self)@ == Seq::<u8>::empty(),
            (*final(self) is Program) <==> (*old(self) is Program),
    {
        let mut out: Vec<u8> = Vec::new();
        match self {
            Data::Program(v) => core::mem::swap(v, &mut out),
            Data::Emulator(v) => core::mem::swap(v, &mut out),
        }
        out
    }

    /// Puts bytes back in.
    fn put_bytes(&mut self, b: Vec<u8>)
        ensures
            final(self)@ == b@,
            (*final(self) is Program) <==> (*old(self) is Program),
    {
        match self {
            Data::Program(v) => {
                *v = b;
            },
            Data::Emulator(v) => {
                *v = b;
            },
        }
    }
}

/// An EVM account over a host account.
#[derive(Debug, Clone)]
pub struct SolidityAccount {
    pub account_data: AccountData,
    pub solana_address: Pubkey,
    pub data: Data,
    pub lamports: u64,
    pub updated: bool,
}

/// The value bound to `k` after binding `items` in order over `base`.
pub open spec fn value_after(items: Seq<(Word, Word)>, k: Seq<u8>, base: Option<Seq<u8>>) -> Option<
    Seq<u8>,
>
    decreases items.len(),
{
    if items.len() == 0 {
        base
    } else if items.last().0@ == k {
        Some(items.last().1@)
    } else {
        value_after(items.drop_last(), k, base)
    }
}

/// The trie space `region` (emptied first when `fresh`) has room to bind `n`
/// items: each binding needs at most `PATH_ROOM` unused bytes.
pub open spec fn room_for(region: Seq<u8>, fresh: bool, n: nat) -> bool {
    &&& HAMT_MIN <= region.len() <= MAX_ARENA
    &&& fresh || crate::hamt::wf(region)
    &&& (if fresh { HAMT_MIN as int } else { crate::hamt::top_of(region) }) + n * crate::hamt::PATH_ROOM <= region.len()
}

/// The code length after an update that writes `code`, if any.
pub open spec fn code_size_after(old_size: u32, code: Option<Vec<u8>>) -> int {
    match code {
        Some(c) => c@.len() as int,
        None => old_size as int,
    }
}

/// The storage is emptied before the items are bound: on request, or
/// because the code is new.
pub open spec fn starts_empty(reset: bool, code: Option<Vec<u8>>) -> bool {
    reset || code is Some
}

/// The trie `st` holds the first `i` items bound in order over `base` (or
/// over nothing, with `reset`).
pub open spec fn holds_prefix(st: Seq<u8>, items: Seq<(Word, Word)>, i: int, reset: bool, base: Seq<u8>) -> bool {
    forall|k: Seq<u8>| k.len() == 32 ==> #[trigger] get(st, k) == value_after(
        items.subrange(0, i),
        k,
        if reset {
            None
        } else {
            get(base, k)
        },
    )
}

impl SolidityAccount {
    /// The header matches the blob, and the code fits in it.
    pub open spec fn wf(&self) -> bool {
        &&& self.account_data.read_from(self.data@)
        &&& 65 + self.account_data.code_size <= self.data@.len()
    }

    /// Where the storage trie starts.
    pub open spec fn storage_start(&self) -> int {
        65 + self.account_data.code_size
    }

    pub open spec fn spec_code(&self) -> Seq<u8> {
        self.data@.subrange(65, self.storage_start())
    }

    pub open spec fn spec_storage(&self) -> Seq<u8> {
        self.data@.subrange(self.storage_start(), self.data@.len() as int)
    }

    fn from_data(solana_address: Pubkey, data: Data, lamports: u64) -> (r: Result<Self, ProgramError>)
        ensures
            r is Ok <==> data@.len() >= 65 && 65 + crate::bytes::le_value(data@.subrange(61, 65))
                <= data@.len(),
            r is Err ==> r == Err::<Self, _>(ProgramError::InvalidAccountData),
            r matches Ok(a) ==> a.wf() && a.data == data && a.solana_address == solana_address
                && a.lamports == lamports && !a.updated,
    {
        let (account_data, _rest) = match AccountData::unpack(data.bytes().as_slice()) {
            Ok(x) => x,
            Err(e) => return Err(e),
        };
        if account_data.code_size as usize > data.bytes().len() - ACCOUNT_DATA_SIZE {
            return Err(ProgramError::InvalidAccountData);
        }
        Ok(SolidityAccount { account_data, solana_address, data, lamports, updated: false })
    }

    /// Views a live host account.
    pub fn new(solana_address: Pubkey, data: Vec<u8>, lamports: u64) -> (r: Result<Self, ProgramError>)
        ensures
            r is Ok <==> data@.len() >= 65 && 65 + crate::bytes::le_value(data@.subrange(61, 65))
                <= data@.len(),
            r is Err ==> r == Err::<Self, _>(ProgramError::InvalidAccountData),
            r matches Ok(a) ==> a.wf() && a.data == Data::Program(data) && a.solana_address
                == solana_address && a.lamports == lamports,
    {
        SolidityAccount::from_data(solana_address, Data::Program(data), lamports)
    }

    /// Views a copy of a host account, fetched for emulation.
    pub fn new_emulator(solana_address: Pubkey, data: Vec<u8>, lamports: u64) -> (r: Result<Self, ProgramError>)
        ensures
            r is Ok <==> data@.len() >= 65 && 65 + crate::bytes::le_value(data@.subrange(61, 65))
                <= data@.len(),
            r is Err ==> r == Err::<Self, _>(ProgramError::InvalidAccountData),
            r matches Ok(a) ==> a.wf() && a.data == Data::Emulator(data) && a.solana_address
                == solana_address && a.lamports == lamports,
    {
        SolidityAccount::from_data(solana_address, Data::Emulator(data), lamports)
    }

    pub fn get_ether(&self) -> (r: Address)
        ensures
            r == self.account_data.ether,
    {
        self.account_data.ether
    }

    pub fn get_nonce(&self) -> (r: u64)
        ensures
            r == self.account_data.trx_count,
    {
        self.account_data.trx_count
    }

    /// The account's code: `code_size` bytes after the header.
    pub fn code_bytes(&self) -> (r: &[u8])
        requires
            self.wf(),
        ensures
            r@ == self.spec_code(),
    {
        let blob = self.data.bytes().as_slice();
        let _len = blob.len();
        let end = ACCOUNT_DATA_SIZE + self.account_data.code_size as usize;
        &blob[ACCOUNT_DATA_SIZE..end]
    }

    /// Hands the account's code to `f`.
    pub fn code<U, F: FnOnce(&[u8]) -> U>(&self, f: F) -> (r: U)
        requires
            self.wf(),
            forall|s: &[u8]| s@ == self.spec_code() ==> f.requires((s,)),
        ensures
            exists|s: &[u8]| s@ == self.spec_code() && f.ensures((s,), r),
    {
        let c = self.code_bytes();
        f(c)
    }

    /// The value stored under `key`: an error when the account holds no code,
    /// or its storage space cannot hold a trie.
    pub fn storage(&self, key: &Word) -> (r: Result<Option<Word>, ProgramError>)
        requires
            self.wf(),
        ensures
            self.account_data.code_size == 0 <==> r == Err::<Option<Word>, _>(
                ProgramError::UninitializedAccount,
            ),
            self.account_data.code_size != 0 && self.spec_storage().len() < HAMT_MIN <==> r == Err::<
                Option<Word>,
                _,
            >(ProgramError::AccountDataTooSmall),
            r is Ok <==> self.account_data.code_size != 0 && self.spec_storage().len() >= HAMT_MIN,
            r matches Ok(v) ==> (v is None <==> get(self.spec_storage(), key@) is None) && (v matches Some(
                w,
            ) ==> get(self.spec_storage(), key@) == Some(w@)),
    {
        if self.account_data.code_size == 0 {
            return Err(ProgramError::UninitializedAccount);
        }
        let blob = self.data.bytes().as_slice();
        let _len = blob.len();
        let start = ACCOUNT_DATA_SIZE + self.account_data.code_size as usize;
        if blob.len() - start < HAMT_MIN {
            return Err(ProgramError::AccountDataTooSmall);
        }
        let tail = &blob[start..blob.len()];
        Ok(Hamt::find_in(tail, key))
    }

    /// Writes back an account: its balance, its transaction count, its code
    /// (only into an account that has none), then its storage (emptied first
    /// with `reset_storage`, or when the code is new) with `storage_items`
    /// bound in order. An error can leave the earlier steps written.
    pub fn update(
        &mut self,
        nonce: u64,
        lamports: u64,
        code: &Option<Vec<u8>>,
        storage_items: &Vec<(Word, Word)>,
        reset_storage: bool,
    ) -> (r: Result<(), ProgramError>)
        requires
            old(self).wf(),
        ensures
            code is None && old(self).account_data.code_size == 0 && (reset_storage || storage_items@.len() > 0)
                ==> final(self).data@.subrange(65, old(self).data@.len() as int) == old(self).data@.subrange(65, old(self).data@.len() as int),
            (code matches Some(c) ==> old(self).account_data.code_size == 0 && 0 < c@.len() && c@.len() <= u32::MAX && 65 + c@.len() <= old(self).data@.len())
                && ((reset_storage || code is Some || storage_items@.len() > 0) ==> code_size_after(old(self).account_data.code_size, *code) != 0
                && room_for(
                old(self).data@.subrange(65 + code_size_after(old(self).account_data.code_size, *code), old(self).data@.len() as int),
                starts_empty(reset_storage, *code),
                storage_items@.len(),
            )) ==> r is Ok,
            r != Err::<(), ProgramError>(ProgramError::NotEnoughAccountKeys),
            code is Some && old(self).account_data.code_size != 0 ==> r == Err::<(), _>(
                ProgramError::AccountAlreadyInitialized,
            ),
            code is Some && old(self).account_data.code_size != 0 ==> r == Err::<(), _>(ProgramError::AccountAlreadyInitialized)
                && final(self).data@ == old(self).data@,
            code is None && old(self).account_data.code_size == 0 && (reset_storage || storage_items@.len() > 0) ==> r
                == Err::<(), _>(ProgramError::UninitializedAccount),
            r == Err::<(), _>(ProgramError::OutOfStorage) ==> (reset_storage || code is Some || storage_items@.len() > 0),
            final(self).solana_address == old(self).solana_address,
            final(self).account_data.ether == old(self).account_data.ether,
            r is Ok ==> final(self).wf() && final(self).lamports == lamports
                && final(self).account_data.trx_count == nonce && final(self).account_data.ether
                == old(self).account_data.ether && final(self).account_data.nonce == old(
                self,
            ).account_data.nonce && final(self).account_data.signer == old(
                self,
            ).account_data.signer && final(self).data@.len() == old(self).data@.len(),
            r is Ok ==> (code matches Some(c) ==> final(self).account_data.code_size == c@.len()
                && final(self).spec_code() == c@),
            r is Ok && code is None ==> final(self).account_data.code_size == old(
                self,
            ).account_data.code_size && final(self).spec_code() == old(self).spec_code(),
            r is Ok && code is None && !reset_storage && storage_items@.len() == 0 ==> final(self).spec_storage()
                == old(self).data@.subrange(final(self).storage_start(), old(self).data@.len() as int),
            r is Ok && (reset_storage || code is Some || storage_items@.len() > 0) && (reset_storage || code is Some
                || crate::hamt::wf(old(self).data@.subrange(final(self).storage_start(), old(self).data@.len() as int)))
                ==> crate::hamt::wf(final(self).spec_storage()) && forall|k: Seq<u8>|
                k.len() == 32 ==> #[trigger] get(final(self).spec_storage(), k) == value_after(
                    storage_items@,
                    k,
                    if reset_storage || code is Some {
                        None
                    } else {
                        get(
                            old(self).data@.subrange(
                                final(self).storage_start(),
                                old(self).data@.len() as int,
                            ),
                            k,
                        )
                    },
                ),
            code is None && !reset_storage && storage_items@.len() == 0 ==> r is Ok,
            r == Err::<(), _>(ProgramError::OutOfStorage) && (reset_storage || code is Some || crate::hamt::wf(
                old(self).data@.subrange(final(self).storage_start(), old(self).data@.len() as int),
            )) ==> (exists|i: int| 0 <= i < storage_items@.len() && #[trigger] holds_prefix(
                final(self).spec_storage(),
                storage_items@,
                i,
                starts_empty(reset_storage, *code),
                old(self).data@.subrange(final(self).storage_start(), old(self).data@.len() as int),
            )),
    {
        let ghost d0 = self.data@;
        self.lamports = lamports;
        self.account_data.trx_count = nonce;
        let mut blob = self.data.take_bytes();
        match code {
            Some(c) => {
                if self.account_data.code_size != 0 {
                    self.data.put_bytes(blob);
                    return Err(ProgramError::AccountAlreadyInitialized);
                }
                let blen = blob.len();
                if c.len() > blen - ACCOUNT_DATA_SIZE || c.len() > 0xFFFF_FFFF {
                    self.data.put_bytes(blob);
                    return Err(ProgramError::AccountDataTooSmall);
                }
                self.account_data.code_size = c.len() as u32;
                crate::hamt::write_at(&mut blob, ACCOUNT_DATA_SIZE, c.as_slice());
            },
            None => {},
        }
        let ghost d1 = blob@;
        proof {
            assert(d1.len() == d0.len());
            assert(d1.len() >= 65);
        }
        let packed = self.account_data.pack(blob.as_mut_slice());
        match packed {
            Ok(()) => {},
            Err(e) => {
                self.data.put_bytes(blob);
                return Err(e);
            },
        }
        let ghost d2 = blob@;
        self.data.put_bytes(blob);
        proof {
            crate::layout::lemma_pack_unpack(self.account_data, d1.subrange(65, d1.len() as int));
            crate::bytes::lemma_le_bytes_len(self.account_data.trx_count as nat, 8);
            crate::bytes::lemma_le_bytes_len(self.account_data.code_size as nat, 4);
            assert(self.account_data.spec_bytes().len() == 65);
            assert(d2 =~= self.account_data.spec_bytes() + d1.subrange(65, d1.len() as int));
            assert(d2.subrange(65, d2.len() as int) =~= d1.subrange(65, d1.len() as int));
            assert(self.data@ == d2);
            let st = self.storage_start();
            assert(d2.subrange(st, d2.len() as int) =~= d0.subrange(st, d0.len() as int));
            assert(self.spec_code() =~= d1.subrange(65, st));
            if code is None {
                assert(d1 == d0);
            }
        }
        let wrote_code = code.is_some();
        if reset_storage || wrote_code || storage_items.len() > 0 {
            let ghost pre = *self;
            let fresh = reset_storage || wrote_code;
            proof {
                assert(self.account_data.code_size == code_size_after(old(self).account_data.code_size, *code));
                assert(pre.spec_storage() == old(self).data@.subrange(
                    65 + code_size_after(old(self).account_data.code_size, *code),
                    old(self).data@.len() as int,
                ));
                assert(fresh == starts_empty(reset_storage, *code));
            }
            let r = self.update_storage(storage_items, fresh);
            proof {
                let base = old(self).data@.subrange(self.storage_start(), old(self).data@.len() as int);
                assert((reset_storage || wrote_code) == starts_empty(reset_storage, *code));
                if r == Err::<(), _>(ProgramError::OutOfStorage) && (reset_storage || wrote_code || crate::hamt::wf(base)) {
                    assert(self.storage_start() == pre.storage_start());
                    assert(pre.spec_storage() == base);
                    let i = choose|i: int| 0 <= i < storage_items@.len() && #[trigger] holds_prefix(
                        self.spec_storage(),
                        storage_items@,
                        i,
                        fresh,
                        pre.spec_storage(),
                    );
                    assert(holds_prefix(self.spec_storage(), storage_items@, i, starts_empty(reset_storage, *code), base));
                }
            }
            return r;
        }
        Ok(())
    }

    /// Opens the storage trie (emptied first with `reset`) and binds
    /// `items` in order.
    pub fn update_storage(&mut self, items: &Vec<(Word, Word)>, reset: bool) -> (r: Result<(), ProgramError>)
        requires
            old(self).wf(),
        ensures
            final(self).solana_address == old(self).solana_address,
            final(self).account_data.ether == old(self).account_data.ether,
            r != Err::<(), ProgramError>(ProgramError::NotEnoughAccountKeys),
            r is Ok ==> final(self).wf() && final(self).account_data == old(self).account_data
                && final(self).lamports == old(self).lamports && final(self).data@.len() == old(
                self,
            ).data@.len() && final(self).spec_code() == old(self).spec_code(),
            old(self).account_data.code_size == 0 ==> r == Err::<(), _>(
                ProgramError::UninitializedAccount,
            ),
            r is Ok && (reset || crate::hamt::wf(old(self).spec_storage())) ==> crate::hamt::wf(
                final(self).spec_storage(),
            ) && forall|k: Seq<u8>|
                k.len() == 32 ==> #[trigger] get(final(self).spec_storage(), k) == value_after(
                    items@,
                    k,
                    if reset {
                        None
                    } else {
                        get(old(self).spec_storage(), k)
                    },
                ),
            old(self).account_data.code_size != 0 && room_for(old(self).spec_storage(), reset, items@.len()) ==> r is Ok,
            old(self).account_data.code_size == 0 ==> final(self).data@ == old(self).data@,
            r == Err::<(), _>(ProgramError::OutOfStorage) ==> final(self).account_data == old(self).account_data
                && final(self).data@.len() == old(self).data@.len() && final(self).spec_code() == old(self).spec_code(),
            r == Err::<(), _>(ProgramError::OutOfStorage) && (reset || crate::hamt::wf(old(self).spec_storage())) ==> (exists|i: int|
                0 <= i < items@.len() && #[trigger] holds_prefix(final(self).spec_storage(), items@, i, reset, old(self).spec_storage())),
    {
        let cs = self.account_data.code_size as usize;
        if cs == 0 {
            return Err(ProgramError::UninitializedAccount);
        }
        let ghost tail0 = self.spec_storage();
        let ghost d0 = self.data@;
        let mut blob = self.data.take_bytes();
        let blen = blob.len();
        let start = ACCOUNT_DATA_SIZE + cs;
        let tlen = blen - start;
        if tlen < HAMT_MIN {
            self.data.put_bytes(blob);
            return Err(ProgramError::AccountDataTooSmall);
        }
        if tlen > MAX_ARENA {
            self.data.put_bytes(blob);
            return Err(ProgramError::InvalidAccountData);
        }
        let tail = blob.split_off(start);
        assert(tail@ == tail0);
        let mut h = match Hamt::new(tail, reset) {
            Ok(h) => h,
            Err(e) => {
                self.data.put_bytes(blob);
                return Err(e);
            },
        };
        proof {
            assert(items@.subrange(0, 0) =~= Seq::<(Word, Word)>::empty());
        }
        let mut i: usize = 0;
        while i < items.len()
            invariant
                i <= items@.len(),
                self.account_data == old(self).account_data,
                self.lamports == old(self).lamports,
                cs == self.account_data.code_size,
                self.solana_address == old(self).solana_address,
                room_for(tail0, reset, items@.len()) ==> crate::hamt::top_of(h.data@) <= (if reset {
                    HAMT_MIN as int
                } else {
                    crate::hamt::top_of(tail0)
                }) + i * crate::hamt::PATH_ROOM,
                cs != 0,
                start == 65 + cs,
                start <= d0.len(),
                d0 == old(self).data@,
                tail0 == d0.subrange(start as int, d0.len() as int),
                (*self).data@ == Seq::<u8>::empty(),
                ((*self).data is Program) <==> ((*old(self)).data is Program),
                h.valid(),
                h.data@.len() == tail0.len(),
                blob@ == d0.subrange(0, start as int),
                (reset || crate::hamt::wf(tail0)) ==> h.wf() && forall|k: Seq<u8>|
                    k.len() == 32 ==> #[trigger] h.spec_get(k) == value_after(
                        items@.subrange(0, i as int),
                        k,
                        if reset {
                            None
                        } else {
                            get(tail0, k)
                        },
                    ),
            decreases items@.len() - i,
        {
            let ghost before = h.data@;
            let ghost hb = h;
            let item = &items[i];
            match h.insert(&item.0, &item.1) {
                Ok(()) => {},
                Err(e) => {
                    let ghost hd = h.data@;
                    let ghost hh = h;
                    blob.append(&mut h.data);
                    self.data.put_bytes(blob);
                    proof {
                        assert(hd == before);
                        assert(self.data@.subrange(start as int, self.data@.len() as int) =~= hd);
                        assert(self.data@.subrange(0, 65) =~= d0.subrange(0, 65));
                        assert(self.data@.subrange(61, 65) =~= d0.subrange(61, 65));
                        assert(self.data@.subrange(21, 29) =~= d0.subrange(21, 29));
                        assert(self.data@.subrange(0, 20) =~= d0.subrange(0, 20));
                        assert(self.data@.subrange(29, 61) =~= d0.subrange(29, 61));
                        assert(self.data@.subrange(65, start as int) =~= d0.subrange(65, start as int));
                        assert(self.spec_storage() == hd);
                        if reset || crate::hamt::wf(tail0) {
                            assert forall|k: Seq<u8>| k.len() == 32 implies #[trigger] get(self.spec_storage(), k) == value_after(
                                items@.subrange(0, i as int),
                                k,
                                if reset {
                                    None
                                } else {
                                    get(tail0, k)
                                },
                            ) by {
                                assert(hb.spec_get(k) == get(hd, k));
                            }
                            assert(holds_prefix(self.spec_storage(), items@, i as int, reset, tail0));
                        }
                    }
                    return Err(e);
                },
            }
            proof {
                let its = items@.subrange(0, i + 1);
                assert(its.drop_last() =~= items@.subrange(0, i as int));
                assert(its.last() == items@[i as int]);
                if reset || crate::hamt::wf(tail0) {
                    assert forall|k: Seq<u8>| k.len() == 32 implies #[trigger] h.spec_get(k)
                        == value_after(
                        its,
                        k,
                        if reset {
                            None
                        } else {
                            get(tail0, k)
                        },
                    ) by {
                        assert(h.spec_get(k) == (if k == item.0@ {
                            Some(item.1@)
                        } else {
                            get(before, k)
                        }));
                    }
                }
            }
            i = i + 1;
        }
        proof {
            assert(items@.subrange(0, i as int) =~= items@);
        }
        let ghost hd = h.data@;
        let ghost hh = h;
        blob.append(&mut h.data);
        self.data.put_bytes(blob);
        proof {
            assert(self.data@.subrange(start as int, self.data@.len() as int) =~= hd);
            assert(hd == hh.data@);
            assert(self.spec_storage() == hd);
            if reset || crate::hamt::wf(tail0) {
                assert forall|k: Seq<u8>| k.len() == 32 implies #[trigger] get(self.spec_storage(), k)
                    == value_after(
                    items@,
                    k,
                    if reset {
                        None
                    } else {
                        get(tail0, k)
                    },
                ) by {
                    assert(hh.spec_get(k) == get(hd, k));
                }
            }
            assert(self.data@.subrange(0, 65) =~= d0.subrange(0, 65));
            assert(self.data@.subrange(61, 65) =~= d0.subrange(61, 65));
            assert(self.data@.subrange(21, 29) =~= d0.subrange(21, 29));
            assert(self.data@.subrange(0, 20) =~= d0.subrange(0, 20));
            assert(self.data@.subrange(29, 61) =~= d0.subrange(29, 61));
            assert(self.data@.subrange(65, start as int) =~= d0.subrange(65, start as int));
        }
        Ok(())
    }
}

} // verus!
