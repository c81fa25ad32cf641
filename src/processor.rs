//! The program's instructions as the library runs them: writing code
//! chunks, setting up a new account's header, finalizing (running the
//! constructor) and calling a contract, plus the signature-check
//! instruction and the heap allocator's bookkeeping.

use vstd::prelude::*;
use crate::bytes::le_value;
use crate::error::ProgramError;
use crate::layout::{AccountData, Address, Pubkey, ACCOUNT_DATA_SIZE};
use crate::backend::{BackendAccount, HostAccount, SolanaBackend};
use crate::executor::Config;
use crate::exit::ExitReason;
use crate::instruction::{on_return, Instruction};
use crate::machine::{Machine, Runtime};
use crate::state::ExecutorState;

verus! {

/// `Write`: puts `bytes` at `offset` past the header; `AccountDataTooSmall`
/// when they do not fit.
pub fn do_write(data: &mut Vec<u8>, offset: u32, bytes: &[u8]) -> (r: Result<(), ProgramError>)
    ensures
        old(data)@.len() < offset + 65 + bytes@.len() <==> r is Err,
        r is Err ==> r == Err::<(), _>(ProgramError::AccountDataTooSmall) && final(data)@ == old(data)@,
        r is Ok ==> final(data)@ == old(data)@.subrange(0, offset + 65) + bytes@ + old(data)@.subrange(
            offset + 65 + bytes@.len(),
            old(data)@.len() as int,
        ),
{
    let len = data.len();
    let start = offset as usize;
    if len < ACCOUNT_DATA_SIZE || len - ACCOUNT_DATA_SIZE < start || len - ACCOUNT_DATA_SIZE - start < bytes.len() {
        return Err(ProgramError::AccountDataTooSmall);
    }
    crate::hamt::write_at(data, start + ACCOUNT_DATA_SIZE, bytes);
    Ok(())
}

/// `Finalize`: the code written so far, which follows the header as a
/// little-endian u64 length and the bytes; `InvalidAccountData` when the
/// account is shorter than that.
pub fn finalize_code(data: &[u8]) -> (r: Result<Vec<u8>, ProgramError>)
    ensures
        r is Err <==> data@.len() < 73 || 73 + le_value(data@.subrange(65, 73)) > data@.len(),
        r is Err ==> r == Err::<Vec<u8>, _>(ProgramError::InvalidAccountData),
        r matches Ok(code) ==> code@ == data@.subrange(73, 73 + le_value(data@.subrange(65, 73)) as int),
{
    let len = data.len();
    if len < 73 {
        return Err(ProgramError::InvalidAccountData);
    }
    let code_len = crate::bytes::read_le(data, 65, 8);
    if code_len > (len - 73) as u64 {
        return Err(ProgramError::InvalidAccountData);
    }
    let end = 73 + code_len as usize;
    let mut code: Vec<u8> = Vec::new();
    crate::bytes::push_all(&mut code, &data[73..end]);
    Ok(code)
}

/// The program-derived key for the seeds `ether` and `[bump]` under `program`.
pub uninterp spec fn pda_with_bump(ether: Seq<u8>, bump: u8, program: Seq<u8>) -> Seq<u8>;

/// Relies on `solana_program::pubkey::Pubkey::create_program_address`: the
/// key derived from the seeds and the program, which depends on them alone;
/// `None` when the seeds give a point on the curve.
#[verifier::external_body]
fn create_program_address(ether: &Address, bump: u8, program_id: &Pubkey) -> (r: Option<Pubkey>)
    ensures
        r matches Some(k) ==> k@ == pda_with_bump(ether@, bump, program_id@),
{
    let program = solana_program::pubkey::Pubkey::new_from_array(*program_id);
    solana_program::pubkey::Pubkey::create_program_address(&[&ether[..], &[bump]], &program).ok().map(|k| k.to_bytes())
}

/// `CreateAccount`: the new account's key must be the one derived from
/// `ether` and `nonce` under the program; `InvalidArgument` otherwise.
pub fn check_account_key(program_id: &Pubkey, ether: &Address, nonce: u8, key: &Pubkey) -> (r: Result<(), ProgramError>)
    ensures
        r is Ok ==> key@ == pda_with_bump(ether@, nonce, program_id@),
        r is Err ==> r == Err::<(), _>(ProgramError::InvalidArgument),
{
    match create_program_address(ether, nonce, program_id) {
        Some(expected) => {
            if crate::bytes::bytes_eq(&expected, key) {
                Ok(())
            } else {
                Err(ProgramError::InvalidArgument)
            }
        },
        None => Err(ProgramError::InvalidArgument),
    }
}

/// `CreateAccount`: the header of a new account for `ether`, funded by
/// `signer`, with no transactions and no code yet.
pub fn init_account(data: &mut [u8], ether: Address, nonce: u8, signer: Pubkey) -> (r: Result<(), ProgramError>)
    ensures
        old(data)@.len() < 65 <==> r is Err,
        r is Ok ==> (AccountData { ether, nonce, trx_count: 0, signer, code_size: 0 }).read_from(final(data)@),
        r is Ok ==> final(data)@.subrange(65, final(data)@.len() as int) == old(data)@.subrange(65, old(data)@.len() as int),
{
    let account_data = AccountData { ether, nonce, trx_count: 0, signer, code_size: 0 };
    let r = account_data.pack(data);
    proof {
        if r is Ok {
            crate::layout::lemma_pack_unpack(account_data, old(data)@.subrange(65, old(data)@.len() as int));
            crate::bytes::lemma_le_bytes_len(0, 8);
            crate::bytes::lemma_le_bytes_len(0, 4);
            assert(final(data)@.subrange(65, final(data)@.len() as int) =~= old(data)@.subrange(65, old(data)@.len() as int));
        }
    }
    r
}

/// Where the next block of `size` bytes aligned to `align` would start:
/// below the last one (or the heap's top), rounded down.
pub open spec fn alloc_at(h: BumpAllocator, size: usize, align: usize) -> usize {
    let pos = if h.pos == 0 { (h.start + h.length) as usize } else { h.pos };
    let below = if pos > size { (pos - size) as usize } else { 0usize };
    below & !((align - 1) as usize)
}

/// A heap that hands out memory from its top down and never frees.
#[derive(Debug, Clone, Copy)]
pub struct BumpAllocator {
    pub start: usize,
    pub length: usize,
    /// The lowest address handed out; 0 before the first allocation.
    pub pos: usize,
}

impl BumpAllocator {
    pub open spec fn wf(&self) -> bool {
        &&& self.start + self.length <= usize::MAX
        &&& self.length >= 8
        &&& self.pos == 0 || (self.start + 8 <= self.pos <= self.start + self.length)
    }

    /// The bytes handed out so far.
    pub fn occupied(&self) -> (r: usize)
        requires
            self.wf(),
        ensures
            self.pos == 0 ==> r == 0,
            self.pos != 0 ==> r == self.start + self.length - self.pos,
    {
        if self.pos == 0 {
            0
        } else {
            self.start + self.length - self.pos
        }
    }

    /// Hands out `size` bytes aligned down to `align` (a power of two), or
    /// `None` when they do not fit above the heap's first word.
    pub fn allocate(&mut self, size: usize, align: usize) -> (r: Option<usize>)
        requires
            old(self).wf(),
            align >= 1,
        ensures
            final(self).wf(),
            final(self).start == old(self).start && final(self).length == old(self).length,
            r is None ==> *final(self) == *old(self),
            r is None <==> alloc_at(*old(self), size, align) < old(self).start + 8,
            r matches Some(p) ==> p == alloc_at(*old(self), size, align),
            r matches Some(p) ==> p & ((align - 1) as usize) == 0,
            r matches Some(p) ==> p == final(self).pos && old(self).start + 8 <= p && p + size <= (if old(self).pos == 0 {
                old(self).start + old(self).length
            } else {
                old(self).pos as int
            }),
    {
        let top = self.start + self.length;
        let bottom = self.start + 8;
        let mut pos = if self.pos == 0 { top } else { self.pos };
        pos = if pos > size { pos - size } else { 0 };
        let mask = align - 1;
        let aligned = pos & !mask;
        assert(aligned <= pos) by (bit_vector)
            requires aligned == pos & !mask;
        assert(aligned & mask == 0) by (bit_vector)
            requires aligned == pos & !mask;
        if aligned < bottom {
            return None;
        }
        self.pos = aligned;
        Some(aligned)
    }

    /// Freeing is a no-op.
    pub fn deallocate(&self, _ptr: usize, _size: usize)
    {
    }
}

} // verus!

verus! {

/// What a call or a creation left: the backend with the effects written
/// back (on success), how the root frame ended, its return data, and the
/// `OnReturn` instruction that carries the data to the caller.
pub struct CallOutcome {
    /// The address the root frame was called or created by.
    pub caller: Address,
    /// The address the root frame ran at (the called contract, or the
    /// created one).
    pub contract: Address,
    pub backend: SolanaBackend,
    /// The host instructions the call hook asked for, committed with the
    /// other effects: none after a revert.
    pub invocations: Vec<Instruction>,
    pub exit_reason: ExitReason,
    pub result: Vec<u8>,
    pub on_return: Instruction,
}

/// Every account of `b` still holds the balance and bytes the host handed in.
pub open spec fn untouched(b: SolanaBackend, infos: Seq<HostAccount>) -> bool {
    forall|i: int| 0 <= i < infos.len() ==> (#[trigger] b.accounts@[i]).spec_lamports() == infos[i].lamports
        && b.accounts@[i].spec_key() == infos[i].key && (b.accounts@[i] matches BackendAccount::Evm(a) ==> a.data@ == infos[i].data@)
}

/// Runs the machine to the end and commits its effects on success.
fn finish<R: Runtime>(program_id: &Pubkey, machine: Machine<R>, reason: ExitReason, caller: Address, contract: Address) -> (r: Result<CallOutcome, ProgramError>)
    requires
        machine.wf(),
    ensures
        (reason is Error || reason is Fatal) ==> r == Err::<CallOutcome, _>(ProgramError::InvalidInstructionData),
        r matches Ok(o) ==> o.exit_reason == reason && o.on_return.data@ == seq![5u8] + o.result@
            && o.on_return.program_id == *program_id && o.caller == caller && o.contract == contract,
        r matches Ok(o) ==> o.backend.wf(),
        reason is Revert ==> (r matches Ok(o) && o.backend == machine.executor.state.spec_backend()
            && o.invocations@.len() == 0 && o.result@ == machine.result@),
        r matches Ok(o) ==> o.result@ == machine.result@,
        reason is Succeed && r is Ok ==> (r matches Ok(o) && o.invocations@ == crate::state::invokes_of(machine.executor.state.spec_effects())),
        reason is Succeed && r is Ok ==> (r matches Ok(o) && o.backend.aliases == machine.executor.state.spec_backend().aliases),
        r matches Ok(o) ==> o.backend.accounts@.len() == machine.executor.state.spec_backend().accounts@.len()
            && forall|i: int| 0 <= i < o.backend.accounts@.len() ==> (#[trigger] o.backend.accounts@[i]).spec_address()
                == machine.executor.state.spec_backend().accounts@[i].spec_address(),
        r matches Ok(o) ==> o.backend.origin == machine.executor.state.spec_backend().origin,
{
    match reason {
        ExitReason::Error(_) | ExitReason::Fatal(_) => {
            return Err(ProgramError::InvalidInstructionData);
        },
        _ => {},
    }
    let mut result: Vec<u8> = Vec::new();
    crate::bytes::push_all(&mut result, machine.result.as_slice());
    let state = machine.into_state();
    let succeed = reason.is_succeed();
    let (applies, logs) = state.deconstruct();
    let (mut backend, effects) = state.into_parts();
    let invocations = if succeed {
        crate::state::take_invocations(effects)
    } else {
        Vec::new()
    };
    if succeed {
        match backend.apply(&applies, &logs, false) {
            Ok(()) => {},
            Err(e) => {
                return Err(e);
            },
        }
    }
    let mut data: Vec<u8> = Vec::new();
    crate::bytes::push_all(&mut data, result.as_slice());
    let on_ret = match on_return(program_id, data) {
        Ok(ix) => ix,
        Err(e) => {
            return Err(ProgramError::InvalidArgument);
        },
    };
    Ok(CallOutcome { caller, contract, backend, invocations, exit_reason: reason, result, on_return: on_ret })
}

/// Runs a call of `contract` by `caller` on `input` over `backend`.
fn run_call<R: Runtime>(backend: SolanaBackend, caller: &Address, contract: &Address, input: &[u8]) -> (r: (Machine<R>, ExitReason))
    requires
        backend.wf(),
    ensures
        r.0.wf(),
        r.0.executor.state.spec_backend().accounts == backend.accounts,
{
    let mut machine: Machine<R> = Machine::new(ExecutorState::new(backend), Config::istanbul());
    let mut data: Vec<u8> = Vec::new();
    crate::bytes::push_all(&mut data, input);
    machine.call_begin(caller, contract, data, u64::MAX);
    let reason = machine.execute();
    (machine, reason)
}

/// `Call`: runs the contract of the first account, called by the second,
/// on `instruction_data`. Success commits the effects; a revert keeps them
/// out but is reported with its data; an error or fault fails the
/// instruction. At least five accounts are needed.
pub fn do_call<R: Runtime>(
    program_id: &Pubkey,
    accounts: &Vec<HostAccount>,
    instruction_data: &[u8],
    block_number: u64,
    block_timestamp: u64,
) -> (r: Result<CallOutcome, ProgramError>)
    ensures
        accounts@.len() < 5 ==> r == Err::<CallOutcome, _>(ProgramError::NotEnoughAccountKeys),
        r matches Ok(o) ==> (o.exit_reason is Succeed || o.exit_reason is Revert) && o.on_return.data@ == seq![5u8]
            + o.result@ && o.on_return.program_id == *program_id && o.backend.wf(),
        r matches Ok(o) ==> o.backend.accounts@.len() == accounts@.len() && o.caller@ == o.backend.accounts@[1].spec_address()
            && o.contract@ == o.backend.accounts@[0].spec_address(),
        r matches Ok(o) ==> (o.exit_reason is Revert ==> untouched(o.backend, accounts@) && o.invocations@.len() == 0),
        accounts@.len() >= 5 && !(forall|i: int| 0 <= i < accounts@.len() ==> #[trigger] crate::backend::parses(accounts@[i], *program_id))
            ==> r == Err::<CallOutcome, _>(ProgramError::InvalidAccountData),
{
    if accounts.len() < 5 {
        return Err(ProgramError::NotEnoughAccountKeys);
    }
    let mut backend = match SolanaBackend::new(program_id, accounts, block_number, block_timestamp, [0u8; 20]) {
        Ok(b) => b,
        Err(e) => {
            return Err(e);
        },
    };
    let contract = backend.get_address_by_index(0);
    let caller = backend.get_address_by_index(1);
    backend.origin = caller;
    let (machine, reason) = run_call::<R>(backend, &caller, &contract, instruction_data);
    finish(program_id, machine, reason, caller, contract)
}

/// `Finalize`: runs the code written into the first account as a
/// constructor, created by the second account with CREATE2 and the first
/// account's host key as salt, and commits its effects. The first account must belong to the program;
/// at least five accounts are needed.
pub fn do_finalize<R: Runtime>(
    program_id: &Pubkey,
    accounts: &Vec<HostAccount>,
    block_number: u64,
    block_timestamp: u64,
) -> (r: Result<CallOutcome, ProgramError>)
    ensures
        accounts@.len() < 5 ==> r == Err::<CallOutcome, _>(ProgramError::NotEnoughAccountKeys),
        accounts@.len() >= 5 && accounts@[0].owner != *program_id ==> r == Err::<CallOutcome, _>(ProgramError::InvalidArgument),
        accounts@.len() >= 5 && accounts@[0].owner == *program_id && (accounts@[0].data@.len() < 73 || 73 + crate::bytes::le_value(
            accounts@[0].data@.subrange(65, 73)) > accounts@[0].data@.len()) ==> r == Err::<CallOutcome, _>(ProgramError::InvalidAccountData),
        accounts@.len() >= 5 && accounts@[0].owner == *program_id && !(forall|i: int| 0 <= i < accounts@.len() ==> #[trigger] crate::backend::parses(accounts@[i], *program_id))
            ==> r == Err::<CallOutcome, _>(ProgramError::InvalidAccountData),
        r matches Ok(o) ==> o.exit_reason is Succeed && o.backend.wf(),
        r matches Ok(o) ==> o.caller@ == o.backend.accounts@[1].spec_address() && o.contract@ == crate::crypto::create2_address(
            o.caller@,
            accounts@[0].key@,
            crate::crypto::keccak256(accounts@[0].data@.subrange(73, 73 + crate::bytes::le_value(accounts@[0].data@.subrange(65, 73)) as int)),
        ),
{
    if accounts.len() < 5 {
        return Err(ProgramError::NotEnoughAccountKeys);
    }
    if !crate::bytes::bytes_eq(&accounts[0].owner, program_id) {
        return Err(ProgramError::InvalidArgument);
    }
    proof {
        assert(accounts@[0].owner =~= *program_id);
    }
    let code = match finalize_code(accounts[0].data.as_slice()) {
        Ok(c) => c,
        Err(e) => {
            return Err(e);
        },
    };
    let mut backend = match SolanaBackend::new(program_id, accounts, block_number, block_timestamp, [0u8; 20]) {
        Ok(b) => b,
        Err(e) => {
            return Err(e);
        },
    };
    let caller = backend.get_address_by_index(1);
    backend.origin = caller;
    let mut machine: Machine<R> = Machine::new(ExecutorState::new(backend), Config::istanbul());
    let salt = accounts[0].key;
    let contract = machine.create_begin(&caller, code, &salt);
    let reason = machine.execute();
    if !reason.is_succeed() {
        return Err(ProgramError::InvalidInstructionData);
    }
    finish(program_id, machine, reason, caller, contract)
}

/// Checks a raw transaction. Decoding and signature recovery are done by
/// the host; nothing is refused here.
pub fn check_tx(_raw_tx: &[u8]) -> (r: Result<(), ProgramError>)
    ensures
        r is Ok,
{
    Ok(())
}

/// The key of the host's signature-check program,
/// `KeccakSecp256k11111111111111111111111111111`.
pub open spec fn secp256k1_id() -> Seq<u8> {
    seq![
        4u8, 198, 252, 32, 240, 80, 204, 240, 85, 132, 215, 33, 28, 159, 140, 245, 158, 193, 71, 133, 187, 22, 106, 30,
        40, 48, 232, 18, 32, 0, 0, 0
    ]
}

/// Relies on `solana_program::secp256k1_program::id`: the key of the host's
/// signature-check program, declared there as the base58 text above.
#[verifier::external_body]
fn secp256k1_program_id() -> (r: Pubkey)
    ensures
        r@ == secp256k1_id(),
{
    solana_program::secp256k1_program::id().to_bytes()
}

/// The data of a signature-check instruction: a count of one, the eleven
/// bytes of offsets (u16 LE signature offset, u8 index, u16 LE address
/// offset, u8 index, u16 LE message offset, u16 LE message size, u8 index),
/// then the message, the signature and the address.
pub open spec fn secp256k1_data(message: Seq<u8>, sign: Seq<u8>, eth_addr: Seq<u8>) -> Seq<u8> {
    let sig_off = 12 + message.len();
    let addr_off = sig_off + sign.len();
    seq![1u8] + crate::bytes::le_bytes(sig_off, 2) + seq![0u8] + crate::bytes::le_bytes(addr_off, 2) + seq![0u8]
        + crate::bytes::le_bytes(12, 2) + crate::bytes::le_bytes(message.len(), 2) + seq![0u8] + message + sign + eth_addr
}

/// The instruction that asks the host to check `sign` over `message`
/// against `eth_addr`.
pub fn make_secp256k1_instruction(message: &[u8], sign: &[u8], eth_addr: &[u8]) -> (r: Instruction)
    requires
        12 + message@.len() + sign@.len() < 65536,
    ensures
        r.data@ == secp256k1_data(message@, sign@, eth_addr@),
        r.accounts@.len() == 0,
        r.program_id@ == secp256k1_id(),
{
    let sig_off = 12 + message.len();
    let addr_off = sig_off + sign.len();
    let mut data: Vec<u8> = Vec::new();
    data.push(1u8);
    crate::bytes::push_le(&mut data, sig_off as u64, 2);
    data.push(0u8);
    crate::bytes::push_le(&mut data, addr_off as u64, 2);
    data.push(0u8);
    crate::bytes::push_le(&mut data, 12, 2);
    crate::bytes::push_le(&mut data, message.len() as u64, 2);
    data.push(0u8);
    crate::bytes::push_all(&mut data, message);
    crate::bytes::push_all(&mut data, sign);
    crate::bytes::push_all(&mut data, eth_addr);
    assert(data@ =~= secp256k1_data(message@, sign@, eth_addr@));
    Instruction { program_id: secp256k1_program_id(), accounts: Vec::new(), data }
}

} // verus!
