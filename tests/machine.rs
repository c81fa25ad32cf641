use evm_loader::backend::{CreateScheme, HostAccount, SolanaBackend};
use evm_loader::crypto::{code_hash_of, create2_address_of};
use evm_loader::exit::{ExitError, ExitReason, ExitRevert, ExitSucceed};
use evm_loader::executor::{Config, Context, CreateCapture, Executor};
use evm_loader::layout::{AccountData, Address};
use evm_loader::machine::{Machine, Runtime, StepOutcome};
use evm_loader::state::ExecutorState;
use evm_loader::account::SolidityAccount;
use evm_loader::error::ProgramError;
use evm_loader::processor::{check_tx, do_call, do_finalize, make_secp256k1_instruction};

const PROGRAM: [u8; 32] = [0xEE; 32];

/// A tiny test interpreter over byte programs:
/// 0x00 stop; 0xF3 k: return [k]; 0xF4: return what the last call gave;
/// 0x55 i v: store [v;32] under [i;32]; 0xF1 a: call the account [a;20];
/// 0xFD: revert; 0xFF a: self-destruct to [a;20]; 0xF5 s: create2 with salt [s;32] and the rest as code.
struct Script {
    code: Vec<u8>,
    pc: usize,
    context: Context,
    ret: Vec<u8>,
    last_call: Vec<u8>,
    steps: usize,
    created: Option<Address>,
}

impl Runtime for Script {
    fn new(code: Vec<u8>, _input: Vec<u8>, context: Context) -> Self {
        Script { code, pc: 0, context, ret: vec![], last_call: vec![], steps: 0, created: None }
    }

    fn step(&mut self, _executor: &Executor) -> StepOutcome {
        self.steps += 1;
        if self.pc >= self.code.len() {
            return StepOutcome::Exit(ExitReason::Succeed(ExitSucceed::Stopped));
        }
        let op = self.code[self.pc];
        match op {
            0x00 => StepOutcome::Exit(ExitReason::Succeed(ExitSucceed::Stopped)),
            0xF3 => {
                self.ret = vec![self.code[self.pc + 1]];
                StepOutcome::Exit(ExitReason::Succeed(ExitSucceed::Returned))
            }
            0xF4 => {
                self.ret = self.last_call.clone();
                StepOutcome::Exit(ExitReason::Succeed(ExitSucceed::Returned))
            }
            0x55 => {
                let i = self.code[self.pc + 1];
                let v = self.code[self.pc + 2];
                self.pc += 3;
                StepOutcome::SetStorage { address: self.context.address, index: [i; 32], value: [v; 32] }
            }
            0xF1 => {
                let a = [self.code[self.pc + 1]; 20];
                self.pc += 2;
                StepOutcome::Call {
                    code_address: a,
                    transfer: None,
                    input: vec![],
                    context: Context { address: a, caller: self.context.address, apparent_value: 0 },
                }
            }
            0xF5 => {
                let salt = [self.code[self.pc + 1]; 32];
                let init_code = self.code[self.pc + 2..].to_vec();
                self.pc = self.code.len();
                StepOutcome::Create {
                    caller: self.context.address,
                    scheme: CreateScheme::Create2 { caller: self.context.address, code_hash: code_hash_of(&init_code), salt },
                    value: 0,
                    init_code,
                }
            }
            0xFD => StepOutcome::Exit(ExitReason::Revert(ExitRevert::Reverted)),
            0xF6 => {
                let n = self.code[self.pc + 1] as usize;
                let input = self.code[self.pc + 2..self.pc + 2 + n].to_vec();
                self.pc += 2 + n;
                let mut hook = [0u8; 20];
                hook[0] = 0xff;
                StepOutcome::Call {
                    code_address: hook,
                    transfer: None,
                    input,
                    context: Context { address: hook, caller: self.context.address, apparent_value: 0 },
                }
            }
            0xFF => {
                let a = [self.code[self.pc + 1]; 20];
                self.pc += 2;
                StepOutcome::MarkDelete { address: self.context.address, target: a }
            }
            _ => {
                self.pc += 1;
                StepOutcome::Continue
            }
        }
    }

    fn return_value(&self) -> Vec<u8> {
        self.ret.clone()
    }

    fn save_return_value(&mut self, _reason: ExitReason, data: Vec<u8>) {
        self.last_call = data;
    }

    fn save_created_address(&mut self, _reason: ExitReason, address: Option<Address>, _data: Vec<u8>) {
        self.created = address;
    }

    fn save(&self) -> Vec<u8> {
        let mut out = Vec::new();
        for part in [&self.code, &self.ret, &self.last_call] {
            out.extend_from_slice(&(part.len() as u64).to_le_bytes());
            out.extend_from_slice(part);
        }
        out.extend_from_slice(&(self.pc as u64).to_le_bytes());
        out.extend_from_slice(&(self.steps as u64).to_le_bytes());
        out.extend_from_slice(&self.context.address);
        out.extend_from_slice(&self.context.caller);
        out.extend_from_slice(&self.context.apparent_value.to_le_bytes());
        match self.created {
            None => out.push(0),
            Some(a) => {
                out.push(1);
                out.extend_from_slice(&a);
            }
        }
        out
    }

    fn restore(bytes: &[u8]) -> Option<Self> {
        let mut p = 0usize;
        let mut take = |n: usize| -> Option<Vec<u8>> {
            let v = bytes.get(p..p + n)?.to_vec();
            p += n;
            Some(v)
        };
        let mut parts = Vec::new();
        for _ in 0..3 {
            let len = u64::from_le_bytes(take(8)?.try_into().ok()?) as usize;
            parts.push(take(len)?);
        }
        let pc = u64::from_le_bytes(take(8)?.try_into().ok()?) as usize;
        let steps = u64::from_le_bytes(take(8)?.try_into().ok()?) as usize;
        let address: Address = take(20)?.try_into().ok()?;
        let caller: Address = take(20)?.try_into().ok()?;
        let apparent_value = u64::from_le_bytes(take(8)?.try_into().ok()?);
        let created = match take(1)?[0] {
            0 => None,
            _ => Some(take(20)?.try_into().ok()?),
        };
        Some(Script {
            code: parts[0].clone(),
            pc,
            context: Context { address, caller, apparent_value },
            ret: parts[1].clone(),
            last_call: parts[2].clone(),
            steps,
            created,
        })
    }
}

fn evm_account(key: u8, ether: u8, code: &[u8], lamports: u64) -> HostAccount {
    let mut data = vec![0u8; 4096];
    let h = AccountData { ether: [ether; 20], nonce: 1, trx_count: 0, signer: [0u8; 32], code_size: code.len() as u32 };
    h.pack(&mut data).unwrap();
    data[65..65 + code.len()].copy_from_slice(code);
    HostAccount { key: [key; 32], owner: PROGRAM, lamports, data }
}

fn machine(accounts: Vec<HostAccount>) -> Machine<Script> {
    let backend = SolanaBackend::new(&PROGRAM, &accounts, 0, 0, [0x01; 20]).unwrap();
    Machine::new(ExecutorState::new(backend), Config::istanbul())
}

#[test]
fn root_frame_returns_value() {
    let mut m = machine(vec![evm_account(1, 0x01, &[], 10), evm_account(2, 0x02, &[0x5B, 0xF3, 0x2A], 0)]);
    m.call_begin(&[0x01; 20], &[0x02; 20], vec![], 0);
    assert_eq!(m.frames.len(), 1);
    assert_eq!(m.executor.state.depth(), 1);
    assert_eq!(m.execute(), ExitReason::Succeed(ExitSucceed::Returned));
    assert_eq!(m.return_value(), vec![0x2A]);
    assert_eq!(m.frames.len(), 0);
    assert_eq!(m.executor.state.depth(), 0);
}

#[test]
fn nested_call_hands_back_return_data() {
    let callee = [0x5B, 0xF3, 0x07];
    let caller_code = [0xF1, 0x03, 0xF4];
    let accounts = vec![evm_account(1, 0x01, &[], 10), evm_account(2, 0x02, &caller_code, 0), evm_account(3, 0x03, &callee, 0)];
    let mut paused = machine(accounts.clone());
    paused.call_begin(&[0x01; 20], &[0x02; 20], vec![], 0);
    assert_eq!(paused.execute_n_steps(2), Ok(()));
    assert_eq!(paused.frames.len(), 2);
    assert_eq!(paused.executor.state.depth(), 2);
    let paused_reason = paused.execute();
    let mut straight = machine(accounts);
    straight.call_begin(&[0x01; 20], &[0x02; 20], vec![], 0);
    let straight_reason = straight.execute();
    assert_eq!(paused_reason, ExitReason::Succeed(ExitSucceed::Returned));
    assert_eq!(straight_reason, paused_reason);
    assert_eq!(paused.return_value(), vec![0x07]);
    assert_eq!(straight.return_value(), paused.return_value());
}

#[test]
fn save_and_restore_resume_where_paused() {
    let callee = [0x55, 0x01, 0x05, 0x5B, 0xF3, 0x07];
    let caller_code = [0x55, 0x02, 0x06, 0xF1, 0x03, 0xF4];
    let accounts = vec![evm_account(1, 0x01, &[], 10), evm_account(2, 0x02, &caller_code, 0), evm_account(3, 0x03, &callee, 0)];

    let mut straight = machine(accounts.clone());
    straight.call_begin(&[0x01; 20], &[0x02; 20], vec![], 0);
    let straight_reason = straight.execute();

    let mut paused = machine(accounts.clone());
    paused.call_begin(&[0x01; 20], &[0x02; 20], vec![], 0);
    assert_eq!(paused.execute_n_steps(3), Ok(()));
    let mut buf = vec![0u8; 8192];
    paused.save_into(&mut buf).unwrap();

    let backend = SolanaBackend::new(&PROGRAM, &accounts, 0, 0, [0x01; 20]).unwrap();
    let mut resumed: Machine<Script> = Machine::restore(&buf, backend, Config::istanbul()).unwrap();
    assert_eq!(resumed.frames.len(), paused.frames.len());
    assert_eq!(resumed.executor.state.depth(), paused.executor.state.depth());
    let resumed_reason = resumed.execute();
    assert_eq!(resumed_reason, straight_reason);
    assert_eq!(resumed.return_value(), straight.return_value());
    assert_eq!(resumed.return_value(), vec![0x07]);
    assert_eq!(resumed.executor.state.storage(&[0x03; 20], &[0x01; 32]), [0x05; 32]);
    assert_eq!(resumed.executor.state.storage(&[0x02; 20], &[0x02; 32]), [0x06; 32]);
}

#[test]
fn save_into_small_storage_is_refused() {
    let mut m = machine(vec![evm_account(1, 0x01, &[], 10), evm_account(2, 0x02, &[0x5B, 0x00], 0)]);
    m.call_begin(&[0x01; 20], &[0x02; 20], vec![], 0);
    let mut buf = vec![9u8; 16];
    assert!(m.save_into(&mut buf).is_err());
    assert_eq!(buf, vec![9u8; 16]);
    assert!(Machine::<Script>::restore(&[1, 2, 3], SolanaBackend::new(&PROGRAM, &vec![], 0, 0, [0; 20]).unwrap(), Config::istanbul()).is_none());
}

#[test]
fn execute_n_steps_runs_at_most_n_steps() {
    let code = [0x5B, 0x5B, 0x5B, 0x5B, 0x5B, 0x5B, 0x00];
    let mut m = machine(vec![evm_account(1, 0x01, &[], 10), evm_account(2, 0x02, &code, 0)]);
    m.call_begin(&[0x01; 20], &[0x02; 20], vec![], 0);
    assert_eq!(m.execute_n_steps(4), Ok(()));
    assert_eq!(m.frames[0].runtime.steps, 4);
    assert_eq!(m.execute_n_steps(0), Ok(()));
    assert_eq!(m.frames[0].runtime.steps, 4);
    assert_eq!(m.execute_n_steps(10), Err(ExitReason::Succeed(ExitSucceed::Stopped)));
    assert_eq!(m.frames.len(), 0);
}

#[test]
fn stores_are_staged_and_revert_drops_them() {
    let mut m = machine(vec![evm_account(1, 0x01, &[], 10), evm_account(2, 0x02, &[0x55, 0x01, 0x09, 0x00], 0)]);
    m.call_begin(&[0x01; 20], &[0x02; 20], vec![], 0);
    assert_eq!(m.execute(), ExitReason::Succeed(ExitSucceed::Stopped));
    assert_eq!(m.executor.state.storage(&[0x02; 20], &[0x01; 32]), [0x09; 32]);

    let mut r = machine(vec![evm_account(1, 0x01, &[], 10), evm_account(2, 0x02, &[0x55, 0x01, 0x09, 0xFD], 0)]);
    r.call_begin(&[0x01; 20], &[0x02; 20], vec![], 0);
    assert_eq!(r.execute(), ExitReason::Revert(ExitRevert::Reverted));
    assert_eq!(r.executor.state.depth(), 0);
    assert_eq!(r.executor.state.storage(&[0x02; 20], &[0x01; 32]), [0u8; 32]);
}

#[test]
fn call_begin_bumps_caller_nonce() {
    let mut m = machine(vec![evm_account(1, 0x01, &[], 10), evm_account(2, 0x02, &[0x00], 0)]);
    m.call_begin(&[0x01; 20], &[0x02; 20], vec![], 0);
    assert_eq!(m.executor.state.basic(&[0x01; 20]).nonce, 1);
}

#[test]
fn selfdestruct_moves_balance_to_beneficiary() {
    let contract = [0xFF, 0x0B];
    let mut m = machine(vec![evm_account(1, 0x01, &[], 0), evm_account(2, 0x02, &contract, 100), evm_account(3, 0x0B, &[], 10)]);
    m.call_begin(&[0x01; 20], &[0x02; 20], vec![], 0);
    assert_eq!(m.execute(), ExitReason::Succeed(ExitSucceed::Stopped));
    assert_eq!(m.executor.state.basic(&[0x02; 20]).balance, 0);
    assert_eq!(m.executor.state.basic(&[0x0B; 20]).balance, 110);
    assert!(m.executor.state.deleted(&[0x02; 20]));
    assert!(!m.executor.state.deleted(&[0x0B; 20]));
    assert!(!m.executor.account_exists(&[0x02; 20]));
    assert!(m.executor.account_exists(&[0x0B; 20]));
}

#[test]
fn create2_twice_collides() {
    let init = vec![0xF3u8, 0x01];
    let factory = [vec![0xF5u8, 0x09], init.clone()].concat();
    let created = create2_address_of(&[0x02; 20], &[0x09; 32], &code_hash_of(&init));
    let accounts = vec![evm_account(1, 0x01, &[], 0), evm_account(2, 0x02, &factory, 0)];
    let mut m = machine(accounts);
    m.call_begin(&[0x01; 20], &[0x02; 20], vec![], 0);
    assert_eq!(m.execute(), ExitReason::Succeed(ExitSucceed::Stopped));
    assert_eq!(m.executor.state.code(&created), vec![0x01]);
    let scheme = CreateScheme::Create2 { caller: [0x02; 20], code_hash: code_hash_of(&init), salt: [0x09; 32] };
    let again = m.executor.create(&[0x02; 20], &scheme, 0, &init);
    assert!(matches!(again, CreateCapture::Exit(ExitReason::Error(ExitError::CreateCollision), None, _)));
}

#[test]
fn create_past_frame_limit_is_too_deep() {
    let backend = SolanaBackend::new(&PROGRAM, &vec![evm_account(1, 0x01, &[], 0)], 0, 0, [0; 20]).unwrap();
    let config = Config { empty_considered_exists: false, call_stack_limit: 0, create_contract_limit: None };
    let mut ex = Executor { state: ExecutorState::new(backend), config };
    let scheme = CreateScheme::Fixed([0x33; 20]);
    let r = ex.create(&[0x01; 20], &scheme, 0, &vec![0x00]);
    assert!(matches!(r, CreateCapture::Exit(ExitReason::Error(ExitError::CallTooDeep), None, _)));
}

fn contract_account(key: u8, ether: Address, code: &[u8]) -> HostAccount {
    let mut data = vec![0u8; 4096];
    let h = AccountData { ether, nonce: 1, trx_count: 0, signer: [0u8; 32], code_size: 0 };
    h.pack(&mut data).unwrap();
    let mut a = SolidityAccount::new([key; 32], data, 0).unwrap();
    a.update(0, 0, &Some(code.to_vec()), &vec![], false).unwrap();
    HostAccount { key: [key; 32], owner: PROGRAM, lamports: 0, data: a.data.bytes().clone() }
}

fn foreign(key: u8) -> HostAccount {
    HostAccount { key: [key; 32], owner: [0x01; 32], lamports: 1, data: vec![] }
}

#[test]
fn do_call_commits_storage_and_returns_data() {
    let accounts = vec![
        contract_account(2, [0x02; 20], &[0x55, 0x01, 0x09, 0xF3, 0x2A]),
        evm_account(1, 0x01, &[], 10),
        foreign(3),
        foreign(4),
        foreign(5),
    ];
    let o = do_call::<Script>(&PROGRAM, &accounts, &[0x89, 0x3d, 0x20, 0xe8], 7, 8).unwrap();
    assert_eq!(o.exit_reason, ExitReason::Succeed(ExitSucceed::Returned));
    assert_eq!(o.result, vec![0x2A]);
    assert_eq!(o.on_return.data, vec![5, 0x2A]);
    assert_eq!(o.on_return.program_id, PROGRAM);
    assert_eq!(o.backend.storage(&[0x02; 20], &[0x01; 32]), [0x09; 32]);
    assert_eq!(o.backend.basic(&[0x01; 20]).nonce, 1);
    assert_eq!(o.backend.origin(), [0x01; 20]);
}

#[test]
fn do_call_revert_is_reported_without_commit() {
    let accounts = vec![
        contract_account(2, [0x02; 20], &[0x55, 0x01, 0x09, 0xFD]),
        evm_account(1, 0x01, &[], 10),
        foreign(3),
        foreign(4),
        foreign(5),
    ];
    let o = do_call::<Script>(&PROGRAM, &accounts, &[], 0, 0).unwrap();
    assert_eq!(o.exit_reason, ExitReason::Revert(ExitRevert::Reverted));
    assert_eq!(o.backend.storage(&[0x02; 20], &[0x01; 32]), [0u8; 32]);
    assert_eq!(o.backend.basic(&[0x01; 20]).nonce, 0);
}

#[test]
fn do_call_needs_five_accounts() {
    let accounts = vec![contract_account(2, [0x02; 20], &[0x00]), evm_account(1, 0x01, &[], 10)];
    assert_eq!(do_call::<Script>(&PROGRAM, &accounts, &[], 0, 0).err(), Some(ProgramError::NotEnoughAccountKeys));
}

#[test]
fn do_finalize_runs_constructor_and_installs_code() {
    let init = vec![0x55u8, 0x01, 0x04, 0xF3, 0x77];
    let address = create2_address_of(&[0x01; 20], &[2u8; 32], &code_hash_of(&init));
    let mut data = vec![0u8; 4096];
    AccountData { ether: address, nonce: 1, trx_count: 0, signer: [0u8; 32], code_size: 0 }.pack(&mut data).unwrap();
    data[65..73].copy_from_slice(&(init.len() as u64).to_le_bytes());
    data[73..73 + init.len()].copy_from_slice(&init);
    let accounts = vec![
        HostAccount { key: [2; 32], owner: PROGRAM, lamports: 0, data },
        evm_account(1, 0x01, &[], 10),
        foreign(3),
        foreign(4),
        foreign(5),
    ];
    let o = do_finalize::<Script>(&PROGRAM, &accounts, 0, 0).unwrap();
    assert_eq!(o.exit_reason, ExitReason::Succeed(ExitSucceed::Returned));
    assert_eq!(o.backend.code(&address), vec![0x77]);
    assert_eq!(o.backend.storage(&address, &[0x01; 32]), [0x04; 32]);
    assert_eq!(o.backend.basic(&[0x01; 20]).nonce, 1);
}

#[test]
fn do_finalize_refuses_foreign_program_account() {
    let accounts = vec![foreign(2), evm_account(1, 0x01, &[], 10), foreign(3), foreign(4), foreign(5)];
    assert_eq!(do_finalize::<Script>(&PROGRAM, &accounts, 0, 0).err(), Some(ProgramError::InvalidArgument));
}

#[test]
fn secp256k1_instruction_layout() {
    let ix = make_secp256k1_instruction(&[0xAA; 3], &[0xBB; 65], &[0xCC; 20]);
    assert_eq!(ix.program_id, solana_program::secp256k1_program::id().to_bytes());
    assert!(ix.accounts.is_empty());
    let mut expected = vec![1u8];
    expected.extend_from_slice(&15u16.to_le_bytes());
    expected.push(0);
    expected.extend_from_slice(&80u16.to_le_bytes());
    expected.push(0);
    expected.extend_from_slice(&12u16.to_le_bytes());
    expected.extend_from_slice(&3u16.to_le_bytes());
    expected.push(0);
    expected.extend_from_slice(&[0xAA; 3]);
    expected.extend_from_slice(&[0xBB; 65]);
    expected.extend_from_slice(&[0xCC; 20]);
    assert_eq!(ix.data, expected);
    assert_eq!(check_tx(&[1, 2, 3]), Ok(()));
}

#[test]
fn call_past_frame_limit_is_too_deep() {
    let backend = SolanaBackend::new(&PROGRAM, &vec![evm_account(1, 0x01, &[], 0)], 0, 0, [0; 20]).unwrap();
    let config = Config { empty_considered_exists: false, call_stack_limit: 0, create_contract_limit: None };
    let mut ex = Executor { state: ExecutorState::new(backend), config };
    let context = Context { address: [0x02; 20], caller: [0x01; 20], apparent_value: 0 };
    let r = ex.call(&[0x02; 20], vec![], context);
    assert!(matches!(r, evm_loader::executor::CallCapture::Exit(ExitReason::Error(ExitError::CallTooDeep), _)));
}

#[test]
fn call_to_hook_address_is_answered_by_backend() {
    let backend = SolanaBackend::new(&PROGRAM, &vec![evm_account(1, 0x01, &[], 0)], 0, 0, [0; 20]).unwrap();
    let mut ex = Executor { state: ExecutorState::new(backend), config: Config::istanbul() };
    let mut hook = [0u8; 20];
    hook[0] = 0xff;
    let context = Context { address: hook, caller: [0x01; 20], apparent_value: 0 };
    let r = ex.call(&hook, vec![0, 1], context);
    assert!(matches!(r, evm_loader::executor::CallCapture::Exit(ExitReason::Error(ExitError::InvalidRange), _)));
    let r = ex.call(&[0x05; 20], vec![7], context);
    assert!(matches!(r, evm_loader::executor::CallCapture::Trap(ci) if ci.code_address == [0x05; 20] && ci.input == vec![7]));
}

#[test]
fn transfer_beyond_balance_is_out_of_fund() {
    let backend = SolanaBackend::new(&PROGRAM, &vec![evm_account(1, 0x01, &[], 5), evm_account(2, 0x02, &[], 0)], 0, 0, [0; 20]).unwrap();
    let mut state = ExecutorState::new(backend);
    assert_eq!(state.transfer(&[0x01; 20], &[0x02; 20], 6), Err(ExitError::OutOfFund));
    assert_eq!(state.effects().len(), 0);
    assert_eq!(state.transfer(&[0x01; 20], &[0x02; 20], 5), Ok(()));
    assert_eq!(state.basic(&[0x01; 20]).balance, 0);
    assert_eq!(state.basic(&[0x02; 20]).balance, 5);
}

#[test]
fn step_without_frames_is_refused() {
    let mut m = machine(vec![evm_account(1, 0x01, &[], 0)]);
    assert_eq!(m.step(), Err(ExitReason::Fatal(evm_loader::exit::ExitFatal::NotSupported)));
}

fn hook_payload() -> Vec<u8> {
    let mut p = Vec::new();
    p.extend_from_slice(&32u16.to_be_bytes());
    p.extend_from_slice(&[0x06u8; 32]);
    p.extend_from_slice(&1u16.to_be_bytes());
    p.push(0);
    p.extend_from_slice(&[0x42u8; 32]);
    p.push(0);
    p.push(1);
    p.extend_from_slice(&2u16.to_be_bytes());
    p.extend_from_slice(&[9, 9]);
    p
}

fn hook_then(last: u8) -> Vec<u8> {
    let payload = hook_payload();
    let mut code = vec![0xF6u8, payload.len() as u8];
    code.extend_from_slice(&payload);
    code.push(last);
    code
}

#[test]
fn host_invocations_are_committed_on_success() {
    let accounts = vec![
        contract_account(2, [0x02; 20], &hook_then(0x00)),
        evm_account(1, 0x01, &[], 10),
        foreign(3),
        foreign(4),
        foreign(5),
    ];
    let o = do_call::<Script>(&PROGRAM, &accounts, &[], 0, 0).unwrap();
    assert_eq!(o.exit_reason, ExitReason::Succeed(ExitSucceed::Stopped));
    assert_eq!(o.invocations.len(), 1);
    assert_eq!(o.invocations[0].program_id, [0x06u8; 32]);
    assert_eq!(o.invocations[0].accounts[0].pubkey, [0x42u8; 32]);
    assert_eq!(o.invocations[0].data, vec![9, 9]);
}

#[test]
fn host_invocations_of_a_reverted_call_are_dropped() {
    let accounts = vec![
        contract_account(2, [0x02; 20], &hook_then(0xFD)),
        evm_account(1, 0x01, &[], 10),
        foreign(3),
        foreign(4),
        foreign(5),
    ];
    let o = do_call::<Script>(&PROGRAM, &accounts, &[], 0, 0).unwrap();
    assert_eq!(o.exit_reason, ExitReason::Revert(ExitRevert::Reverted));
    assert!(o.invocations.is_empty());
}

#[test]
fn do_call_refuses_unparsable_owned_account() {
    let bad = HostAccount { key: [9; 32], owner: PROGRAM, lamports: 0, data: vec![0u8; 10] };
    let accounts = vec![contract_account(2, [0x02; 20], &[0x00]), evm_account(1, 0x01, &[], 10), bad, foreign(4), foreign(5)];
    assert_eq!(do_call::<Script>(&PROGRAM, &accounts, &[], 0, 0).err(), Some(ProgramError::InvalidAccountData));
}

#[test]
fn handler_code_hash_is_zero_for_missing_account() {
    let backend = SolanaBackend::new(&PROGRAM, &vec![evm_account(1, 0x01, &[0x60, 0x00], 5)], 0, 0, [0; 20]).unwrap();
    let ex = Executor { state: ExecutorState::new(backend), config: Config::istanbul() };
    assert_eq!(ex.code_hash(&[0x33; 20]), [0u8; 32]);
    assert_eq!(ex.code_hash(&[0x01; 20]), code_hash_of(&[0x60, 0x00]));
}
