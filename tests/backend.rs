use evm_loader::backend::{solidity_address, Apply, Basic, CreateScheme, HostAccount, SolanaBackend};
use evm_loader::crypto::code_hash_of;
use evm_loader::error::ProgramError;
use evm_loader::exit::{ExitError, ExitReason, ExitSucceed};
use evm_loader::layout::AccountData;

const PROGRAM: [u8; 32] = [0xEE; 32];

fn evm_account(key: u8, ether: u8, code: &[u8], lamports: u64) -> HostAccount {
    let mut data = vec![0u8; 4096];
    let h = AccountData { ether: [ether; 20], nonce: 1, trx_count: 5, signer: [0u8; 32], code_size: code.len() as u32 };
    h.pack(&mut data).unwrap();
    data[65..65 + code.len()].copy_from_slice(code);
    HostAccount { key: [key; 32], owner: PROGRAM, lamports, data }
}

fn foreign(key: u8, lamports: u64) -> HostAccount {
    HostAccount { key: [key; 32], owner: [0x01; 32], lamports, data: vec![] }
}

fn hook() -> [u8; 20] {
    let mut a = [0u8; 20];
    a[0] = 0xff;
    a
}

fn backend() -> SolanaBackend {
    let infos = vec![evm_account(1, 0x30, &[], 1000), evm_account(2, 0x10, &[0x60, 0x00], 2000), foreign(3, 5423), evm_account(4, 0x20, &[], 3000)];
    SolanaBackend::new(&PROGRAM, &infos, 18, 1234, [0x10; 20]).unwrap()
}

#[test]
fn new_indexes_every_account() {
    let b = backend();
    assert!(b.account_exists(&[0x30; 20]));
    assert!(b.account_exists(&[0x10; 20]));
    assert!(b.account_exists(&[0x20; 20]));
    assert!(b.account_exists(&solidity_address(&[3u8; 32])));
    assert!(!b.account_exists(&[0x40; 20]));
    assert_eq!(b.get_address_by_index(1), [0x10; 20]);
    assert_eq!(b.find_account(&[0x20; 20]), Some(3));
    assert_eq!(b.block_number(), 18);
    assert_eq!(b.block_timestamp(), 1234);
    assert_eq!(b.origin(), [0x10; 20]);
    assert_eq!(b.chain_id(), 0);
    assert_eq!(b.block_coinbase(), [0u8; 20]);
}

#[test]
fn new_refuses_malformed_owned_account() {
    let bad = HostAccount { key: [1; 32], owner: PROGRAM, lamports: 1, data: vec![0u8; 10] };
    assert_eq!(SolanaBackend::new(&PROGRAM, &vec![bad], 0, 0, [0; 20]).err(), Some(ProgramError::InvalidAccountData));
}

#[test]
fn reads_of_known_and_unknown_addresses() {
    let b = backend();
    assert_eq!(b.basic(&[0x10; 20]), Basic { balance: 2000, nonce: 5 });
    assert_eq!(b.basic(&solidity_address(&[3u8; 32])), Basic { balance: 5423, nonce: 0 });
    assert_eq!(b.basic(&[0x40; 20]), Basic { balance: 0, nonce: 0 });
    assert_eq!(b.code(&[0x10; 20]), vec![0x60, 0x00]);
    assert_eq!(b.code_size(&[0x10; 20]), 2);
    assert_eq!(b.code_hash(&[0x10; 20]), code_hash_of(&[0x60, 0x00]));
    assert_eq!(b.code_hash(&[0x40; 20]), code_hash_of(&[]));
    assert_eq!(b.code(&[0x40; 20]), Vec::<u8>::new());
    assert_eq!(b.storage(&[0x40; 20], &[0u8; 32]), [0u8; 32]);
}

#[test]
fn create2_alias_resolves_to_salt_account() {
    let mut b = backend();
    let new_address = [0x77; 20];
    assert!(!b.account_exists(&new_address));
    b.create(&CreateScheme::Create2 { caller: [0x10; 20], code_hash: [0; 32], salt: [4u8; 32] }, &new_address);
    assert_eq!(b.find_account(&new_address), Some(3));
}

#[test]
fn apply_writes_code_and_storage() {
    let mut b = backend();
    let values = vec![Apply::Modify {
        address: [0x30; 20],
        basic: Basic { balance: 77, nonce: 6 },
        code: Some(vec![0x60, 0x01]),
        storage: vec![([0u8; 32], [0xAB; 32])],
        reset_storage: true,
    }];
    b.apply(&values, &vec![], false).unwrap();
    assert_eq!(b.basic(&[0x30; 20]), Basic { balance: 77, nonce: 6 });
    assert_eq!(b.code(&[0x30; 20]), vec![0x60, 0x01]);
    assert_eq!(b.storage(&[0x30; 20], &[0u8; 32]), [0xAB; 32]);
}

#[test]
fn apply_to_unknown_address_needs_more_keys() {
    let mut b = backend();
    let values = vec![Apply::Modify {
        address: [0x40; 20],
        basic: Basic { balance: 1, nonce: 1 },
        code: None,
        storage: vec![],
        reset_storage: false,
    }];
    assert_eq!(b.apply(&values, &vec![], false), Err(ProgramError::NotEnoughAccountKeys));
}

fn payload(program: &[u8], accounts: &[(bool, Vec<u8>, bool, bool)], data: &[u8]) -> Vec<u8> {
    let mut p = Vec::new();
    p.extend_from_slice(&(program.len() as u16).to_be_bytes());
    p.extend_from_slice(program);
    p.extend_from_slice(&(accounts.len() as u16).to_be_bytes());
    for (translate, key, signer, writable) in accounts {
        p.push(*translate as u8);
        p.extend_from_slice(key);
        p.push(*signer as u8);
        p.push(*writable as u8);
    }
    p.extend_from_slice(&(data.len() as u16).to_be_bytes());
    p.extend_from_slice(data);
    p
}

#[test]
fn call_hook_records_one_invocation() {
    let mut b = backend();
    let token_program = [0x06u8; 32];
    let p = payload(&token_program, &[(false, vec![0x42; 32], false, true)], &[3, 1, 2]);
    let r = b.call_inner(&hook(), &p);
    assert_eq!(r, Some((ExitReason::Succeed(ExitSucceed::Stopped), vec![])));
    assert_eq!(b.invocations.len(), 1);
    let ix = &b.invocations[0];
    assert_eq!(ix.program_id, token_program);
    assert_eq!(ix.accounts.len(), 1);
    assert_eq!(ix.accounts[0].pubkey, [0x42; 32]);
    assert!(ix.accounts[0].is_writable && !ix.accounts[0].is_signer);
    assert_eq!(ix.data, vec![3, 1, 2]);
}

#[test]
fn call_hook_translates_known_addresses() {
    let mut b = backend();
    let p = payload(&[0x06u8; 32], &[(true, vec![0x10; 20], true, true)], &[]);
    assert_eq!(b.call_inner(&hook(), &p), Some((ExitReason::Succeed(ExitSucceed::Stopped), vec![])));
    assert_eq!(b.invocations[0].accounts[0].pubkey, [2u8; 32]);
}

#[test]
fn call_hook_unknown_address_is_invalid_range() {
    let mut b = backend();
    let p = payload(&[0x06u8; 32], &[(true, vec![0x55; 20], false, true)], &[1]);
    assert_eq!(b.call_inner(&hook(), &p), Some((ExitReason::Error(ExitError::InvalidRange), vec![])));
    assert!(b.invocations.is_empty());
}

#[test]
fn call_to_other_address_is_not_hooked() {
    let mut b = backend();
    assert_eq!(b.call_inner(&[0x10; 20], &[1, 2, 3]), None);
    assert!(b.invocations.is_empty());
}

fn fixture(owner: [u8; 32]) -> (Vec<HostAccount>, SolanaBackend) {
    let mut accounts = Vec::new();
    for i in 0..4u8 {
        let key = [10 + i; 32];
        let mut data = vec![0u8; 10 * 1024];
        let h = AccountData { ether: solidity_address(&key), nonce: 0, trx_count: 0, signer: [0u8; 32], code_size: 0 };
        h.pack(&mut data).unwrap();
        accounts.push(HostAccount { key, owner, lamports: (i as u64 + 2) * 1000, data });
    }
    accounts.push(HostAccount { key: [20; 32], owner, lamports: 1234, data: {
        let mut d = vec![0u8; 65];
        AccountData { ether: solidity_address(&[20; 32]), nonce: 0, trx_count: 0, signer: [0u8; 32], code_size: 0 }.pack(&mut d).unwrap();
        d
    } });
    accounts.push(HostAccount { key: [21; 32], owner: [0x77; 32], lamports: 5423, data: vec![0u8; 1024] });
    accounts.push(HostAccount { key: [22; 32], owner: [0x78; 32], lamports: 1234, data: vec![] });
    let backend = SolanaBackend::new(&owner, &accounts, 0, 0, [0; 20]).unwrap();
    (accounts, backend)
}

#[test]
fn test_solana_backend() {
    let owner = [0x55u8; 32];
    let (accounts, backend) = fixture(owner);
    assert_eq!(backend.account_exists(&solidity_address(&owner)), false);
    assert_eq!(backend.account_exists(&solidity_address(&accounts[1].key)), true);
}

#[test]
fn test_erc20_wrapper() {
    let owner = [0x56u8; 32];
    let (accounts, backend) = fixture(owner);
    assert_eq!(backend.account_exists(&solidity_address(&owner)), false);
    assert_eq!(backend.account_exists(&solidity_address(&accounts[1].key)), true);
}
