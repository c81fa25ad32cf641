use evm_loader::backend::{Apply, Basic};
use evm_loader::emulator::{EmulatorAccountStorage, Key};
use evm_loader::layout::AccountData;

fn blob() -> Vec<u8> {
    let mut data = vec![0u8; 200];
    let h = AccountData { ether: [0x10; 20], nonce: 1, trx_count: 2, signer: [0u8; 32], code_size: 0 };
    h.pack(&mut data).unwrap();
    data
}

fn storage() -> EmulatorAccountStorage {
    EmulatorAccountStorage::new([1u8; 32], [2u8; 32], [0x10; 20], [0x20; 20], 7, 99)
}

#[test]
fn contract_key_is_program_derived_and_others_seeded() {
    let s = storage();
    let contract = s.get_account_solana_address(&[0x10; 20]).unwrap();
    let expected = solana_program::pubkey::Pubkey::find_program_address(&[&[0x10u8; 20][..]], &solana_program::pubkey::Pubkey::new_from_array([2u8; 32])).0;
    assert_eq!(contract, expected.to_bytes());
    let other = s.get_account_solana_address(&[0x20; 20]).unwrap();
    let seed = bs58::encode(&[0x20u8; 20]).into_string();
    let expected = solana_program::pubkey::Pubkey::create_with_seed(
        &solana_program::pubkey::Pubkey::new_from_array([1u8; 32]),
        &seed,
        &solana_program::pubkey::Pubkey::new_from_array([2u8; 32]),
    ).unwrap();
    assert_eq!(other, expected.to_bytes());
    assert_ne!(contract, other);
}

#[test]
fn fetched_accounts_are_kept_and_missing_ones_reported() {
    let mut s = storage();
    assert!(s.needs_fetch(&[0x10; 20]));
    assert!(s.create_acc_if_not_exists(&[0x10; 20], &[5u8; 32], Some((blob(), 1000))));
    assert!(!s.needs_fetch(&[0x10; 20]));
    assert!(s.create_acc_if_not_exists(&[0x10; 20], &[5u8; 32], None));
    assert!(!s.create_acc_if_not_exists(&[0x30; 20], &[6u8; 32], None));
    assert_eq!(s.new_accounts, vec![Key::Solidity { address: [0x30; 20] }]);
    assert_eq!(s.accounts.len(), 1);
}

#[test]
fn report_lists_written_and_new_accounts() {
    let mut s = storage();
    s.create_acc_if_not_exists(&[0x10; 20], &[5u8; 32], Some((blob(), 1000)));
    s.create_acc_if_not_exists(&[0x30; 20], &[6u8; 32], None);
    s.apply(&vec![Apply::Modify { address: [0x10; 20], basic: Basic { balance: 1, nonce: 1 }, code: None, storage: vec![], reset_storage: false }]);
    let report = s.get_used_accounts();
    assert_eq!(report.len(), 2);
    assert_eq!(report[0].address, format!("0x{}", "10".repeat(20)));
    assert_eq!(report[0].key, bs58::encode(&[5u8; 32]).into_string());
    assert!(report[0].writable && !report[0].new);
    assert_eq!(report[1].address, format!("0x{}", "30".repeat(20)));
    assert!(!report[1].writable && report[1].new);
}

#[test]
fn reads_of_fetched_and_missing_accounts() {
    let mut s = storage();
    let mut data = blob();
    let h = AccountData { ether: [0x10; 20], nonce: 1, trx_count: 2, signer: [0u8; 32], code_size: 2 };
    h.pack(&mut data).unwrap();
    data[65] = 0x60;
    data[66] = 0x00;
    s.create_acc_if_not_exists(&[0x10; 20], &[5u8; 32], Some((data, 1000)));
    assert!(s.account_exists(&[0x10; 20]));
    assert!(!s.account_exists(&[0x30; 20]));
    assert_eq!(s.basic(&[0x10; 20]), Basic { balance: 1000, nonce: 2 });
    assert_eq!(s.basic(&[0x30; 20]), Basic { balance: 0, nonce: 0 });
    assert_eq!(s.code(&[0x10; 20]), vec![0x60, 0x00]);
    assert_eq!(s.code_size(&[0x10; 20]), 2);
    assert_eq!(s.code_hash(&[0x10; 20]), evm_loader::crypto::code_hash_of(&[0x60, 0x00]));
    assert_eq!(s.code_hash(&[0x30; 20]), evm_loader::crypto::code_hash_of(&[]));
    assert_eq!(s.storage(&[0x30; 20], &[0u8; 32]), [0u8; 32]);
    assert_eq!(s.origin(), [0x20; 20]);
    assert_eq!(s.block_number(), 7);
    assert_eq!(s.block_timestamp(), 99);
}

#[test]
fn seeds_come_from_fetched_headers() {
    let mut s = storage();
    assert_eq!(s.get_contract_seeds(), None);
    s.create_acc_if_not_exists(&[0x10; 20], &[5u8; 32], Some((blob(), 1000)));
    assert_eq!(s.get_contract_seeds(), Some(([0x10; 20], 1)));
    assert_eq!(s.get_caller_seeds(), None);
}

#[test]
fn missing_address_is_reported_once() {
    let mut s = storage();
    assert!(!s.create_acc_if_not_exists(&[0x30; 20], &[6u8; 32], None));
    assert!(!s.create_acc_if_not_exists(&[0x30; 20], &[6u8; 32], None));
    assert_eq!(s.new_accounts, vec![Key::Solidity { address: [0x30; 20] }]);
    assert_eq!(s.get_used_accounts().len(), 1);
}
