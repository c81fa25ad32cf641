use evm_loader::account::{Data, SolidityAccount};
use evm_loader::error::ProgramError;
use evm_loader::layout::AccountData;

fn blob(code_size: u32, len: usize) -> Vec<u8> {
    let mut data = vec![0u8; len];
    let h = AccountData { ether: [1u8; 20], nonce: 2, trx_count: 3, signer: [4u8; 32], code_size };
    h.pack(&mut data).unwrap();
    data
}

#[test]
fn new_reads_header_and_code() {
    let mut data = blob(3, 300);
    data[65..68].copy_from_slice(&[0x60, 0x01, 0x00]);
    let a = SolidityAccount::new([9u8; 32], data, 1234).unwrap();
    assert_eq!(a.get_ether(), [1u8; 20]);
    assert_eq!(a.get_nonce(), 3);
    assert_eq!(a.code_bytes(), &[0x60, 0x01, 0x00][..]);
    assert_eq!(a.code(|c| c.len()), 3);
    assert_eq!(a.lamports, 1234);
}

#[test]
fn new_refuses_short_or_inconsistent_blob() {
    assert_eq!(SolidityAccount::new([9u8; 32], vec![0u8; 10], 0).err(), Some(ProgramError::InvalidAccountData));
    assert_eq!(SolidityAccount::new([9u8; 32], blob(100, 120), 0).err(), Some(ProgramError::InvalidAccountData));
}

#[test]
fn storage_of_account_without_code_is_uninitialized() {
    let a = SolidityAccount::new_emulator([9u8; 32], blob(0, 300), 0).unwrap();
    assert_eq!(a.storage(&[0u8; 32]), Err(ProgramError::UninitializedAccount));
    assert!(matches!(a.data, Data::Emulator(_)));
}

#[test]
fn update_writes_code_then_storage() {
    let mut a = SolidityAccount::new([9u8; 32], blob(0, 4096), 10).unwrap();
    let items = vec![([0u8; 32], [5u8; 32]), ([1u8; 32], [6u8; 32]), ([0u8; 32], [7u8; 32])];
    a.update(4, 99, &Some(vec![0xAA, 0xBB]), &items, true).unwrap();
    assert_eq!(a.lamports, 99);
    assert_eq!(a.get_nonce(), 4);
    assert_eq!(a.code_bytes(), &[0xAA, 0xBB][..]);
    assert_eq!(a.storage(&[0u8; 32]), Ok(Some([7u8; 32])));
    assert_eq!(a.storage(&[1u8; 32]), Ok(Some([6u8; 32])));
    assert_eq!(a.storage(&[2u8; 32]), Ok(None));
    let (h, _) = AccountData::unpack(a.data.bytes()).unwrap();
    assert_eq!(h.code_size, 2);
    assert_eq!(h.trx_count, 4);
}

#[test]
fn update_refuses_second_code() {
    let mut a = SolidityAccount::new([9u8; 32], blob(2, 4096), 10).unwrap();
    assert_eq!(a.update(1, 1, &Some(vec![1]), &vec![], false), Err(ProgramError::AccountAlreadyInitialized));
}

#[test]
fn update_storage_without_code_is_uninitialized() {
    let mut a = SolidityAccount::new([9u8; 32], blob(0, 4096), 10).unwrap();
    assert_eq!(a.update(1, 1, &None, &vec![([0u8; 32], [1u8; 32])], false), Err(ProgramError::UninitializedAccount));
}

#[test]
fn update_without_storage_keeps_trie() {
    let mut a = SolidityAccount::new([9u8; 32], blob(0, 4096), 10).unwrap();
    a.update(1, 1, &Some(vec![0x00]), &vec![([3u8; 32], [3u8; 32])], true).unwrap();
    a.update(2, 5, &None, &vec![], false).unwrap();
    assert_eq!(a.storage(&[3u8; 32]), Ok(Some([3u8; 32])));
    assert_eq!(a.get_nonce(), 2);
    assert_eq!(a.lamports, 5);
}
