use evm_loader::error::ProgramError;
use evm_loader::layout::{AccountData, ACCOUNT_DATA_SIZE};
use evm_loader::processor::{do_write, finalize_code, init_account, BumpAllocator};

fn header() -> AccountData {
    AccountData { ether: [7u8; 20], nonce: 254, trx_count: 0x0102030405060708, signer: [9u8; 32], code_size: 754 }
}

#[test]
fn account_data_round_trip() {
    let h = header();
    let mut buf = vec![0xAAu8; 100];
    h.pack(&mut buf).unwrap();
    let (g, rest) = AccountData::unpack(&buf).unwrap();
    assert_eq!(g, h);
    assert_eq!(rest, &[0xAAu8; 35][..]);
    assert_eq!(ACCOUNT_DATA_SIZE, 65);
}

#[test]
fn account_data_byte_layout() {
    let h = header();
    let mut buf = vec![0u8; 65];
    h.pack(&mut buf).unwrap();
    assert_eq!(&buf[0..20], &[7u8; 20][..]);
    assert_eq!(buf[20], 254);
    assert_eq!(&buf[21..29], &[8, 7, 6, 5, 4, 3, 2, 1][..]);
    assert_eq!(&buf[29..61], &[9u8; 32][..]);
    assert_eq!(&buf[61..65], &[0xF2, 0x02, 0, 0][..]);
}

#[test]
fn account_data_exact_fit_has_empty_tail() {
    let h = header();
    let mut buf = vec![0u8; 65];
    h.pack(&mut buf).unwrap();
    let (g, rest) = AccountData::unpack(&buf).unwrap();
    assert_eq!(g, h);
    assert!(rest.is_empty());
}

#[test]
fn unpack_short_buffer_is_invalid_account_data() {
    assert_eq!(AccountData::unpack(&[0u8; 64]).err(), Some(ProgramError::InvalidAccountData));
    assert_eq!(AccountData::unpack(&[]).err(), Some(ProgramError::InvalidAccountData));
}

#[test]
fn pack_short_buffer_is_too_small_and_untouched() {
    let mut buf = vec![3u8; 64];
    assert_eq!(header().pack(&mut buf), Err(ProgramError::AccountDataTooSmall));
    assert_eq!(buf, vec![3u8; 64]);
}

#[test]
fn write_puts_bytes_after_header() {
    let mut data = vec![0u8; 80];
    do_write(&mut data, 2, &[1, 2, 3]).unwrap();
    assert_eq!(&data[67..70], &[1, 2, 3][..]);
    assert_eq!(data[66], 0);
    assert_eq!(data[70], 0);
}

#[test]
fn write_past_end_is_too_small() {
    let mut data = vec![0u8; 70];
    assert_eq!(do_write(&mut data, 3, &[1, 2, 3]), Err(ProgramError::AccountDataTooSmall));
    assert_eq!(data, vec![0u8; 70]);
}

#[test]
fn finalize_reads_length_prefixed_code() {
    let mut data = vec![0u8; 65];
    data.extend_from_slice(&3u64.to_le_bytes());
    data.extend_from_slice(&[0x60, 0x00, 0xF3, 0xEE]);
    assert_eq!(finalize_code(&data), Ok(vec![0x60, 0x00, 0xF3]));
    let short = vec![0u8; 72];
    assert_eq!(finalize_code(&short), Err(ProgramError::InvalidAccountData));
    let mut too_long = vec![0u8; 65];
    too_long.extend_from_slice(&10u64.to_le_bytes());
    too_long.extend_from_slice(&[1, 2]);
    assert_eq!(finalize_code(&too_long), Err(ProgramError::InvalidAccountData));
}

#[test]
fn init_account_writes_fresh_header() {
    let mut data = vec![0x11u8; 70];
    init_account(&mut data, [5u8; 20], 3, [6u8; 32]).unwrap();
    let (h, rest) = AccountData::unpack(&data).unwrap();
    assert_eq!(h, AccountData { ether: [5u8; 20], nonce: 3, trx_count: 0, signer: [6u8; 32], code_size: 0 });
    assert_eq!(rest, &[0x11u8; 5][..]);
}

#[test]
fn bump_allocator_hands_out_from_the_top() {
    let mut a = BumpAllocator { start: 0x1000, length: 0x100, pos: 0 };
    assert_eq!(a.occupied(), 0);
    assert_eq!(a.allocate(16, 8), Some(0x10F0));
    assert_eq!(a.occupied(), 16);
    assert_eq!(a.allocate(3, 4), Some(0x10EC));
    assert_eq!(a.allocate(0x1000, 1), None);
    assert_eq!(a.occupied(), 20);
}

#[test]
fn account_key_must_be_program_derived() {
    let program = [7u8; 32];
    let ether = [0x42u8; 20];
    let pid = solana_program::pubkey::Pubkey::new_from_array(program);
    let (key, bump) = solana_program::pubkey::Pubkey::find_program_address(&[&ether[..]], &pid);
    let _ = bump;
    let bump = (0..=255u8).rev().find(|b| solana_program::pubkey::Pubkey::create_program_address(&[&ether[..], &[*b]], &pid).is_ok()).unwrap();
    let derived = solana_program::pubkey::Pubkey::create_program_address(&[&ether[..], &[bump]], &pid).unwrap();
    assert_eq!(evm_loader::processor::check_account_key(&program, &ether, bump, &derived.to_bytes()), Ok(()));
    assert_eq!(evm_loader::processor::check_account_key(&program, &ether, bump, &[1u8; 32]), Err(ProgramError::InvalidArgument));
    let _ = key;
}
