use evm_loader::cpi::{is_solana_address, parse_payload, CpiKey};
use evm_loader::error::ProgramError;
use evm_loader::instruction::{on_event, on_return, EvmInstruction, Log};

#[test]
fn unpack_write() {
    let mut input = vec![0u8, 0, 0, 0];
    input.extend_from_slice(&7u32.to_le_bytes());
    input.extend_from_slice(&3u64.to_le_bytes());
    input.extend_from_slice(&[9, 8, 7, 6]);
    assert_eq!(EvmInstruction::unpack(&input), Ok(EvmInstruction::Write { offset: 7, bytes: &[9, 8, 7] }));
}

#[test]
fn unpack_write_too_short_is_invalid() {
    let mut input = vec![0u8, 0, 0, 0];
    input.extend_from_slice(&7u32.to_le_bytes());
    input.extend_from_slice(&5u64.to_le_bytes());
    input.extend_from_slice(&[9, 8]);
    assert_eq!(EvmInstruction::unpack(&input), Err(ProgramError::InvalidInstructionData));
}

#[test]
fn unpack_finalize_call_and_return() {
    assert_eq!(EvmInstruction::unpack(&[1, 0, 0, 0]), Ok(EvmInstruction::Finalize));
    assert_eq!(EvmInstruction::unpack(&[1, 0]), Err(ProgramError::InvalidInstructionData));
    assert_eq!(
        EvmInstruction::unpack(&[3, 0x89, 0x3d, 0x20, 0xe8]),
        Ok(EvmInstruction::Call { bytes: &[0x89, 0x3d, 0x20, 0xe8] })
    );
    assert_eq!(EvmInstruction::unpack(&[5, 1, 2]), Ok(EvmInstruction::OnReturn { bytes: &[1, 2] }));
}

#[test]
fn unpack_create_account() {
    let mut input = vec![2u8, 0, 0, 0];
    input.extend_from_slice(&1000u64.to_le_bytes());
    input.extend_from_slice(&1024u64.to_le_bytes());
    input.extend_from_slice(&[0xAB; 20]);
    input.push(255);
    assert_eq!(
        EvmInstruction::unpack(&input),
        Ok(EvmInstruction::CreateAccount { lamports: 1000, space: 1024, ether: [0xAB; 20], nonce: 255 })
    );
}

#[test]
fn unpack_create_account_with_seed() {
    let mut input = vec![4u8, 0, 0, 0];
    input.extend_from_slice(&[1u8; 32]);
    input.extend_from_slice(&5u32.to_le_bytes());
    input.extend_from_slice(&[0u8; 4]);
    input.extend_from_slice(b"seed5");
    input.extend_from_slice(&10u64.to_le_bytes());
    input.extend_from_slice(&20u64.to_le_bytes());
    input.extend_from_slice(&[2u8; 32]);
    assert_eq!(
        EvmInstruction::unpack(&input),
        Ok(EvmInstruction::CreateAccountWithSeed {
            base: [1u8; 32],
            seed: b"seed5".to_vec(),
            lamports: 10,
            space: 20,
            owner: [2u8; 32]
        })
    );
}

#[test]
fn unknown_tag_and_empty_input_are_invalid() {
    assert_eq!(EvmInstruction::unpack(&[7]), Err(ProgramError::InvalidInstructionData));
    assert_eq!(EvmInstruction::unpack(&[]), Err(ProgramError::InvalidInstructionData));
}

#[test]
fn on_event_round_trips_through_unpack() {
    let log = Log { address: [0x11; 20], topics: vec![[0x22; 32], [0x33; 32]], data: vec![1, 2, 3] };
    let ix = on_event(&[9u8; 32], log.clone()).unwrap();
    assert_eq!(ix.program_id, [9u8; 32]);
    assert!(ix.accounts.is_empty());
    assert_eq!(ix.data[0], 6);
    assert_eq!(ix.data.len(), 1 + 20 + 8 + 64 + 3);
    assert_eq!(
        EvmInstruction::unpack(&ix.data),
        Ok(EvmInstruction::OnEvent { address: [0x11; 20], topics: vec![[0x22; 32], [0x33; 32]], data: &[1, 2, 3] })
    );
}

#[test]
fn on_return_prefixes_tag() {
    let ix = on_return(&[4u8; 32], vec![0xAA, 0xBB]).unwrap();
    assert_eq!(ix.data, vec![5, 0xAA, 0xBB]);
    assert_eq!(EvmInstruction::unpack(&ix.data), Ok(EvmInstruction::OnReturn { bytes: &[0xAA, 0xBB] }));
}

fn hook_address() -> [u8; 20] {
    let mut a = [0u8; 20];
    a[0] = 0xff;
    a
}

#[test]
fn hook_address_is_ff_then_zeros() {
    assert!(is_solana_address(&hook_address()));
    let mut other = hook_address();
    other[19] = 1;
    assert!(!is_solana_address(&other));
    assert!(!is_solana_address(&[0u8; 20]));
}

pub fn payload(program: &[u8], accounts: &[(bool, Vec<u8>, bool, bool)], data: &[u8]) -> Vec<u8> {
    let mut p = Vec::new();
    p.extend_from_slice(&(program.len() as u16).to_be_bytes());
    p.extend_from_slice(program);
    p.extend_from_slice(&(accounts.len() as u16).to_be_bytes());
    for (translate, key, signer, writable) in accounts {
        p.push(*translate as u8);
        p.extend_from_slice(key);
        p.push(*signer as u8);
        p.push(*writable as u8);
    }
    p.extend_from_slice(&(data.len() as u16).to_be_bytes());
    p.extend_from_slice(data);
    p
}

#[test]
fn parse_payload_decodes_accounts_and_data() {
    let p = payload(&[3u8; 32], &[(false, vec![4u8; 32], false, true), (true, vec![5u8; 20], true, false)], &[1, 2, 3]);
    let parsed = parse_payload(&p).unwrap();
    assert_eq!(parsed.program_id, vec![3u8; 32]);
    assert_eq!(parsed.accounts.len(), 2);
    assert_eq!(parsed.accounts[0].key, CpiKey::Host([4u8; 32]));
    assert!(!parsed.accounts[0].is_signer && parsed.accounts[0].is_writable);
    assert_eq!(parsed.accounts[1].key, CpiKey::Ether([5u8; 20]));
    assert!(parsed.accounts[1].is_signer && !parsed.accounts[1].is_writable);
    assert_eq!(parsed.data, vec![1, 2, 3]);
}

#[test]
fn parse_payload_cut_short_is_none() {
    let p = payload(&[3u8; 32], &[(false, vec![4u8; 32], false, true)], &[1, 2, 3]);
    assert!(parse_payload(&p[..p.len() - 1]).is_none());
    assert!(parse_payload(&[0]).is_none());
}
