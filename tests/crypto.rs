use evm_loader::crypto::{code_hash_of, create2_address_of, create_address_of};
use evm_loader::executor::l64;

fn unhex(s: &str) -> Vec<u8> {
    (0..s.len()).step_by(2).map(|i| u8::from_str_radix(&s[i..i + 2], 16).unwrap()).collect()
}

fn arr20(s: &str) -> [u8; 20] {
    let v = unhex(s);
    let mut a = [0u8; 20];
    a.copy_from_slice(&v);
    a
}

#[test]
fn keccak_of_empty_code() {
    assert_eq!(code_hash_of(&[]).to_vec(), unhex("c5d2460186f7233c927e7db2dcc703c0e500b653ca82273b7bfad8045d85a470"));
}

#[test]
fn code_hash_depends_on_code() {
    assert_eq!(code_hash_of(&[1, 2, 3]), code_hash_of(&[1, 2, 3]));
    assert_ne!(code_hash_of(&[1, 2, 3]), code_hash_of(&[1, 2, 4]));
}

#[test]
fn create2_address_of_eip_example() {
    let code_hash = code_hash_of(&[0x00]);
    let a = create2_address_of(&[0u8; 20], &[0u8; 32], &code_hash);
    assert_eq!(a, arr20("4d1a2e2bb4f88f0250f26ffff098b0b30b26bf38"));
}

#[test]
fn create2_is_deterministic() {
    let code_hash = code_hash_of(&[0x60, 0x00]);
    let a = create2_address_of(&[3u8; 20], &[4u8; 32], &code_hash);
    let b = create2_address_of(&[3u8; 20], &[4u8; 32], &code_hash);
    assert_eq!(a, b);
    let c = create2_address_of(&[3u8; 20], &[5u8; 32], &code_hash);
    assert_ne!(a, c);
}

#[test]
fn create_address_of_known_sender() {
    let sender = arr20("6ac7ea33f8831ea9dcc53393aaa88b25a785dbf0");
    assert_eq!(create_address_of(&sender, 0), arr20("cd234a471b72ba2f1ccf0a70fcaba648a5eecd8d"));
    assert_eq!(create_address_of(&sender, 1), arr20("343c43a37d37dff08ae8c4a11544c718abb4fcf8"));
}

#[test]
fn l64_keeps_all_but_a_64th() {
    assert_eq!(l64(6400), 6300);
    assert_eq!(l64(63), 63);
    assert_eq!(l64(0), 0);
}
