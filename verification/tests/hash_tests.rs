use mineblock::hash::double_hash;
use sha2::{Digest, Sha256};

fn hex(bytes: &[u8]) -> String {
    let mut s = String::new();
    for b in bytes {
        s.push_str(&format!("{:02x}", b));
    }
    s
}

#[test]
fn double_hash_of_hello() {
    assert_eq!(
        hex(&double_hash(b"hello")),
        "9595c9df90075148eb06860365df33584b75bff782a510c6cd4883a419833d50"
    );
}

#[test]
fn double_hash_of_nothing() {
    assert_eq!(
        hex(&double_hash(&[])),
        "5df6e0e2761359d30a8275058e299fcc0381534545f55cf43e41983f5d4c9456"
    );
}

#[test]
fn double_hash_is_the_hash_of_the_hash() {
    let message = [0x42u8; 200];
    let once: [u8; 32] = Sha256::digest(&message).into();
    let twice: [u8; 32] = Sha256::digest(&once).into();
    assert_eq!(double_hash(&message), twice);
    assert_ne!(double_hash(&message), once);
}

#[test]
fn double_hash_is_deterministic() {
    let block = vec![7u8; 300];
    let copy = block.clone();
    assert_eq!(double_hash(&block), double_hash(&block));
    assert_eq!(double_hash(&block), double_hash(&copy));
}

#[test]
fn changing_any_header_byte_changes_the_hash() {
    let block = vec![0u8; 120];
    let base = double_hash(&block);
    for i in 0..80 {
        let mut changed = block.clone();
        changed[i] ^= 0x01;
        assert_ne!(double_hash(&changed), base, "byte {}", i);
    }
}

#[test]
fn no_two_of_the_first_nonces_collide() {
    let mut seen: Vec<[u8; 32]> = Vec::new();
    let mut block = vec![0u8; 100];
    for nonce in 0u32..200 {
        block[76..80].copy_from_slice(&nonce.to_le_bytes());
        let h = double_hash(&block);
        assert!(!seen.contains(&h));
        seen.push(h);
    }
}
