use blockchain::block::{proof_range_end, Block, PROOF_CHUNKS};
use sha2::{Digest, Sha256};

fn sha(s: &str) -> [u8; 32] {
    Sha256::digest(s.as_bytes()).into()
}

fn zeros_hex() -> String {
    "0".repeat(64)
}

#[test]
fn initial_block_shape() {
    let b = Block::initial(16);
    assert_eq!(b.prev_hash, [0u8; 32]);
    assert_eq!(b.generation, 0);
    assert_eq!(b.difficulty, 16);
    assert_eq!(b.data, "");
    assert_eq!(b.proof, None);
    let text = format!("{}:0:16::0", zeros_hex());
    assert_eq!(b.hash_string_for_proof(0), text);
    assert_eq!(b.hash_for_proof(0), sha(&text));
}

#[test]
fn preimage_renders_every_field() {
    let mut prev = [0u8; 32];
    prev[0] = 0x01;
    prev[1] = 0xab;
    prev[31] = 0xf0;
    let b = Block {
        prev_hash: prev,
        generation: 12,
        difficulty: 3,
        data: "hi there".to_string(),
        proof: Some(907),
    };
    let hex: String = prev.iter().map(|x| format!("{:02x}", x)).collect();
    assert!(hex.starts_with("01ab00"));
    assert!(hex.ends_with("f0"));
    let text = format!("{}:12:3:hi there:907", hex);
    assert_eq!(b.hash_string(), text);
    assert_eq!(b.hash_string_for_proof(907), text);
    assert_eq!(b.hash(), sha(&text));
    assert_eq!(b.hash_for_proof(18446744073709551615), sha(&format!("{}:12:3:hi there:18446744073709551615", hex)));
}

#[test]
fn digest_is_deterministic() {
    let b = Block::initial(5);
    let c = Block::initial(5);
    assert_eq!(b.hash_for_proof(42), b.hash_for_proof(42));
    assert_eq!(b.hash_for_proof(42), c.hash_for_proof(42));
    assert_ne!(b.hash_for_proof(42), b.hash_for_proof(43));
}

#[test]
fn digest_ignores_stored_proof() {
    let mut b = Block::initial(5);
    let before = b.hash_for_proof(9);
    b.set_proof(1234);
    assert_eq!(b.hash_for_proof(9), before);
    assert_eq!(b.hash(), b.hash_for_proof(1234));
}

#[test]
fn difficulty_predicate_cases() {
    let mut h = [0xffu8; 32];
    assert!(Block::hash_satisfies_difficulty(0, h));
    assert!(!Block::hash_satisfies_difficulty(1, h));
    h[31] = 0;
    assert!(Block::hash_satisfies_difficulty(8, h));
    assert!(!Block::hash_satisfies_difficulty(9, h));
    h[31] = 1;
    assert!(!Block::hash_satisfies_difficulty(8, h));
    h[31] = 8;
    assert!(Block::hash_satisfies_difficulty(3, h));
    assert!(!Block::hash_satisfies_difficulty(4, h));
    h[31] = 0;
    h[30] = 4;
    assert!(Block::hash_satisfies_difficulty(10, h));
    assert!(!Block::hash_satisfies_difficulty(11, h));
    h[30] = 2;
    assert!(!Block::hash_satisfies_difficulty(10, h));
    assert!(Block::hash_satisfies_difficulty(9, h));
}

#[test]
fn difficulty_predicate_extremes() {
    let mut h = [0u8; 32];
    assert!(Block::hash_satisfies_difficulty(255, h));
    assert!(Block::hash_satisfies_difficulty(248, h));
    h[0] = 0x80;
    assert!(Block::hash_satisfies_difficulty(255, h));
    h[0] = 0x40;
    assert!(!Block::hash_satisfies_difficulty(255, h));
    assert!(Block::hash_satisfies_difficulty(254, h));
}

#[test]
fn difficulty_eight_means_last_byte_zero() {
    let b = Block::initial(8);
    for p in 0..2000u64 {
        let h = b.hash_for_proof(p);
        assert_eq!(Block::hash_satisfies_difficulty(8, h), h[31] == 0);
        assert_eq!(b.is_valid_for_proof(p), h[31] == 0);
    }
}

#[test]
fn satisfies_matches_low_bits() {
    let b = Block::initial(0);
    for p in 0..64u64 {
        let h = b.hash_for_proof(p);
        let mut low: u32 = 0;
        while low < 256 && (h[31 - (low / 8) as usize] >> (low % 8)) & 1 == 0 {
            low += 1;
        }
        for d in 0..=255u8 {
            assert_eq!(Block::hash_satisfies_difficulty(d, h), (d as u32) <= low);
        }
    }
}

#[test]
fn set_proof_then_is_valid() {
    let mut b = Block::initial(6);
    assert!(!b.is_valid());
    for p in 0..300u64 {
        b.set_proof(p);
        assert_eq!(b.is_valid(), b.is_valid_for_proof(p));
    }
}

#[test]
fn difficulty_zero_every_proof_valid() {
    let mut b = Block::initial(0);
    for p in [0u64, 1, 77, u64::MAX] {
        assert!(b.is_valid_for_proof(p));
    }
    assert_eq!(b.find_proof(0, 10), Some(0));
    assert_eq!(b.find_proof(5, 10), Some(5));
    b.mine_serial();
    assert_eq!(b.proof, Some(0));
    assert!(b.is_valid());
}

#[test]
fn mining_finds_valid_proof() {
    let b = Block::initial(7);
    let end = proof_range_end(7);
    assert_eq!(end, 1024);
    let p = b.find_proof(0, end).unwrap();
    assert!(p < end);
    assert!(b.is_valid_for_proof(p));
    assert!(Block::hash_satisfies_difficulty(7, b.hash_for_proof(p)));
    assert_eq!(b.hash_for_proof(p)[31] % 128, 0);
    for q in 0..p {
        assert!(!b.is_valid_for_proof(q));
    }
}

#[test]
fn find_proof_on_empty_range() {
    let b = Block::initial(0);
    assert_eq!(b.find_proof(9, 9), None);
    assert_eq!(b.find_proof(9, 3), None);
}

#[test]
fn chaining() {
    let mut b0 = Block::initial(8);
    b0.mine_serial();
    assert!(b0.is_valid());
    let b1 = Block::next(&b0, "hello".to_string());
    assert_eq!(b1.prev_hash, b0.hash());
    assert_eq!(b1.generation, 1);
    assert_eq!(b1.difficulty, 8);
    assert_eq!(b1.data, "hello");
    assert_eq!(b1.proof, None);
    let mut b1 = b1;
    b1.mine_serial();
    assert!(b1.is_valid());
    let text = b1.hash_string();
    assert!(text.contains(":1:8:hello:"));
}

#[test]
fn range_end_for_difficulty() {
    assert_eq!(proof_range_end(0), 8);
    assert_eq!(proof_range_end(16), 8 * 65536);
    assert_eq!(proof_range_end(60), 1u64 << 63);
    assert_eq!(PROOF_CHUNKS, 2345);
}
