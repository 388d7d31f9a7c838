use cipher_attacks::attack::{decrypt, decrypt_block, AttackError};
use cipher_attacks::oracle::{check_pkcs, FlawedOracle, PaddingOracle, XorOracle};
use cipher_attacks::pad::{candidate_check, first_candidate_from};

const N: usize = 16;

fn xor_block(a: &[u8], b: &[u8]) -> Vec<u8> {
    a.iter().zip(b.iter()).map(|(x, y)| x ^ y).collect()
}

/// Builds a ciphertext for the toy XOR cipher: each ciphertext block is
/// the plaintext block XOR the previous ciphertext block XOR the key.
fn encrypt_xor(key: &[u8], iv: &[u8], blocks: &[&[u8]]) -> Vec<u8> {
    let mut ct: Vec<u8> = iv.to_vec();
    let mut prev = iv.to_vec();
    for m in blocks {
        let c = xor_block(&xor_block(m, &prev), key);
        ct.extend(&c);
        prev = c;
    }
    ct
}

fn test_key() -> Vec<u8> {
    (0..16).map(|i| (i as u8).wrapping_mul(37).wrapping_add(11)).collect()
}

#[test]
fn candidate_order() {
    assert_eq!(first_candidate_from(0), Some(1));
    assert_eq!(first_candidate_from(1), Some(1));
    assert_eq!(first_candidate_from(17), Some(32));
    assert_eq!(first_candidate_from(33), Some(65));
    assert_eq!(first_candidate_from(91), Some(97));
    assert_eq!(first_candidate_from(123), None);
    assert!(candidate_check(16));
    assert!(!candidate_check(17));
    assert!(candidate_check(32));
    assert!(!candidate_check(0));
}

#[test]
fn pkcs_checker() {
    assert!(check_pkcs(&vec![65, 65, 1]));
    assert!(check_pkcs(&vec![65, 2, 2]));
    assert!(!check_pkcs(&vec![65, 65, 3]));
    assert!(!check_pkcs(&vec![65, 65, 0]));
    assert!(!check_pkcs(&vec![]));
    assert!(check_pkcs(&vec![5, 5, 5, 5, 5]));
    assert!(!check_pkcs(&vec![17; 17]));
}

/// Block size 16, previous block all zero, plaintext fifteen `A` bytes
/// and one 0x01 pad byte, under the toy XOR oracle with a fixed key.
#[test]
fn single_block_scenario() {
    let key = test_key();
    let prev = vec![0u8; N];
    let m = b"AAAAAAAAAAAAAAA\x01".to_vec();
    let target = xor_block(&xor_block(&m, &prev), &key);
    let mut oracle = XorOracle::new(key);
    let got = decrypt_block(&mut oracle, &prev, &target);
    assert_eq!(got, Ok(m));
}

/// Every valid pad length is recovered exactly, even where the final
/// byte's length-one ambiguity forces backtracking.
#[test]
fn all_pad_lengths_recovered() {
    let key = test_key();
    let prev = vec![0x55u8; N];
    for p in 1..=16u8 {
        let mut m = vec![b'A'; N];
        for i in (N - p as usize)..N {
            m[i] = p;
        }
        let target = xor_block(&xor_block(&m, &prev), &key);
        let mut oracle = XorOracle::new(key.clone());
        let got = decrypt_block(&mut oracle, &prev, &target);
        assert_eq!(got, Ok(m), "pad length {}", p);
    }
}

/// A deliberate false positive at guess 5 on the final byte is popped by
/// backtracking and the true byte recovered, without looping forever.
#[test]
fn backtracking_after_false_positive() {
    let key = vec![0u8; N];
    let prev = vec![0u8; N];
    let m = vec![65u8; N];
    let target = xor_block(&xor_block(&m, &prev), &key);
    // The forged candidate that guess 5 submits at the final position.
    let mut bait_block = prev.clone();
    bait_block[N - 1] = prev[N - 1] ^ 5 ^ 1;
    let mut bait = bait_block;
    bait.extend(&target);
    let mut oracle = FlawedOracle::new(key, bait.clone());
    assert!(oracle.query(&bait));
    let got = decrypt_block(&mut oracle, &prev, &target);
    assert_eq!(got, Ok(m));
}

/// A two-block ciphertext yields exactly one plaintext block.
#[test]
fn two_block_message() {
    let key = test_key();
    let iv = vec![0x13u8; N];
    let m0 = b"The Magic Words\x01".to_vec();
    let ct = encrypt_xor(&key, &iv, &[&m0]);
    let mut oracle = XorOracle::new(key);
    let got = decrypt(&mut oracle, &ct);
    assert_eq!(got, Ok(m0));
}

/// A four-block ciphertext yields three plaintext blocks in order.
#[test]
fn four_block_message() {
    let key = test_key();
    let iv = vec![0x77u8; N];
    let m0 = b"Squeamish Ossif\x01".to_vec();
    let m1 = b"rage is the mag\x01".to_vec();
    let m2 = b"ic answer here\x02\x02".to_vec();
    let ct = encrypt_xor(&key, &iv, &[&m0, &m1, &m2]);
    let mut oracle = XorOracle::new(key);
    let got = decrypt(&mut oracle, &ct).expect("recovery");
    let mut want = m0.clone();
    want.extend(&m1);
    want.extend(&m2);
    assert_eq!(got, want);
}

/// Malformed ciphertexts are rejected before any oracle query is issued.
#[test]
fn malformed_rejected_without_queries() {
    let key = test_key();
    let mut oracle = XorOracle::new(key);
    // Not a multiple of the block size.
    let r = decrypt(&mut oracle, &vec![0u8; 17]);
    assert_eq!(r, Err(AttackError::MalformedCiphertext));
    // Fewer than two blocks.
    let r = decrypt(&mut oracle, &vec![0u8; 16]);
    assert_eq!(r, Err(AttackError::MalformedCiphertext));
    let r = decrypt(&mut oracle, &vec![]);
    assert_eq!(r, Err(AttackError::MalformedCiphertext));
    assert_eq!(oracle.query_count(), 0);
}

/// Decrypting the same ciphertext twice yields byte-identical plaintext.
#[test]
fn idempotent_decryption() {
    let key = test_key();
    let iv = vec![0x01u8; N];
    let m0 = b"repeatable text\x01".to_vec();
    let ct = encrypt_xor(&key, &iv, &[&m0]);
    let mut o1 = XorOracle::new(key.clone());
    let mut o2 = XorOracle::new(key);
    let first = decrypt(&mut o1, &ct);
    let second = decrypt(&mut o2, &ct);
    assert_eq!(first, second);
    assert_eq!(first, Ok(m0));
}

/// A block needing no backtracking stays within 69 queries per byte, 69
/// being the number of candidate guess values.
#[test]
fn query_budget() {
    let key = test_key();
    let prev = vec![0u8; N];
    let m = b"AAAAAAAAAAAAAAA\x01".to_vec();
    let target = xor_block(&xor_block(&m, &prev), &key);
    let mut oracle = XorOracle::new(key);
    let got = decrypt_block(&mut oracle, &prev, &target);
    assert_eq!(got, Ok(m));
    assert!(oracle.query_count() <= 69 * 16, "queries: {}", oracle.query_count());
}

/// An oracle that rejects everything makes the first block fail, and the
/// failure names that block pair.
#[test]
fn unrecoverable_block_reported() {
    // An empty key makes the simulated oracle reject every candidate.
    let mut oracle = XorOracle::new(vec![]);
    let ct = vec![0u8; 32];
    let r = decrypt(&mut oracle, &ct);
    assert_eq!(
        r,
        Err(AttackError::ByteUnrecoverable {
            block_index: 0,
            byte_position: 15,
            exhausted_from: 0,
        })
    );
}

/// A block of plain letters, with no padding bytes of its own, is
/// recovered exactly.
#[test]
fn letters_only_block() {
    let key = test_key();
    let prev = vec![0x2au8; N];
    let m = b"ABCDEFGHIJKLMNOP".to_vec();
    let target = xor_block(&xor_block(&m, &prev), &key);
    let mut oracle = XorOracle::new(key);
    let got = decrypt_block(&mut oracle, &prev, &target);
    assert_eq!(got, Ok(m));
}

/// Each oracle query bumps the counter by one.
#[test]
fn oracle_counts_queries() {
    let key = test_key();
    let mut oracle = XorOracle::new(key);
    assert_eq!(oracle.query_count(), 0);
    oracle.query(&vec![0u8; 32]);
    assert_eq!(oracle.query_count(), 1);
    oracle.query(&vec![0u8; 31]);
    assert_eq!(oracle.query_count(), 2);
}
