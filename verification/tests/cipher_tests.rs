use cipher_attacks::dlog::MeetInTheMiddle;
use cipher_attacks::factoring::{ceil_sqrt, challenge, find_factors, inverse_mod};
use cipher_attacks::integrity::get_block_hashes;
use cipher_attacks::many_time_pad::{decrypt, find_key, recover_key};
use sha2::{Digest, Sha256};

#[test]
fn find_key_settles_space_position() {
    // Plaintexts " ", "x", "y" under key byte 0x42: both pairs through
    // the first ciphertext XOR to letters, so the space is detected.
    let c1 = vec![0x42 ^ 0x20];
    let c2 = vec![0x42 ^ 0x78];
    let c3 = vec![0x42 ^ 0x79];
    let mut key = vec![0u8];
    find_key(&mut key, &c1, &c2, &c3);
    assert_eq!(key, vec![0x42]);
}

#[test]
fn find_key_keeps_settled_bytes() {
    let c1 = vec![0x42 ^ 0x20];
    let c2 = vec![0x42 ^ 0x78];
    let c3 = vec![0x42 ^ 0x79];
    let mut key = vec![9u8];
    find_key(&mut key, &c1, &c2, &c3);
    assert_eq!(key, vec![9]);
}

#[test]
fn recover_key_over_triples() {
    let c1 = vec![0x42 ^ 0x20, 0x10];
    let c2 = vec![0x42 ^ 0x78, 0x10 ^ 0x41];
    let c3 = vec![0x42 ^ 0x79];
    let mut key = vec![0u8, 0u8];
    recover_key(&mut key, &vec![c1, c2, c3]);
    // Only position 0 has all three ciphertexts; it is settled as above.
    assert_eq!(key[0], 0x42);
}

#[test]
fn decrypt_xors_with_key() {
    let key = vec![1u8, 2, 3, 4];
    let cts = vec![vec![0x10u8, 0x20, 0x30], vec![0xffu8]];
    let pts = decrypt(&key, &cts);
    assert_eq!(pts, vec![vec![0x11, 0x22, 0x33], vec![0xfe]]);
}

#[test]
fn hash_chain_short_data() {
    let data = b"abc".to_vec();
    let hashes = get_block_hashes(&data);
    assert_eq!(hashes.len(), 1);
    assert_eq!(hashes[0], Sha256::digest(b"abc").to_vec());
}

#[test]
fn hash_chain_exact_multiple() {
    let data = vec![7u8; 1024];
    let hashes = get_block_hashes(&data);
    assert_eq!(hashes.len(), 2);
    let h0 = Sha256::digest(b"").to_vec();
    assert_eq!(hashes[0], h0);
    let mut second = data.clone();
    second.extend(&h0);
    assert_eq!(hashes[1], Sha256::digest(&second).to_vec());
}

#[test]
fn hash_chain_remainder_first() {
    let data: Vec<u8> = (0..1500u32).map(|i| (i % 251) as u8).collect();
    let hashes = get_block_hashes(&data);
    assert_eq!(hashes.len(), 2);
    let h0 = Sha256::digest(&data[1024..]).to_vec();
    assert_eq!(hashes[0], h0);
    let mut second = data[..1024].to_vec();
    second.extend(&h0);
    assert_eq!(hashes[1], Sha256::digest(&second).to_vec());
}

#[test]
fn ceil_sqrt_values() {
    assert_eq!(ceil_sqrt(&vec![16]), (vec![4], true));
    assert_eq!(ceil_sqrt(&vec![17]), (vec![5], false));
    assert_eq!(ceil_sqrt(&vec![1]), (vec![1], true));
    // Zero is its own (exact) rounded-up square root.
    assert_eq!(ceil_sqrt(&vec![]), (vec![0], true));
    assert_eq!(ceil_sqrt(&vec![0]), (vec![0], true));
}

#[test]
fn no_factors_of_a_prime() {
    // 11 is prime: one try from ceil(sqrt(11)) = 4 finds no square.
    assert_eq!(find_factors(&vec![11], 1, None), None);
    assert_eq!(challenge(&vec![11], 1, None), None);
}

#[test]
fn factors_of_close_primes() {
    // 77 = 7 * 11, found on the first try from ceil(sqrt(77)) = 9.
    let n = vec![77u8];
    let got = find_factors(&n, 1, None);
    assert_eq!(got, Some((vec![7], vec![11], 1)));
    let pq = challenge(&n, 1, None);
    assert_eq!(pq, Some((vec![7], vec![11])));
}

#[test]
fn factors_with_coefficients() {
    // 23 * 41 = 943 with |3p - 2q| small: k = 6, a = ceil(sqrt(6 * 943)).
    let n = vec![3u8, 0xaf];  // 943
    let pq = challenge(&n, 4, Some((6, 4)));
    if let Some((p, q)) = pq {
        // The checked product must be the modulus itself.
        let pv = p.iter().fold(0u64, |a, &b| a * 256 + b as u64);
        let qv = q.iter().fold(0u64, |a, &b| a * 256 + b as u64);
        assert_eq!(pv * qv, 943);
    }
}

#[test]
fn modular_inverse() {
    assert_eq!(inverse_mod(&vec![3], &vec![7]), Some(vec![5]));
    assert_eq!(inverse_mod(&vec![2], &vec![4]), None);
}

#[test]
fn meet_in_the_middle_small() {
    // 5^13 = 21 mod 23; with bound 4, 13 = 3 * 4 + 1.
    let mim = MeetInTheMiddle::with_bound(vec![23], vec![5], vec![21], 4);
    assert_eq!(mim.solve(), Some((3, 1)));
}

#[test]
fn meet_in_the_middle_out_of_range() {
    // 5^13 = 21 mod 23, but with bound 2 only exponents below 6 are
    // reachable, so the search comes back empty.
    let mim = MeetInTheMiddle::with_bound(vec![23], vec![5], vec![21], 2);
    assert_eq!(mim.solve(), None);
}
