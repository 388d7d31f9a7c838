//! The padding-oracle interface and local, fully verified oracles used to
//! exercise the attack: one that answers with the true PKCS validity of a
//! toy XOR cipher, and one that additionally reports a deliberate false
//! positive on a chosen candidate.

use vstd::prelude::*;

use crate::pad::{pkcs_valid, pkcs_valid_with, seq_xor, BLOCK_LEN};

verus! {

/// A padding oracle: one query sends a candidate ciphertext and yields a
/// boolean verdict. A reliable oracle's verdict is a pure predicate of the
/// candidate; an unreliable one (a remote endpoint behind a lossy
/// transport) promises nothing of its verdicts, and callers learn nothing
/// past the returned boolean.
pub trait PaddingOracle: Sized {
    /// Whether every verdict is trusted to equal `accepts`.
    spec fn reliable(&self) -> bool;

    /// The oracle's verdict predicate.
    spec fn accepts(&self, candidate: Seq<u8>) -> bool;

    /// How many queries have been issued so far.
    spec fn queries(&self) -> nat;

    /// One round trip: submit `candidate`, get the verdict.
    fn query(&mut self, candidate: &Vec<u8>) -> (r: bool)
        ensures
            old(self).reliable() ==> r == old(self).accepts(candidate@),
            final(self).reliable() == old(self).reliable(),
            forall|c: Seq<u8>| final(self).accepts(c) == old(self).accepts(c),
            old(self).queries() <= final(self).queries() <= old(self).queries() + 1,
    ;
}

/// Decides whether a byte vector ends in well-formed PKCS padding.
pub fn check_pkcs(b: &Vec<u8>) -> (r: bool)
    ensures
        r == pkcs_valid(b@),
{
    let n = b.len();
    if n == 0 {
        return false;
    }
    let p = b[n - 1];
    if p == 0 || p > 16 || (p as usize) > n {
        proof {
            if pkcs_valid(b@) {
                let q = choose|q: int| pkcs_valid_with(b@, q);
                assert(b@[n - 1] == q as u8);
                assert(false);
            }
        }
        return false;
    }
    let mut i: usize = n - (p as usize);
    while i < n
        invariant
            b@.len() == n,
            1 <= p <= 16,
            p as usize <= n,
            n - (p as usize) <= i <= n,
            b@[n - 1] == p,
            forall|k: int| n - (p as int) <= k < i ==> b@[k] == p,
        decreases n - i,
    {
        if b[i] != p {
            proof {
                if pkcs_valid(b@) {
                    let q = choose|q: int| pkcs_valid_with(b@, q);
                    assert(b@[n - 1] == q as u8);
                    assert(q == p as int);
                    assert(b@[i as int] == p);
                    assert(false);
                }
            }
            return false;
        }
        i = i + 1;
    }
    proof {
        assert(pkcs_valid_with(b@, p as int));
    }
    true
}

/// `first XOR second XOR key` over the two halves of a two-block candidate:
/// the toy cipher's decryption of the candidate's last block.
fn xor_halves(candidate: &Vec<u8>, key: &Vec<u8>) -> (r: Vec<u8>)
    requires
        candidate@.len() == 2 * BLOCK_LEN,
        key@.len() == BLOCK_LEN,
    ensures
        r@ == seq_xor(
            seq_xor(candidate@.take(BLOCK_LEN as int), candidate@.skip(BLOCK_LEN as int)),
            key@,
        ),
{
    let mut plain: Vec<u8> = Vec::new();
    let mut i: usize = 0;
    while i < BLOCK_LEN
        invariant
            candidate@.len() == 2 * BLOCK_LEN,
            key@.len() == BLOCK_LEN,
            i <= BLOCK_LEN,
            plain@.len() == i,
            forall|k: int|
                0 <= k < i ==> plain@[k] == candidate@[k] ^ candidate@[BLOCK_LEN + k] ^ key@[k],
        decreases BLOCK_LEN - i,
    {
        let v = candidate[i] ^ candidate[BLOCK_LEN + i] ^ key[i];
        plain.push(v);
        i = i + 1;
    }
    proof {
        assert(plain@ =~= seq_xor(
            seq_xor(candidate@.take(BLOCK_LEN as int), candidate@.skip(BLOCK_LEN as int)),
            key@,
        ));
    }
    plain
}

/// Compares two byte vectors for equality.
fn vecs_equal(a: &Vec<u8>, b: &Vec<u8>) -> (r: bool)
    ensures
        r == (a@ == b@),
{
    if a.len() != b.len() {
        return false;
    }
    let mut i: usize = 0;
    while i < a.len()
        invariant
            a@.len() == b@.len(),
            i <= a@.len(),
            forall|k: int| 0 <= k < i ==> a@[k] == b@[k],
        decreases a@.len() - i,
    {
        if a[i] != b[i] {
            return false;
        }
        i = i + 1;
    }
    proof {
        assert(a@ =~= b@);
    }
    true
}

/// A local simulated oracle over a toy cipher: "decryption" of the
/// two-block candidate is `first XOR second XOR key`, and the verdict is
/// the PKCS validity of that block. Deterministic, reliable, and counting
/// its queries.
pub struct XorOracle {
    pub key: Vec<u8>,
    pub count: u64,
}

impl XorOracle {
    /// A fresh oracle over the given key.
    pub fn new(key: Vec<u8>) -> (r: XorOracle)
        ensures
            r.key@ == key@,
            r.count == 0,
    {
        XorOracle { key, count: 0 }
    }

    /// How many queries this oracle has answered (saturating).
    pub fn query_count(&self) -> (r: u64)
        ensures
            r as nat == self.queries(),
    {
        self.count
    }
}

impl PaddingOracle for XorOracle {
    open spec fn reliable(&self) -> bool {
        true
    }

    open spec fn accepts(&self, candidate: Seq<u8>) -> bool {
        candidate.len() == 2 * BLOCK_LEN && self.key@.len() == BLOCK_LEN && pkcs_valid(
            seq_xor(
                seq_xor(candidate.take(BLOCK_LEN as int), candidate.skip(BLOCK_LEN as int)),
                self.key@,
            ),
        )
    }

    open spec fn queries(&self) -> nat {
        self.count as nat
    }

    fn query(&mut self, candidate: &Vec<u8>) -> (r: bool) {
        if self.count < u64::MAX {
            self.count = self.count + 1;
        }
        if candidate.len() != 2 * BLOCK_LEN || self.key.len() != BLOCK_LEN {
            return false;
        }
        let plain = xor_halves(candidate, &self.key);
        check_pkcs(&plain)
    }
}

/// A simulated oracle with one deliberate false positive: it answers as
/// `XorOracle` would, except that the single candidate `bait` is accepted
/// outright. Models the structural ambiguity of the final byte so that the
/// search's backtracking can be exercised.
pub struct FlawedOracle {
    pub key: Vec<u8>,
    pub bait: Vec<u8>,
    pub count: u64,
}

impl FlawedOracle {
    /// A fresh flawed oracle over the given key and baited candidate.
    pub fn new(key: Vec<u8>, bait: Vec<u8>) -> (r: FlawedOracle)
        ensures
            r.key@ == key@,
            r.bait@ == bait@,
            r.count == 0,
    {
        FlawedOracle { key, bait, count: 0 }
    }

    /// How many queries this oracle has answered (saturating).
    pub fn query_count(&self) -> (r: u64)
        ensures
            r as nat == self.queries(),
    {
        self.count
    }
}

impl PaddingOracle for FlawedOracle {
    open spec fn reliable(&self) -> bool {
        true
    }

    open spec fn accepts(&self, candidate: Seq<u8>) -> bool {
        candidate == self.bait@ || (candidate.len() == 2 * BLOCK_LEN && self.key@.len()
            == BLOCK_LEN && pkcs_valid(
            seq_xor(
                seq_xor(candidate.take(BLOCK_LEN as int), candidate.skip(BLOCK_LEN as int)),
                self.key@,
            ),
        ))
    }

    open spec fn queries(&self) -> nat {
        self.count as nat
    }

    fn query(&mut self, candidate: &Vec<u8>) -> (r: bool) {
        if self.count < u64::MAX {
            self.count = self.count + 1;
        }
        if vecs_equal(candidate, &self.bait) {
            return true;
        }
        if candidate.len() != 2 * BLOCK_LEN || self.key.len() != BLOCK_LEN {
            return false;
        }
        let plain = xor_halves(candidate, &self.key);
        check_pkcs(&plain)
    }
}

} // verus!
