//! Blocks, PKCS padding, the candidate guess set, and forged blocks:
//! the byte-level material of the padding-oracle attack.

use vstd::prelude::*;

verus! {

/// The cipher block size in bytes.
pub const BLOCK_LEN: usize = 16;

/// The last `p` bytes of `b` all hold the value `p`, a legal pad length.
pub open spec fn pkcs_valid_with(b: Seq<u8>, p: int) -> bool {
    1 <= p <= BLOCK_LEN && p <= b.len() && (forall|i: int|
        b.len() - p <= i < b.len() ==> b[i] == p as u8)
}

/// A byte sequence ends in well-formed PKCS padding: for some pad value
/// `p` between 1 and the block size, the last `p` bytes all equal `p`.
pub open spec fn pkcs_valid(b: Seq<u8>) -> bool {
    exists|p: int| #[trigger] pkcs_valid_with(b, p)
}

/// Pointwise XOR of two equal-length byte sequences.
pub open spec fn seq_xor(a: Seq<u8>, b: Seq<u8>) -> Seq<u8>
    recommends
        a.len() == b.len(),
{
    Seq::new(a.len(), |i: int| a[i] ^ b[i])
}

/// The guess values the search enumerates, in increasing order: the pad
/// range 1..=16, the space character, and the Latin letter ranges. The
/// target plaintext is assumed to be printable text, so the full byte
/// range is not tried.
pub open spec fn is_candidate(g: u8) -> bool {
    (1 <= g <= 16) || g == 32 || (65 <= g <= 90) || (97 <= g <= 122)
}

/// How many candidate guess values lie strictly below `h`; 69 in all.
pub open spec fn cand_count_below(h: int) -> int {
    if h <= 1 {
        0
    } else if h <= 17 {
        h - 1
    } else if h <= 32 {
        16
    } else if h <= 65 {
        17
    } else if h <= 91 {
        17 + h - 65
    } else if h <= 97 {
        43
    } else if h <= 123 {
        43 + h - 97
    } else {
        69
    }
}

pub proof fn lemma_cand_count_bounds(h: int)
    ensures
        0 <= cand_count_below(h) <= 69,
{
}

pub proof fn lemma_cand_count_mono(h1: int, h2: int)
    requires
        h1 <= h2,
    ensures
        cand_count_below(h1) <= cand_count_below(h2),
{
}

pub proof fn lemma_cand_count_step(h: u8)
    ensures
        is_candidate(h) ==> cand_count_below(h + 1) == cand_count_below(h as int) + 1,
        !is_candidate(h) ==> cand_count_below(h + 1) == cand_count_below(h as int),
{
}

/// `s` read back to front.
pub open spec fn reversed(s: Seq<u8>) -> Seq<u8> {
    Seq::new(s.len(), |i: int| s[s.len() - 1 - i])
}

/// The discovered bytes agree with the true plaintext block `m`:
/// `disc[i]` is the plaintext byte at position `BLOCK_LEN - 1 - i`
/// (bytes are discovered from the end of the block backwards).
pub open spec fn suffix_correct(disc: Seq<u8>, m: Seq<u8>) -> bool {
    forall|i: int| 0 <= i < disc.len() ==> disc[i] == m[BLOCK_LEN - 1 - i]
}

/// The forged previous block submitted for guess `g`: positions already
/// discovered are patched so their decryption becomes the expected pad
/// value, the probed position is patched with `g`, and earlier positions
/// keep the real previous block's bytes.
pub open spec fn forge_spec(prev: Seq<u8>, disc: Seq<u8>, g: u8) -> Seq<u8>
    recommends
        prev.len() == BLOCK_LEN,
        disc.len() < BLOCK_LEN,
{
    let pad = (disc.len() + 1) as u8;
    let j = BLOCK_LEN - disc.len() - 1;
    Seq::new(
        BLOCK_LEN as nat,
        |i: int|
            if i < j {
                prev[i]
            } else if i == j {
                prev[i] ^ g ^ pad
            } else {
                prev[i] ^ disc[BLOCK_LEN - 1 - i] ^ pad
            },
    )
}

/// The last block the oracle sees after decrypting the forged pair: CBC
/// decryption of the target against the real previous block yields `m`,
/// so against the forged block it yields `forged XOR prev XOR m` bytewise.
pub open spec fn forged_plain(prev: Seq<u8>, m: Seq<u8>, disc: Seq<u8>, g: u8) -> Seq<u8> {
    seq_xor(seq_xor(forge_spec(prev, disc, g), prev), m)
}

/// No candidate below the block's true final byte already yields valid
/// padding when probed at the final position: the byte-discovery search
/// needs no backtracking on such a block.
pub open spec fn no_false_start(m: Seq<u8>) -> bool
    recommends
        m.len() == BLOCK_LEN,
{
    forall|g: u8|
        #[trigger] is_candidate(g) && g < m[BLOCK_LEN - 1] ==> !pkcs_valid(
            m.take(BLOCK_LEN - 1).push(m[BLOCK_LEN - 1] ^ g ^ 1),
        )
}

/// What the forgery decrypts to, position by position.
pub proof fn lemma_forged_plain(prev: Seq<u8>, m: Seq<u8>, disc: Seq<u8>, g: u8)
    requires
        prev.len() == BLOCK_LEN,
        m.len() == BLOCK_LEN,
        disc.len() < BLOCK_LEN,
    ensures
        forged_plain(prev, m, disc, g).len() == BLOCK_LEN,
        forall|i: int|
            0 <= i < BLOCK_LEN - disc.len() - 1 ==> forged_plain(prev, m, disc, g)[i] == m[i],
        forged_plain(prev, m, disc, g)[BLOCK_LEN - disc.len() - 1] == m[BLOCK_LEN - disc.len()
            - 1] ^ g ^ ((disc.len() + 1) as u8),
        forall|i: int|
            BLOCK_LEN - disc.len() <= i < BLOCK_LEN ==> forged_plain(prev, m, disc, g)[i] == m[i]
                ^ disc[BLOCK_LEN - 1 - i] ^ ((disc.len() + 1) as u8),
{
    let pad = (disc.len() + 1) as u8;
    let j = BLOCK_LEN - disc.len() - 1;
    let plain = forged_plain(prev, m, disc, g);
    assert forall|i: int| 0 <= i < j implies plain[i] == m[i] by {
        let a = prev[i];
        let d = m[i];
        assert((a ^ a) ^ d == d) by (bit_vector);
    }
    assert(plain[j] == m[j] ^ g ^ pad) by {
        let a = prev[j];
        let d = m[j];
        assert(((a ^ g ^ pad) ^ a) ^ d == d ^ g ^ pad) by (bit_vector);
    }
    assert forall|i: int| BLOCK_LEN - disc.len() <= i < BLOCK_LEN implies plain[i] == m[i]
        ^ disc[BLOCK_LEN - 1 - i] ^ pad by {
        let a = prev[i];
        let d = m[i];
        let e = disc[BLOCK_LEN - 1 - i];
        assert(((a ^ e ^ pad) ^ a) ^ d == d ^ e ^ pad) by (bit_vector);
    }
}

/// With the discovered suffix correct and at least one byte discovered,
/// the oracle-visible padding of the forgery is valid exactly for the
/// guess equal to the block's true byte at the probed position.
pub proof fn lemma_guess_unique(prev: Seq<u8>, m: Seq<u8>, disc: Seq<u8>, g: u8)
    requires
        prev.len() == BLOCK_LEN,
        m.len() == BLOCK_LEN,
        1 <= disc.len() < BLOCK_LEN,
        suffix_correct(disc, m),
    ensures
        pkcs_valid(forged_plain(prev, m, disc, g)) <==> g == m[BLOCK_LEN - disc.len() - 1],
{
    let pad = (disc.len() + 1) as u8;
    let j = BLOCK_LEN - disc.len() - 1;
    let plain = forged_plain(prev, m, disc, g);
    lemma_forged_plain(prev, m, disc, g);
    assert forall|i: int| j < i < BLOCK_LEN implies plain[i] == pad by {
        assert(disc[BLOCK_LEN - 1 - i] == m[i]);
        let d = m[i];
        assert(d ^ d ^ pad == pad) by (bit_vector);
    }
    if g == m[j] {
        let d = m[j];
        assert(d ^ d ^ pad == pad) by (bit_vector);
        assert(pkcs_valid_with(plain, pad as int));
    }
    if pkcs_valid(plain) {
        let p = choose|p: int| pkcs_valid_with(plain, p);
        assert(plain[BLOCK_LEN - 1] == p as u8);
        assert(plain[BLOCK_LEN - 1] == pad);
        assert(1 <= pad <= BLOCK_LEN);
        assert(p == pad as int);
        assert(plain[j] == p as u8);
        let d = m[j];
        assert(d ^ g ^ pad == pad ==> g == d) by (bit_vector);
    }
}

/// Probing the final position with the block's true final byte always
/// yields valid padding of length one.
pub proof fn lemma_final_guess_accepts(prev: Seq<u8>, m: Seq<u8>, disc: Seq<u8>, g: u8)
    requires
        prev.len() == BLOCK_LEN,
        m.len() == BLOCK_LEN,
        disc.len() == 0,
        g == m[BLOCK_LEN - 1],
    ensures
        pkcs_valid(forged_plain(prev, m, disc, g)),
{
    let plain = forged_plain(prev, m, disc, g);
    lemma_forged_plain(prev, m, disc, g);
    let d = m[BLOCK_LEN - 1];
    assert(d ^ d ^ 1 == 1) by (bit_vector);
    assert((disc.len() + 1) as u8 == 1);
    assert(pkcs_valid_with(plain, 1));
}

/// With nothing discovered yet, the forgery's decryption is the block
/// itself with only its final byte disturbed by the guess.
pub proof fn lemma_final_plain_shape(prev: Seq<u8>, m: Seq<u8>, disc: Seq<u8>, g: u8)
    requires
        prev.len() == BLOCK_LEN,
        m.len() == BLOCK_LEN,
        disc.len() == 0,
    ensures
        forged_plain(prev, m, disc, g) == m.take(BLOCK_LEN - 1).push(m[BLOCK_LEN - 1] ^ g ^ 1),
{
    lemma_forged_plain(prev, m, disc, g);
    assert((disc.len() + 1) as u8 == 1);
    assert(forged_plain(prev, m, disc, g) =~= m.take(BLOCK_LEN - 1).push(
        m[BLOCK_LEN - 1] ^ g ^ 1,
    ));
}

/// Decides membership in the candidate guess set.
pub fn candidate_check(g: u8) -> (r: bool)
    ensures
        r == is_candidate(g),
{
    (1 <= g && g <= 16) || g == 32 || (65 <= g && g <= 90) || (97 <= g && g <= 122)
}

/// The smallest candidate guess value that is at least `start`, if any.
pub fn first_candidate_from(start: u8) -> (r: Option<u8>)
    ensures
        match r {
            Some(g) => is_candidate(g) && g >= start && (forall|h: u8|
                start <= h < g ==> !is_candidate(h)),
            None => forall|h: u8| h >= start ==> !is_candidate(h),
        },
{
    let mut g: u8 = start;
    loop
        invariant
            start <= g,
            forall|h: u8| start <= h < g ==> !is_candidate(h),
        decreases 255 - g,
    {
        if g > 122 {
            return None;
        }
        if candidate_check(g) {
            return Some(g);
        }
        g = g + 1;
    }
}

} // verus!
