//! Recovery of a repeated XOR key from several ciphertexts encrypted
//! under it: wherever two ciphertext pairs XOR to an alphabetic byte at
//! the same position, the shared plaintext byte there was most likely a
//! space, which betrays the key byte.

use vstd::prelude::*;

verus! {

/// An ASCII Latin letter.
pub open spec fn is_ascii_alpha(x: u8) -> bool {
    (65 <= x <= 90) || (97 <= x <= 122)
}

/// The smallest of three lengths.
pub open spec fn min3(a: int, b: int, c: int) -> int {
    if a <= b && a <= c {
        a
    } else if b <= c {
        b
    } else {
        c
    }
}

/// One key byte as a `find_key` pass settles it: an already-settled
/// (nonzero) byte is kept; otherwise, if two of the pairwise XORs are
/// alphabetic, the ciphertext common to both pairs is XORed with a space.
pub open spec fn find_key_byte(k: u8, a: u8, b: u8, c: u8) -> u8 {
    if k != 0 {
        k
    } else {
        let ab = is_ascii_alpha(a ^ b);
        let ac = is_ascii_alpha(a ^ c);
        let bc = is_ascii_alpha(b ^ c);
        if ab && ac {
            a ^ 32
        } else if ab && bc {
            b ^ 32
        } else if bc && ac {
            c ^ 32
        } else {
            k
        }
    }
}

/// The whole key after one `find_key` pass over a ciphertext triple:
/// positions past the shortest ciphertext are untouched.
pub open spec fn find_key_spec(key: Seq<u8>, c1: Seq<u8>, c2: Seq<u8>, c3: Seq<u8>) -> Seq<u8> {
    let mlen = min3(c1.len() as int, c2.len() as int, c3.len() as int);
    Seq::new(
        key.len(),
        |i: int|
            if i < mlen {
                find_key_byte(key[i], c1[i], c2[i], c3[i])
            } else {
                key[i]
            },
    )
}

/// The key after `find_key` passes over every index triple `i < j < k`,
/// visited in the order of the nested loops of `recover_key`, starting
/// from the given triple.
pub open spec fn recover_from(key: Seq<u8>, cts: Seq<Seq<u8>>, i: int, j: int, k: int) -> Seq<u8>
    decreases cts.len() - i, cts.len() - j, cts.len() - k
    when 0 <= i && i < j && j < k
{
    let n = cts.len() as int;
    if i >= n - 2 {
        key
    } else if j >= n - 1 {
        recover_from(key, cts, i + 1, i + 2, i + 3)
    } else if k >= n {
        recover_from(key, cts, i, j + 1, j + 2)
    } else {
        recover_from(find_key_spec(key, cts[i], cts[j], cts[k]), cts, i, j, k + 1)
    }
}

/// Decides whether a byte is an ASCII Latin letter.
pub fn alpha_check(x: u8) -> (r: bool)
    ensures
        r == is_ascii_alpha(x),
{
    (65 <= x && x <= 90) || (97 <= x && x <= 122)
}

/// Settles key bytes from one triple of ciphertexts: wherever the byte is
/// still unknown (zero) and two pairwise XORs are alphabetic, the
/// ciphertext common to both pairs is XORed with the space character.
pub fn find_key(key: &mut Vec<u8>, c1: &Vec<u8>, c2: &Vec<u8>, c3: &Vec<u8>)
    requires
        old(key)@.len() >= min3(c1@.len() as int, c2@.len() as int, c3@.len() as int),
    ensures
        final(key)@ == find_key_spec(old(key)@, c1@, c2@, c3@),
{
    let mut min_len = c1.len();
    if c2.len() < min_len {
        min_len = c2.len();
    }
    if c3.len() < min_len {
        min_len = c3.len();
    }
    let ghost mlen = min3(c1@.len() as int, c2@.len() as int, c3@.len() as int);
    assert(min_len == mlen);
    let mut i: usize = 0;
    while i < min_len
        invariant
            min_len == mlen,
            mlen <= c1@.len() && mlen <= c2@.len() && mlen <= c3@.len(),
            key@.len() == old(key)@.len(),
            key@.len() >= mlen,
            i <= min_len,
            forall|t: int|
                0 <= t < i ==> key@[t] == find_key_byte(old(key)@[t], c1@[t], c2@[t], c3@[t]),
            forall|t: int| i <= t < key@.len() ==> key@[t] == old(key)@[t],
        decreases min_len - i,
    {
        if key[i] == 0 {
            let c12 = alpha_check(c1[i] ^ c2[i]);
            let c13 = alpha_check(c1[i] ^ c3[i]);
            let c23 = alpha_check(c2[i] ^ c3[i]);
            if c12 && c13 {
                key.set(i, c1[i] ^ 32);
            } else if c12 && c23 {
                key.set(i, c2[i] ^ 32);
            } else if c23 && c13 {
                key.set(i, c3[i] ^ 32);
            }
        }
        i = i + 1;
    }
    proof {
        assert(key@ =~= find_key_spec(old(key)@, c1@, c2@, c3@));
    }
}

/// Runs `find_key` over every triple of distinct ciphertexts, in index
/// order, accumulating settled key bytes.
pub fn recover_key(key: &mut Vec<u8>, ciphertexts: &Vec<Vec<u8>>)
    requires
        ciphertexts@.len() >= 2,
        forall|t: int|
            0 <= t < ciphertexts@.len() ==> #[trigger] ciphertexts@[t]@.len() <= old(key)@.len(),
    ensures
        final(key)@ == recover_from(old(key)@, ciphertexts.deep_view(), 0, 1, 2),
{
    let ghost cv = ciphertexts.deep_view();
    let ghost goal = recover_from(old(key)@, cv, 0, 1, 2);
    let n = ciphertexts.len();
    proof {
        assert(cv.len() == n);
        assert forall|t: int| 0 <= t < n implies #[trigger] cv[t].len() <= old(key)@.len() by {
            assert(cv[t] == ciphertexts@[t]@);
        }
    }
    let mut i: usize = 0;
    while i < n - 2
        invariant
            cv == ciphertexts.deep_view(),
            cv.len() == n,
            2 <= n <= usize::MAX,
            forall|t: int| 0 <= t < n ==> #[trigger] cv[t].len() <= key@.len(),
            key@.len() == old(key)@.len(),
            i + 2 <= n,
            recover_from(key@, cv, i as int, i + 1, i + 2) == goal,
        decreases n - i,
    {
        let mut j: usize = i + 1;
        while j < n - 1
            invariant
                cv == ciphertexts.deep_view(),
                cv.len() == n,
                2 <= n <= usize::MAX,
                forall|t: int| 0 <= t < n ==> #[trigger] cv[t].len() <= key@.len(),
                key@.len() == old(key)@.len(),
                i < j,
                i + 2 < n,
                j + 1 <= n,
                recover_from(key@, cv, i as int, j as int, j + 1) == goal,
            decreases n - j,
        {
            let mut k: usize = j + 1;
            while k < n
                invariant
                    cv == ciphertexts.deep_view(),
                    cv.len() == n,
                    2 <= n <= usize::MAX,
                    forall|t: int| 0 <= t < n ==> #[trigger] cv[t].len() <= key@.len(),
                    key@.len() == old(key)@.len(),
                    i < j,
                    i + 2 < n,
                    j + 1 < n,
                    j < k,
                    k <= n,
                    recover_from(key@, cv, i as int, j as int, k as int) == goal,
                decreases n - k,
            {
                let ghost key0 = key@;
                proof {
                    assert(cv[i as int] == ciphertexts@[i as int]@);
                    assert(cv[j as int] == ciphertexts@[j as int]@);
                    assert(cv[k as int] == ciphertexts@[k as int]@);
                }
                find_key(key, &ciphertexts[i], &ciphertexts[j], &ciphertexts[k]);
                proof {
                    assert(key@ == find_key_spec(key0, cv[i as int], cv[j as int], cv[k as int]));
                    assert(recover_from(key0, cv, i as int, j as int, k as int) == recover_from(
                        key@,
                        cv,
                        i as int,
                        j as int,
                        k as int + 1,
                    ));
                }
                k = k + 1;
            }
            j = j + 1;
        }
        i = i + 1;
    }
    proof {
        assert(recover_from(key@, cv, i as int, i + 1, i + 2) == key@);
    }
}

/// The pointwise XOR of a ciphertext with the leading bytes of the key.
pub open spec fn xor_with_key(key: Seq<u8>, ct: Seq<u8>) -> Seq<u8> {
    Seq::new(ct.len(), |i: int| key[i] ^ ct[i])
}

/// Decrypts every ciphertext by XORing it with the recovered key.
pub fn decrypt(key: &Vec<u8>, ciphertexts: &Vec<Vec<u8>>) -> (r: Vec<Vec<u8>>)
    requires
        forall|t: int|
            0 <= t < ciphertexts@.len() ==> #[trigger] ciphertexts@[t]@.len() <= key@.len(),
    ensures
        r@.len() == ciphertexts@.len(),
        forall|t: int|
            0 <= t < r@.len() ==> #[trigger] r@[t]@ == xor_with_key(key@, ciphertexts@[t]@),
{
    let mut plaintexts: Vec<Vec<u8>> = Vec::new();
    let n = ciphertexts.len();
    let mut i: usize = 0;
    while i < n
        invariant
            ciphertexts@.len() == n,
            forall|t: int| 0 <= t < n ==> #[trigger] ciphertexts@[t]@.len() <= key@.len(),
            i <= n,
            plaintexts@.len() == i,
            forall|t: int|
                0 <= t < i ==> #[trigger] plaintexts@[t]@ == xor_with_key(
                    key@,
                    ciphertexts@[t]@,
                ),
        decreases n - i,
    {
        let ct = &ciphertexts[i];
        let m = ct.len();
        let mut row: Vec<u8> = Vec::new();
        let mut jx: usize = 0;
        while jx < m
            invariant
                ct@.len() == m,
                m <= key@.len(),
                jx <= m,
                row@.len() == jx,
                forall|t: int| 0 <= t < jx ==> row@[t] == key@[t] ^ ct@[t],
            decreases m - jx,
        {
            row.push(key[jx] ^ ct[jx]);
            jx = jx + 1;
        }
        proof {
            assert(row@ =~= xor_with_key(key@, ct@));
        }
        plaintexts.push(row);
        i = i + 1;
    }
    plaintexts
}

} // verus!
