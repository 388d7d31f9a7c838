//! Fermat-style factoring of RSA moduli whose prime factors lie close
//! together: search for an `a` near the square root of (a multiple of)
//! the modulus such that `a^2 - kN` is a perfect square, and read the
//! factors off the difference of squares. Arbitrary-precision numbers are
//! carried as big-endian byte vectors; num-bigint does the arithmetic
//! behind trusted wrappers whose contracts speak of the numeric value.

use vstd::prelude::*;

use num_bigint::{BigInt, BigUint, Sign};
use num_integer::Integer;

verus! {

/// The number a big-endian byte sequence denotes.
pub open spec fn value_of(s: Seq<u8>) -> nat
    decreases s.len(),
{
    if s.len() == 0 {
        0
    } else {
        value_of(s.drop_last()) * 256 + s.last() as nat
    }
}

/// A one-byte sequence denotes its byte.
pub proof fn lemma_value_single(s: Seq<u8>)
    requires
        s.len() == 1,
    ensures
        value_of(s) == s[0],
{
    assert(s.drop_last() =~= Seq::<u8>::empty());
    assert(value_of(Seq::<u8>::empty()) == 0);
    assert(s.last() == s[0]);
}

/// A perfect square.
pub open spec fn is_square(n: int) -> bool {
    exists|r: int| r >= 0 && #[trigger] (r * r) == n
}

/// The square root of `n` rounded up: the least `r` with `r * r >= n`.
pub open spec fn sqrt_ceil(n: nat) -> nat {
    choose|r: nat| #[trigger] (r * r) >= n && (r == 0 || (r - 1) * (r - 1) < n)
}

/// Any value meeting the rounded-up square root's two bounds is it.
pub proof fn lemma_sqrt_ceil_unique(n: nat, r: nat)
    requires
        r * r >= n,
        r == 0 || (r - 1) * (r - 1) < n,
    ensures
        sqrt_ceil(n) == r,
{
    assert(exists|c: nat| #[trigger] (c * c) >= n && (c == 0 || (c - 1) * (c - 1) < n)) by {
        assert(r * r >= n && (r == 0 || (r - 1) * (r - 1) < n));
    }
    let c = choose|c: nat| #[trigger] (c * c) >= n && (c == 0 || (c - 1) * (c - 1) < n);
    if c < r {
        assert(c * c <= (r - 1) * (r - 1)) by (nonlinear_arith)
            requires
                c <= r - 1,
                r >= 1,
        ;
        assert(false);
    }
    if c > r {
        assert(r * r <= (c - 1) * (c - 1)) by (nonlinear_arith)
            requires
                r <= c - 1,
                c >= 1,
        ;
        assert(false);
    }
}

/// The greatest common divisor, by Euclid's recursion.
pub open spec fn gcd(a: nat, b: nat) -> nat
    decreases b,
{
    if b == 0 {
        a
    } else {
        gcd(b, a % b)
    }
}

/// The factor multiplier the coefficients stand for.
pub open spec fn coeff_k(coeffs: Option<(u32, u32)>) -> int {
    match coeffs {
        None => 1,
        Some(cs) => cs.0 * cs.1,
    }
}

/// Relies on num-bigint's `from_bytes_be`, `*` and `to_bytes_be`: the
/// product of the two values.
#[verifier::external_body]
fn big_mul(a: &Vec<u8>, b: &Vec<u8>) -> (r: Vec<u8>)
    ensures
        value_of(r@) == value_of(a@) * value_of(b@),
{
    (BigUint::from_bytes_be(a.as_slice()) * BigUint::from_bytes_be(b.as_slice())).to_bytes_be()
}

/// Relies on num-bigint's `from_bytes_be`, `+` and `to_bytes_be`: the sum
/// of the two values.
#[verifier::external_body]
fn big_add(a: &Vec<u8>, b: &Vec<u8>) -> (r: Vec<u8>)
    ensures
        value_of(r@) == value_of(a@) + value_of(b@),
{
    (BigUint::from_bytes_be(a.as_slice()) + BigUint::from_bytes_be(b.as_slice())).to_bytes_be()
}

/// Relies on num-bigint's `from_bytes_be`, `-` and `to_bytes_be`: the
/// difference of the two values, which must not go below zero.
#[verifier::external_body]
fn big_sub(a: &Vec<u8>, b: &Vec<u8>) -> (r: Vec<u8>)
    requires
        value_of(b@) <= value_of(a@),
    ensures
        value_of(r@) == value_of(a@) - value_of(b@),
{
    (BigUint::from_bytes_be(a.as_slice()) - BigUint::from_bytes_be(b.as_slice())).to_bytes_be()
}

/// Relies on num-bigint's `from_bytes_be`, `*` and `to_bytes_be`: the
/// value scaled by a small constant.
#[verifier::external_body]
fn big_mul_u32(a: &Vec<u8>, k: u32) -> (r: Vec<u8>)
    ensures
        value_of(r@) == value_of(a@) * k,
{
    (BigUint::from_bytes_be(a.as_slice()) * BigUint::from(k)).to_bytes_be()
}

/// Relies on num-bigint's `from_bytes_be`, `+` and `to_bytes_be`: the
/// value plus a small constant.
#[verifier::external_body]
fn big_add_u32(a: &Vec<u8>, k: u32) -> (r: Vec<u8>)
    ensures
        value_of(r@) == value_of(a@) + k,
{
    (BigUint::from_bytes_be(a.as_slice()) + BigUint::from(k)).to_bytes_be()
}

/// Relies on num-bigint's `from_bytes_be`, `/` and `to_bytes_be`: the
/// value divided by a small nonzero constant, rounded down.
#[verifier::external_body]
fn big_div_u32(a: &Vec<u8>, k: u32) -> (r: Vec<u8>)
    requires
        k >= 1,
    ensures
        value_of(r@) == value_of(a@) / (k as nat),
{
    (BigUint::from_bytes_be(a.as_slice()) / BigUint::from(k)).to_bytes_be()
}

/// Relies on num-bigint's `sqrt`: the truncated principal square root.
#[verifier::external_body]
fn big_sqrt_floor(a: &Vec<u8>) -> (r: Vec<u8>)
    ensures
        value_of(r@) * value_of(r@) <= value_of(a@),
        value_of(a@) < (value_of(r@) + 1) * (value_of(r@) + 1),
{
    BigUint::from_bytes_be(a.as_slice()).sqrt().to_bytes_be()
}

/// Relies on num-bigint's `from_bytes_be` and `==`: value equality.
#[verifier::external_body]
pub(crate) fn big_eq(a: &Vec<u8>, b: &Vec<u8>) -> (r: bool)
    ensures
        r == (value_of(a@) == value_of(b@)),
{
    BigUint::from_bytes_be(a.as_slice()) == BigUint::from_bytes_be(b.as_slice())
}

/// Relies on num-integer's `extended_gcd` on signed big integers and
/// `mod_floor`: returns the greatest common divisor `g` of the two values
/// and a coefficient `x` below the modulus with `a * x` congruent to `g`
/// modulo `m`.
#[verifier::external_body]
fn big_bezout(a: &Vec<u8>, m: &Vec<u8>) -> (r: (Vec<u8>, Vec<u8>))
    requires
        value_of(m@) >= 1,
    ensures
        (value_of(a@) * value_of(r.1@)) % value_of(m@) == value_of(r.0@) % value_of(m@),
        value_of(r.1@) < value_of(m@),
        value_of(r.0@) >= 1,
        value_of(r.0@) == gcd(value_of(a@), value_of(m@)),
{
    let elem = BigInt::from_biguint(Sign::Plus, BigUint::from_bytes_be(a.as_slice()));
    let m_int = BigInt::from_biguint(Sign::Plus, BigUint::from_bytes_be(m.as_slice()));
    let ext = elem.extended_gcd(&m_int);
    let x = ext.x.mod_floor(&m_int);
    (ext.gcd.to_biguint().unwrap().to_bytes_be(), x.to_biguint().unwrap().to_bytes_be())
}

/// The least square root of `x` rounded up, and whether `x` is itself a
/// perfect square.
pub fn ceil_sqrt(x: &Vec<u8>) -> (r: (Vec<u8>, bool))
    ensures
        r.1 == (value_of(r.0@) * value_of(r.0@) == value_of(x@)),
        value_of(r.0@) * value_of(r.0@) >= value_of(x@),
        value_of(r.0@) == 0 || (value_of(r.0@) as int - 1) * (value_of(r.0@) as int - 1)
            < value_of(x@),
        value_of(r.0@) == sqrt_ceil(value_of(x@)),
        value_of(x@) == 0 ==> value_of(r.0@) == 0,
{
    let s = big_sqrt_floor(x);
    let s2 = big_mul(&s, &s);
    if big_eq(&s2, x) {
        proof {
            let sv = value_of(s@) as int;
            let xv = value_of(x@) as int;
            if xv > 0 {
                assert(sv * sv == xv);
                assert(sv >= 1) by (nonlinear_arith)
                    requires
                        sv * sv == xv,
                        xv > 0,
                        sv >= 0,
                ;
                assert((sv - 1) * (sv - 1) < sv * sv) by (nonlinear_arith)
                    requires
                        sv >= 1,
                ;
            } else {
                assert(sv == 0) by (nonlinear_arith)
                    requires
                        sv * sv <= xv,
                        xv == 0,
                        sv >= 0,
                ;
            }
            lemma_sqrt_ceil_unique(value_of(x@), value_of(s@));
        }
        (s, true)
    } else {
        let c = big_add_u32(&s, 1);
        proof {
            let sv = value_of(s@) as int;
            let cv = value_of(c@) as int;
            let xv = value_of(x@) as int;
            assert(cv == sv + 1);
            assert(sv * sv < xv);
            assert(xv < cv * cv);
            assert(cv * cv != xv);
            assert((cv - 1) * (cv - 1) == sv * sv);
            lemma_sqrt_ceil_unique(value_of(x@), value_of(c@));
        }
        (c, false)
    }
}

/// Searches for a difference-of-squares factorisation of `modulus`: with
/// `k = i * j` (1 when no coefficients are given), tries `a` upward from
/// the rounded-up square root of `k * modulus`; when `a^2 - k * modulus`
/// is a perfect square `x^2`, returns `(a - x) / i` and `(a + x) / j`
/// with the number of values of `a` tried. Without coefficients the two
/// returned factors multiply back to the modulus exactly.
pub fn find_factors(modulus: &Vec<u8>, max_tries: u32, coeffs: Option<(u32, u32)>) -> (r: Option<
    (Vec<u8>, Vec<u8>, u32),
>)
    requires
        (coeffs matches Some(cs) ==> 1 <= cs.0 && 1 <= cs.1 && cs.0 * cs.1 <= u32::MAX),
    ensures
        (r matches Some(pqt) ==> 1 <= pqt.2 <= max_tries),
        coeffs is None ==> (r matches Some(pqt) ==> value_of(pqt.0@) * value_of(pqt.1@)
            == value_of(modulus@) && value_of(pqt.0@) <= value_of(pqt.1@)),
        r is None ==> forall|t2: int|
            0 <= t2 < max_tries ==> !(#[trigger] is_square(
                (sqrt_ceil((value_of(modulus@) * coeff_k(coeffs)) as nat) + t2) * (sqrt_ceil(
                    (value_of(modulus@) * coeff_k(coeffs)) as nat,
                ) + t2) - value_of(modulus@) * coeff_k(coeffs),
            )),
{
    let (i_c, j_c, k_c): (u32, u32, u32) = match coeffs {
        None => { (1, 1, 1) },
        Some((ci, cj)) => { (ci, cj, ci * cj) },
    };
    proof {
        assert(k_c == coeff_k(coeffs));
    }
    let kn = big_mul_u32(modulus, k_c);
    let ghost knv = value_of(kn@);
    let (mut a, _) = ceil_sqrt(&kn);
    let mut t: u32 = 0;
    while t < max_tries
        invariant
            value_of(kn@) == knv,
            knv == value_of(modulus@) * coeff_k(coeffs),
            value_of(a@) * value_of(a@) >= value_of(kn@),
            value_of(a@) == sqrt_ceil(knv) + t,
            coeffs is None ==> (i_c == 1 && j_c == 1 && k_c == 1),
            1 <= i_c && 1 <= j_c,
            t <= max_tries,
            forall|t2: int|
                0 <= t2 < t ==> !(#[trigger] is_square(
                    (sqrt_ceil(knv) + t2) * (sqrt_ceil(knv) + t2) - knv,
                )),
        decreases max_tries - t,
    {
        let a2 = big_mul(&a, &a);
        let diff = big_sub(&a2, &kn);
        let (x, exact) = ceil_sqrt(&diff);
        if exact {
            proof {
                let av = value_of(a@) as int;
                let xv = value_of(x@) as int;
                let knv = value_of(kn@) as int;
                assert(xv * xv == av * av - knv);
                assert(xv <= av) by (nonlinear_arith)
                    requires
                        xv * xv <= av * av,
                        xv >= 0,
                        av >= 0,
                ;
            }
            let p_raw = big_sub(&a, &x);
            let q_raw = big_add(&a, &x);
            let p = big_div_u32(&p_raw, i_c);
            let q = big_div_u32(&q_raw, j_c);
            proof {
                if coeffs is None {
                    let av = value_of(a@) as int;
                    let xv = value_of(x@) as int;
                    assert((av - xv) * (av + xv) == av * av - xv * xv) by (nonlinear_arith);
                    assert(value_of(p_raw@) * value_of(q_raw@) == value_of(modulus@));
                    assert(value_of(p_raw@) <= value_of(q_raw@));
                    assert(value_of(p@) == value_of(p_raw@) / 1nat);
                    assert(value_of(q@) == value_of(q_raw@) / 1nat);
                }
            }
            return Some((p, q, t + 1));
        }
        proof {
            let av = value_of(a@) as int;
            let xv = value_of(x@) as int;
            let dv = av * av - knv;
            assert(value_of(diff@) == dv);
            assert(!is_square(dv)) by {
                if is_square(dv) {
                    let sv = choose|sv: int| sv >= 0 && #[trigger] (sv * sv) == dv;
                    if xv == 0 {
                        assert(sv * sv <= 0) by (nonlinear_arith)
                            requires
                                sv * sv == dv,
                                dv <= xv * xv,
                                xv == 0,
                        ;
                        assert(sv == 0) by (nonlinear_arith)
                            requires
                                sv * sv <= 0,
                                sv >= 0,
                        ;
                        assert(false);
                    } else {
                        assert(sv <= xv) by (nonlinear_arith)
                            requires
                                sv * sv <= xv * xv,
                                sv >= 0,
                                xv >= 0,
                        ;
                        assert(sv >= xv) by (nonlinear_arith)
                            requires
                                (xv - 1) * (xv - 1) < sv * sv,
                                sv >= 0,
                                xv >= 1,
                        ;
                        assert(false);
                    }
                }
            }
        }
        let a_next = big_add_u32(&a, 1);
        proof {
            let av = value_of(a@) as int;
            let nv = value_of(a_next@) as int;
            assert(nv * nv >= av * av) by (nonlinear_arith)
                requires
                    nv == av + 1,
                    av >= 0,
            ;
        }
        a = a_next;
        t = t + 1;
    }
    None
}

/// Factors one challenge modulus and hands the factors back only after
/// checking that they multiply back to the modulus.
pub fn challenge(modulus: &Vec<u8>, max_tries: u32, coeffs: Option<(u32, u32)>) -> (r: Option<
    (Vec<u8>, Vec<u8>),
>)
    requires
        (coeffs matches Some(cs) ==> 1 <= cs.0 && 1 <= cs.1 && cs.0 * cs.1 <= u32::MAX),
    ensures
        (r matches Some(pq) ==> value_of(pq.0@) * value_of(pq.1@) == value_of(modulus@)),
        coeffs is None ==> (r matches Some(pq) ==> value_of(pq.0@) <= value_of(pq.1@)),
        coeffs is None ==> (r is None ==> forall|t2: int|
            0 <= t2 < max_tries ==> !(#[trigger] is_square(
                (sqrt_ceil(value_of(modulus@)) + t2) * (sqrt_ceil(value_of(modulus@)) + t2)
                    - value_of(modulus@),
            ))),
{
    match find_factors(modulus, max_tries, coeffs) {
        None => {
            proof {
                if coeffs is None {
                    assert((value_of(modulus@) * coeff_k(coeffs)) as nat == value_of(modulus@));
                    assert forall|t2: int| 0 <= t2 < max_tries implies !(#[trigger] is_square(
                        (sqrt_ceil(value_of(modulus@)) + t2) * (sqrt_ceil(value_of(modulus@))
                            + t2) - value_of(modulus@),
                    )) by {
                        assert(!is_square(
                            (sqrt_ceil((value_of(modulus@) * coeff_k(coeffs)) as nat) + t2) * (
                            sqrt_ceil((value_of(modulus@) * coeff_k(coeffs)) as nat) + t2)
                                - value_of(modulus@) * coeff_k(coeffs),
                        ));
                    }
                }
            }
            None
        },
        Some((p, q, _tries)) => {
            let prod = big_mul(&p, &q);
            if big_eq(&prod, modulus) {
                Some((p, q))
            } else {
                proof {
                    assert(!(coeffs is None));
                }
                None
            }
        },
    }
}

/// The inverse of `a` modulo `modulus`, when the two are coprime: the
/// returned value lies below the modulus and multiplies with `a` to one
/// modulo the modulus.
pub fn inverse_mod(a: &Vec<u8>, modulus: &Vec<u8>) -> (r: Option<Vec<u8>>)
    requires
        value_of(modulus@) >= 1,
    ensures
        (r matches Some(x) ==> (value_of(a@) * value_of(x@)) % value_of(modulus@) == 1nat
            % value_of(modulus@)),
        (r matches Some(x) ==> value_of(x@) < value_of(modulus@)),
        r is None <==> gcd(value_of(a@), value_of(modulus@)) != 1,
{
    let (g, x) = big_bezout(a, modulus);
    let one: Vec<u8> = vec![1u8];
    proof {
        lemma_value_single(one@);
    }
    if big_eq(&g, &one) {
        Some(x)
    } else {
        None
    }
}

} // verus!
