//! A meet-in-the-middle discrete-logarithm search: to solve
//! `g^x = h mod p` with `x = x0 * B + x1` for a table bound `B`, first
//! tabulate `h * g^(-x1) mod p` for every `x1` below `B`, then walk
//! `(g^B)^x0` for `x0` upward until it meets a table entry. Numbers are
//! big-endian byte vectors; num-bigint computes behind trusted wrappers.

use vstd::prelude::*;

use crate::factoring::{big_eq, value_of};
use num_bigint::BigUint;
use std::collections::HashMap;
use vstd::arithmetic::div_mod::{lemma_add_mod_noop, lemma_mul_mod_noop_left, lemma_small_mod};

verus! {

broadcast use vstd::std_specs::hash::group_hash_axioms;

/// The low 64 bits of a value: what the side table is keyed by, so that
/// equal values always share a key.
pub open spec fn fp_of(s: Seq<u8>) -> u64 {
    (value_of(s) % 0x1_0000_0000_0000_0000) as u64
}

/// Computes the low 64 bits of the value a byte vector denotes.
fn fingerprint(s: &Vec<u8>) -> (r: u64)
    ensures
        r == fp_of(s@),
{
    let n = s.len();
    let mut acc: u64 = 0;
    let mut i: usize = 0;
    while i < n
        invariant
            n == s@.len(),
            i <= n,
            acc as nat == value_of(s@.take(i as int)) % 0x1_0000_0000_0000_0000,
        decreases n - i,
    {
        let ghost xm = value_of(s@.take(i as int)) as int;
        let ghost m = 0x1_0000_0000_0000_0000 as int;
        let b = s[i];
        let wide: u128 = (acc as u128) * 256 + (b as u128);
        let nacc: u64 = (wide % 0x1_0000_0000_0000_0000u128) as u64;
        proof {
            assert(s@.take(i as int + 1).drop_last() =~= s@.take(i as int));
            assert(s@.take(i as int + 1).last() == s@[i as int]);
            assert(value_of(s@.take(i as int + 1)) == xm * 256 + b);
            assert(((xm % m) * 256 + b) % m == (xm * 256 + b) % m) by {
                lemma_mul_mod_noop_left(xm, 256, m);
                lemma_add_mod_noop((xm % m) * 256, b as int, m);
                lemma_add_mod_noop(xm * 256, b as int, m);
            }
            assert(wide == (xm % m) * 256 + b);
            assert(nacc as int == ((xm % m) * 256 + b) % m);
        }
        acc = nacc;
        i = i + 1;
    }
    proof {
        assert(s@.take(n as int) =~= s@);
    }
    acc
}

/// `b^e mod m`, by repeated modular multiplication.
pub open spec fn pow_mod(b: nat, e: nat, m: nat) -> nat
    recommends
        m >= 1,
    decreases e,
{
    if e == 0 {
        1nat % m
    } else {
        (pow_mod(b, (e - 1) as nat, m) * b) % m
    }
}

/// Relies on num-bigint's `modpow`: modular exponentiation.
#[verifier::external_body]
fn big_modpow(b: &Vec<u8>, e: &Vec<u8>, m: &Vec<u8>) -> (r: Vec<u8>)
    requires
        value_of(m@) >= 1,
    ensures
        value_of(r@) == pow_mod(value_of(b@), value_of(e@), value_of(m@)),
{
    BigUint::from_bytes_be(b.as_slice()).modpow(
        &BigUint::from_bytes_be(e.as_slice()),
        &BigUint::from_bytes_be(m.as_slice()),
    ).to_bytes_be()
}

/// Relies on num-bigint's `*` and `%`: a modular product.
#[verifier::external_body]
fn big_mod_mul(a: &Vec<u8>, b: &Vec<u8>, m: &Vec<u8>) -> (r: Vec<u8>)
    requires
        value_of(m@) >= 1,
    ensures
        value_of(r@) == (value_of(a@) * value_of(b@)) % value_of(m@),
{
    ((BigUint::from_bytes_be(a.as_slice()) * BigUint::from_bytes_be(b.as_slice()))
        % BigUint::from_bytes_be(m.as_slice())).to_bytes_be()
}

/// Relies on num-bigint's `-` and `to_bytes_be`: the value minus two.
#[verifier::external_body]
fn big_sub_two(a: &Vec<u8>) -> (r: Vec<u8>)
    requires
        value_of(a@) >= 2,
    ensures
        value_of(r@) == value_of(a@) - 2,
{
    (BigUint::from_bytes_be(a.as_slice()) - BigUint::from(2u32)).to_bytes_be()
}

/// Relies on num-bigint's `from` and `to_bytes_be`: a small constant as
/// a byte vector.
#[verifier::external_body]
fn big_from_u32(k: u32) -> (r: Vec<u8>)
    ensures
        value_of(r@) == k,
{
    BigUint::from(k).to_bytes_be()
}

/// The inverse base of the table: `g^(p-2) mod p`, which is `g^(-1)` by
/// Fermat's little theorem whenever `p` is prime.
pub open spec fn inv_base(g: nat, p: nat) -> nat {
    pow_mod(g, (p - 2) as nat, p)
}

/// The meet-in-the-middle state: modulus, base, the table that maps
/// `h * g^(-x1) mod p` back to `x1` for every `x1` below the bound, and a
/// fingerprint index over the table's values so a lookup scans only the
/// entries sharing the sought value's low 64 bits.
pub struct MeetInTheMiddle {
    pub p: Vec<u8>,
    pub g: Vec<u8>,
    pub h: Vec<u8>,
    pub bound: u32,
    pub map: Vec<(Vec<u8>, u32)>,
    pub index: HashMap<u64, Vec<u32>>,
}

impl MeetInTheMiddle {
    /// The table holds exactly the chain `h * inv_base^t mod p`.
    pub open spec fn wf(&self) -> bool {
        let pv = value_of(self.p@);
        let av = inv_base(value_of(self.g@), pv);
        let hv = value_of(self.h@);
        &&& pv >= 2
        &&& self.map@.len() == self.bound
        &&& forall|t: int|
            0 <= t < self.map@.len() ==> (#[trigger] self.map@[t]).1 == t && value_of(
                self.map@[t].0@,
            ) == (hv * pow_mod(av, t as nat, pv)) % pv
        &&& forall|t: int|
            0 <= t < self.map@.len() ==> self.index@.contains_key(
                fp_of((#[trigger] self.map@[t]).0@),
            ) && self.index@[fp_of(self.map@[t].0@)]@.contains(t as u32)
        &&& forall|f: u64, i: int|
            self.index@.contains_key(f) && 0 <= i < self.index@[f]@.len() ==> (
            #[trigger] self.index@[f]@[i]) < self.map@.len() && fp_of(
                self.map@[self.index@[f]@[i] as int].0@,
            ) == f
    }

    /// The search as originally tuned: a table bound of `2^20`, so that
    /// exponents up to `2^40` are found.
    pub fn new(p: Vec<u8>, g: Vec<u8>, h: Vec<u8>) -> (r: MeetInTheMiddle)
        requires
            value_of(p@) >= 2,
        ensures
            r.wf(),
            r.p@ == p@,
            r.g@ == g@,
            r.h@ == h@,
            r.bound == 1048576,
    {
        Self::with_bound(p, g, h, 1048576)
    }

    /// Builds the table of `h * g^(-x1) mod p` for `x1` below `bound`.
    pub fn with_bound(p: Vec<u8>, g: Vec<u8>, h: Vec<u8>, bound: u32) -> (r: MeetInTheMiddle)
        requires
            value_of(p@) >= 2,
            bound >= 1,
        ensures
            r.wf(),
            r.p@ == p@,
            r.g@ == g@,
            r.h@ == h@,
            r.bound == bound,
    {
        let ghost pv = value_of(p@);
        let ghost av_g = inv_base(value_of(g@), pv);
        let ghost hv = value_of(h@);
        let exp = big_sub_two(&p);
        let a = big_modpow(&g, &exp, &p);
        let mut map: Vec<(Vec<u8>, u32)> = Vec::new();
        let mut index: HashMap<u64, Vec<u32>> = HashMap::new();
        let mut acc = big_mod_mul(&h, &big_from_u32(1), &p);
        proof {
            assert(pow_mod(av_g, 0, pv) == 1nat % pv);
            lemma_mul_mod_noop_left(1int, hv as int, pv as int);
            assert((hv * 1nat) % pv == (hv * (1nat % pv)) % pv) by {
                lemma_mul_mod_noop_left(1int, hv as int, pv as int);
            }
            assert(value_of(acc@) == (hv * pow_mod(av_g, 0, pv)) % pv);
        }
        let mut x1: u32 = 0;
        while x1 < bound
            invariant
                value_of(p@) == pv,
                pv >= 2,
                value_of(a@) == av_g,
                value_of(h@) == hv,
                x1 <= bound,
                map@.len() == x1,
                value_of(acc@) == (hv * pow_mod(av_g, x1 as nat, pv)) % pv,
                forall|t: int|
                    0 <= t < map@.len() ==> (#[trigger] map@[t]).1 == t && value_of(map@[t].0@)
                        == (hv * pow_mod(av_g, t as nat, pv)) % pv,
                forall|t: int|
                    0 <= t < map@.len() ==> index@.contains_key(fp_of((#[trigger] map@[t]).0@))
                        && index@[fp_of(map@[t].0@)]@.contains(t as u32),
                forall|f2: u64, i2: int|
                    index@.contains_key(f2) && 0 <= i2 < index@[f2]@.len() ==> (
                    #[trigger] index@[f2]@[i2]) < map@.len() && fp_of(
                        map@[index@[f2]@[i2] as int].0@,
                    ) == f2,
            decreases bound - x1,
        {
            let ghost map0 = map@;
            let ghost index0 = index@;
            let f = fingerprint(&acc);
            let mut bucket: Vec<u32> = match index.get(&f) {
                Some(bk) => bk.clone(),
                None => Vec::new(),
            };
            let ghost bucket0 = bucket@;
            proof {
                if index0.contains_key(f) {
                    assert(bucket0 == index0[f]@);
                } else {
                    assert(bucket0 =~= Seq::<u32>::empty());
                }
            }
            bucket.push(x1);
            index.insert(f, bucket);
            map.push((acc.clone(), x1));
            proof {
                assert(map@.len() == map0.len() + 1);
                assert(forall|t: int| 0 <= t < map0.len() ==> map@[t] == map0[t]);
                assert(map@[x1 as int].0@ == acc@);
                assert(map@[x1 as int].1 == x1);
                assert forall|t: int| 0 <= t < map@.len() implies index@.contains_key(
                    fp_of((#[trigger] map@[t]).0@),
                ) && index@[fp_of(map@[t].0@)]@.contains(t as u32) by {
                    if t < map0.len() {
                        assert(map@[t] == map0[t]);
                        let ft = fp_of(map0[t].0@);
                        assert(index0.contains_key(ft) && index0[ft]@.contains(t as u32));
                        if ft == f {
                            let k = choose|k: int|
                                0 <= k < index0[f]@.len() && index0[f]@[k] == t as u32;
                            assert(index@[f]@[k] == t as u32);
                        }
                    } else {
                        assert(t == x1 as int);
                        assert(fp_of(map@[t].0@) == f);
                        assert(index@[f]@.last() == x1);
                    }
                }
                assert forall|f2: u64, i2: int|
                    index@.contains_key(f2) && 0 <= i2 < index@[f2]@.len() implies (
                #[trigger] index@[f2]@[i2]) < map@.len() && fp_of(
                    map@[index@[f2]@[i2] as int].0@,
                ) == f2 by {
                    if f2 == f {
                        if i2 < bucket0.len() {
                            assert(index0.contains_key(f));
                            assert(index@[f2]@[i2] == index0[f]@[i2]);
                            assert(map@[index0[f]@[i2] as int] == map0[index0[f]@[i2] as int]);
                        } else {
                            assert(index@[f2]@[i2] == x1);
                        }
                    } else {
                        assert(index@[f2]@ == index0[f2]@);
                        assert(map@[index0[f2]@[i2] as int] == map0[index0[f2]@[i2] as int]);
                    }
                }
            }
            let next = big_mod_mul(&acc, &a, &p);
            proof {
                let accv = (hv * pow_mod(av_g, x1 as nat, pv)) % pv;
                assert(value_of(next@) == (accv * av_g) % pv);
                lemma_mul_mod_noop_left((hv * pow_mod(av_g, x1 as nat, pv)) as int, av_g as int, pv as int);
                assert((accv * av_g) % pv == (hv * pow_mod(av_g, x1 as nat, pv) * av_g) % pv);
                assert(hv * pow_mod(av_g, x1 as nat, pv) * av_g == hv * (pow_mod(
                    av_g,
                    x1 as nat,
                    pv,
                ) * av_g)) by (nonlinear_arith);
                assert((hv * (pow_mod(av_g, x1 as nat, pv) * av_g)) % pv == (hv * ((pow_mod(
                    av_g,
                    x1 as nat,
                    pv,
                ) * av_g) % pv)) % pv) by {
                    lemma_mul_mod_noop_left((pow_mod(av_g, x1 as nat, pv) * av_g) as int, hv as int, pv as int);
                    assert(hv * ((pow_mod(av_g, x1 as nat, pv) * av_g) % pv) == ((pow_mod(
                        av_g,
                        x1 as nat,
                        pv,
                    ) * av_g) % pv) * hv) by (nonlinear_arith);
                    assert(hv * (pow_mod(av_g, x1 as nat, pv) * av_g) == (pow_mod(
                        av_g,
                        x1 as nat,
                        pv,
                    ) * av_g) * hv) by (nonlinear_arith);
                }
                assert(pow_mod(av_g, (x1 + 1) as nat, pv) == (pow_mod(av_g, x1 as nat, pv) * av_g)
                    % pv);
            }
            acc = next;
            x1 = x1 + 1;
        }
        MeetInTheMiddle { p, g, h, bound, map, index }
    }

    /// Looks `needle` up in the table by numeric value: the fingerprint
    /// narrows the search to one bucket, so a query costs one hash lookup
    /// and a scan of the bucket's few entries.
    fn lookup(&self, needle: &Vec<u8>) -> (r: Option<u32>)
        requires
            self.wf(),
        ensures
            (r matches Some(x1) ==> exists|t: int|
                0 <= t < self.map@.len() && (#[trigger] self.map@[t]).1 == x1 && value_of(
                    self.map@[t].0@,
                ) == value_of(needle@)),
            (r is None ==> forall|t: int|
                0 <= t < self.map@.len() ==> value_of((#[trigger] self.map@[t]).0@) != value_of(
                    needle@,
                )),
    {
        let f = fingerprint(needle);
        match self.index.get(&f) {
            None => {
                proof {
                    assert forall|t: int| 0 <= t < self.map@.len() implies value_of(
                        (#[trigger] self.map@[t]).0@,
                    ) != value_of(needle@) by {
                        if value_of(self.map@[t].0@) == value_of(needle@) {
                            assert(fp_of(self.map@[t].0@) == f);
                            assert(self.index@.contains_key(f));
                            assert(false);
                        }
                    }
                }
                None
            },
            Some(bucket) => {
                let n = bucket.len();
                let mut i: usize = 0;
                while i < n
                    invariant
                        self.wf(),
                        f == fp_of(needle@),
                        self.index@.contains_key(f),
                        bucket@ == self.index@[f]@,
                        n == bucket@.len(),
                        i <= n,
                        forall|k2: int|
                            0 <= k2 < i ==> value_of(
                                self.map@[(#[trigger] bucket@[k2]) as int].0@,
                            ) != value_of(needle@),
                    decreases n - i,
                {
                    let u = bucket[i];
                    proof {
                        assert(self.index@[f]@[i as int] < self.map@.len());
                    }
                    if big_eq(&self.map[u as usize].0, needle) {
                        proof {
                            assert(self.map@[u as int].1 == u as int);
                        }
                        return Some(self.map[u as usize].1);
                    }
                    i = i + 1;
                }
                proof {
                    assert forall|t: int| 0 <= t < self.map@.len() implies value_of(
                        (#[trigger] self.map@[t]).0@,
                    ) != value_of(needle@) by {
                        if value_of(self.map@[t].0@) == value_of(needle@) {
                            assert(fp_of(self.map@[t].0@) == f);
                            assert(self.index@[f]@.contains(t as u32));
                            let k2 = choose|k2: int|
                                0 <= k2 < self.index@[f]@.len() && self.index@[f]@[k2] == t as u32;
                            assert(value_of(self.map@[bucket@[k2] as int].0@) != value_of(
                                needle@,
                            ));
                            assert(false);
                        }
                    }
                }
                None
            },
        }
    }

    /// The congruence a returned pair satisfies: `(g^bound)^x0` equals
    /// the table entry for `x1`, that is `h * inv_base^x1`, modulo `p`.
    pub open spec fn meets(&self, x0: int, x1: int) -> bool {
        let pv = value_of(self.p@);
        let gv = value_of(self.g@);
        pow_mod(pow_mod(gv, self.bound as nat, pv), x0 as nat, pv) == (value_of(self.h@)
            * pow_mod(inv_base(gv, pv), x1 as nat, pv)) % pv
    }

    /// Walks `(g^bound)^x0` for `x0` below the bound until it meets a
    /// table entry: a hit means `(g^bound)^x0 = h * g^(p-2)*...*` — that
    /// is, `pow_mod(g^bound, x0) = h * inv_base^x1 mod p`, so with a
    /// prime modulus `x = x0 * bound + x1` solves `g^x = h mod p`.
    pub fn solve(&self) -> (r: Option<(u32, u32)>)
        requires
            self.wf(),
        ensures
            (r matches Some(x) ==> x.0 < self.bound && x.1 < self.bound && self.meets(
                x.0 as int,
                x.1 as int,
            )),
            (r matches Some(x) ==> forall|y0: int, y1: int|
                0 <= y0 < x.0 && 0 <= y1 < self.bound ==> !(#[trigger] self.meets(y0, y1))),
            (r is None ==> forall|y0: int, y1: int|
                0 <= y0 < self.bound && 0 <= y1 < self.bound ==> !(#[trigger] self.meets(
                    y0,
                    y1,
                ))),
    {
        let ghost pv = value_of(self.p@);
        let ghost gv = value_of(self.g@);
        let b = big_modpow(&self.g, &big_from_u32(self.bound), &self.p);
        let ghost bv = value_of(b@);
        let mut acc = big_from_u32(1);
        proof {
            assert(pow_mod(bv, 0, pv) == 1nat % pv);
            assert(pv >= 2);
            lemma_small_mod(1nat, pv);
        }
        let mut x0: u32 = 0;
        while x0 < self.bound
            invariant
                self.wf(),
                pv == value_of(self.p@),
                gv == value_of(self.g@),
                bv == pow_mod(gv, self.bound as nat, pv),
                value_of(b@) == bv,
                x0 <= self.bound,
                value_of(acc@) == pow_mod(bv, x0 as nat, pv),
                forall|y0: int, y1: int|
                    0 <= y0 < x0 && 0 <= y1 < self.bound ==> !(#[trigger] self.meets(y0, y1)),
            decreases self.bound - x0,
        {
            match self.lookup(&acc) {
                Some(x1) => {
                    proof {
                        let t = choose|t: int|
                            0 <= t < self.map@.len() && (#[trigger] self.map@[t]).1 == x1
                                && value_of(self.map@[t].0@) == value_of(acc@);
                        assert(self.map@[t].1 == t);
                        assert(self.meets(x0 as int, x1 as int));
                    }
                    return Some((x0, x1));
                },
                None => {
                    proof {
                        assert forall|y1: int| 0 <= y1 < self.bound implies !(#[trigger] self.meets(
                            x0 as int,
                            y1,
                        )) by {
                            assert(value_of(self.map@[y1].0@) == (value_of(self.h@) * pow_mod(
                                inv_base(gv, pv),
                                y1 as nat,
                                pv,
                            )) % pv);
                            assert(value_of(self.map@[y1].0@) != value_of(acc@));
                        }
                    }
                },
            }
            let next = big_mod_mul(&acc, &b, &self.p);
            proof {
                lemma_mul_mod_noop_left(pow_mod(bv, x0 as nat, pv) as int, bv as int, pv as int);
                assert(pow_mod(bv, (x0 + 1) as nat, pv) == (pow_mod(bv, x0 as nat, pv) * bv) % pv);
            }
            acc = next;
            x0 = x0 + 1;
        }
        None
    }
}

} // verus!
