//! Hashes of sequences that can be put together: the hash of a
//! concatenation follows from the hashes of its parts.

use vstd::prelude::*;
use vstd::arithmetic::div_mod::{
    lemma_add_mod_noop, lemma_fundamental_div_mod, lemma_mod_multiples_vanish,
    lemma_mul_mod_noop_general,
};
use vstd::std_specs::ops::AddSpecImpl;

verus! {

/// The base of the polynomial.
pub const SEED: u64 = 314159265358979323;

/// The modulus, the Mersenne prime `2^61 - 1`.
pub const MOD: u64 = 0x1fff_ffff_ffff_ffff;

/// What `mul` makes of the product `p`: its digits above and below the
/// 61st bit added up, and the modulus taken off once where the sum exceeds
/// it.
pub open spec fn fold(p: nat) -> nat {
    let s = p / 0x2000_0000_0000_0000 + p % 0x2000_0000_0000_0000;
    if s > MOD {
        (s - MOD) as nat
    } else {
        s
    }
}

/// What `fold` makes of a product of two numbers up to the modulus is at
/// most the modulus and congruent to the product.
pub proof fn lemma_fold(a: nat, b: nat)
    requires
        a <= MOD,
        b <= MOD,
    ensures
        fold(a * b) <= MOD,
        fold(a * b) % (MOD as nat) == (a * b) % (MOD as nat),
{
    let p = a * b;
    let m = MOD as int;
    let high = (p / 0x2000_0000_0000_0000) as int;
    let low = (p % 0x2000_0000_0000_0000) as int;
    assert(p <= 0x1fff_ffff_ffff_ffff * 0x1fff_ffff_ffff_ffff) by (nonlinear_arith)
        requires
            p == a * b,
            a <= 0x1fff_ffff_ffff_ffff,
            b <= 0x1fff_ffff_ffff_ffff,
    ;
    lemma_fundamental_div_mod(p as int, 0x2000_0000_0000_0000);
    assert(high <= 0x1fff_ffff_ffff_ffff);
    // p == (m + 1) * high + low, so p is congruent to high + low
    assert(p == m * high + (high + low)) by (nonlinear_arith)
        requires
            p == 0x2000_0000_0000_0000 * high + low,
            m == 0x1fff_ffff_ffff_ffff,
    ;
    lemma_mod_multiples_vanish(high, high + low, m);
    if high + low > m {
        lemma_mod_multiples_vanish(-1, high + low, m);
    }
}

/// `a * b` modulo `2^61 - 1`, as a number up to the modulus.
pub fn mul(a: u64, b: u64) -> (k: u64)
    requires
        a <= MOD,
        b <= MOD,
    ensures
        k == fold(a as nat * b as nat),
        k <= MOD,
{
    proof {
        lemma_fold(a as nat, b as nat);
        assert(a * b <= 0x1fff_ffff_ffff_ffff * 0x1fff_ffff_ffff_ffff) by (nonlinear_arith)
            requires
                a <= 0x1fff_ffff_ffff_ffff,
                b <= 0x1fff_ffff_ffff_ffff,
        ;
    }
    let k: u128 = (a as u128) * (b as u128);
    let high: u64 = (k >> 61) as u64;
    let low: u64 = (#[verifier::truncate] (k as u64)) & MOD;
    proof {
        assert(high == k / 0x2000_0000_0000_0000 && low == k % 0x2000_0000_0000_0000)
            by (bit_vector)
            requires
                k <= 0x1fff_ffff_ffff_ffff * 0x1fff_ffff_ffff_ffff,
                high == (k >> 61) as u64,
                low == (k as u64) & 0x1fff_ffff_ffff_ffff,
        ;
    }
    let k: u64 = high + low;
    if k > MOD {
        k - MOD
    } else {
        k
    }
}

/// The hash of a sequence: the base to the power of its length, and its
/// value as a polynomial in the base, both modulo `MOD` and held as numbers
/// up to `MOD`.
#[derive(Clone, Copy, PartialEq, Eq, Structural, Debug)]
pub struct RollingHash {
    plen: u64,
    hash: u64,
}

impl RollingHash {
    /// The base to the power of the length.
    pub closed spec fn spec_plen(self) -> nat {
        self.plen as nat
    }

    /// The value of the polynomial.
    pub closed spec fn spec_hash(self) -> nat {
        self.hash as nat
    }

    #[verifier::type_invariant]
    spec fn bounded(self) -> bool {
        self.plen <= MOD && self.hash <= MOD
    }

    /// Both parts are at most the modulus.
    pub closed spec fn is_bounded(self) -> bool {
        self.plen <= MOD && self.hash <= MOD
    }

    /// The hash made of the two parts.
    pub closed spec fn of(plen: nat, hash: nat) -> Self {
        RollingHash { plen: plen as u64, hash: hash as u64 }
    }

    /// The parts of the hash made of two parts are those parts.
    pub proof fn lemma_of(plen: nat, hash: nat)
        requires
            plen <= MOD,
            hash <= MOD,
        ensures
            Self::of(plen, hash).spec_plen() == plen,
            Self::of(plen, hash).spec_hash() == hash,
            Self::of(plen, hash).is_bounded(),
    {
    }

    /// The hash of the sequence that holds `v` alone.
    pub fn new(v: u32) -> (h: Self)
        ensures
            h.spec_plen() == SEED,
            h.spec_hash() == v,
            h.is_bounded(),
    {
        Self { plen: SEED, hash: v as u64 }
    }

    /// The hash of the concatenation of two sequences.
    pub open spec fn concat(self, rhs: Self) -> Self {
        let sum = self.spec_hash() + fold(self.spec_plen() * rhs.spec_hash());
        Self::of(
            fold(self.spec_plen() * rhs.spec_plen()),
            if sum > MOD {
                (sum - MOD) as nat
            } else {
                sum
            },
        )
    }
}

/// The two parts of a hash, as residues modulo `MOD`.
pub open spec fn residues(h: RollingHash) -> (int, int) {
    ((h.spec_plen() % (MOD as nat)) as int, (h.spec_hash() % (MOD as nat)) as int)
}

/// Modulo `MOD`, the concatenation multiplies the powers of the base, and
/// adds to the first value the second one times the first power.
pub proof fn lemma_concat(a: RollingHash, b: RollingHash)
    requires
        a.is_bounded(),
        b.is_bounded(),
    ensures
        a.concat(b).is_bounded(),
        residues(a.concat(b)).0 == (a.spec_plen() * b.spec_plen()) % (MOD as nat),
        residues(a.concat(b)).1 == (a.spec_hash() + a.spec_plen() * b.spec_hash()) % (MOD as nat),
{
    let m = MOD as int;
    let (p, q) = (a.spec_plen(), b.spec_plen());
    let (x, y) = (a.spec_hash(), b.spec_hash());
    lemma_fold(p, q);
    lemma_fold(p, y);
    let sum = x + fold(p * y);
    let hash = if sum > MOD {
        (sum - MOD) as nat
    } else {
        sum
    };
    RollingHash::lemma_of(fold(p * q), hash);
    if sum > MOD {
        lemma_mod_multiples_vanish(-1, sum as int, m);
    }
    lemma_add_mod_noop(x as int, fold(p * y) as int, m);
    lemma_add_mod_noop(x as int, (p * y) as int, m);
}

/// Modulo `MOD`, it does not matter in which order hashes are put
/// together, as long as they stay in their sequence.
pub proof fn lemma_concat_associative(a: RollingHash, b: RollingHash, c: RollingHash)
    requires
        a.is_bounded(),
        b.is_bounded(),
        c.is_bounded(),
    ensures
        residues(a.concat(b).concat(c)) == residues(a.concat(b.concat(c))),
{
    let m = MOD as int;
    let (p, q, r) = (a.spec_plen() as int, b.spec_plen() as int, c.spec_plen() as int);
    let (x, y, z) = (a.spec_hash() as int, b.spec_hash() as int, c.spec_hash() as int);
    let ab = a.concat(b);
    let bc = b.concat(c);
    lemma_concat(a, b);
    lemma_concat(b, c);
    lemma_concat(ab, c);
    lemma_concat(a, bc);
    let (pab, xab) = (ab.spec_plen() as int, ab.spec_hash() as int);
    let (pbc, xbc) = (bc.spec_plen() as int, bc.spec_hash() as int);
    // the powers: (p q) r and p (q r)
    lemma_mul_mod_noop_general(pab, r, m);
    lemma_mul_mod_noop_general(p * q, r, m);
    lemma_mul_mod_noop_general(p, pbc, m);
    lemma_mul_mod_noop_general(p, q * r, m);
    assert((p * q) * r == p * (q * r)) by (nonlinear_arith);
    // the values: (x + p y) + (p q) z and x + p (y + q z)
    lemma_add_mod_noop(xab, pab * z, m);
    lemma_add_mod_noop(x + p * y, pab * z, m);
    lemma_mul_mod_noop_general(pab, z, m);
    lemma_mul_mod_noop_general(p * q, z, m);
    lemma_add_mod_noop(x + p * y, (p * q) * z, m);
    lemma_add_mod_noop(x, p * xbc, m);
    lemma_mul_mod_noop_general(p, xbc, m);
    lemma_mul_mod_noop_general(p, y + q * z, m);
    lemma_add_mod_noop(x, p * (y + q * z), m);
    assert((x + p * y) + (p * q) * z == x + p * (y + q * z)) by (nonlinear_arith);
}

impl Default for RollingHash {
    /// The hash of the empty sequence.
    fn default() -> (h: Self)
        ensures
            h.spec_plen() == 1,
            h.spec_hash() == 0,
            h.is_bounded(),
    {
        Self { plen: 1, hash: 0 }
    }
}

impl core::ops::Add for RollingHash {
    type Output = Self;

    /// The hash of the concatenation.
    fn add(self, rhs: Self) -> (r: Self)
        ensures
            r.is_bounded(),
    {
        proof {
            use_type_invariant(self);
            use_type_invariant(rhs);
        }
        let mut hash = self.hash + self::mul(self.plen, rhs.hash);
        if hash > MOD {
            hash -= MOD;
        }
        let plen = self::mul(self.plen, rhs.plen);
        Self { plen, hash }
    }
}

impl AddSpecImpl for RollingHash {
    open spec fn obeys_add_spec() -> bool {
        true
    }

    open spec fn add_req(self, rhs: Self) -> bool {
        true
    }

    open spec fn add_spec(self, rhs: Self) -> Self {
        self.concat(rhs)
    }
}

} // verus!
