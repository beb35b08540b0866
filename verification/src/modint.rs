//! Integers modulo a constant.

use vstd::prelude::*;
use vstd::arithmetic::div_mod::{
    lemma_fundamental_div_mod, lemma_mod_multiples_vanish, lemma_mul_mod_noop_general,
    lemma_small_mod, lemma_mod_equivalence,
};
use vstd::arithmetic::power::{
    pow, lemma_pow0, lemma_pow1, lemma_pow_adds, lemma_pow_multiplies, lemma_pow_mod_noop,
    lemma_square_is_pow2,
};
use vstd::std_specs::cmp::PartialEqSpecImpl;
use vstd::std_specs::ops::{AddSpecImpl, SubSpecImpl, MulSpecImpl, DivSpecImpl, NegSpecImpl};

verus! {

/// The greatest common divisor, by Euclid's rule.
pub open spec fn gcd(a: nat, b: nat) -> nat
    decreases b,
{
    if b == 0 {
        a
    } else {
        gcd(b, a % b)
    }
}

/// The factor of `a` in Euclid's rule carried along: with `u = 1` and
/// `v = 0` at the start, a number whose product with `a` differs from the
/// greatest common divisor of `a` and `b` by a multiple of `b`.
pub open spec fn bezout(a: nat, b: nat, u: int, v: int) -> int
    decreases b,
{
    if b == 0 {
        u
    } else {
        bezout(b, a % b, v, u - (a / b) * v)
    }
}

/// A residue modulo `N`, held as the least natural number that stands for
/// it.
#[derive(Clone, Copy, Debug)]
pub struct ModInt<const N: u32>(u32);

impl<const N: u32> PartialEq for ModInt<N> {
    fn eq(&self, other: &Self) -> (r: bool) {
        self.0 == other.0
    }
}

impl<const N: u32> PartialEqSpecImpl for ModInt<N> {
    open spec fn obeys_eq_spec() -> bool {
        true
    }

    open spec fn eq_spec(&self, other: &Self) -> bool {
        self@ == other@
    }
}

impl<const N: u32> Eq for ModInt<N> {

}

impl<const N: u32> Default for ModInt<N> {
    /// The residue of zero.
    fn default() -> (r: Self)
        ensures
            r@ == 0,
    {
        ModInt(0)
    }
}

/// What is a multiple of `n` stays one when multiples of another are taken
/// off.
proof fn lemma_multiples(x: int, y: int, t: int, n: int)
    requires
        n > 0,
        x % n == 0,
        y % n == 0,
    ensures
        (x - t * y) % n == 0,
{
    lemma_fundamental_div_mod(x, n);
    lemma_fundamental_div_mod(y, n);
    let qx = x / n;
    let qy = y / n;
    assert(x - t * y == n * (qx - t * qy) + 0) by (nonlinear_arith)
        requires
            x == n * qx,
            y == n * qy,
    ;
    lemma_mod_multiples_vanish(qx - t * qy, 0, n);
}

/// A power splits by the parity of its exponent.
proof fn lemma_pow_halves(x: int, e: nat)
    ensures
        pow(x, e) == pow(x, e % 2) * pow(x * x, e / 2),
{
    lemma_square_is_pow2(x);
    lemma_pow_multiplies(x, 2, e / 2);
    lemma_pow_adds(x, e % 2, 2 * (e / 2));
    assert(e % 2 + 2 * (e / 2) == e);
    assert(pow(x, 2) == x * x);
}

impl<const N: u32> View for ModInt<N> {
    type V = nat;

    /// The least natural number in the residue class.
    closed spec fn view(&self) -> nat {
        self.0 as nat
    }
}

impl<const N: u32> ModInt<N> {
    #[verifier::type_invariant]
    spec fn reduced(self) -> bool {
        N == 0 || self.0 < N
    }

    /// The residue is below the modulus.
    pub proof fn lemma_below_modulus(self)
        requires
            N > 0,
            self.is_reduced(),
        ensures
            self@ < N,
    {
    }

    /// What every value of the type meets.
    pub closed spec fn is_reduced(self) -> bool {
        N == 0 || self.0 < N
    }

    /// The residue class of `x`.
    pub closed spec fn residue(x: int) -> Self {
        ModInt((x % (N as int)) as u32)
    }

    /// The residue class of `x` is held as `x % N`, and no other value of
    /// the type stands for it.
    pub proof fn lemma_residue(self, x: int)
        requires
            N > 0,
        ensures
            Self::residue(x)@ == x % (N as int),
            self@ == x % (N as int) ==> self == Self::residue(x),
    {
        vstd::arithmetic::div_mod::lemma_mod_bound(x, N as int);
    }

    /// The residue of `v`.
    pub fn new(v: u32) -> (r: Self)
        requires
            N > 0,
        ensures
            r@ == v % N,
            r.is_reduced(),
    {
        ModInt(v % N)
    }

    /// The residue that `v` is known to be the least number of.
    pub fn new_unchecked(v: u32) -> (r: Self)
        requires
            v < N,
        ensures
            r@ == v,
            r.is_reduced(),
    {
        ModInt(v)
    }

    /// The least natural number in the residue class.
    pub fn val(&self) -> (v: u32)
        ensures
            v == self@,
            N > 0 ==> v < N,
            self.is_reduced(),
    {
        proof {
            use_type_invariant(self);
        }
        self.0
    }

    /// What `inv` returns.
    pub open spec fn spec_inv(self) -> Self {
        Self::residue(bezout(self@, N as nat, 1, 0))
    }

    /// A residue whose product with this one is the greatest common divisor
    /// of this one and the modulus: where the two are coprime, the inverse.
    pub fn inv(&self) -> (r: Self)
        requires
            N > 0,
            self@ != 0,
        ensures
            r == self.spec_inv(),
            r@ < N,
            (self@ * r@) % (N as nat) == gcd(self@, N as nat) % (N as nat),
            r.is_reduced(),
    {
        proof {
            use_type_invariant(self);
        }
        let ghost a0 = self.0 as int;
        let ghost n = N as int;
        let mut a: u32 = self.0;
        let mut b: u32 = N;
        let mut u: i64 = 1;
        let mut v: i64 = 0;
        proof {
            lemma_mod_multiples_vanish(-1, 0, n);
            assert(vstd::math::abs(1) == 1 && vstd::math::abs(0) == 0);
        }
        while b != 0
            invariant
                n == N,
                n > 0,
                a0 == self.0,
                a >= 1,
                gcd(a as nat, b as nat) == gcd(a0 as nat, n as nat),
                bezout(a as nat, b as nat, u as int, v as int) == bezout(a0 as nat, n as nat, 1, 0),
                (u * a0 - a) % n == 0,
                (v * a0 - b) % n == 0,
                (u >= 0 && v <= 0) || (u <= 0 && v >= 0),
                vstd::math::abs(u as int) * b + vstd::math::abs(v as int) * a == n,
            decreases b,
        {
            let t: u32 = a / b;
            let ghost a1 = a as int;
            let ghost b1 = b as int;
            let ghost u1 = u as int;
            let ghost v1 = v as int;
            proof {
                lemma_fundamental_div_mod(a1, b1);
                assert(t * b1 <= a1) by (nonlinear_arith)
                    requires
                        a1 == b1 * (t as int) + a1 % b1,
                        0 <= a1 % b1,
                ;
                assert(vstd::math::abs(v1) <= n && vstd::math::abs(u1) <= n && t * vstd::math::abs(
                    v1,
                ) <= n) by (nonlinear_arith)
                    requires
                        vstd::math::abs(u1) * b1 + vstd::math::abs(v1) * a1 == n,
                        a1 >= 1,
                        b1 >= 1,
                        t * b1 <= a1,
                        0 <= t,
                ;
                assert(t * v1 == if v1 >= 0 {
                    t * vstd::math::abs(v1)
                } else {
                    -(t * vstd::math::abs(v1))
                }) by (nonlinear_arith);
                lemma_multiples(u1 * a0 - a1, v1 * a0 - b1, t as int, n);
                assert((u1 - t * v1) * a0 - (a1 - t * b1) == (u1 * a0 - a1) - t * (v1 * a0 - b1))
                    by (nonlinear_arith);
                assert(vstd::math::abs(v1) * (a1 - t * b1) + vstd::math::abs(u1 - t * v1) * b1
                    == n) by (nonlinear_arith)
                    requires
                        vstd::math::abs(u1) * b1 + vstd::math::abs(v1) * a1 == n,
                        (u1 >= 0 && v1 <= 0) || (u1 <= 0 && v1 >= 0),
                        0 <= t,
                ;
                assert(a1 % b1 == a1 - t * b1);
            }
            a = a - t * b;
            let next_b = a;
            a = b;
            b = next_b;
            u = u - (t as i64) * v;
            let next_v = u;
            u = v;
            v = next_v;
        }
        let x = u.checked_rem_euclid(N as i64).unwrap();
        proof {
            let ui = u as int;
            assert(x == ui % n);
            // x * a0 is congruent to u * a0, which is congruent to a
            lemma_mul_mod_noop_general(ui, a0, n);
            lemma_mod_equivalence(ui * a0, a as int, n);
            assert((a0 * x) % n == (a as int) % n) by {
                assert(a0 * x == x * a0) by (nonlinear_arith);
            }
            ModInt::<N>(x as u32).lemma_residue(ui);
        }
        ModInt(x as u32)
    }

    /// This residue to the power of `b`.
    pub fn pow(self, b: u64) -> (r: Self)
        requires
            N > 0,
        ensures
            r@ == pow(self@ as int, b as nat) % (N as int),
            r.is_reduced(),
    {
        proof {
            use_type_invariant(self);
        }
        let ghost a0 = self.0 as int;
        let ghost e0 = b as nat;
        let ghost n = N as int;
        let mut b = b;
        let mut g: u32 = self.0;
        let mut r: u32 = if b & 1 == 0 {
            1 % N
        } else {
            self.0
        };
        proof {
            let e = b;
            assert((e & 1 == 0) == (e % 2 == 0)) by (bit_vector);
            assert(e >> 1 == e / 2) by (bit_vector);
            lemma_pow_halves(a0, e0);
            lemma_pow0(a0);
            lemma_pow1(a0);
            lemma_small_mod(self.0 as nat, N as nat);
            lemma_mul_mod_noop_general(pow(a0, e0 % 2), pow(a0 * a0, e0 / 2), n);
        }
        b >>= 1;
        while b != 0
            invariant
                n == N,
                n > 0,
                g < n,
                r < n,
                (r * pow(g * g, b as nat)) % n == pow(a0, e0) % n,
            decreases b,
        {
            let ghost g1 = g as int;
            let ghost r1 = r as int;
            let ghost b1 = b as nat;
            assert(g1 * g1 <= 0xffff_ffff * 0xffff_ffff) by (nonlinear_arith)
                requires
                    0 <= g1 <= 0xffff_ffff,
            ;
            g = ((g as u64) * (g as u64) % (N as u64)) as u32;
            if b & 1 == 1 {
                assert(r1 * g <= 0xffff_ffff * 0xffff_ffff) by (nonlinear_arith)
                    requires
                        0 <= r1 <= 0xffff_ffff,
                        0 <= g <= 0xffff_ffff,
                ;
                r = ((r as u64) * (g as u64) % (N as u64)) as u32;
            }
            proof {
                let e = b;
                assert((e & 1 == 1) == (e % 2 == 1)) by (bit_vector);
                assert(e >> 1 == e / 2) by (bit_vector);
                let x = g1 * g1;
                let g2 = g as int;
                assert(g2 == x % n);
                lemma_pow_halves(x, b1);
                lemma_pow0(x);
                lemma_pow1(x);
                let half = (b1 / 2) as nat;
                // the new square stands for the old one squared
                lemma_mul_mod_noop_general(x, x, n);
                lemma_pow_mod_noop(x * x, half, n);
                lemma_pow_mod_noop(g2 * g2, half, n);
                lemma_pow_mod_noop((x * x) % n, half, n);
                assert((g2 * g2) % n == (x * x) % n);
                assert(pow(g2 * g2, half) % n == pow(x * x, half) % n);
                let low = pow(x, b1 % 2);
                assert((r as int) == (r1 * low) % n) by {
                    if b1 % 2 == 1 {
                        lemma_mul_mod_noop_general(r1, x, n);
                    } else {
                        assert(r1 * 1 == r1);
                        lemma_small_mod(r1 as nat, n as nat);
                    }
                }
                // r' * pow(g'g', half) == r * low * pow(xx, half) == r * pow(x, b)
                lemma_mul_mod_noop_general(r1 * low, pow(g2 * g2, half), n);
                lemma_mul_mod_noop_general(r1 * low, pow(x * x, half), n);
                assert((r1 * low) * pow(x * x, half) == r1 * pow(x, b1)) by (nonlinear_arith)
                    requires
                        pow(x, b1) == low * pow(x * x, half),
                ;
            }
            b >>= 1;
        }
        proof {
            lemma_pow0((g * g) as int);
            lemma_small_mod(r as nat, N as nat);
        }
        ModInt(r)
    }
}

impl<const N: u32> core::ops::Add for ModInt<N> {
    type Output = Self;

    /// The residue of the sum.
    fn add(self, rhs: Self) -> (r: Self)
        ensures
            r@ == (self@ + rhs@) % (N as nat),
    {
        proof {
            use_type_invariant(self);
            use_type_invariant(rhs);
            let sum = self.0 + rhs.0;
            if sum < N {
                lemma_small_mod(sum as nat, N as nat);
            } else {
                lemma_mod_multiples_vanish(-1, sum, N as int);
                lemma_small_mod((sum - N) as nat, N as nat);
            }
        }
        let v = self.0.wrapping_add(rhs.0);
        let overflowed = v < self.0;
        ModInt(
            if overflowed || v >= N {
                v.wrapping_sub(N)
            } else {
                v
            },
        )
    }
}

impl<const N: u32> AddSpecImpl for ModInt<N> {
    open spec fn obeys_add_spec() -> bool {
        true
    }

    open spec fn add_req(self, rhs: Self) -> bool {
        N > 0
    }

    open spec fn add_spec(self, rhs: Self) -> Self {
        Self::residue((self@ + rhs@) as int)
    }
}

impl<const N: u32> core::ops::Sub for ModInt<N> {
    type Output = Self;

    /// The residue of the difference.
    fn sub(self, rhs: Self) -> (r: Self)
        ensures
            r@ == (self@ - rhs@) % (N as int),
    {
        proof {
            use_type_invariant(self);
            use_type_invariant(rhs);
            let diff = self.0 - rhs.0;
            if diff >= 0 {
                lemma_small_mod(diff as nat, N as nat);
            } else {
                lemma_mod_multiples_vanish(1, diff, N as int);
                lemma_small_mod((diff + N) as nat, N as nat);
            }
        }
        let v = self.0.wrapping_sub(rhs.0);
        let overflowed = self.0 < rhs.0;
        ModInt(
            if overflowed {
                v.wrapping_add(N)
            } else {
                v
            },
        )
    }
}

impl<const N: u32> SubSpecImpl for ModInt<N> {
    open spec fn obeys_sub_spec() -> bool {
        true
    }

    open spec fn sub_req(self, rhs: Self) -> bool {
        N > 0
    }

    open spec fn sub_spec(self, rhs: Self) -> Self {
        Self::residue(self@ - rhs@)
    }
}

impl<const N: u32> core::ops::Mul for ModInt<N> {
    type Output = Self;

    /// The residue of the product.
    fn mul(self, rhs: Self) -> (r: Self)
        ensures
            r@ == (self@ * rhs@) % (N as nat),
    {
        proof {
            use_type_invariant(self);
            use_type_invariant(rhs);
            assert(self.0 * rhs.0 <= 0xffff_ffff * 0xffff_ffff) by (nonlinear_arith)
                requires
                    0 <= self.0 <= 0xffff_ffff,
                    0 <= rhs.0 <= 0xffff_ffff,
            ;
        }
        ModInt(((self.0 as u64) * (rhs.0 as u64) % (N as u64)) as u32)
    }
}

impl<const N: u32> MulSpecImpl for ModInt<N> {
    open spec fn obeys_mul_spec() -> bool {
        true
    }

    open spec fn mul_req(self, rhs: Self) -> bool {
        N > 0
    }

    open spec fn mul_spec(self, rhs: Self) -> Self {
        Self::residue((self@ * rhs@) as int)
    }
}

impl<const N: u32> core::ops::Neg for ModInt<N> {
    type Output = Self;

    /// The residue of the negation.
    fn neg(self) -> (r: Self)
        ensures
            r@ == (-self@) % (N as int),
    {
        proof {
            use_type_invariant(self);
            if self.0 != 0 {
                lemma_mod_multiples_vanish(1, -self.0, N as int);
                lemma_small_mod((N - self.0) as nat, N as nat);
            } else {
                lemma_small_mod(0, N as nat);
            }
        }
        if self.0 != 0 {
            ModInt(N - self.0)
        } else {
            self
        }
    }
}

impl<const N: u32> NegSpecImpl for ModInt<N> {
    open spec fn obeys_neg_spec() -> bool {
        true
    }

    open spec fn neg_req(self) -> bool {
        N > 0
    }

    open spec fn neg_spec(self) -> Self {
        Self::residue(-self@)
    }
}

impl<const N: u32> core::ops::Div for ModInt<N> {
    type Output = Self;

    /// The product with the inverse of the divisor. Where the divisor and
    /// the modulus are coprime, this is the residue whose product with the
    /// divisor is the dividend.
    fn div(self, rhs: Self) -> (r: Self)
        ensures
            (r@ * rhs@) % (N as nat) == (self@ * gcd(rhs@, N as nat)) % (N as nat),
    {
        let i = rhs.inv();
        let r = self * i;
        proof {
            let n = N as int;
            let (a, b, c) = (self@ as int, rhs@ as int, i@ as int);
            // r * b == a * c * b == a * (b * c) == a * gcd
            lemma_mul_mod_noop_general(a * c, b, n);
            assert((a * c) * b == a * (b * c)) by (nonlinear_arith);
            lemma_mul_mod_noop_general(a, b * c, n);
            lemma_mul_mod_noop_general(a, gcd(rhs@, N as nat) as int, n);
        }
        r
    }
}

impl<const N: u32> DivSpecImpl for ModInt<N> {
    open spec fn obeys_div_spec() -> bool {
        true
    }

    open spec fn div_req(self, rhs: Self) -> bool {
        N > 0 && rhs@ != 0
    }

    open spec fn div_spec(self, rhs: Self) -> Self {
        Self::residue((self@ * rhs.spec_inv()@) as int)
    }
}

} // verus!
