//! The prime field of the BN254 curve's scalar group, with elements held as
//! two 128-bit limbs.
use crate::decimal::{decimal, digit_str, u128_to_decimal};
use vstd::arithmetic::div_mod::{
    lemma_add_mod_noop, lemma_fundamental_div_mod_converse_mod, lemma_mod_twice,
    lemma_mul_mod_noop_left, lemma_mul_mod_noop_right,
};
use vstd::arithmetic::power::{
    lemma_pow1, lemma_pow_adds, lemma_pow_mod_noop, lemma_pow_multiplies, lemma_square_is_pow2, pow,
};
use vstd::arithmetic::power2::{lemma2_to64, lemma2_to64_rest, lemma_pow2, lemma_pow2_adds, pow2};
use vstd::prelude::*;

verus! {

/// Low 128 bits of the modulus.
pub const MODULUS_LO: u128 = 0x2833e84879b9709143e1f593f0000001;

/// High 128 bits of the modulus.
pub const MODULUS_HI: u128 = 0x30644e72e131a029b85045b68181585d;

/// Number of bits needed to write every element of the field.
pub const REQUIRED_BITS: usize = 254;

/// The weight of the high limb.
pub open spec fn limb_base() -> int {
    0x1_0000_0000_0000_0000int * 0x1_0000_0000_0000_0000int
}

/// The number written by a low and a high limb.
pub open spec fn two_limbs(lo: u128, hi: u128) -> int {
    lo + hi * 0x1_0000_0000_0000_0000int * 0x1_0000_0000_0000_0000int
}

/// The prime `p` of the field.
pub open spec fn modulus() -> int {
    two_limbs(MODULUS_LO, MODULUS_HI)
}

/// The multiplicative inverse of a nonzero element: `x^(p-2) mod p`, which is
/// `x⁻¹` since `p` is prime.
pub open spec fn field_inverse(x: int) -> int {
    pow(x, (modulus() - 2) as nat) % modulus()
}

/// The compact decimal writing of an element: itself up to `(p-1)/2`, and
/// as `(-k)` with `k = p - x` above.
pub open spec fn compact_decimal(x: int) -> Seq<char> {
    if x <= (modulus() - 1) / 2 {
        decimal(x as nat)
    } else {
        seq!['(', '-'] + decimal((modulus() - x) as nat) + seq![')']
    }
}

/// An element of the field, held as the number in `[0, p)` that stands for it.
#[derive(Clone, Copy, Debug, PartialEq, Eq, Structural, Hash)]
pub struct Bn128Field {
    lo: u128,
    hi: u128,
}

impl View for Bn128Field {
    type V = int;

    /// The number of the element. The type invariant keeps the limbs below
    /// the modulus; the view is bounded by definition as well, so that it is
    /// known to lie in `[0, p)` in proofs about any value.
    closed spec fn view(&self) -> int {
        if two_limbs(self.lo, self.hi) < modulus() {
            two_limbs(self.lo, self.hi)
        } else {
            0
        }
    }
}

/// `a >= b` on two-limb numbers.
pub(crate) fn ge_limbs(alo: u128, ahi: u128, blo: u128, bhi: u128) -> (r: bool)
    ensures
        r == (two_limbs(alo, ahi) >= two_limbs(blo, bhi)),
{
    ahi > bhi || (ahi == bhi && alo >= blo)
}

/// Sum of two-limb numbers.
pub(crate) fn add_limbs(alo: u128, ahi: u128, blo: u128, bhi: u128) -> (r: (u128, u128))
    requires
        ahi + bhi < u128::MAX,
    ensures
        two_limbs(r.0, r.1) == two_limbs(alo, ahi) + two_limbs(blo, bhi),
{
    if alo > u128::MAX - blo {
        (alo - (u128::MAX - blo) - 1, ahi + bhi + 1)
    } else {
        (alo + blo, ahi + bhi)
    }
}

/// Difference of two-limb numbers, the first not below the second.
pub(crate) fn sub_limbs(alo: u128, ahi: u128, blo: u128, bhi: u128) -> (r: (u128, u128))
    requires
        two_limbs(alo, ahi) >= two_limbs(blo, bhi),
    ensures
        two_limbs(r.0, r.1) == two_limbs(alo, ahi) - two_limbs(blo, bhi),
{
    if alo >= blo {
        (alo - blo, ahi - bhi)
    } else {
        ((u128::MAX - blo) + alo + 1, ahi - bhi - 1)
    }
}

/// Half of a two-limb number, rounded down.
pub(crate) fn half_limbs(lo: u128, hi: u128) -> (r: (u128, u128))
    ensures
        two_limbs(r.0, r.1) == two_limbs(lo, hi) / 2,
        two_limbs(lo, hi) % 2 == lo % 2,
{
    let top: u128 = if hi % 2 == 1 { 0x8000_0000_0000_0000_0000_0000_0000_0000 } else { 0 };
    (lo / 2 + top, hi / 2)
}

/// Quotient and remainder of a two-limb number by ten.
fn div10_limbs(lo: u128, hi: u128) -> (r: (u128, u128, u128))
    ensures
        two_limbs(r.0, r.1) * 10 + r.2 == two_limbs(lo, hi),
        r.2 < 10,
{
    let b: u128 = 0x1_0000_0000_0000_0000;
    let qhi = hi / 10;
    let r1 = hi % 10;
    let l1 = lo / b;
    let l0 = lo % b;
    let t1 = r1 * b + l1;
    let q1 = t1 / 10;
    let r2 = t1 % 10;
    let t0 = r2 * b + l0;
    let q0 = t0 / 10;
    let r3 = t0 % 10;
    assert(lo == l1 * b + l0);
    assert(limb_base() == b * b);
    assert(q1 < b);
    (q1 * b + q0, qhi, r3)
}

/// Decimal writing of a two-limb number.
fn limbs_to_decimal(lo: u128, hi: u128) -> (r: String)
    ensures
        r@ == decimal(two_limbs(lo, hi) as nat),
    decreases two_limbs(lo, hi),
{
    if hi == 0 {
        u128_to_decimal(lo)
    } else {
        let (qlo, qhi, d) = div10_limbs(lo, hi);
        let mut s = limbs_to_decimal(qlo, qhi);
        s.append(digit_str(d));
        proof {
            let n = two_limbs(lo, hi) as nat;
            assert(n / 10 == two_limbs(qlo, qhi));
            assert(n % 10 == d);
        }
        s
    }
}

proof fn lemma_mod_between(x: int, m: int, q: int)
    requires
        0 < m,
        q * m <= x < q * m + m,
    ensures
        x % m == x - q * m,
{
    lemma_fundamental_div_mod_converse_mod(x, m, q, x - q * m);
}

proof fn lemma_double_add_step(acc: int, base: int, e: int, m: int)
    requires
        m > 0,
        e >= 0,
    ensures
        ((acc + base * (e % 2)) % m + ((base + base) % m) * (e / 2)) % m == (acc + base * e) % m,
{
    let x = acc + base * (e % 2);
    let y = base + base;
    let q = e / 2;
    lemma_add_mod_noop(x % m, (y % m) * q, m);
    lemma_mod_twice(x, m);
    lemma_mul_mod_noop_left(y, q, m);
    lemma_add_mod_noop(x, y * q, m);
    assert(x + y * q == acc + base * e) by (nonlinear_arith)
        requires
            x == acc + base * (e % 2),
            y == base + base,
            q == e / 2,
            e == 2 * (e / 2) + e % 2,
    ;
}

proof fn lemma_square_multiply_step(acc: int, b: int, e: nat, m: int)
    requires
        m > 0,
    ensures
        (((acc * pow(b, e % 2)) % m) * pow((b * b) % m, e / 2)) % m == (acc * pow(b, e)) % m,
{
    let q = e / 2;
    let s = e % 2;
    lemma_pow_mod_noop(b * b, q, m);
    lemma_square_is_pow2(b);
    lemma_pow_multiplies(b, 2, q);
    lemma_pow_adds(b, 2 * q, s);
    assert(e == 2 * q + s);
    let u = acc * pow(b, s);
    let v = pow((b * b) % m, q);
    let w = pow(b * b, q);
    // (u % m) * v ≡ u * v ≡ u * (v % m) ≡ u * (w % m) ≡ u * w
    lemma_mul_mod_noop_left(u, v, m);
    lemma_mul_mod_noop_right(u, v, m);
    lemma_mul_mod_noop_right(u, w, m);
    assert(u * w == acc * pow(b, e)) by (nonlinear_arith)
        requires
            u == acc * pow(b, s),
            w == pow(b, 2 * q),
            pow(b, e) == pow(b, 2 * q) * pow(b, s),
    ;
}

/// `2^253` and `2^254` as two limbs.
pub proof fn lemma_top_powers()
    ensures
        pow(2, 253) == two_limbs(0, 0x2000_0000_0000_0000_0000_0000_0000_0000),
        pow(2, 254) == two_limbs(0, 0x4000_0000_0000_0000_0000_0000_0000_0000),
        pow(2, 253) < modulus(),
{
    lemma2_to64();
    lemma2_to64_rest();
    assert(pow2(64) == 0x1_0000_0000_0000_0000);
    assert(pow2(61) == 0x2000_0000_0000_0000);
    assert(pow2(62) == 0x4000_0000_0000_0000);
    lemma_pow2_adds(64, 61);
    lemma_pow2_adds(64, 62);
    assert(pow2(125) == 0x2000_0000_0000_0000_0000_0000_0000_0000);
    assert(pow2(126) == 0x4000_0000_0000_0000_0000_0000_0000_0000);
    lemma_pow2_adds(125, 64);
    lemma_pow2_adds(189, 64);
    lemma_pow2_adds(126, 64);
    lemma_pow2_adds(190, 64);
    lemma_pow2(253);
    lemma_pow2(254);
    assert(pow2(253) == pow2(125) * 0x1_0000_0000_0000_0000 * 0x1_0000_0000_0000_0000);
    assert(pow2(254) == pow2(126) * 0x1_0000_0000_0000_0000 * 0x1_0000_0000_0000_0000);
}

impl Bn128Field {
    #[verifier::type_invariant]
    spec fn below_modulus(self) -> bool {
        two_limbs(self.lo, self.hi) < modulus()
    }

    /// Every element is below the modulus.
    pub proof fn lemma_bounded(self)
        ensures
            0 <= self@ < modulus(),
    {
    }

    /// The element `0`.
    pub fn zero() -> (r: Self)
        ensures
            r@ == 0,
    {
        Bn128Field { lo: 0, hi: 0 }
    }

    /// The element `1`.
    pub fn one() -> (r: Self)
        ensures
            r@ == 1,
    {
        Bn128Field { lo: 1, hi: 0 }
    }

    /// The largest element, `p - 1`.
    pub fn max_value() -> (r: Self)
        ensures
            r@ == modulus() - 1,
    {
        Bn128Field { lo: MODULUS_LO - 1, hi: MODULUS_HI }
    }

    /// The number of bits needed to write any element.
    pub fn get_required_bits() -> (r: usize)
        ensures
            r == REQUIRED_BITS,
    {
        REQUIRED_BITS
    }

    /// The element that a natural number stands for.
    pub fn from_u64(n: u64) -> (r: Self)
        ensures
            r@ == n,
    {
        Bn128Field { lo: n as u128, hi: 0 }
    }

    /// The element that an integer stands for: `n mod p`.
    pub fn from_i64(n: i64) -> (r: Self)
        ensures
            r@ == (n as int) % modulus(),
    {
        if n >= 0 {
            let r = Self::from_u64(n as u64);
            proof { lemma_mod_between(n as int, modulus(), 0); }
            r
        } else {
            let k = (0 - (n as i128)) as u64;
            Self::zero().sub(&Self::from_u64(k))
        }
    }

    /// Whether this is `0`.
    pub fn is_zero(&self) -> (r: bool)
        ensures
            r == (self@ == 0),
    {
        proof { use_type_invariant(self); }
        self.lo == 0 && self.hi == 0
    }

    /// Whether this is `1`.
    pub fn is_one(&self) -> (r: bool)
        ensures
            r == (self@ == 1),
    {
        proof { use_type_invariant(self); }
        self.lo == 1 && self.hi == 0
    }

    /// Equality of elements.
    pub fn equals(&self, other: &Self) -> (r: bool)
        ensures
            r == (self@ == other@),
    {
        proof {
            use_type_invariant(self);
            use_type_invariant(other);
        }
        self.lo == other.lo && self.hi == other.hi
    }

    /// Order of the numbers in `[0, p)` that stand for the elements.
    pub fn le(&self, other: &Self) -> (r: bool)
        ensures
            r == (self@ <= other@),
    {
        proof {
            use_type_invariant(self);
            use_type_invariant(other);
        }
        ge_limbs(other.lo, other.hi, self.lo, self.hi)
    }

    /// `a + b` in the field.
    pub fn add(&self, other: &Self) -> (r: Self)
        ensures
            r@ == (self@ + other@) % modulus(),
    {
        proof {
            use_type_invariant(self);
            use_type_invariant(other);
        }
        let (slo, shi) = add_limbs(self.lo, self.hi, other.lo, other.hi);
        if ge_limbs(slo, shi, MODULUS_LO, MODULUS_HI) {
            let (rlo, rhi) = sub_limbs(slo, shi, MODULUS_LO, MODULUS_HI);
            proof { lemma_mod_between(self@ + other@, modulus(), 1); }
            Bn128Field { lo: rlo, hi: rhi }
        } else {
            proof { lemma_mod_between(self@ + other@, modulus(), 0); }
            Bn128Field { lo: slo, hi: shi }
        }
    }

    /// `a - b` in the field.
    pub fn sub(&self, other: &Self) -> (r: Self)
        ensures
            r@ == (self@ - other@) % modulus(),
    {
        proof {
            use_type_invariant(self);
            use_type_invariant(other);
        }
        if ge_limbs(self.lo, self.hi, other.lo, other.hi) {
            let (rlo, rhi) = sub_limbs(self.lo, self.hi, other.lo, other.hi);
            proof { lemma_mod_between(self@ - other@, modulus(), 0); }
            Bn128Field { lo: rlo, hi: rhi }
        } else {
            let (tlo, thi) = sub_limbs(MODULUS_LO, MODULUS_HI, other.lo, other.hi);
            let (rlo, rhi) = add_limbs(self.lo, self.hi, tlo, thi);
            proof { lemma_mod_between(self@ - other@, modulus(), -1); }
            Bn128Field { lo: rlo, hi: rhi }
        }
    }

    /// `-a` in the field.
    pub fn neg(&self) -> (r: Self)
        ensures
            r@ == (0 - self@) % modulus(),
    {
        Self::zero().sub(self)
    }

    /// `a · b` in the field.
    pub fn mul(&self, other: &Self) -> (r: Self)
        ensures
            r@ == (self@ * other@) % modulus(),
    {
        proof {
            use_type_invariant(self);
            use_type_invariant(other);
        }
        let mut acc = Self::zero();
        let mut base = *self;
        let mut elo = other.lo;
        let mut ehi = other.hi;
        while elo != 0 || ehi != 0
            invariant
                (acc@ + base@ * two_limbs(elo, ehi)) % modulus() == (self@ * other@) % modulus(),
            decreases two_limbs(elo, ehi),
        {
            let ghost e = two_limbs(elo, ehi);
            let ghost (a0, b0) = (acc@, base@);
            proof { acc.lemma_bounded(); }
            let (hlo, hhi) = half_limbs(elo, ehi);
            if elo % 2 == 1 {
                acc = acc.add(&base);
                assert(b0 * (e % 2) == b0) by (nonlinear_arith)
                    requires
                        e % 2 == 1,
                ;
            } else {
                assert(b0 * (e % 2) == 0) by (nonlinear_arith)
                    requires
                        e % 2 == 0,
                ;
                proof { lemma_mod_between(a0, modulus(), 0); }
            }
            base = base.add(&base);
            proof {
                lemma_double_add_step(a0, b0, e, modulus());
            }
            elo = hlo;
            ehi = hhi;
        }
        proof {
            acc.lemma_bounded();
            lemma_mod_between(acc@, modulus(), 0);
            let z = two_limbs(elo, ehi);
            assert(z == 0);
            assert(base@ * z == 0) by (nonlinear_arith)
                requires
                    z == 0,
            ;
        }
        acc
    }

    /// `a^e` in the field, with `e` written as two limbs.
    fn pow_limbs(&self, lo: u128, hi: u128) -> (r: Self)
        ensures
            r@ == pow(self@, two_limbs(lo, hi) as nat) % modulus(),
    {
        proof { use_type_invariant(self); }
        let mut acc = Self::one();
        let mut base = *self;
        let mut elo = lo;
        let mut ehi = hi;
        proof {
            self.lemma_bounded();
            lemma_mod_between(self@, modulus(), 0);
        }
        while elo != 0 || ehi != 0
            invariant
                (acc@ * pow(base@, two_limbs(elo, ehi) as nat)) % modulus() == pow(
                    self@,
                    two_limbs(lo, hi) as nat,
                ) % modulus(),
            decreases two_limbs(elo, ehi),
        {
            let ghost e = two_limbs(elo, ehi) as nat;
            let ghost (a0, b0) = (acc@, base@);
            let (hlo, hhi) = half_limbs(elo, ehi);
            if elo % 2 == 1 {
                acc = acc.mul(&base);
                proof {
                    assert(e % 2 == 1);
                    lemma_pow1(b0);
                }
            } else {
                proof {
                    assert(pow(b0, 0) == 1) by { reveal(pow); }
                    acc.lemma_bounded();
                    lemma_mod_between(a0, modulus(), 0);
                }
            }
            base = base.mul(&base);
            proof {
                lemma_square_multiply_step(a0, b0, e, modulus());
            }
            elo = hlo;
            ehi = hhi;
        }
        proof {
            assert(pow(base@, 0) == 1) by { reveal(pow); }
            acc.lemma_bounded();
            lemma_mod_between(acc@, modulus(), 0);
        }
        acc
    }

    /// The multiplicative inverse, for a nonzero element.
    pub fn inverse_mul(&self) -> (r: Option<Self>)
        ensures
            self@ == 0 ==> r is None,
            self@ != 0 ==> r is Some && r->0@ == field_inverse(self@),
    {
        if self.is_zero() {
            None
        } else {
            let r = self.pow_limbs(MODULUS_LO - 2, MODULUS_HI);
            assert(two_limbs((MODULUS_LO - 2) as u128, MODULUS_HI) == modulus() - 2);
            Some(r)
        }
    }

    /// The element whose number is written by two limbs, low first, when
    /// that number is below the modulus.
    pub fn from_limbs(lo: u128, hi: u128) -> (r: Option<Self>)
        ensures
            r is Some <==> two_limbs(lo, hi) < modulus(),
            r is Some ==> r->0@ == two_limbs(lo, hi),
    {
        if ge_limbs(lo, hi, MODULUS_LO, MODULUS_HI) {
            None
        } else {
            Some(Bn128Field { lo, hi })
        }
    }

    /// The two limbs of the number of this element, low first.
    pub fn limbs(&self) -> (r: (u128, u128))
        ensures
            two_limbs(r.0, r.1) == self@,
            0 <= self@ < modulus(),
    {
        proof { use_type_invariant(self); }
        (self.lo, self.hi)
    }

    /// The number of this element in decimal.
    pub fn to_dec_string(&self) -> (r: String)
        ensures
            r@ == decimal(self@ as nat),
    {
        proof { use_type_invariant(self); }
        limbs_to_decimal(self.lo, self.hi)
    }

    /// The compact decimal writing of this element.
    pub fn to_compact_dec_string(&self) -> (r: String)
        ensures
            r@ == compact_decimal(self@),
    {
        proof { use_type_invariant(self); }
        // (p - 1) / 2 as two limbs
        let (hlo, hhi) = half_limbs(MODULUS_LO - 1, MODULUS_HI);
        if ge_limbs(hlo, hhi, self.lo, self.hi) {
            self.to_dec_string()
        } else {
            let (nlo, nhi) = sub_limbs(MODULUS_LO, MODULUS_HI, self.lo, self.hi);
            let mut s = String::from_str("(-");
            s.append(limbs_to_decimal(nlo, nhi).as_str());
            s.append(")");
            proof {
                reveal_strlit("(-");
                reveal_strlit(")");
                assert(s@ =~= compact_decimal(self@));
            }
            s
        }
    }
}

} // verus!
