//! Field elements of the BLS12-381 scalar field.
//!
//! A `Felt` holds the canonical (fully reduced) little-endian 64-bit limbs of
//! an element of the prime field with `modulus()` elements.  Its mathematical
//! meaning is `value()`, an integer in `[0, modulus())`.  The arithmetic
//! itself is done by the `ark-ff`/`ark-bls12-381` crates behind trusted
//! wrappers; every wrapper states its result as plain modular arithmetic on
//! `value()`.
use vstd::prelude::*;
use ark_ff::{FftField, Field, PrimeField};

verus! {

use vstd::arithmetic::power::pow;
use vstd::arithmetic::div_mod::{
    lemma_mul_mod_noop_general,
    lemma_small_mod,
};
use vstd::arithmetic::power::{lemma_pow_adds, lemma_pow_multiplies, lemma_pow_mod_noop};

/// The order of the BLS12-381 scalar field (a prime).
pub open spec fn modulus() -> int {
    52435875175126190479447740508185965837690552500527637822603658699938581184513int
}

/// An element of the scalar field, as its canonical four little-endian
/// 64-bit limbs (least significant limb first).
#[derive(Clone, Copy, Debug, PartialEq, Eq, Structural, Default)]
pub struct Felt {
    pub l0: u64,
    pub l1: u64,
    pub l2: u64,
    pub l3: u64,
}

impl Felt {
    /// The integer this element stands for.
    pub open spec fn value(self) -> int {
        self.l0 + self.l1 * 18446744073709551616int
            + self.l2 * 340282366920938463463374607431768211456int
            + self.l3 * 6277101735386680763835789423207666416102355444464034512896int
    }

    /// The limbs are the canonical (fully reduced) representation.
    pub open spec fn wf(self) -> bool {
        self.value() < modulus()
    }
}

/// Addition in the field.
pub open spec fn add_p(a: int, b: int) -> int {
    (a + b) % modulus()
}

/// Subtraction in the field.
pub open spec fn sub_p(a: int, b: int) -> int {
    (a - b) % modulus()
}

/// Multiplication in the field.
pub open spec fn mul_p(a: int, b: int) -> int {
    (a * b) % modulus()
}

/// Negation in the field.
pub open spec fn neg_p(a: int) -> int {
    (modulus() - a) % modulus()
}

/// Exponentiation in the field (the base need not be reduced).
pub open spec fn pow_p(b: int, e: nat) -> int {
    pow(b, e) % modulus()
}

/// `x` is the multiplicative inverse of `a` in the field.
pub open spec fn is_inverse_of(x: int, a: int) -> bool {
    &&& 0 <= x < modulus()
    &&& mul_p(a, x) == 1
}

/// The multiplicative inverse of `a` in the field, or 0 if `a` has none
/// (`inv_p(a)` is only meaningful where an inverse exists; by
/// `lemma_inverse_unique` it is then the one inverse).
pub open spec fn inv_p(a: int) -> int {
    if exists|x: int| is_inverse_of(x, a) {
        choose|x: int| is_inverse_of(x, a)
    } else {
        0
    }
}

/// Every value below the modulus is nonnegative and every `Felt` value is,
/// limb by limb; two canonical elements with one value are one element.
pub proof fn lemma_felt_value_injective(a: Felt, b: Felt)
    requires
        a.value() == b.value(),
    ensures
        a == b,
{
    let c1: int = 18446744073709551616int;
    let c2: int = 340282366920938463463374607431768211456int;
    let c3: int = 6277101735386680763835789423207666416102355444464034512896int;
    assert(a.l0 == b.l0 && a.l1 == b.l1 && a.l2 == b.l2 && a.l3 == b.l3) by {
        assert(a.l0 + a.l1 * c1 + a.l2 * c2 + a.l3 * c3
            == b.l0 + b.l1 * c1 + b.l2 * c2 + b.l3 * c3);
    };
}

/// A field element has at most one multiplicative inverse.
pub proof fn lemma_inverse_unique(a: int, x: int, y: int)
    requires
        is_inverse_of(x, a),
        is_inverse_of(y, a),
    ensures
        x == y,
{
    let p = modulus();
    // x == x * (a * y) == (x * a) * y == y (mod p)
    lemma_mul_mod_noop_general(x, a * y, p);
    assert(x * (a * y) == (x * a) * y) by (nonlinear_arith);
    lemma_mul_mod_noop_general(x * a, y, p);
    assert((x * a) % p == 1) by {
        assert(x * a == a * x) by (nonlinear_arith);
    };
    lemma_small_mod(x as nat, p as nat);
    lemma_small_mod(y as nat, p as nat);
    assert((1int * y) % p == y % p) by {
        assert(1int * y == y) by (nonlinear_arith);
    };
}

/// A witness of an inverse settles what `inv_p` is.
pub proof fn lemma_inv_p_of_witness(a: int, x: int)
    requires
        is_inverse_of(x, a),
    ensures
        inv_p(a) == x,
{
    let y = choose|y: int| is_inverse_of(y, a);
    lemma_inverse_unique(a, x, y);
}

/// Adding one value to two different canonical values gives two
/// different sums, and the sums are canonical.
pub proof fn lemma_add_p_left_injective(x: int, y: int, s: int)
    requires
        0 <= x < modulus(),
        0 <= y < modulus(),
        x != y,
    ensures
        add_p(x, s) != add_p(y, s),
        0 <= add_p(x, s) < modulus(),
        0 <= add_p(y, s) < modulus(),
{
    let p = modulus();
    vstd::arithmetic::div_mod::lemma_mod_bound(x + s, p);
    vstd::arithmetic::div_mod::lemma_mod_bound(y + s, p);
    if add_p(x, s) == add_p(y, s) {
        vstd::arithmetic::div_mod::lemma_fundamental_div_mod(x + s, p);
        vstd::arithmetic::div_mod::lemma_fundamental_div_mod(y + s, p);
        let q1 = (x + s) / p;
        let q2 = (y + s) / p;
        assert(false) by (nonlinear_arith)
            requires
                x + s == p * q1 + add_p(x, s),
                y + s == p * q2 + add_p(y, s),
                add_p(x, s) == add_p(y, s),
                0 <= x < p,
                0 <= y < p,
                x != y,
        ;
    }
}

/// Adding two different canonical values to one value gives two
/// different sums.
pub proof fn lemma_add_p_right_injective(a: int, s: int, t: int)
    requires
        0 <= s < modulus(),
        0 <= t < modulus(),
        s != t,
    ensures
        add_p(a, s) != add_p(a, t),
{
    let p = modulus();
    vstd::arithmetic::div_mod::lemma_mod_bound(a + s, p);
    vstd::arithmetic::div_mod::lemma_mod_bound(a + t, p);
    if add_p(a, s) == add_p(a, t) {
        vstd::arithmetic::div_mod::lemma_fundamental_div_mod(a + s, p);
        vstd::arithmetic::div_mod::lemma_fundamental_div_mod(a + t, p);
        let q1 = (a + s) / p;
        let q2 = (a + t) / p;
        assert(false) by (nonlinear_arith)
            requires
                a + s == p * q1 + add_p(a, s),
                a + t == p * q2 + add_p(a, t),
                add_p(a, s) == add_p(a, t),
                0 <= s < p,
                0 <= t < p,
                s != t,
        ;
    }
}

/// Doubling a canonical value is zero only at zero (the modulus is odd).
pub proof fn lemma_double_zero(w: int)
    requires
        0 <= w < modulus(),
    ensures
        mul_p(2, w) == 0 <==> w == 0,
{
    let p = modulus();
    if w == 0 {
        lemma_small_mod(0, p as nat);
    } else if 2 * w < p {
        lemma_small_mod((2 * w) as nat, p as nat);
    } else {
        vstd::arithmetic::div_mod::lemma_mod_sub_multiples_vanish(2 * w, p);
        lemma_small_mod((2 * w - p) as nat, p as nat);
    }
}

/// Negating a canonical value is zero only at zero, and stays canonical.
pub proof fn lemma_neg_zero(w: int)
    requires
        0 <= w < modulus(),
    ensures
        neg_p(w) == 0 <==> w == 0,
        0 <= neg_p(w) < modulus(),
{
    let p = modulus();
    if w == 0 {
        vstd::arithmetic::div_mod::lemma_mod_self_0(p);
    } else {
        lemma_small_mod((p - w) as nat, p as nat);
    }
}

/// Multiplying two powers of one base adds the exponents, in the field.
pub proof fn lemma_pow_p_adds(a: int, m: nat, n: nat)
    ensures
        mul_p(pow_p(a, m), pow_p(a, n)) == pow_p(a, m + n),
{
    lemma_mul_mod_noop_general(pow(a, m), pow(a, n), modulus());
    lemma_pow_adds(a, m, n);
}

/// Raising a power of a base to a power multiplies the exponents, in the
/// field.
pub proof fn lemma_pow_p_pow(a: int, m: nat, n: nat)
    ensures
        pow_p(pow_p(a, m), n) == pow_p(a, m * n),
{
    lemma_pow_mod_noop(pow(a, m), n, modulus());
    lemma_pow_multiplies(a, m, n);
}

/// Field multiplication is associative.
pub proof fn lemma_mul_p_assoc(a: int, b: int, c: int)
    ensures
        mul_p(mul_p(a, b), c) == mul_p(a, mul_p(b, c)),
{
    let p = modulus();
    lemma_mul_mod_noop_general(a * b, c, p);
    lemma_mul_mod_noop_general(a, b * c, p);
    assert((a * b) * c == a * (b * c)) by (nonlinear_arith);
}

/// Field multiplication distributes over field addition.
pub proof fn lemma_mul_p_distrib_add(a: int, b: int, c: int)
    ensures
        mul_p(a, add_p(b, c)) == add_p(mul_p(a, b), mul_p(a, c)),
{
    let p = modulus();
    lemma_mul_mod_noop_general(a, b + c, p);
    assert(a * (b + c) == a * b + a * c) by (nonlinear_arith);
    vstd::arithmetic::div_mod::lemma_add_mod_noop(a * b, a * c, p);
}

/// Field multiplication distributes over field subtraction.
pub proof fn lemma_mul_p_distrib_sub(a: int, b: int, c: int)
    ensures
        mul_p(a, sub_p(b, c)) == sub_p(mul_p(a, b), mul_p(a, c)),
{
    let p = modulus();
    lemma_mul_mod_noop_general(a, b - c, p);
    assert(a * (b - c) == a * b - a * c) by (nonlinear_arith);
    vstd::arithmetic::div_mod::lemma_sub_mod_noop(a * b, a * c, p);
}

/// A negated factor negates the product.
pub proof fn lemma_mul_p_neg_right(a: int, b: int)
    requires
        0 <= b < modulus(),
    ensures
        mul_p(a, neg_p(b)) == neg_p(mul_p(a, b)),
{
    let p = modulus();
    // a * ((p - b) % p) % p == a * (p - b) % p == (a*p - a*b) % p == (-(a*b)) % p
    lemma_mul_mod_noop_general(a, p - b, p);
    assert(a * (p - b) == p * a + (0 - (a * b))) by (nonlinear_arith);
    vstd::arithmetic::div_mod::lemma_mod_multiples_vanish(a, 0 - (a * b), p);
    // (p - (a*b) % p) % p == (p - a*b) % p == (-(a*b)) % p
    vstd::arithmetic::div_mod::lemma_sub_mod_noop_right(p, a * b, p);
    vstd::arithmetic::div_mod::lemma_mod_multiples_vanish(1, 0 - (a * b), p);
}

/// Two negated factors cancel.
pub proof fn lemma_mul_p_neg_neg(a: int, b: int)
    requires
        0 <= a < modulus(),
        0 <= b < modulus(),
    ensures
        mul_p(neg_p(a), neg_p(b)) == mul_p(a, b),
{
    let p = modulus();
    lemma_mul_p_neg_right(neg_p(a), b);
    // mul_p(neg_p(a), b) == neg_p(mul_p(a, b)) by commuting the factors
    lemma_mul_p_neg_right(b, a);
    assert(mul_p(neg_p(a), b) == mul_p(b, neg_p(a))) by {
        assert(neg_p(a) * b == b * neg_p(a)) by (nonlinear_arith);
    };
    assert(mul_p(b, a) == mul_p(a, b)) by {
        assert(b * a == a * b) by (nonlinear_arith);
    };
    // so the goal is neg_p(neg_p(mul_p(a, b))) == mul_p(a, b)
    vstd::arithmetic::div_mod::lemma_mod_bound(a * b, p);
    lemma_neg_neg(mul_p(a, b));
}

/// Negation is an involution on canonical values.
pub proof fn lemma_neg_neg(x: int)
    requires
        0 <= x < modulus(),
    ensures
        neg_p(neg_p(x)) == x,
{
    let p = modulus();
    if x == 0 {
        vstd::arithmetic::div_mod::lemma_mod_self_0(p);
        lemma_small_mod(0, p as nat);
    } else {
        lemma_small_mod((p - x) as nat, p as nat);
        lemma_small_mod(x as nat, p as nat);
    }
}

/// Adding a negated canonical value subtracts it.
pub proof fn lemma_add_p_neg(a: int, b: int)
    requires
        0 <= b < modulus(),
    ensures
        add_p(a, neg_p(b)) == sub_p(a, b),
{
    let p = modulus();
    // (a + (p - b) % p) % p == (a + (p - b)) % p == (a - b) % p
    vstd::arithmetic::div_mod::lemma_add_mod_noop_right(a, p - b, p);
    vstd::arithmetic::div_mod::lemma_mod_multiples_vanish(1, a - b, p);
}

/// Multiplying a canonical value by one keeps it.
pub proof fn lemma_mul_p_one(x: int)
    requires
        0 <= x < modulus(),
    ensures
        mul_p(1, x) == x,
        mul_p(x, 1) == x,
{
    lemma_small_mod(x as nat, modulus() as nat);
}

/// Field multiplication is commutative.
pub proof fn lemma_mul_p_comm(a: int, b: int)
    ensures
        mul_p(a, b) == mul_p(b, a),
{
    assert(a * b == b * a) by (nonlinear_arith);
}

/// A factor joins a power of itself: `x * x^e == x^(e+1)` in the field.
pub proof fn lemma_mul_p_pow_succ(x: int, e: nat)
    ensures
        mul_p(x, pow_p(x, e)) == pow_p(x, e + 1),
{
    lemma_mul_mod_noop_general(x, pow(x, e), modulus());
    lemma_pow_adds(x, 1, e);
    vstd::arithmetic::power::lemma_pow1(x);
}

/// Chained field additions reduce like one big sum.
pub proof fn lemma_add_p_chain3(a: int, b: int, c: int)
    ensures
        add_p(add_p(a, b), c) == (a + b + c) % modulus(),
{
    let p = modulus();
    vstd::arithmetic::div_mod::lemma_add_mod_noop_right(c, a + b, p);
}

/// Four chained field additions reduce like one big sum, in either
/// association.
pub proof fn lemma_add_p_chain4(a: int, b: int, c: int, d: int)
    ensures
        add_p(add_p(add_p(a, b), c), d) == (a + b + c + d) % modulus(),
        add_p(add_p(a, b), add_p(c, d)) == (a + b + c + d) % modulus(),
{
    let p = modulus();
    lemma_add_p_chain3(a, b, c);
    vstd::arithmetic::div_mod::lemma_add_mod_noop_right(d, a + b + c, p);
    vstd::arithmetic::div_mod::lemma_add_mod_noop(a + b, c + d, p);
}

/// Field multiplication distributes over field addition on the left.
pub proof fn lemma_mul_p_distrib_add_right(a: int, b: int, t: int)
    ensures
        mul_p(add_p(a, b), t) == add_p(mul_p(a, t), mul_p(b, t)),
{
    lemma_mul_p_comm(add_p(a, b), t);
    lemma_mul_p_distrib_add(t, a, b);
    lemma_mul_p_comm(t, a);
    lemma_mul_p_comm(t, b);
}

/// The canonical inverse of two in the field: half of one more than the
/// modulus.
pub open spec fn two_inverse_value() -> int {
    26217937587563095239723870254092982918845276250263818911301829349969290592257int
}

/// Two times `two_inverse_value()` is one more than the modulus, so it
/// inverts two.
pub proof fn lemma_two_inverse()
    ensures
        is_inverse_of(two_inverse_value(), 2),
{
    let p = modulus();
    assert(2 * two_inverse_value() == p + 1);
    vstd::arithmetic::div_mod::lemma_mod_multiples_vanish(1, 1, p);
    lemma_small_mod(1, p as nat);
}

/// Inverses multiply to inverses: the product of two inverses inverts
/// the product.
pub proof fn lemma_inverse_of_product(a: int, ia: int, b: int, ib: int)
    requires
        is_inverse_of(ia, a),
        is_inverse_of(ib, b),
    ensures
        is_inverse_of(mul_p(ia, ib), mul_p(a, b)),
{
    let p = modulus();
    vstd::arithmetic::div_mod::lemma_mod_bound(ia * ib, p);
    lemma_mul_mod_noop_general(a * b, ia * ib, p);
    assert((a * b) * (ia * ib) == (a * ia) * (b * ib)) by (nonlinear_arith);
    lemma_mul_mod_noop_general(a * ia, b * ib, p);
    lemma_small_mod(1, p as nat);
}

/// An invertible factor cancels: equal products mean equal canonical
/// cofactors.
pub proof fn lemma_mul_p_cancel(k: int, ik: int, a: int, b: int)
    requires
        is_inverse_of(ik, k),
        0 <= a < modulus(),
        0 <= b < modulus(),
        mul_p(k, a) == mul_p(k, b),
    ensures
        a == b,
{
    lemma_mul_p_assoc(ik, k, a);
    lemma_mul_p_assoc(ik, k, b);
    lemma_mul_p_comm(ik, k);
    lemma_mul_p_one(a);
    lemma_mul_p_one(b);
}

/// Powers of one are one, in the field.
pub proof fn lemma_pow_p_one_base(e: nat)
    ensures
        pow_p(1, e) == 1,
{
    vstd::arithmetic::power::lemma1_pow(e);
    lemma_small_mod(1, modulus() as nat);
}

/// An exponent can be reduced modulo the order of the base: where
/// `g^m == 1`, `g^e == g^(e % m)`.
pub proof fn lemma_pow_p_reduce_exp(g: int, e: nat, m: nat)
    requires
        m >= 1,
        pow_p(g, m) == 1,
    ensures
        pow_p(g, e) == pow_p(g, e % m),
{
    let p = modulus();
    let q = e / m;
    let j = e % m;
    vstd::arithmetic::div_mod::lemma_fundamental_div_mod(e as int, m as int);
    assert(e == q * m + j);
    lemma_pow_p_adds(g, (q * m) as nat, j);
    lemma_pow_p_pow(g, m, q);
    assert(pow_p(pow_p(g, m), q) == pow_p(g, (q * m) as nat)) by {
        assert(m * q == q * m);
    };
    lemma_pow_p_one_base(q);
    vstd::arithmetic::div_mod::lemma_mod_bound(pow(g, j), p);
    lemma_small_mod(pow_p(g, j) as nat, p as nat);
    assert(mul_p(1, pow_p(g, j)) == pow_p(g, j) % p);
}

/// Embeds a small integer into the field.  Every `u64` is below the modulus,
/// so the canonical limbs are the integer itself.
pub fn felt_from_u64(x: u64) -> (r: Felt)
    ensures
        r.wf(),
        r.value() == x,
{
    Felt { l0: x, l1: 0, l2: 0, l3: 0 }
}

/// Relies on field addition on `ark_bls12_381::Fr` (`Add for Fp`), which
/// adds two elements of the prime field of order `modulus()`;
/// `from_bigint`/`into_bigint` translate between an element and its
/// canonical limbs.
#[verifier::external_body]
pub(crate) fn felt_add(a: &Felt, b: &Felt) -> (r: Felt)
    requires
        a.wf(),
        b.wf(),
    ensures
        r.wf(),
        r.value() == add_p(a.value(), b.value()),
{
    let x = ark_bls12_381::Fr::from_bigint(ark_ff::BigInt([a.l0, a.l1, a.l2, a.l3])).unwrap();
    let y = ark_bls12_381::Fr::from_bigint(ark_ff::BigInt([b.l0, b.l1, b.l2, b.l3])).unwrap();
    let s = (x + y).into_bigint().0;
    Felt { l0: s[0], l1: s[1], l2: s[2], l3: s[3] }
}

/// Relies on field subtraction on `ark_bls12_381::Fr` (`Sub for Fp`).
#[verifier::external_body]
pub(crate) fn felt_sub(a: &Felt, b: &Felt) -> (r: Felt)
    requires
        a.wf(),
        b.wf(),
    ensures
        r.wf(),
        r.value() == sub_p(a.value(), b.value()),
{
    let x = ark_bls12_381::Fr::from_bigint(ark_ff::BigInt([a.l0, a.l1, a.l2, a.l3])).unwrap();
    let y = ark_bls12_381::Fr::from_bigint(ark_ff::BigInt([b.l0, b.l1, b.l2, b.l3])).unwrap();
    let s = (x - y).into_bigint().0;
    Felt { l0: s[0], l1: s[1], l2: s[2], l3: s[3] }
}

/// Relies on field multiplication on `ark_bls12_381::Fr` (`Mul for Fp`).
#[verifier::external_body]
pub(crate) fn felt_mul(a: &Felt, b: &Felt) -> (r: Felt)
    requires
        a.wf(),
        b.wf(),
    ensures
        r.wf(),
        r.value() == mul_p(a.value(), b.value()),
{
    let x = ark_bls12_381::Fr::from_bigint(ark_ff::BigInt([a.l0, a.l1, a.l2, a.l3])).unwrap();
    let y = ark_bls12_381::Fr::from_bigint(ark_ff::BigInt([b.l0, b.l1, b.l2, b.l3])).unwrap();
    let s = (x * y).into_bigint().0;
    Felt { l0: s[0], l1: s[1], l2: s[2], l3: s[3] }
}

/// Relies on field negation on `ark_bls12_381::Fr` (`Neg for Fp`).
#[verifier::external_body]
pub(crate) fn felt_neg(a: &Felt) -> (r: Felt)
    requires
        a.wf(),
    ensures
        r.wf(),
        r.value() == neg_p(a.value()),
{
    let x = ark_bls12_381::Fr::from_bigint(ark_ff::BigInt([a.l0, a.l1, a.l2, a.l3])).unwrap();
    let s = (-x).into_bigint().0;
    Felt { l0: s[0], l1: s[1], l2: s[2], l3: s[3] }
}

/// Relies on `ark_ff::Field::pow`, which returns `self^exp` for an exponent
/// given as little-endian `u64` limbs.
#[verifier::external_body]
pub(crate) fn felt_pow(a: &Felt, e: u64) -> (r: Felt)
    requires
        a.wf(),
    ensures
        r.wf(),
        r.value() == pow_p(a.value(), e as nat),
{
    let x = ark_bls12_381::Fr::from_bigint(ark_ff::BigInt([a.l0, a.l1, a.l2, a.l3])).unwrap();
    let s = x.pow([e]).into_bigint().0;
    Felt { l0: s[0], l1: s[1], l2: s[2], l3: s[3] }
}

/// Relies on `ark_ff::Field::inverse`, which returns the multiplicative
/// inverse of a nonzero element and `None` for zero.
#[verifier::external_body]
pub(crate) fn felt_inverse(a: &Felt) -> (r: Option<Felt>)
    requires
        a.wf(),
    ensures
        a.value() == 0 <==> r is None,
        r is Some ==> (r->0).wf() && is_inverse_of((r->0).value(), a.value()),
{
    let x = ark_bls12_381::Fr::from_bigint(ark_ff::BigInt([a.l0, a.l1, a.l2, a.l3])).unwrap();
    match x.inverse() {
        None => None,
        Some(i) => {
            let s = i.into_bigint().0;
            Some(Felt { l0: s[0], l1: s[1], l2: s[2], l3: s[3] })
        },
    }
}

/// The canonical value of `ark_bls12_381::Fr`'s two-adic root of unity
/// (see `felt_two_adic_root`).
pub open spec fn two_adic_root_value() -> int {
    10238227357739495823651030575849232062558860180284477541189508159991286009131int
}

/// Relies on `ark_ff::FftField::TWO_ADIC_ROOT_OF_UNITY` of
/// `ark_bls12_381::Fr`: the constant `GENERATOR^trace`, where
/// `GENERATOR == 7` generates the multiplicative group of the field and
/// `trace` is the odd cofactor with `2^32 * trace == modulus() - 1`.  Its
/// canonical value is the stated literal, and it is a primitive root of
/// unity of order `2^32`: raising it to `2^32` gives one and raising it to
/// `2^31` does not.
#[verifier::external_body]
pub(crate) fn felt_two_adic_root() -> (r: Felt)
    ensures
        r.wf(),
        r.value() == two_adic_root_value(),
        pow_p(r.value(), vstd::arithmetic::power2::pow2(32)) == 1,
        pow_p(r.value(), vstd::arithmetic::power2::pow2(31)) != 1,
{
    let s = ark_bls12_381::Fr::TWO_ADIC_ROOT_OF_UNITY.into_bigint().0;
    Felt { l0: s[0], l1: s[1], l2: s[2], l3: s[3] }
}

/// Field elements compare equal exactly when their values do.
pub fn felt_eq(a: &Felt, b: &Felt) -> (r: bool)
    ensures
        r <==> a.value() == b.value(),
{
    proof {
        if a.value() == b.value() {
            lemma_felt_value_injective(*a, *b);
        }
    }
    a.l0 == b.l0 && a.l1 == b.l1 && a.l2 == b.l2 && a.l3 == b.l3
}

} // verus!
