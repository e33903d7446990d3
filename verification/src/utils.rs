//! Polynomial primitives: evaluation, domain generators, blown-up
//! evaluation domains, folding, and the commitment path replay.
use vstd::prelude::*;

verus! {

use vstd::arithmetic::power2::{pow2, lemma_pow2_unfold, lemma_pow2_strictly_increases};
use crate::field::{
    Felt, modulus, add_p, mul_p, pow_p, felt_from_u64, felt_add, felt_mul, felt_pow,
    felt_two_adic_root, two_adic_root_value, lemma_felt_value_injective, lemma_pow_p_adds,
};

/// The values of a sequence of field elements.
pub open spec fn seq_values(s: Seq<Felt>) -> Seq<int> {
    s.map_values(|f: Felt| f.value())
}

/// Every element of the sequence is canonical.
pub open spec fn wf_seq(s: Seq<Felt>) -> bool {
    forall|i: int| 0 <= i < s.len() ==> s[i].wf()
}

/// Two canonical sequences with the same values are the same sequence.
pub proof fn lemma_seq_values_injective(a: Seq<Felt>, b: Seq<Felt>)
    requires
        seq_values(a) == seq_values(b),
    ensures
        a == b,
{
    assert(seq_values(a).len() == a.len());
    assert(seq_values(b).len() == b.len());
    assert forall|i: int| 0 <= i < a.len() implies a[i] == b[i] by {
        assert(seq_values(a)[i] == a[i].value());
        assert(seq_values(b)[i] == b[i].value());
        lemma_felt_value_injective(a[i], b[i]);
    };
    assert(a =~= b);
}

/// The value of the polynomial with coefficient sequence `c` at the point
/// `x`, in the field: the sum of the `c[i] * x^i`.
pub open spec fn eval_poly(c: Seq<int>, x: int) -> int
    decreases c.len(),
{
    if c.len() == 0 {
        0
    } else {
        add_p(eval_poly(c.drop_last(), x), mul_p(c.last(), pow_p(x, (c.len() - 1) as nat)))
    }
}

/// Evaluates a polynomial in coefficient form at a point.
pub fn evaluate(poly: &Vec<Felt>, point: Felt) -> (r: Felt)
    requires
        wf_seq(poly@),
        point.wf(),
    ensures
        r.wf(),
        r.value() == eval_poly(seq_values(poly@), point.value()),
{
    let mut value: Felt = felt_from_u64(0);
    let mut i: usize = 0;
    while i < poly.len()
        invariant
            wf_seq(poly@),
            point.wf(),
            i <= poly@.len(),
            value.wf(),
            value.value() == eval_poly(seq_values(poly@).take(i as int), point.value()),
        decreases poly@.len() - i,
    {
        let term = felt_mul(&poly[i], &felt_pow(&point, i as u64));
        proof {
            let vs = seq_values(poly@);
            assert(vs.take(i + 1).drop_last() =~= vs.take(i as int));
            assert(vs.take(i + 1).last() == vs[i as int]);
        }
        value = felt_add(&value, &term);
        i = i + 1;
    }
    proof {
        assert(seq_values(poly@).take(poly@.len() as int) =~= seq_values(poly@));
    }
    value
}

/// The smallest `k` with `pow2(k) >= n` (for `n >= 1`).
pub open spec fn log2_ceil(n: nat) -> nat
    decreases n,
{
    if n <= 1 {
        0
    } else {
        (1 + log2_ceil(((n + 1) / 2) as nat)) as nat
    }
}

/// `log2_ceil` is what its name says: `pow2(log2_ceil(n))` reaches `n` and
/// no smaller power of two does.
pub proof fn lemma_log2_ceil_bounds(n: nat)
    requires
        n >= 1,
    ensures
        pow2(log2_ceil(n)) >= n,
        n >= 2 ==> pow2((log2_ceil(n) - 1) as nat) < n,
    decreases n,
{
    if n >= 2 {
        let m = ((n + 1) / 2) as nat;
        lemma_log2_ceil_bounds(m);
        lemma_pow2_unfold(log2_ceil(n));
        if m >= 2 {
            lemma_pow2_unfold(log2_ceil(m));
        } else {
            assert(pow2(0) == 1) by {
                vstd::arithmetic::power2::lemma2_to64();
            };
        }
    } else {
        assert(pow2(0) == 1) by {
            vstd::arithmetic::power2::lemma2_to64();
        };
    }
}

/// Only one exponent can satisfy the two bounds of `lemma_log2_ceil_bounds`.
pub proof fn lemma_log2_ceil_unique(n: nat, k: nat)
    requires
        n >= 1,
        pow2(k) >= n,
        k >= 1 ==> pow2((k - 1) as nat) < n,
    ensures
        k == log2_ceil(n),
{
    let k0 = log2_ceil(n);
    lemma_log2_ceil_bounds(n);
    if k < k0 {
        // pow2(k) >= n and pow2(k) <= pow2(k0 - 1) < n (as n >= 2 here)
        if n >= 2 {
            if k < k0 - 1 {
                lemma_pow2_strictly_increases(k, (k0 - 1) as nat);
            }
        } else {
            assert(k0 == 0);
        }
    }
    if k > k0 {
        // pow2(k - 1) < n and n <= pow2(k0) <= pow2(k - 1)
        if k0 < k - 1 {
            lemma_pow2_strictly_increases(k0, (k - 1) as nat);
        }
    }
}

/// A power of two is its own ceiling: `log2_ceil(pow2(k)) == k`.
pub proof fn lemma_log2_ceil_pow2(k: nat)
    ensures
        log2_ceil(pow2(k)) == k,
{
    vstd::arithmetic::power2::lemma_pow2_pos(k);
    if k >= 1 {
        lemma_pow2_strictly_increases((k - 1) as nat, k);
    }
    lemma_log2_ceil_unique(pow2(k), k);
}

/// The value `get_omega` returns for a polynomial of length `n`: the
/// two-adic root of unity squared down until its order is the smallest
/// power of two that is at least `n`.
pub open spec fn omega_for_len(n: nat) -> int {
    pow_p(two_adic_root_value(), pow2((32 - log2_ceil(n)) as nat))
}

/// Returns the generator of the evaluation domain of a polynomial: a root
/// of unity whose multiplicative order is the smallest power of two that
/// is at least the coefficient count, obtained by repeatedly squaring the
/// field's canonical two-adic root of unity.
#[verifier::loop_isolation(false)]
pub fn get_omega(coeffs: &Vec<Felt>) -> (r: Felt)
    requires
        1 <= coeffs@.len(),
        coeffs@.len() <= pow2(32),
        coeffs@.len() * 2 <= usize::MAX,
    ensures
        r.wf(),
        r.value() == omega_for_len(coeffs@.len()),
        pow_p(r.value(), pow2(log2_ceil(coeffs@.len()))) == 1,
        coeffs@.len() >= 2 ==> pow_p(r.value(), pow2((log2_ceil(coeffs@.len()) - 1) as nat)) != 1,
{
    let n = coeffs.len();
    // Find k with pow2(k) the smallest power of two >= n.
    let mut k: u64 = 0;
    let mut m: usize = 1;
    proof {
        assert(pow2(0) == 1) by {
            vstd::arithmetic::power2::lemma2_to64();
        };
    }
    while m < n
        invariant
            m == pow2(k as nat),
            1 <= m,
            m <= n * 2,
            k <= 32,
            k >= 1 ==> pow2((k - 1) as nat) < n,
        decreases 2 * n - m,
    {
        proof {
            if k >= 32 {
                if k > 32 {
                    lemma_pow2_strictly_increases(32, k as nat);
                }
                assert(false);
            }
            lemma_pow2_unfold((k + 1) as nat);
        }
        m = m * 2;
        k = k + 1;
    }
    proof {
        lemma_log2_ceil_unique(n as nat, k as nat);
        if k >= 33 {
            lemma_pow2_strictly_increases(32, (k - 1) as nat);
        }
    }
    // Square the two-adic root of unity down to order pow2(k).
    let mut omega = felt_two_adic_root();
    let mut j: u64 = k;
    proof {
        vstd::arithmetic::power::lemma_pow1(two_adic_root_value());
        vstd::arithmetic::power2::lemma2_to64();
        vstd::arithmetic::div_mod::lemma_small_mod(
            two_adic_root_value() as nat,
            modulus() as nat,
        );
    }
    while j < 32
        invariant
            k <= j <= 32,
            omega.wf(),
            omega.value() == pow_p(two_adic_root_value(), pow2((j - k) as nat)),
            pow_p(omega.value(), pow2((32 - (j - k)) as nat)) == 1,
            k >= 1 ==> pow_p(omega.value(), pow2((32 - (j - k) - 1) as nat)) != 1,
        decreases 32 - j,
    {
        let ghost t = (j - k) as nat;
        let ghost d = (32 - t) as nat;
        let ghost w = omega.value();
        omega = felt_mul(&omega, &omega);
        proof {
            // The value doubles its exponent over the two-adic root.
            lemma_pow_p_adds(two_adic_root_value(), pow2(t), pow2(t));
            lemma_pow2_unfold((t + 1) as nat);
            // Orders halve when squaring: (w*w)^(2^(d-1)) == w^(2^d).
            lemma_square_chain(w, (d - 1) as nat);
            if k >= 1 && d >= 2 {
                lemma_square_chain(w, (d - 2) as nat);
            }
        }
        j = j + 1;
    }
    omega
}

/// One folding step: even-indexed coefficients plus the challenge times
/// the odd-indexed ones, halving the polynomial's length.
pub open spec fn fold_spec(c: Seq<int>, r: int) -> Seq<int> {
    Seq::new(c.len() / 2, |i: int| add_p(c[2 * i], mul_p(r, c[2 * i + 1])))
}

/// Folds a polynomial into its even and odd coefficient halves and adds
/// them back up, the odd half scaled by the challenge.  The result has
/// exactly half the length of the input and is a pure function of the
/// coefficients and the challenge.
#[verifier::loop_isolation(false)]
pub fn fold_polynomial(poly: &Vec<Felt>, random_value: Felt) -> (r: Vec<Felt>)
    requires
        wf_seq(poly@),
        random_value.wf(),
        poly@.len() % 2 == 0,
    ensures
        wf_seq(r@),
        r@.len() == poly@.len() / 2,
        seq_values(r@) == fold_spec(seq_values(poly@), random_value.value()),
{
    let half = poly.len() / 2;
    let mut folded: Vec<Felt> = Vec::new();
    let mut i: usize = 0;
    while i < half
        invariant
            i <= half,
            folded@.len() == i,
            wf_seq(folded@),
            seq_values(folded@) =~= fold_spec(seq_values(poly@), random_value.value()).take(
                i as int,
            ),
        decreases half - i,
    {
        let even_coeff = poly[2 * i];
        let odd_coeff = poly[2 * i + 1];
        folded.push(felt_add(&even_coeff, &felt_mul(&random_value, &odd_coeff)));
        i = i + 1;
    }
    proof {
        assert(seq_values(folded@) =~= fold_spec(seq_values(poly@), random_value.value()));
    }
    folded
}

/// The blown-up evaluation domain: the polynomial's value at
/// `w^0, w^1, ..., w^(n-1)`.
pub open spec fn eval_points_spec(c: Seq<int>, w: int, n: nat) -> Seq<int> {
    Seq::new(n, |i: int| eval_poly(c, pow_p(w, i as nat)))
}

/// Evaluates a polynomial over the blown-up domain indexed by the powers
/// of `omega`: `coeffs.len() * blowup_factor` points.
#[verifier::loop_isolation(false)]
pub fn get_evaluation_points(coeffs: &Vec<Felt>, omega: Felt, blowup_factor: u64) -> (r: Vec<Felt>)
    requires
        wf_seq(coeffs@),
        omega.wf(),
        coeffs@.len() * blowup_factor <= usize::MAX,
    ensures
        wf_seq(r@),
        r@.len() == coeffs@.len() * blowup_factor,
        seq_values(r@) == eval_points_spec(
            seq_values(coeffs@),
            omega.value(),
            (coeffs@.len() * blowup_factor) as nat,
        ),
{
    let evaluation_size = (coeffs.len() as u64).checked_mul(blowup_factor).unwrap() as usize;
    let mut evaluation_vec: Vec<Felt> = Vec::new();
    let mut i: usize = 0;
    while i < evaluation_size
        invariant
            i <= evaluation_size,
            evaluation_vec@.len() == i,
            wf_seq(evaluation_vec@),
            seq_values(evaluation_vec@) =~= eval_points_spec(
                seq_values(coeffs@),
                omega.value(),
                evaluation_size as nat,
            ).take(i as int),
        decreases evaluation_size - i,
    {
        let point = felt_pow(&omega, i as u64);
        evaluation_vec.push(evaluate(coeffs, point));
        i = i + 1;
    }
    proof {
        let full = eval_points_spec(
            seq_values(coeffs@),
            omega.value(),
            evaluation_size as nat,
        );
        assert(seq_values(evaluation_vec@) =~= full);
    }
    evaluation_vec
}

/// Replaying a commitment path from a leaf: the leaf combined in order
/// with each sibling on the path.
pub open spec fn reconstruct_spec(x: int, path: Seq<int>) -> int
    decreases path.len(),
{
    if path.len() == 0 {
        x
    } else {
        reconstruct_spec(add_p(x, path[0]), path.subrange(1, path.len() as int))
    }
}

/// Recomputes the commitment root implied by a leaf element and its
/// sibling path, combining pairs the same way the tree builder does.
#[verifier::loop_isolation(false)]
pub fn reconstruct_merkle_root(element: Felt, merkle_path: &Vec<Felt>) -> (r: Felt)
    requires
        element.wf(),
        wf_seq(merkle_path@),
    ensures
        r.wf(),
        r.value() == reconstruct_spec(element.value(), seq_values(merkle_path@)),
{
    let mut accumulator = element;
    let mut i: usize = 0;
    proof {
        assert(seq_values(merkle_path@).skip(0) =~= seq_values(merkle_path@));
    }
    while i < merkle_path.len()
        invariant
            i <= merkle_path@.len(),
            accumulator.wf(),
            reconstruct_spec(element.value(), seq_values(merkle_path@)) == reconstruct_spec(
                accumulator.value(),
                seq_values(merkle_path@).skip(i as int),
            ),
        decreases merkle_path@.len() - i,
    {
        proof {
            let rest = seq_values(merkle_path@).skip(i as int);
            assert(rest[0] == seq_values(merkle_path@)[i as int]);
            assert(rest.subrange(1, rest.len() as int) =~= seq_values(merkle_path@).skip(
                i + 1,
            ));
        }
        accumulator = felt_add(&accumulator, &merkle_path[i]);
        i = i + 1;
    }
    proof {
        assert(seq_values(merkle_path@).skip(merkle_path@.len() as int) =~= Seq::<int>::empty());
    }
    accumulator
}

/// THE FOLD DETERMINISM LAW: folding is a pure function of the
/// coefficients and the challenge — any two canonical results whose
/// values are the fold of one coefficient sequence under one challenge
/// are the same sequence.
pub proof fn lemma_fold_deterministic(a: Seq<Felt>, b: Seq<Felt>, c: Seq<int>, challenge: int)
    requires
        seq_values(a) == fold_spec(c, challenge),
        seq_values(b) == fold_spec(c, challenge),
    ensures
        a == b,
{
    lemma_seq_values_injective(a, b);
}

/// Replaying one path from two different canonical leaf values gives two
/// different roots: each combination step keeps distinct values distinct.
pub proof fn lemma_reconstruct_injective_leaf(x: int, y: int, path: Seq<int>)
    requires
        0 <= x < modulus(),
        0 <= y < modulus(),
        x != y,
    ensures
        reconstruct_spec(x, path) != reconstruct_spec(y, path),
    decreases path.len(),
{
    if path.len() > 0 {
        crate::field::lemma_add_p_left_injective(x, y, path[0]);
        lemma_reconstruct_injective_leaf(
            add_p(x, path[0]),
            add_p(y, path[0]),
            path.subrange(1, path.len() as int),
        );
    }
}

/// Replaying two paths of canonical values that differ in exactly one
/// entry from one canonical leaf gives two different roots.
pub proof fn lemma_reconstruct_injective_entry(x: int, p1: Seq<int>, p2: Seq<int>, k: int)
    requires
        0 <= x < modulus(),
        p1.len() == p2.len(),
        0 <= k < p1.len(),
        forall|i: int| 0 <= i < p1.len() ==> 0 <= #[trigger] p1[i] < modulus(),
        forall|i: int| 0 <= i < p2.len() ==> 0 <= #[trigger] p2[i] < modulus(),
        forall|i: int| 0 <= i < p1.len() && i != k ==> #[trigger] p1[i] == p2[i],
        p1[k] != p2[k],
    ensures
        reconstruct_spec(x, p1) != reconstruct_spec(x, p2),
    decreases k,
{
    let t1 = p1.subrange(1, p1.len() as int);
    let t2 = p2.subrange(1, p2.len() as int);
    vstd::arithmetic::div_mod::lemma_mod_bound(x + p1[0], modulus());
    vstd::arithmetic::div_mod::lemma_mod_bound(x + p2[0], modulus());
    if k == 0 {
        crate::field::lemma_add_p_right_injective(x, p1[0], p2[0]);
        assert(t1 =~= t2);
        lemma_reconstruct_injective_leaf(add_p(x, p1[0]), add_p(x, p2[0]), t1);
    } else {
        lemma_reconstruct_injective_entry(add_p(x, p1[0]), t1, t2, k - 1);
    }
}

/// The even-indexed coefficients of a polynomial.
pub open spec fn even_coeffs(s: Seq<int>) -> Seq<int> {
    Seq::new(s.len() / 2, |i: int| s[2 * i])
}

/// The odd-indexed coefficients of a polynomial.
pub open spec fn odd_coeffs(s: Seq<int>) -> Seq<int> {
    Seq::new(s.len() / 2, |i: int| s[2 * i + 1])
}

/// Squaring the point doubles the exponent: `(x*x)^k == x^(2k)` in the
/// field.
pub proof fn lemma_pow_p_square_exp(x: int, k: nat)
    ensures
        pow_p(mul_p(x, x), k) == pow_p(x, 2 * k),
{
    vstd::arithmetic::power::lemma_pow_mod_noop(x * x, k, modulus());
    vstd::arithmetic::power::lemma_pow_adds(x, 1, 1);
    vstd::arithmetic::power::lemma_pow1(x);
    vstd::arithmetic::power::lemma_pow_multiplies(x, 2, k);
}

/// An even-length polynomial splits at a point into its even part at the
/// squared point plus the point times its odd part at the squared point.
pub proof fn lemma_eval_even_odd(s: Seq<int>, x: int)
    requires
        s.len() % 2 == 0,
    ensures
        eval_poly(s, x) == add_p(
            eval_poly(even_coeffs(s), mul_p(x, x)),
            mul_p(x, eval_poly(odd_coeffs(s), mul_p(x, x))),
        ),
    decreases s.len(),
{
    let p = modulus();
    let y = mul_p(x, x);
    if s.len() == 0 {
        assert(even_coeffs(s) =~= Seq::<int>::empty());
        assert(odd_coeffs(s) =~= Seq::<int>::empty());
        vstd::arithmetic::div_mod::lemma_small_mod(0, p as nat);
        assert(mul_p(x, 0) == 0);
        assert(add_p(0, 0) == 0);
    } else {
        let m = s.len() as int;
        let s2 = s.drop_last().drop_last();
        lemma_eval_even_odd(s2, x);
        assert(even_coeffs(s2) =~= even_coeffs(s).drop_last());
        assert(odd_coeffs(s2) =~= odd_coeffs(s).drop_last());
        assert(s.drop_last().drop_last() == s2);
        assert(s.drop_last().last() == s[m - 2]);
        let e2 = eval_poly(even_coeffs(s2), y);
        let o2 = eval_poly(odd_coeffs(s2), y);
        let a = mul_p(s[m - 2], pow_p(x, (m - 2) as nat));
        let b = mul_p(s[m - 1], pow_p(x, (m - 1) as nat));
        // the closing terms of the even and odd halves
        lemma_pow_p_square_exp(x, (m / 2 - 1) as nat);
        assert(2 * ((m / 2 - 1) as nat) == m - 2);
        assert(even_coeffs(s).last() == s[m - 2]);
        assert(odd_coeffs(s).last() == s[m - 1]);
        assert(eval_poly(even_coeffs(s), y) == add_p(e2, a));
        assert(eval_poly(odd_coeffs(s), y) == add_p(
            o2,
            mul_p(s[m - 1], pow_p(x, (m - 2) as nat)),
        ));
        // x times the odd closing term is the polynomial's closing term
        crate::field::lemma_mul_p_assoc(x, s[m - 1], pow_p(x, (m - 2) as nat));
        crate::field::lemma_mul_p_comm(x, s[m - 1]);
        crate::field::lemma_mul_p_assoc(s[m - 1], x, pow_p(x, (m - 2) as nat));
        crate::field::lemma_mul_p_pow_succ(x, (m - 2) as nat);
        assert(mul_p(x, mul_p(s[m - 1], pow_p(x, (m - 2) as nat))) == b);
        // distribute x over the odd half
        crate::field::lemma_mul_p_distrib_add(x, o2, mul_p(s[m - 1], pow_p(x, (m - 2) as nat)));
        assert(mul_p(x, eval_poly(odd_coeffs(s), y)) == add_p(mul_p(x, o2), b));
        // both sides are the same four-term sum
        assert(eval_poly(s.drop_last(), x) == add_p(eval_poly(s2, x), a));
        assert(eval_poly(s, x) == add_p(eval_poly(s.drop_last(), x), b));
        assert(eval_poly(s, x) == add_p(add_p(eval_poly(s2, x), a), b));
        crate::field::lemma_add_p_chain4(e2, mul_p(x, o2), a, b);
        crate::field::lemma_add_p_chain4(e2, a, mul_p(x, o2), b);
        assert(add_p(add_p(e2, a), add_p(mul_p(x, o2), b)) == (e2 + a + mul_p(x, o2) + b) % p);
        assert(add_p(add_p(add_p(e2, mul_p(x, o2)), a), b) == (e2 + mul_p(x, o2) + a + b) % p);
    }
}

/// Folding then evaluating is the even part plus the challenge times the
/// odd part, at the same point.
pub proof fn lemma_eval_fold(s: Seq<int>, c: int, y: int)
    requires
        s.len() % 2 == 0,
    ensures
        eval_poly(fold_spec(s, c), y) == add_p(
            eval_poly(even_coeffs(s), y),
            mul_p(c, eval_poly(odd_coeffs(s), y)),
        ),
    decreases s.len(),
{
    let p = modulus();
    if s.len() == 0 {
        assert(fold_spec(s, c) =~= Seq::<int>::empty());
        assert(even_coeffs(s) =~= Seq::<int>::empty());
        assert(odd_coeffs(s) =~= Seq::<int>::empty());
        vstd::arithmetic::div_mod::lemma_small_mod(0, p as nat);
        assert(mul_p(c, 0) == 0);
        assert(add_p(0, 0) == 0);
    } else {
        let m = s.len() as int;
        let s2 = s.drop_last().drop_last();
        lemma_eval_fold(s2, c, y);
        assert(even_coeffs(s2) =~= even_coeffs(s).drop_last());
        assert(odd_coeffs(s2) =~= odd_coeffs(s).drop_last());
        assert(fold_spec(s2, c) =~= fold_spec(s, c).drop_last());
        let e2 = eval_poly(even_coeffs(s2), y);
        let o2 = eval_poly(odd_coeffs(s2), y);
        let t = pow_p(y, (m / 2 - 1) as nat);
        let a = mul_p(s[m - 2], t);
        let b = mul_p(s[m - 1], t);
        assert(even_coeffs(s).last() == s[m - 2]);
        assert(odd_coeffs(s).last() == s[m - 1]);
        assert(fold_spec(s, c).last() == add_p(s[m - 2], mul_p(c, s[m - 1])));
        assert(fold_spec(s, c).len() == m / 2);
        assert(eval_poly(even_coeffs(s), y) == add_p(e2, a));
        assert(eval_poly(odd_coeffs(s), y) == add_p(o2, b));
        // the folded closing term splits into the two halves' closing terms
        crate::field::lemma_mul_p_distrib_add_right(s[m - 2], mul_p(c, s[m - 1]), t);
        crate::field::lemma_mul_p_assoc(c, s[m - 1], t);
        assert(mul_p(add_p(s[m - 2], mul_p(c, s[m - 1])), t) == add_p(a, mul_p(c, b)));
        assert(eval_poly(fold_spec(s, c), y) == add_p(
            add_p(eval_poly(fold_spec(s2, c), y), a),
            mul_p(c, b),
        )) by {
            crate::field::lemma_add_p_chain3(eval_poly(fold_spec(s2, c), y), a, mul_p(c, b));
            assert(eval_poly(fold_spec(s, c), y) == add_p(
                eval_poly(fold_spec(s2, c), y),
                add_p(a, mul_p(c, b)),
            ));
            vstd::arithmetic::div_mod::lemma_add_mod_noop_right(
                eval_poly(fold_spec(s2, c), y),
                a + mul_p(c, b),
                p,
            );
            vstd::arithmetic::div_mod::lemma_add_mod_noop_right(
                mul_p(c, b),
                eval_poly(fold_spec(s2, c), y) + a,
                p,
            );
        };
        // distribute the challenge over the odd half
        crate::field::lemma_mul_p_distrib_add(c, o2, b);
        // both sides are the same four-term sum
        crate::field::lemma_add_p_chain4(eval_poly(fold_spec(s2, c), y), a, mul_p(c, o2), mul_p(c, b));
        crate::field::lemma_add_p_chain4(e2, a, mul_p(c, o2), mul_p(c, b));
        assert(eval_poly(fold_spec(s2, c), y) == add_p(e2, mul_p(c, o2)));
        crate::field::lemma_add_p_chain4(e2, mul_p(c, o2), a, mul_p(c, b));
    }
}

/// A polynomial's value in the field is canonical.
pub proof fn lemma_eval_poly_canonical(s: Seq<int>, x: int)
    ensures
        0 <= eval_poly(s, x) < modulus(),
{
    if s.len() == 0 {
    } else {
        vstd::arithmetic::div_mod::lemma_mod_bound(
            eval_poly(s.drop_last(), x) + mul_p(s.last(), pow_p(x, (s.len() - 1) as nat)),
            modulus(),
        );
    }
}

/// A constant polynomial evaluates to its one canonical coefficient,
/// everywhere.
pub proof fn lemma_eval_single(s: Seq<int>, x: int)
    requires
        s.len() == 1,
        0 <= s[0] < modulus(),
    ensures
        eval_poly(s, x) == s[0],
{
    let p = modulus();
    vstd::arithmetic::power::lemma_pow0(x);
    vstd::arithmetic::div_mod::lemma_small_mod(1, p as nat);
    assert(pow_p(x, 0) == 1);
    crate::field::lemma_mul_p_one(s[0]);
    assert(s.drop_last() =~= Seq::<int>::empty());
    assert(eval_poly(s.drop_last(), x) == 0);
    assert(s.last() == s[0]);
    vstd::arithmetic::div_mod::lemma_small_mod(s[0] as nat, p as nat);
    assert(eval_poly(s, x) == add_p(0, mul_p(s[0], 1)));
}

/// `pow2(k)` is a power of two.
pub proof fn lemma_pow2_is_pow2(k: nat)
    ensures
        vstd::arithmetic::power2::is_pow2(pow2(k) as int),
{
    vstd::arithmetic::power2::lemma_pow2(k);
    assert(vstd::arithmetic::power2::is_pow2_exists(pow2(k) as int)) by {
        assert(vstd::arithmetic::power::pow(2, k) == pow2(k) as int);
    };
    vstd::arithmetic::power2::is_pow2_equiv(pow2(k) as int);
}

/// A product of two powers of two is a power of two.
pub proof fn lemma_is_pow2_mul(a: int, b: int)
    requires
        vstd::arithmetic::power2::is_pow2(a),
        vstd::arithmetic::power2::is_pow2(b),
    ensures
        vstd::arithmetic::power2::is_pow2(a * b),
{
    vstd::arithmetic::power2::is_pow2_equiv(a);
    vstd::arithmetic::power2::is_pow2_equiv(b);
    let i = choose|i: nat| vstd::arithmetic::power::pow(2, i) == a;
    let j = choose|j: nat| vstd::arithmetic::power::pow(2, j) == b;
    vstd::arithmetic::power::lemma_pow_adds(2, i, j);
    assert(vstd::arithmetic::power2::is_pow2_exists(a * b)) by {
        assert(vstd::arithmetic::power::pow(2, i + j) == a * b);
    };
    vstd::arithmetic::power2::is_pow2_equiv(a * b);
}

/// Copies a vector of field elements element by element.
pub fn copy_felts(v: &Vec<Felt>) -> (r: Vec<Felt>)
    ensures
        r@ == v@,
{
    let mut r: Vec<Felt> = Vec::new();
    let mut i: usize = 0;
    proof {
        assert(r@ =~= v@.take(0));
    }
    while i < v.len()
        invariant
            i <= v@.len(),
            r@ == v@.take(i as int),
        decreases v@.len() - i,
    {
        let x = v[i];
        r.push(x);
        i = i + 1;
        proof {
            assert(r@ =~= v@.take(i as int));
        }
    }
    proof {
        assert(v@.take(v@.len() as int) =~= v@);
    }
    r
}

/// Squaring an element and raising to `pow2(e)` is raising the element to
/// `pow2(e + 1)`.
proof fn lemma_square_chain(w: int, e: nat)
    ensures
        pow_p(mul_p(w, w), pow2(e)) == pow_p(w, pow2(e + 1)),
{
    // pow((w*w) % p, 2^e) % p == pow(w*w, 2^e) % p
    vstd::arithmetic::power::lemma_pow_mod_noop(w * w, pow2(e), modulus());
    // w*w == pow(w, 2)
    vstd::arithmetic::power::lemma_pow_adds(w, 1, 1);
    vstd::arithmetic::power::lemma_pow1(w);
    // pow(pow(w, 2), 2^e) == pow(w, 2 * 2^e) == pow(w, 2^(e+1))
    vstd::arithmetic::power::lemma_pow_multiplies(w, 2, pow2(e));
    lemma_pow2_unfold((e + 1) as nat);
}

} // verus!
