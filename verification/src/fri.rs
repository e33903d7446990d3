//! The protocol engine: a session that commits to a polynomial by
//! repeatedly folding it, answers queries with per-round opening proofs,
//! and verifies openings by replaying the commitment paths and the folding
//! recurrence.
use vstd::prelude::*;

verus! {

use vstd::arithmetic::power::pow;
use vstd::arithmetic::power2::{pow2, is_pow2};
use crate::field::{
    Felt, add_p, sub_p, mul_p, neg_p, pow_p, inv_p, modulus, is_inverse_of,
};
use crate::merkle::{MerkleTree, root_spec, path_spec};
use crate::utils::{
    seq_values, wf_seq, eval_poly, fold_spec, eval_points_spec, reconstruct_spec, omega_for_len,
};

pub struct FRI {
    pub blowup_factor: u64,
    pub prover: Prover,
    pub verifier: Verifier,
}

/// Items that need to be stored by the prover: the round-0 domain
/// generator, the initial and intermediate folded polynomials (coefficient
/// form), and the commitment tree of each round's evaluations.
pub struct Prover {
    pub omega0: Felt,
    pub polys: Vec<Vec<Felt>>,
    pub merkle_trees: Vec<MerkleTree>,
}

impl Default for Prover {
    fn default() -> (r: Self)
        ensures
            r.polys@.len() == 0,
            r.merkle_trees@.len() == 0,
            r.omega0.wf(),
    {
        Self { omega0: crate::field::felt_from_u64(0), polys: Vec::new(), merkle_trees: Vec::new() }
    }
}

/// Items that need to be stored by the verifier: the challenges it sent
/// during the commit phase and the commitments the prover answered with.
pub struct Verifier {
    pub random_values: Vec<Felt>,
    pub commitments: Vec<Felt>,
}

impl Default for Verifier {
    fn default() -> (r: Self)
        ensures
            r.random_values@.len() == 0,
            r.commitments@.len() == 0,
    {
        Self { random_values: Vec::new(), commitments: Vec::new() }
    }
}

/// One round's opening: the queried domain point, the evaluations at that
/// point and at its negation, and the authentication path for the
/// positive-point evaluation.
#[derive(Debug)]
pub struct RoundProof {
    pub omega: Felt,
    pub f_g: Felt,
    pub f_negative_g: Felt,
    pub merkle_path: Vec<Felt>,
}

/// Two opening proofs carry the same domain point, the same two
/// evaluations and the same path.
pub open spec fn same_opening(a: RoundProof, b: RoundProof) -> bool {
    &&& a.omega == b.omega
    &&& a.f_g == b.f_g
    &&& a.f_negative_g == b.f_negative_g
    &&& a.merkle_path@ == b.merkle_path@
}

/// All field elements of an opening proof are canonical.
pub open spec fn wf_proof(pf: RoundProof) -> bool {
    &&& pf.omega.wf()
    &&& pf.f_g.wf()
    &&& pf.f_negative_g.wf()
    &&& wf_seq(pf.merkle_path@)
}

/// The coefficient values after `r` folding steps of `init` under the
/// challenges `chs`.
pub open spec fn folded_poly(init: Seq<int>, chs: Seq<int>, r: int) -> Seq<int>
    decreases r,
{
    if r <= 0 {
        init
    } else {
        fold_spec(folded_poly(init, chs, r - 1), chs[r - 1])
    }
}

/// Round `r` of a committed session is consistent: the retained polynomial
/// is the `r`-fold of the initial one, its length has halved `r` times, the
/// retained tree commits to its blown-up evaluations at the powers of the
/// `r`-times-squared generator, and the published commitment is that
/// tree's root.
pub open spec fn round_state_ok(
    polys: Seq<Vec<Felt>>,
    trees: Seq<MerkleTree>,
    comms: Seq<int>,
    init: Seq<int>,
    chs: Seq<int>,
    w0: int,
    b: int,
    n: int,
    r: int,
) -> bool {
    let pv = seq_values(polys[r]@);
    let tree = trees[r];
    let dsize = polys[r]@.len() * b;
    &&& wf_seq(polys[r]@)
    &&& pv == folded_poly(init, chs, r)
    &&& polys[r]@.len() == pow2((n - r) as nat)
    &&& tree.wf()
    &&& tree.leaves@.len() == dsize
    &&& is_pow2(dsize as int)
    &&& seq_values(tree.leaves@) == eval_points_spec(pv, pow_p(w0, pow2(r as nat)), dsize as nat)
    &&& comms[r] == root_spec(seq_values(tree.leaves@))
}

/// The right-hand side of the folding recurrence: the fixed linear
/// combination of the previous round's evaluations at `w` and `-w` under
/// the challenge `c`, divided by `2w` and `-2w`.
pub open spec fn recurrence_rhs(w: int, fg: int, fneg: int, c: int) -> int {
    add_p(
        mul_p(mul_p(add_p(w, c), fg), inv_p(mul_p(2, w))),
        mul_p(mul_p(sub_p(c, w), fneg), inv_p(mul_p(2, neg_p(w)))),
    )
}

/// The recurrence check between one round's opening and the next value:
/// the opened domain point admits the divisions (it is nonzero) and the
/// expected value equals the recurrence's right-hand side.
pub open spec fn recurrence_ok(prev: RoundProof, c: int, expected: int) -> bool {
    &&& prev.omega.value() != 0
    &&& expected == recurrence_rhs(
        prev.omega.value(),
        prev.f_g.value(),
        prev.f_negative_g.value(),
        c,
    )
}

/// The checks `verify` makes at round `r`: the opened evaluation and its
/// path reproduce round `r`'s commitment, and from the second round on
/// the folding recurrence ties round `r - 1`'s opening to round `r`'s
/// evaluation.
pub open spec fn round_checks_ok(
    comms: Seq<int>,
    chs: Seq<int>,
    proofs: Seq<RoundProof>,
    r: int,
) -> bool {
    &&& reconstruct_spec(proofs[r].f_g.value(), seq_values(proofs[r].merkle_path@)) == comms[r]
    &&& r >= 1 ==> recurrence_ok(proofs[r - 1], chs[r - 1], proofs[r].f_g.value())
}

/// What `verify` accepts: every round's commitment and recurrence check
/// passes, and one final application of the recurrence to the last
/// round's opening reproduces the plaintext commitment that closes the
/// commitment list.
pub open spec fn verify_spec(comms: Seq<int>, chs: Seq<int>, proofs: Seq<RoundProof>) -> bool {
    let n = proofs.len() as int;
    &&& forall|r: int| 0 <= r < n ==> #[trigger] round_checks_ok(comms, chs, proofs, r)
    &&& recurrence_ok(proofs[n - 1], chs[n - 1], comms[n])
}

/// One recurrence check, as executed: division is multiplication by the
/// inverse, and a zero domain point, which has no inverse, fails the
/// check cleanly.
fn check_recurrence(prev: &RoundProof, challenge: &Felt, expected: &Felt) -> (ok: bool)
    requires
        wf_proof(*prev),
        challenge.wf(),
        expected.wf(),
    ensures
        ok == recurrence_ok(*prev, challenge.value(), expected.value()),
{
    let two = crate::field::felt_from_u64(2);
    let denom1 = crate::field::felt_mul(&two, &prev.omega);
    proof {
        crate::field::lemma_double_zero(prev.omega.value());
    }
    let inv1 = match crate::field::felt_inverse(&denom1) {
        Option::None => {
            return false;
        },
        Option::Some(x) => x,
    };
    proof {
        crate::field::lemma_inv_p_of_witness(denom1.value(), inv1.value());
    }
    let neg_omega = crate::field::felt_neg(&prev.omega);
    proof {
        crate::field::lemma_neg_zero(prev.omega.value());
        crate::field::lemma_double_zero(neg_omega.value());
    }
    let denom2 = crate::field::felt_mul(&two, &neg_omega);
    let inv2 = match crate::field::felt_inverse(&denom2) {
        Option::None => {
            return false;
        },
        Option::Some(x) => x,
    };
    proof {
        crate::field::lemma_inv_p_of_witness(denom2.value(), inv2.value());
    }
    let term1 = crate::field::felt_mul(
        &crate::field::felt_mul(&crate::field::felt_add(&prev.omega, challenge), &prev.f_g),
        &inv1,
    );
    let term2 = crate::field::felt_mul(
        &crate::field::felt_mul(
            &crate::field::felt_sub(challenge, &prev.omega),
            &prev.f_negative_g,
        ),
        &inv2,
    );
    let rhs = crate::field::felt_add(&term1, &term2);
    crate::field::felt_eq(expected, &rhs)
}

impl FRI {
    /// The number of folding rounds of the committed session.
    pub open spec fn num_rounds(self) -> int {
        self.prover.polys@.len() as int
    }

    /// The values of the initial polynomial's coefficients.
    pub open spec fn init_vals(self) -> Seq<int> {
        seq_values(self.prover.polys@[0]@)
    }

    /// The values of the challenges of the session.
    pub open spec fn chal_vals(self) -> Seq<int> {
        seq_values(self.verifier.random_values@)
    }

    /// Round `r` of this session is consistent.
    pub open spec fn round_ok(self, r: int) -> bool {
        round_state_ok(
            self.prover.polys@,
            self.prover.merkle_trees@,
            seq_values(self.verifier.commitments@),
            self.init_vals(),
            self.chal_vals(),
            self.prover.omega0.value(),
            self.blowup_factor as int,
            self.num_rounds(),
            r,
        )
    }

    /// The session has been populated by a `commit` call: all per-round
    /// state is consistent, and the last published commitment is the
    /// constant coefficient of the fully folded polynomial in plaintext.
    pub open spec fn committed(self) -> bool {
        let n = self.num_rounds();
        &&& self.blowup_factor >= 1
        &&& self.prover.omega0.wf()
        &&& self.prover.merkle_trees@.len() == n
        &&& self.verifier.random_values@.len() == n
        &&& self.verifier.commitments@.len() == n + 1
        &&& wf_seq(self.verifier.random_values@)
        &&& wf_seq(self.verifier.commitments@)
        &&& forall|r: int| 0 <= r < n ==> #[trigger] self.round_ok(r)
        &&& n >= 1 ==> {
            &&& self.prover.polys@[0]@.len() == pow2(n as nat)
            &&& self.prover.omega0.value() == omega_for_len(pow2(n as nat))
            &&& pow_p(self.prover.omega0.value(), pow2(n as nat)) == 1
            &&& seq_values(self.verifier.commitments@)[n] == folded_poly(
                self.init_vals(),
                self.chal_vals(),
                n,
            )[0]
        }
    }

    /// Runs the commit phase: each round commits the current polynomial's
    /// blown-up evaluations into a tree, publishes the root, folds the
    /// polynomial with the next challenge and squares the domain
    /// generator; the fully folded constant is published in plaintext as
    /// the final commitment.  The whole prover and verifier state of the
    /// session is replaced.
    ///
    /// The polynomial length must be two to the number of challenges; the
    /// blowup factor must be a power of two so that every tree level
    /// pairs up evenly; and the field's two-adicity bounds the number of
    /// rounds at 32.
    #[verifier::loop_isolation(false)]
    pub fn commit(&mut self, poly: Vec<Felt>, random_values: Vec<Felt>) -> (commitments: Vec<
        Felt,
    >)
        requires
            old(self).blowup_factor >= 1,
            is_pow2(old(self).blowup_factor as int),
            wf_seq(poly@),
            wf_seq(random_values@),
            poly@.len() == pow2(random_values@.len() as nat),
            random_values@.len() <= 32,
            poly@.len() * 2 <= usize::MAX,
            poly@.len() * old(self).blowup_factor <= usize::MAX,
        ensures
            final(self).committed(),
            final(self).blowup_factor == old(self).blowup_factor,
            final(self).num_rounds() == random_values@.len(),
            final(self).verifier.random_values@ == random_values@,
            final(self).prover.omega0.value() == omega_for_len(poly@.len() as nat),
            random_values@.len() >= 1 ==> final(self).init_vals() == seq_values(poly@),
            commitments@ == final(self).verifier.commitments@,
            commitments@.len() == random_values@.len() + 1,
            seq_values(commitments@)[random_values@.len() as int] == folded_poly(
                seq_values(poly@),
                seq_values(random_values@),
                random_values@.len() as int,
            )[0],
    {
        let ghost init = seq_values(poly@);
        let ghost chs = seq_values(random_values@);
        let ghost n = random_values@.len() as int;
        let ghost b = old(self).blowup_factor as int;

        let mut commitments: Vec<Felt> = Vec::new();
        let mut polys: Vec<Vec<Felt>> = Vec::new();
        let mut merkle_trees: Vec<MerkleTree> = Vec::new();

        proof {
            vstd::arithmetic::power2::lemma_pow2_pos(random_values@.len() as nat);
            if random_values@.len() < 32 {
                vstd::arithmetic::power2::lemma_pow2_strictly_increases(
                    random_values@.len() as nat,
                    32,
                );
            }
        }
        let omega0 = crate::utils::get_omega(&poly);
        let ghost w0 = omega0.value();
        let mut omega = omega0;
        let mut cur = poly;
        let mut random_value_idx: usize = 0;

        proof {
            crate::utils::lemma_log2_ceil_pow2(random_values@.len() as nat);
            vstd::arithmetic::power::lemma_pow1(w0);
            vstd::arithmetic::div_mod::lemma_small_mod(w0 as nat, modulus() as nat);
            vstd::arithmetic::power2::lemma2_to64();
        }
        while cur.len() > 1
            invariant
                random_value_idx <= n,
                polys@.len() == random_value_idx,
                merkle_trees@.len() == random_value_idx,
                commitments@.len() == random_value_idx,
                wf_seq(cur@),
                seq_values(cur@) == folded_poly(init, chs, random_value_idx as int),
                cur@.len() == pow2((n - random_value_idx) as nat),
                omega.wf(),
                omega.value() == pow_p(w0, pow2(random_value_idx as nat)),
                wf_seq(commitments@),
                *self == *old(self),
                forall|r: int|
                    0 <= r < random_value_idx ==> #[trigger] round_state_ok(
                        polys@,
                        merkle_trees@,
                        seq_values(commitments@),
                        init,
                        chs,
                        w0,
                        b,
                        n,
                        r,
                    ),
            decreases cur@.len(),
        {
            let ghost idx = random_value_idx as int;
            proof {
                assert(idx < n);
                vstd::arithmetic::power2::lemma_pow2_unfold((n - idx) as nat);
                if idx >= 1 {
                    vstd::arithmetic::power2::lemma_pow2_strictly_increases(
                        (n - idx) as nat,
                        n as nat,
                    );
                }
                vstd::arithmetic::mul::lemma_mul_inequality(
                    cur@.len() as int,
                    pow2(n as nat) as int,
                    b,
                );
                crate::utils::lemma_pow2_is_pow2((n - idx) as nat);
                crate::utils::lemma_is_pow2_mul(cur@.len() as int, b);
            }
            let eval_points = crate::utils::get_evaluation_points(&cur, omega, self.blowup_factor);
            let merkle_tree = MerkleTree::new(eval_points);
            let ghost comms_before = commitments@;
            commitments.push(merkle_tree.root);
            let folded = crate::utils::fold_polynomial(&cur, random_values[random_value_idx]);
            let ghost polys_before = polys@;
            let ghost trees_before = merkle_trees@;
            polys.push(cur);
            merkle_trees.push(merkle_tree);
            cur = folded;
            omega = crate::field::felt_pow(&omega, 2);
            random_value_idx = random_value_idx + 1;
            proof {
                crate::field::lemma_pow_p_pow(w0, pow2(idx as nat), 2);
                vstd::arithmetic::power2::lemma_pow2_unfold((idx + 1) as nat);
                assert(seq_values(commitments@) =~= seq_values(comms_before).push(
                    merkle_trees@[idx].root.value(),
                ));
                assert(seq_values(cur@) =~= fold_spec(folded_poly(init, chs, idx), chs[idx]));
                assert forall|r: int| 0 <= r < idx + 1 implies #[trigger] round_state_ok(
                    polys@,
                    merkle_trees@,
                    seq_values(commitments@),
                    init,
                    chs,
                    w0,
                    b,
                    n,
                    r,
                ) by {
                    if r < idx {
                        assert(round_state_ok(
                            polys_before,
                            trees_before,
                            seq_values(comms_before),
                            init,
                            chs,
                            w0,
                            b,
                            n,
                            r,
                        ));
                    }
                };
            }
        }
        proof {
            if random_value_idx < n {
                vstd::arithmetic::power2::lemma_pow2_strictly_increases(
                    0,
                    (n - random_value_idx) as nat,
                );
            }
            assert(random_value_idx == n);
        }
        let ghost comms_before = commitments@;
        let ghost polys_final = polys@;
        let ghost trees_final = merkle_trees@;
        let last_value = cur[0];
        commitments.push(last_value);
        self.prover = Prover { omega0, polys, merkle_trees };
        let stored = crate::utils::copy_felts(&commitments);
        self.verifier = Verifier { random_values, commitments: stored };
        proof {
            assert(seq_values(commitments@) =~= seq_values(comms_before).push(last_value.value()));
            assert(seq_values(commitments@)[n] == folded_poly(init, chs, n)[0]);
            assert(self.chal_vals() == chs);
            if n >= 1 {
                assert(round_state_ok(
                    polys_final,
                    trees_final,
                    seq_values(comms_before),
                    init,
                    chs,
                    w0,
                    b,
                    n,
                    0,
                ));
                assert(seq_values(self.prover.polys@[0]@) == folded_poly(init, chs, 0));
                assert(self.init_vals() == init);
            }
            assert forall|r: int| 0 <= r < n implies #[trigger] self.round_ok(r) by {
                assert(round_state_ok(
                    polys_final,
                    trees_final,
                    seq_values(comms_before),
                    init,
                    chs,
                    w0,
                    b,
                    n,
                    r,
                ));
                assert(seq_values(self.verifier.commitments@)[r] == seq_values(comms_before)[r]);
            };
        }
        commitments
    }

    /// What `query` answers for round `r` at a domain index: the round-0
    /// generator raised to the index and squared once per round, the
    /// retained polynomial's evaluations at that point and at its
    /// negation, and the authentication path for the index reduced into
    /// that round's (shrinking) evaluation domain.
    pub open spec fn proof_matches(self, index: u64, r: int, pf: RoundProof) -> bool {
        let pv = seq_values(self.prover.polys@[r]@);
        let w = pow_p(pow_p(self.prover.omega0.value(), index as nat), pow2(r as nat));
        let leaves = self.prover.merkle_trees@[r].leaves@;
        &&& wf_proof(pf)
        &&& pf.omega.value() == w
        &&& pf.f_g.value() == eval_poly(pv, w)
        &&& pf.f_negative_g.value() == eval_poly(pv, neg_p(w))
        &&& seq_values(pf.merkle_path@) == path_spec(
            seq_values(leaves),
            (index as int) % (leaves.len() as int),
        )
    }

    /// Answers a query at a domain index with one opening proof per
    /// round, reading the prover state that `commit` retained and leaving
    /// the session untouched.
    #[verifier::loop_isolation(false)]
    pub fn query(&self, index: u64) -> (proofs: Vec<RoundProof>)
        requires
            self.committed(),
            self.num_rounds() >= 1,
        ensures
            proofs@.len() == self.num_rounds(),
            forall|r: int|
                0 <= r < proofs@.len() ==> #[trigger] self.proof_matches(index, r, proofs@[r]),
    {
        let mut proofs: Vec<RoundProof> = Vec::new();
        let mut omega = crate::field::felt_pow(&self.prover.omega0, index);
        let ghost wq = pow_p(self.prover.omega0.value(), index as nat);
        proof {
            vstd::arithmetic::power::lemma_pow1(wq);
            vstd::arithmetic::div_mod::lemma_small_mod(wq as nat, modulus() as nat);
            vstd::arithmetic::power2::lemma2_to64();
        }
        let mut r: usize = 0;
        while r < self.prover.polys.len()
            invariant
                r <= self.num_rounds(),
                proofs@.len() == r,
                omega.wf(),
                omega.value() == pow_p(wq, pow2(r as nat)),
                forall|j: int| 0 <= j < r ==> #[trigger] self.proof_matches(index, j, proofs@[j]),
            decreases self.num_rounds() - r,
        {
            proof {
                assert(self.round_ok(r as int));
                reveal(vstd::arithmetic::power2::is_pow2);
            }
            let poly_r = &self.prover.polys[r];
            let tree_r = &self.prover.merkle_trees[r];
            let leaf_count = tree_r.leaves.len();
            proof {
                assert(leaf_count == poly_r@.len() * self.blowup_factor);
            }
            let domain_size = (poly_r.len() as u64) * self.blowup_factor;
            let reduced = index % domain_size;
            let f_g = crate::utils::evaluate(poly_r, omega);
            let neg_omega = crate::field::felt_neg(&omega);
            let f_negative_g = crate::utils::evaluate(poly_r, neg_omega);
            let merkle_path = tree_r.get_merkle_path(reduced);
            let ghost proofs_before = proofs@;
            let pf = RoundProof { omega, f_g, f_negative_g, merkle_path };
            proofs.push(pf);
            omega = crate::field::felt_pow(&omega, 2);
            proof {
                crate::field::lemma_pow_p_pow(wq, pow2(r as nat), 2);
                vstd::arithmetic::power2::lemma_pow2_unfold((r + 1) as nat);
                assert(self.proof_matches(index, r as int, pf));
                assert(forall|j: int|
                    0 <= j < r ==> #[trigger] self.proof_matches(index, j, proofs_before[j]));
            }
            r = r + 1;
        }
        proofs
    }

    /// Runs the verify phase over a full set of opening proofs: per round
    /// the commitment is recomputed from the opened evaluation and its
    /// path, from the second round on the folding recurrence is replayed
    /// against the previous round's opening, and finally the same
    /// recurrence must reproduce the published plaintext commitment.
    /// Any mismatch is a clean rejection.
    #[verifier::loop_isolation(false)]
    pub fn verify(&self, proofs: Vec<RoundProof>) -> (accepted: bool)
        requires
            wf_seq(self.verifier.random_values@),
            wf_seq(self.verifier.commitments@),
            proofs@.len() == self.verifier.random_values@.len(),
            self.verifier.commitments@.len() == proofs@.len() + 1,
            proofs@.len() >= 1,
            forall|r: int| 0 <= r < proofs@.len() ==> wf_proof(#[trigger] proofs@[r]),
        ensures
            accepted == verify_spec(
                seq_values(self.verifier.commitments@),
                seq_values(self.verifier.random_values@),
                proofs@,
            ),
    {
        let ghost comms = seq_values(self.verifier.commitments@);
        let ghost chs = seq_values(self.verifier.random_values@);
        let n = proofs.len();
        let mut i: usize = 0;
        while i < n
            invariant
                i <= n,
                forall|r2: int| 0 <= r2 < i ==> #[trigger] round_checks_ok(comms, chs, proofs@, r2),
            decreases n - i,
        {
            let proof_i = &proofs[i];
            let merkle_root = crate::utils::reconstruct_merkle_root(
                proof_i.f_g,
                &proof_i.merkle_path,
            );
            if !crate::field::felt_eq(&merkle_root, &self.verifier.commitments[i]) {
                proof {
                    assert(!round_checks_ok(comms, chs, proofs@, i as int));
                }
                return false;
            }
            if i >= 1 {
                let recurrence_holds = check_recurrence(
                    &proofs[i - 1],
                    &self.verifier.random_values[i - 1],
                    &proof_i.f_g,
                );
                if !recurrence_holds {
                    proof {
                        assert(!round_checks_ok(comms, chs, proofs@, i as int));
                    }
                    return false;
                }
            }
            proof {
                assert(round_checks_ok(comms, chs, proofs@, i as int));
            }
            i = i + 1;
        }
        let final_ok = check_recurrence(
            &proofs[n - 1],
            &self.verifier.random_values[n - 1],
            &self.verifier.commitments[n],
        );
        final_ok
    }

    /// THE IDEMPOTENT QUERY LAW: two answers of `query` for one committed
    /// session and one index are identical, round for round and field for
    /// field — `query` reads only the retained prover state and mutates
    /// nothing.
    pub proof fn lemma_query_idempotent(
        self,
        index: u64,
        p1: Seq<RoundProof>,
        p2: Seq<RoundProof>,
    )
        requires
            self.committed(),
            p1.len() == self.num_rounds(),
            p2.len() == self.num_rounds(),
            forall|r: int| 0 <= r < p1.len() ==> #[trigger] self.proof_matches(index, r, p1[r]),
            forall|r: int| 0 <= r < p2.len() ==> #[trigger] self.proof_matches(index, r, p2[r]),
        ensures
            p1.len() == p2.len(),
            forall|r: int| 0 <= r < p1.len() ==> #[trigger] same_opening(p1[r], p2[r]),
    {
        assert forall|r: int| 0 <= r < p1.len() implies #[trigger] same_opening(
            p1[r],
            p2[r],
        ) by {
            assert(self.proof_matches(index, r, p1[r]));
            assert(self.proof_matches(index, r, p2[r]));
            crate::field::lemma_felt_value_injective(p1[r].omega, p2[r].omega);
            crate::field::lemma_felt_value_injective(p1[r].f_g, p2[r].f_g);
            crate::field::lemma_felt_value_injective(p1[r].f_negative_g, p2[r].f_negative_g);
            crate::utils::lemma_seq_values_injective(p1[r].merkle_path@, p2[r].merkle_path@);
        };
    }

    /// Creates a fresh, uncommitted session with the given blowup factor.
    pub fn new(blowup_factor: u64) -> (r: Self)
        requires
            blowup_factor >= 1,
        ensures
            r.blowup_factor == blowup_factor,
            r.num_rounds() == 0,
            r.verifier.random_values@.len() == 0,
            r.verifier.commitments@.len() == 0,
    {
        Self { blowup_factor, prover: Prover::default(), verifier: Verifier::default() }
    }
}


/// TAMPERED EVALUATION VALUES ARE DETECTED: in an accepted set of opening
/// proofs, changing the opened positive-point evaluation of any round to
/// any other canonical value makes the verifier's acceptance condition
/// fail, whatever else the tampered list holds: that round's commitment
/// check no longer reproduces the published root.
pub proof fn lemma_tamper_evaluation_detected(
    comms: Seq<int>,
    chs: Seq<int>,
    proofs: Seq<RoundProof>,
    tampered: Seq<RoundProof>,
    r: int,
)
    requires
        verify_spec(comms, chs, proofs),
        0 <= r < proofs.len(),
        tampered.len() == proofs.len(),
        proofs[r].f_g.wf(),
        tampered[r].f_g.wf(),
        tampered[r].f_g.value() != proofs[r].f_g.value(),
        seq_values(tampered[r].merkle_path@) == seq_values(proofs[r].merkle_path@),
    ensures
        !verify_spec(comms, chs, tampered),
{
    if verify_spec(comms, chs, tampered) {
        assert(round_checks_ok(comms, chs, proofs, r));
        assert(round_checks_ok(comms, chs, tampered, r));
        crate::utils::lemma_reconstruct_injective_leaf(
            proofs[r].f_g.value(),
            tampered[r].f_g.value(),
            seq_values(proofs[r].merkle_path@),
        );
    }
}

/// TAMPERED PATH ENTRIES ARE DETECTED: in an accepted set of opening
/// proofs, changing any single entry of any round's authentication path
/// to any other canonical value makes the verifier's acceptance condition
/// fail: that round's commitment check no longer reproduces the published
/// root.
pub proof fn lemma_tamper_path_detected(
    comms: Seq<int>,
    chs: Seq<int>,
    proofs: Seq<RoundProof>,
    tampered: Seq<RoundProof>,
    r: int,
    k: int,
)
    requires
        verify_spec(comms, chs, proofs),
        0 <= r < proofs.len(),
        tampered.len() == proofs.len(),
        proofs[r].f_g.wf(),
        tampered[r].f_g.value() == proofs[r].f_g.value(),
        wf_seq(proofs[r].merkle_path@),
        wf_seq(tampered[r].merkle_path@),
        tampered[r].merkle_path@.len() == proofs[r].merkle_path@.len(),
        0 <= k < proofs[r].merkle_path@.len(),
        forall|i: int|
            0 <= i < proofs[r].merkle_path@.len() && i != k
                ==> #[trigger] tampered[r].merkle_path@[i].value()
                == proofs[r].merkle_path@[i].value(),
        tampered[r].merkle_path@[k].value() != proofs[r].merkle_path@[k].value(),
    ensures
        !verify_spec(comms, chs, tampered),
{
    if verify_spec(comms, chs, tampered) {
        assert(round_checks_ok(comms, chs, proofs, r));
        assert(round_checks_ok(comms, chs, tampered, r));
        let v1 = seq_values(proofs[r].merkle_path@);
        let v2 = seq_values(tampered[r].merkle_path@);
        assert(forall|i: int| 0 <= i < v1.len() ==> 0 <= #[trigger] v1[i] < modulus());
        assert(forall|i: int| 0 <= i < v2.len() ==> 0 <= #[trigger] v2[i] < modulus());
        assert(forall|i: int| 0 <= i < v1.len() && i != k ==> #[trigger] v1[i] == v2[i]);
        crate::utils::lemma_reconstruct_injective_entry(proofs[r].f_g.value(), v1, v2, k);
    }
}


/// HONEST OPENINGS REPRODUCE EVERY COMMITMENT: for a committed session,
/// any proof list that `query` can answer passes the commitment-path
/// check of every round — the opened evaluation is exactly the committed
/// leaf at the reduced index, and replaying its path gives the published
/// root.
pub proof fn lemma_honest_openings_match_commitments(
    s: FRI,
    index: u64,
    proofs: Seq<RoundProof>,
)
    requires
        s.committed(),
        s.num_rounds() >= 1,
        proofs.len() == s.num_rounds(),
        forall|r: int| 0 <= r < proofs.len() ==> #[trigger] s.proof_matches(index, r, proofs[r]),
    ensures
        forall|r: int|
            0 <= r < proofs.len() ==> reconstruct_spec(
                #[trigger] proofs[r].f_g.value(),
                seq_values(proofs[r].merkle_path@),
            ) == seq_values(s.verifier.commitments@)[r],
{
    let w0 = s.prover.omega0.value();
    let n = s.num_rounds();
    let b = s.blowup_factor as int;
    assert forall|r: int| 0 <= r < proofs.len() implies reconstruct_spec(
        #[trigger] proofs[r].f_g.value(),
        seq_values(proofs[r].merkle_path@),
    ) == seq_values(s.verifier.commitments@)[r] by {
        assert(s.round_ok(r));
        assert(s.proof_matches(index, r, proofs[r]));
        let pv = seq_values(s.prover.polys@[r]@);
        let tree = s.prover.merkle_trees@[r];
        let leaves = seq_values(tree.leaves@);
        let len_r = s.prover.polys@[r]@.len() as int;
        let dsize = (len_r * b) as nat;
        let gen_r = pow_p(w0, pow2(r as nat));
        let w = pow_p(pow_p(w0, index as nat), pow2(r as nat));
        // the queried point is the r-times-squared generator raised to the index
        crate::field::lemma_pow_p_pow(w0, index as nat, pow2(r as nat));
        crate::field::lemma_pow_p_pow(w0, pow2(r as nat), index as nat);
        assert((index as nat) * pow2(r as nat) == pow2(r as nat) * (index as nat));
        assert(w == pow_p(gen_r, index as nat));
        // the generator's order divides the domain size
        vstd::arithmetic::power2::lemma_pow2_pos((n - r) as nat);
        vstd::arithmetic::power2::lemma_pow2_pos(r as nat);
        assert(dsize >= 1) by (nonlinear_arith)
            requires
                len_r >= 1,
                b >= 1,
                dsize == len_r * b,
        ;
        crate::field::lemma_pow_p_pow(w0, pow2(r as nat), dsize);
        vstd::arithmetic::power2::lemma_pow2_adds(r as nat, (n - r) as nat);
        assert(pow2(r as nat) * dsize == pow2(n as nat) * b) by (nonlinear_arith)
            requires
                dsize == len_r * b,
                len_r == pow2((n - r) as nat),
                pow2(r as nat) * pow2((n - r) as nat) == pow2(n as nat),
        ;
        crate::field::lemma_pow_p_pow(w0, pow2(n as nat), b as nat);
        crate::field::lemma_pow_p_one_base(b as nat);
        assert(pow_p(gen_r, dsize) == 1);
        // so the exponent reduces modulo the domain size
        crate::field::lemma_pow_p_reduce_exp(gen_r, index as nat, dsize);
        let j = (index as int) % (leaves.len() as int);
        assert(leaves.len() == dsize);
        assert(j == (index as nat) % dsize);
        vstd::arithmetic::div_mod::lemma_mod_bound(index as int, dsize as int);
        // the opened evaluation is the committed leaf at the reduced index
        assert(leaves[j] == eval_poly(pv, pow_p(gen_r, j as nat)));
        assert(proofs[r].f_g.value() == leaves[j]);
        // replaying the path from that leaf gives the root
        crate::merkle::lemma_commitment_round_trip(leaves, j);
        assert(seq_values(proofs[r].merkle_path@) == path_spec(leaves, j));
        assert(seq_values(s.verifier.commitments@)[r] == root_spec(leaves));
    };
}


/// The scalar heart of the folding recurrence: write a polynomial's
/// values at `w` and `-w` as `E + w*O` and `E - w*O` through its even and
/// odd parts at `w^2`; then the recurrence's right-hand side collapses to
/// `E + c*O`, which is the folded polynomial's value at `w^2`.
proof fn lemma_recurrence_scalar(w: int, u: int, ev: int, od: int, c: int)
    requires
        0 <= w < modulus(),
        0 <= ev < modulus(),
        0 <= od < modulus(),
        is_inverse_of(u, mul_p(2, w)),
    ensures
        recurrence_rhs(w, add_p(ev, mul_p(w, od)), add_p(ev, mul_p(neg_p(w), od)), c) == add_p(
            ev,
            mul_p(c, od),
        ),
{
    let p = modulus();
    let f = add_p(ev, mul_p(w, od));
    let g = add_p(ev, mul_p(neg_p(w), od));
    let d1 = mul_p(2, w);
    let d2 = mul_p(2, neg_p(w));
    let s = add_p(ev, mul_p(c, od));
    vstd::arithmetic::div_mod::lemma_mod_bound(2 * w, p);
    vstd::arithmetic::div_mod::lemma_mod_bound(w * od, p);
    vstd::arithmetic::div_mod::lemma_mod_bound(c * od, p);
    vstd::arithmetic::div_mod::lemma_mod_bound(ev + c * od, p);
    vstd::arithmetic::div_mod::lemma_mod_bound(p - u, p);
    // the two divisors' inverses
    crate::field::lemma_inv_p_of_witness(d1, u);
    crate::field::lemma_mul_p_neg_right(2, w);
    crate::field::lemma_mul_p_neg_neg(d1, u);
    assert(is_inverse_of(neg_p(u), d2));
    crate::field::lemma_inv_p_of_witness(d2, neg_p(u));
    let i1 = mul_p(add_p(w, c), f);
    let i2 = mul_p(sub_p(c, w), g);
    let t1 = mul_p(i1, u);
    let x2 = mul_p(i2, u);
    vstd::arithmetic::div_mod::lemma_mod_bound(i2 * u, p);
    assert(recurrence_rhs(w, f, g, c) == add_p(t1, mul_p(i2, neg_p(u))));
    // pull the negated inverse out and subtract
    crate::field::lemma_mul_p_neg_right(i2, u);
    crate::field::lemma_add_p_neg(t1, x2);
    assert(recurrence_rhs(w, f, g, c) == sub_p(t1, x2));
    // factor out the inverse
    crate::field::lemma_mul_p_distrib_sub(u, i1, i2);
    crate::field::lemma_mul_p_comm(u, i1);
    crate::field::lemma_mul_p_comm(u, i2);
    crate::field::lemma_mul_p_comm(u, sub_p(i1, i2));
    assert(sub_p(t1, x2) == mul_p(sub_p(i1, i2), u));
    // the inner difference is the doubled folded value
    vstd::arithmetic::div_mod::lemma_add_mod_noop_right(ev, w * od, p);
    assert(f == (ev + w * od) % p);
    crate::field::lemma_mul_p_comm(neg_p(w), od);
    crate::field::lemma_mul_p_neg_right(od, w);
    crate::field::lemma_mul_p_comm(od, w);
    crate::field::lemma_add_p_neg(ev, mul_p(w, od));
    vstd::arithmetic::div_mod::lemma_sub_mod_noop_right(ev, w * od, p);
    assert(g == (ev - w * od) % p);
    vstd::arithmetic::div_mod::lemma_mul_mod_noop_general(w + c, ev + w * od, p);
    assert(i1 == ((w + c) * (ev + w * od)) % p);
    vstd::arithmetic::div_mod::lemma_mul_mod_noop_general(c - w, ev - w * od, p);
    assert(i2 == ((c - w) * (ev - w * od)) % p);
    vstd::arithmetic::div_mod::lemma_sub_mod_noop(
        (w + c) * (ev + w * od),
        (c - w) * (ev - w * od),
        p,
    );
    assert((w + c) * (ev + w * od) - (c - w) * (ev - w * od) == 2 * w * (ev + c * od))
        by (nonlinear_arith);
    assert(sub_p(i1, i2) == (2 * w * (ev + c * od)) % p);
    vstd::arithmetic::div_mod::lemma_add_mod_noop_right(ev, c * od, p);
    assert(s == (ev + c * od) % p);
    vstd::arithmetic::div_mod::lemma_mul_mod_noop_general(2 * w, ev + c * od, p);
    assert(mul_p(d1, s) == (2 * w * (ev + c * od)) % p) by {
        assert((2 * w) * (ev + c * od) == 2 * w * (ev + c * od)) by (nonlinear_arith);
    };
    // multiply by the inverse and cancel
    crate::field::lemma_mul_p_comm(d1, s);
    crate::field::lemma_mul_p_assoc(s, d1, u);
    crate::field::lemma_mul_p_one(s);
    assert(mul_p(mul_p(d1, s), u) == s);
}


/// THE FOLDING RECURRENCE IDENTITY: for an even-length polynomial, a
/// canonical point whose double is invertible, and any challenge, the
/// folded polynomial's value at the squared point equals the recurrence's
/// right-hand side built from the polynomial's values at the point and at
/// its negation.
pub proof fn lemma_fold_eval_recurrence(sq: Seq<int>, c: int, w: int, u: int)
    requires
        sq.len() % 2 == 0,
        0 <= w < modulus(),
        is_inverse_of(u, mul_p(2, w)),
    ensures
        eval_poly(fold_spec(sq, c), mul_p(w, w)) == recurrence_rhs(
            w,
            eval_poly(sq, w),
            eval_poly(sq, neg_p(w)),
            c,
        ),
{
    let y = mul_p(w, w);
    let ev = eval_poly(crate::utils::even_coeffs(sq), y);
    let od = eval_poly(crate::utils::odd_coeffs(sq), y);
    crate::utils::lemma_eval_poly_canonical(crate::utils::even_coeffs(sq), y);
    crate::utils::lemma_eval_poly_canonical(crate::utils::odd_coeffs(sq), y);
    crate::utils::lemma_eval_even_odd(sq, w);
    crate::field::lemma_mul_p_neg_neg(w, w);
    crate::field::lemma_neg_zero(w);
    crate::utils::lemma_eval_even_odd(sq, neg_p(w));
    crate::utils::lemma_eval_fold(sq, c, y);
    lemma_recurrence_scalar(w, u, ev, od, c);
}

/// The domain point a query opens at any round is a root of unity, hence
/// nonzero, and the returned value is an inverse of it.
proof fn lemma_round_point_invertible(s: FRI, index: u64, r: int) -> (iw: int)
    requires
        s.committed(),
        s.num_rounds() >= 1,
        0 <= r < s.num_rounds(),
    ensures
        ({
            let w = pow_p(pow_p(s.prover.omega0.value(), index as nat), pow2(r as nat));
            &&& w != 0
            &&& 0 <= w < modulus()
            &&& is_inverse_of(iw, w)
        }),
{
    let p = modulus();
    let w0 = s.prover.omega0.value();
    let n = s.num_rounds();
    let b = s.blowup_factor as int;
    assert(s.round_ok(r));
    let len_r = s.prover.polys@[r]@.len() as int;
    let dsize = (len_r * b) as nat;
    let gen_r = pow_p(w0, pow2(r as nat));
    let w = pow_p(pow_p(w0, index as nat), pow2(r as nat));
    vstd::arithmetic::div_mod::lemma_mod_bound(pow(pow_p(w0, index as nat), pow2(r as nat)), p);
    // w is the r-times-squared generator raised to the index
    crate::field::lemma_pow_p_pow(w0, index as nat, pow2(r as nat));
    crate::field::lemma_pow_p_pow(w0, pow2(r as nat), index as nat);
    assert((index as nat) * pow2(r as nat) == pow2(r as nat) * (index as nat));
    assert(w == pow_p(gen_r, index as nat));
    // the generator's order divides the domain size
    vstd::arithmetic::power2::lemma_pow2_pos((n - r) as nat);
    assert(dsize >= 1) by (nonlinear_arith)
        requires
            len_r >= 1,
            b >= 1,
            dsize == len_r * b,
    ;
    crate::field::lemma_pow_p_pow(w0, pow2(r as nat), dsize);
    vstd::arithmetic::power2::lemma_pow2_adds(r as nat, (n - r) as nat);
    assert(pow2(r as nat) * dsize == pow2(n as nat) * b) by (nonlinear_arith)
        requires
            dsize == len_r * b,
            len_r == pow2((n - r) as nat),
            pow2(r as nat) * pow2((n - r) as nat) == pow2(n as nat),
    ;
    crate::field::lemma_pow_p_pow(w0, pow2(n as nat), b as nat);
    crate::field::lemma_pow_p_one_base(b as nat);
    assert(pow_p(gen_r, dsize) == 1);
    // so w itself is a root of unity of that order
    crate::field::lemma_pow_p_pow(gen_r, index as nat, dsize);
    crate::field::lemma_pow_p_pow(gen_r, dsize, index as nat);
    assert((index as nat) * dsize == dsize * (index as nat));
    crate::field::lemma_pow_p_one_base(index as nat);
    assert(pow_p(w, dsize) == 1);
    // a root of unity is nonzero
    if w == 0 {
        vstd::arithmetic::power::lemma0_pow(dsize);
        vstd::arithmetic::div_mod::lemma_small_mod(0, p as nat);
        assert(pow_p(0int, dsize) == 0);
        assert(false);
    }
    // and the power just below its order inverts it
    let iw = pow_p(w, (dsize - 1) as nat);
    crate::field::lemma_pow_p_adds(w, 1, (dsize - 1) as nat);
    vstd::arithmetic::power::lemma_pow1(w);
    vstd::arithmetic::div_mod::lemma_mod_bound(pow(w, (dsize - 1) as nat), p);
    vstd::arithmetic::div_mod::lemma_small_mod(w as nat, p as nat);
    assert(mul_p(w, iw) == 1);
    iw
}

/// The opening of round `r` satisfies the recurrence against any value
/// that equals the folded polynomial evaluated at the squared point.
proof fn lemma_round_recurrence(
    s: FRI,
    index: u64,
    proofs: Seq<RoundProof>,
    r: int,
    expected: int,
)
    requires
        s.committed(),
        s.num_rounds() >= 1,
        proofs.len() == s.num_rounds(),
        forall|j: int| 0 <= j < proofs.len() ==> #[trigger] s.proof_matches(index, j, proofs[j]),
        0 <= r < s.num_rounds(),
        expected == eval_poly(
            fold_spec(
                seq_values(s.prover.polys@[r]@),
                seq_values(s.verifier.random_values@)[r],
            ),
            mul_p(
                pow_p(pow_p(s.prover.omega0.value(), index as nat), pow2(r as nat)),
                pow_p(pow_p(s.prover.omega0.value(), index as nat), pow2(r as nat)),
            ),
        ),
    ensures
        recurrence_ok(proofs[r], seq_values(s.verifier.random_values@)[r], expected),
{
    let w0 = s.prover.omega0.value();
    let w = pow_p(pow_p(w0, index as nat), pow2(r as nat));
    let pv = seq_values(s.prover.polys@[r]@);
    let c = seq_values(s.verifier.random_values@)[r];
    assert(s.round_ok(r));
    assert(s.proof_matches(index, r, proofs[r]));
    let iw = lemma_round_point_invertible(s, index, r);
    crate::field::lemma_two_inverse();
    crate::field::lemma_inverse_of_product(2, crate::field::two_inverse_value(), w, iw);
    let u = mul_p(crate::field::two_inverse_value(), iw);
    // the retained polynomial has even length
    vstd::arithmetic::power2::lemma_pow2_unfold((s.num_rounds() - r) as nat);
    assert(pv.len() % 2 == 0);
    lemma_fold_eval_recurrence(pv, c, w, u);
}

/// THE HONEST PROTOCOL ACCEPTS: a committed session accepts every proof
/// list that `query` can answer, at every index — each round's opening
/// reproduces its commitment, each round's folding recurrence holds
/// against the previous round's opening, and the final recurrence
/// reproduces the plaintext commitment that closes the list.
pub proof fn lemma_honest_protocol_accepts(s: FRI, index: u64, proofs: Seq<RoundProof>)
    requires
        s.committed(),
        s.num_rounds() >= 1,
        proofs.len() == s.num_rounds(),
        forall|r: int| 0 <= r < proofs.len() ==> #[trigger] s.proof_matches(index, r, proofs[r]),
    ensures
        verify_spec(
            seq_values(s.verifier.commitments@),
            seq_values(s.verifier.random_values@),
            proofs,
        ),
{
    let n = s.num_rounds();
    let w0 = s.prover.omega0.value();
    let wq = pow_p(w0, index as nat);
    let comms = seq_values(s.verifier.commitments@);
    let chs = seq_values(s.verifier.random_values@);
    lemma_honest_openings_match_commitments(s, index, proofs);
    // adjacent rounds satisfy the recurrence
    assert forall|r: int| 0 <= r < n implies #[trigger] round_checks_ok(comms, chs, proofs, r) by {
        if r >= 1 {
            assert(s.round_ok(r));
            assert(s.round_ok(r - 1));
            assert(s.proof_matches(index, r, proofs[r]));
            let wprev = pow_p(wq, pow2((r - 1) as nat));
            let wr = pow_p(wq, pow2(r as nat));
            crate::field::lemma_pow_p_adds(wq, pow2((r - 1) as nat), pow2((r - 1) as nat));
            vstd::arithmetic::power2::lemma_pow2_unfold(r as nat);
            assert(mul_p(wprev, wprev) == wr);
            let pvp = seq_values(s.prover.polys@[r - 1]@);
            let pvr = seq_values(s.prover.polys@[r]@);
            assert(pvr == fold_spec(pvp, chs[r - 1]));
            assert(proofs[r].f_g.value() == eval_poly(pvr, wr));
            lemma_round_recurrence(s, index, proofs, r - 1, proofs[r].f_g.value());
        }
    };
    // the final plaintext commitment closes the recurrence
    assert(s.round_ok(n - 1));
    let pvl = seq_values(s.prover.polys@[n - 1]@);
    let c = chs[n - 1];
    let folded = fold_spec(pvl, c);
    assert(folded == folded_poly(s.init_vals(), s.chal_vals(), n));
    assert(comms[n] == folded[0]);
    vstd::arithmetic::power2::lemma2_to64();
    assert(pvl.len() == 2);
    assert(folded.len() == 1);
    assert(comms[n] == s.verifier.commitments@[n].value());
    assert(s.verifier.commitments@[n].wf());
    let wprev = pow_p(wq, pow2((n - 1) as nat));
    crate::utils::lemma_eval_single(folded, mul_p(wprev, wprev));
    lemma_round_recurrence(s, index, proofs, n - 1, comms[n]);
}


/// The recurrence's right-hand side is injective in the negative-point
/// evaluation, as long as the challenge-minus-point and the point's
/// negated double are invertible.
proof fn lemma_rhs_injective_in_fneg(w: int, c: int, fg: int, g1: int, g2: int, v: int, u2: int)
    requires
        0 <= g1 < modulus(),
        0 <= g2 < modulus(),
        g1 != g2,
        is_inverse_of(v, sub_p(c, w)),
        is_inverse_of(u2, mul_p(2, neg_p(w))),
    ensures
        recurrence_rhs(w, fg, g1, c) != recurrence_rhs(w, fg, g2, c),
{
    let p = modulus();
    if recurrence_rhs(w, fg, g1, c) == recurrence_rhs(w, fg, g2, c) {
        let d2 = mul_p(2, neg_p(w));
        let a = sub_p(c, w);
        crate::field::lemma_inv_p_of_witness(d2, u2);
        let t1 = mul_p(mul_p(add_p(w, c), fg), inv_p(mul_p(2, w)));
        let x1 = mul_p(mul_p(a, g1), u2);
        let x2 = mul_p(mul_p(a, g2), u2);
        vstd::arithmetic::div_mod::lemma_mod_bound(mul_p(a, g1) * u2, p);
        vstd::arithmetic::div_mod::lemma_mod_bound(mul_p(a, g2) * u2, p);
        if x1 != x2 {
            crate::field::lemma_add_p_right_injective(t1, x1, x2);
            assert(false);
        }
        // reassociate into one invertible coefficient times the evaluation
        let k = mul_p(a, u2);
        crate::field::lemma_mul_p_assoc(a, g1, u2);
        crate::field::lemma_mul_p_assoc(a, g2, u2);
        crate::field::lemma_mul_p_comm(g1, u2);
        crate::field::lemma_mul_p_comm(g2, u2);
        crate::field::lemma_mul_p_assoc(a, u2, g1);
        crate::field::lemma_mul_p_assoc(a, u2, g2);
        assert(mul_p(k, g1) == mul_p(k, g2));
        // the coefficient is invertible, so the evaluations were equal
        vstd::arithmetic::div_mod::lemma_mod_bound(2 * neg_p(w), p);
        assert(is_inverse_of(d2, u2)) by {
            crate::field::lemma_mul_p_comm(d2, u2);
        };
        crate::field::lemma_inverse_of_product(a, v, u2, d2);
        crate::field::lemma_mul_p_cancel(k, mul_p(v, d2), g1, g2);
        assert(false);
    }
}

/// TAMPERED NEGATIVE EVALUATIONS ARE DETECTED away from one degenerate
/// challenge: in an accepted set of opening proofs, changing the opened
/// negative-point evaluation of any round to another canonical value
/// makes the recurrence that reads it fail, provided the round's
/// challenge minus its domain point and the domain point's negated double
/// both have inverses.  In the field every nonzero element has one, so
/// this leaves out exactly the openings whose challenge equals the domain
/// point (and the zero point, which no accepted proof carries).
pub proof fn lemma_tamper_negative_evaluation_detected(
    comms: Seq<int>,
    chs: Seq<int>,
    proofs: Seq<RoundProof>,
    tampered: Seq<RoundProof>,
    r: int,
    v: int,
    u2: int,
)
    requires
        verify_spec(comms, chs, proofs),
        proofs.len() >= 1,
        0 <= r < proofs.len(),
        tampered.len() == proofs.len(),
        tampered[r].omega == proofs[r].omega,
        tampered[r].f_g == proofs[r].f_g,
        proofs[r].f_negative_g.wf(),
        tampered[r].f_negative_g.wf(),
        tampered[r].f_negative_g.value() != proofs[r].f_negative_g.value(),
        is_inverse_of(v, sub_p(chs[r], proofs[r].omega.value())),
        is_inverse_of(u2, mul_p(2, neg_p(proofs[r].omega.value()))),
        r + 1 < proofs.len() ==> tampered[r + 1].f_g == proofs[r + 1].f_g,
    ensures
        !verify_spec(comms, chs, tampered),
{
    if verify_spec(comms, chs, tampered) {
        let n = proofs.len() as int;
        let w = proofs[r].omega.value();
        let c = chs[r];
        let fg = proofs[r].f_g.value();
        let g1 = proofs[r].f_negative_g.value();
        let g2 = tampered[r].f_negative_g.value();
        let expected = if r + 1 < n {
            proofs[r + 1].f_g.value()
        } else {
            comms[n]
        };
        if r + 1 < n {
            assert(round_checks_ok(comms, chs, proofs, r + 1));
            assert(round_checks_ok(comms, chs, tampered, r + 1));
        }
        assert(recurrence_ok(proofs[r], c, expected));
        assert(recurrence_ok(tampered[r], c, expected));
        assert(recurrence_rhs(w, fg, g1, c) == recurrence_rhs(w, fg, g2, c));
        lemma_rhs_injective_in_fneg(w, c, fg, g1, g2, v, u2);
    }
}


/// The recurrence's right-hand side in normal form: half the sum of the
/// two evaluations, plus the challenge times their difference, divided by
/// twice the domain point.
proof fn lemma_rhs_normal_form(w: int, u: int, fg: int, gg: int, c: int)
    requires
        0 <= w < modulus(),
        is_inverse_of(u, mul_p(2, w)),
    ensures
        recurrence_rhs(w, fg, gg, c) == add_p(
            mul_p(crate::field::two_inverse_value(), add_p(fg, gg)),
            mul_p(mul_p(c, sub_p(fg, gg)), u),
        ),
{
    let p = modulus();
    let d1 = mul_p(2, w);
    let d2 = mul_p(2, neg_p(w));
    vstd::arithmetic::div_mod::lemma_mod_bound(2 * w, p);
    vstd::arithmetic::div_mod::lemma_mod_bound(p - u, p);
    vstd::arithmetic::div_mod::lemma_mod_bound(w * u, p);
    // the divisors' inverses are u and its negation
    crate::field::lemma_inv_p_of_witness(d1, u);
    crate::field::lemma_mul_p_neg_right(2, w);
    crate::field::lemma_mul_p_neg_neg(d1, u);
    assert(is_inverse_of(neg_p(u), d2));
    crate::field::lemma_inv_p_of_witness(d2, neg_p(u));
    let i1 = mul_p(add_p(w, c), fg);
    let i2 = mul_p(sub_p(c, w), gg);
    let t1 = mul_p(i1, u);
    let x2 = mul_p(i2, u);
    vstd::arithmetic::div_mod::lemma_mod_bound(i2 * u, p);
    assert(recurrence_rhs(w, fg, gg, c) == add_p(t1, mul_p(i2, neg_p(u))));
    crate::field::lemma_mul_p_neg_right(i2, u);
    crate::field::lemma_add_p_neg(t1, x2);
    assert(recurrence_rhs(w, fg, gg, c) == sub_p(t1, x2));
    crate::field::lemma_mul_p_distrib_sub(u, i1, i2);
    crate::field::lemma_mul_p_comm(u, i1);
    crate::field::lemma_mul_p_comm(u, i2);
    crate::field::lemma_mul_p_comm(u, sub_p(i1, i2));
    assert(recurrence_rhs(w, fg, gg, c) == mul_p(sub_p(i1, i2), u));
    // the inner difference over the integers
    vstd::arithmetic::div_mod::lemma_mul_mod_noop_general(w + c, fg, p);
    assert(i1 == ((w + c) * fg) % p);
    vstd::arithmetic::div_mod::lemma_mul_mod_noop_general(c - w, gg, p);
    assert(i2 == ((c - w) * gg) % p);
    vstd::arithmetic::div_mod::lemma_sub_mod_noop((w + c) * fg, (c - w) * gg, p);
    assert((w + c) * fg - (c - w) * gg == w * (fg + gg) + c * (fg - gg)) by (nonlinear_arith);
    assert(sub_p(i1, i2) == (w * (fg + gg) + c * (fg - gg)) % p);
    // multiply by the inverse and split the sum
    vstd::arithmetic::div_mod::lemma_mul_mod_noop_left(
        w * (fg + gg) + c * (fg - gg),
        u,
        p,
    );
    assert((w * (fg + gg) + c * (fg - gg)) * u == (w * u) * (fg + gg) + (c * (fg - gg)) * u)
        by (nonlinear_arith);
    vstd::arithmetic::div_mod::lemma_add_mod_noop((w * u) * (fg + gg), (c * (fg - gg)) * u, p);
    assert(recurrence_rhs(w, fg, gg, c) == add_p(
        ((w * u) * (fg + gg)) % p,
        ((c * (fg - gg)) * u) % p,
    ));
    // w * u is the inverse of two
    crate::field::lemma_mul_p_assoc(2, w, u);
    assert(is_inverse_of(mul_p(w, u), 2));
    crate::field::lemma_two_inverse();
    crate::field::lemma_inverse_unique(2, mul_p(w, u), crate::field::two_inverse_value());
    assert(mul_p(mul_p(w, u), add_p(fg, gg)) == ((w * u) * (fg + gg)) % p) by {
        vstd::arithmetic::div_mod::lemma_mul_mod_noop_general(w * u, fg + gg, p);
        vstd::arithmetic::div_mod::lemma_add_mod_noop_right(fg, gg, p);
        vstd::arithmetic::div_mod::lemma_mul_mod_noop_right((w * u) % p, fg + gg, p);
    };
    // and the challenge term reassociates
    assert(mul_p(mul_p(c, sub_p(fg, gg)), u) == ((c * (fg - gg)) * u) % p) by {
        vstd::arithmetic::div_mod::lemma_sub_mod_noop_right(fg, gg, p);
        vstd::arithmetic::div_mod::lemma_mul_mod_noop_right(c, fg - gg, p);
        vstd::arithmetic::div_mod::lemma_mul_mod_noop_left(c * (fg - gg), u, p);
    };
}

/// TAMPERED DOMAIN POINTS ARE DETECTED away from degenerate openings: in
/// an accepted set of opening proofs, changing the opened domain point of
/// any round to any other canonical value makes the recurrence that reads
/// it fail, provided the round's challenge, the difference of its two
/// evaluations, and the doubles of the old and new points are invertible.
/// In the field every nonzero element has an inverse, so this leaves out
/// exactly a zero challenge and openings whose two evaluations coincide.
pub proof fn lemma_tamper_domain_point_detected(
    comms: Seq<int>,
    chs: Seq<int>,
    proofs: Seq<RoundProof>,
    tampered: Seq<RoundProof>,
    r: int,
    vc: int,
    vd: int,
    u: int,
    ut: int,
)
    requires
        verify_spec(comms, chs, proofs),
        proofs.len() >= 1,
        0 <= r < proofs.len(),
        tampered.len() == proofs.len(),
        tampered[r].f_g == proofs[r].f_g,
        tampered[r].f_negative_g == proofs[r].f_negative_g,
        proofs[r].omega.wf(),
        tampered[r].omega.wf(),
        tampered[r].omega.value() != proofs[r].omega.value(),
        is_inverse_of(vc, chs[r]),
        is_inverse_of(vd, sub_p(proofs[r].f_g.value(), proofs[r].f_negative_g.value())),
        is_inverse_of(u, mul_p(2, proofs[r].omega.value())),
        tampered[r].omega.value() != 0 ==> is_inverse_of(
            ut,
            mul_p(2, tampered[r].omega.value()),
        ),
        r + 1 < proofs.len() ==> tampered[r + 1].f_g == proofs[r + 1].f_g,
    ensures
        !verify_spec(comms, chs, tampered),
{
    let p = modulus();
    if verify_spec(comms, chs, tampered) {
        let n = proofs.len() as int;
        let w = proofs[r].omega.value();
        let wt = tampered[r].omega.value();
        let c = chs[r];
        let fg = proofs[r].f_g.value();
        let gg = proofs[r].f_negative_g.value();
        let expected = if r + 1 < n {
            proofs[r + 1].f_g.value()
        } else {
            comms[n]
        };
        if r + 1 < n {
            assert(round_checks_ok(comms, chs, proofs, r + 1));
            assert(round_checks_ok(comms, chs, tampered, r + 1));
        }
        assert(recurrence_ok(proofs[r], c, expected));
        assert(recurrence_ok(tampered[r], c, expected));
        assert(wt != 0);
        // both accepted values share the normal form
        lemma_rhs_normal_form(w, u, fg, gg, c);
        lemma_rhs_normal_form(wt, ut, fg, gg, c);
        let h = mul_p(crate::field::two_inverse_value(), add_p(fg, gg));
        let k = mul_p(c, sub_p(fg, gg));
        vstd::arithmetic::div_mod::lemma_mod_bound(k * u, p);
        vstd::arithmetic::div_mod::lemma_mod_bound(k * ut, p);
        if mul_p(k, u) != mul_p(k, ut) {
            crate::field::lemma_add_p_right_injective(h, mul_p(k, u), mul_p(k, ut));
            assert(false);
        }
        // the challenge term's coefficient is invertible, so the two
        // inverses agree
        crate::field::lemma_inverse_of_product(c, vc, sub_p(fg, gg), vd);
        crate::field::lemma_mul_p_cancel(k, mul_p(vc, vd), u, ut);
        // and one value cannot invert two different doubles
        assert(is_inverse_of(mul_p(2, w), u)) by {
            crate::field::lemma_mul_p_comm(mul_p(2, w), u);
            vstd::arithmetic::div_mod::lemma_mod_bound(2 * w, p);
        };
        assert(is_inverse_of(mul_p(2, wt), u)) by {
            crate::field::lemma_mul_p_comm(mul_p(2, wt), u);
            vstd::arithmetic::div_mod::lemma_mod_bound(2 * wt, p);
        };
        crate::field::lemma_inverse_unique(u, mul_p(2, w), mul_p(2, wt));
        crate::field::lemma_two_inverse();
        crate::field::lemma_mul_p_cancel(2, crate::field::two_inverse_value(), w, wt);
        assert(false);
    }
}

} // verus!
