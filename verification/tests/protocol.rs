use ark_bls12_381::Fr as F;
use ark_ff::{Field, PrimeField};
use ark_std::UniformRand;
use fri::field::{felt_from_u64, Felt};
use fri::fri::FRI;
use fri::merkle::MerkleTree;
use fri::utils::{evaluate, fold_polynomial, get_omega, reconstruct_merkle_root};

fn felts(xs: &[u64]) -> Vec<Felt> {
    let mut v = Vec::new();
    for &x in xs {
        v.push(felt_from_u64(x));
    }
    v
}

// A small canonical value that differs from `avoid`, for tampering.
fn bogus(avoid: Felt) -> Felt {
    let a = felt_from_u64(123456789);
    let b = felt_from_u64(987654321);
    if avoid == a {
        b
    } else {
        a
    }
}

#[test]
fn test_merkle_root() {
    // create a simple vector
    let poly: Vec<Felt> = felts(&[1, 2, 3, 4]);

    let merkle_tree = MerkleTree::new(poly);
    let merkle_root = merkle_tree.root;

    // result should be hash( hash(1 || 2) || hash(3 || 4))
    assert_eq!(merkle_root, felt_from_u64(10));
}

#[test]
fn test_merkle_path() {
    let poly: Vec<Felt> = felts(&[1, 2, 3, 4, 5, 6, 7, 8]);

    let merkle_tree = MerkleTree::new(poly);
    let merkle_path = merkle_tree.get_merkle_path(3);

    let expected_path = felts(&[3, 3, 26]);

    assert_eq!(merkle_path, expected_path);
}

#[test]
fn test_fold_polynomial() {
    // sanity check that the backing field is a prime field
    let mut rng = ark_std::test_rng();
    let a = F::rand(&mut rng);
    let modulus = F::MODULUS;
    assert_eq!(a.pow(&modulus), a);

    // create a simple polynomial with coefficients in the scalar field
    let poly: Vec<Felt> = felts(&[
        1, // x^0
        2, // x^1
        3, // x^2
        4, // x^3
    ]);

    let random_value = felt_from_u64(5);

    let folded = fold_polynomial(&poly, random_value);

    // for polynomial 1 + 2x + 3x^2 + 4x^3
    // even coefficients are [1, 3]
    // odd coefficients are [2, 4]
    // after folding with random value r:
    // result should be [(1 + 5*2), (3 + 5*4)]
    assert_eq!(folded.len(), 2);
    assert_eq!(folded[0], felt_from_u64(11));
    assert_eq!(folded[1], felt_from_u64(23));
}

#[test]
fn test_evaluate_exact() {
    // 1 + 2x + 3x^2 + 4x^3 at x = 2: 1 + 4 + 12 + 32 = 49
    let poly = felts(&[1, 2, 3, 4]);
    let value = evaluate(&poly, felt_from_u64(2));
    assert_eq!(value, felt_from_u64(49));
}

#[test]
fn test_empty_tree_has_zero_root() {
    let tree = MerkleTree::new(Vec::new());
    assert_eq!(tree.root, felt_from_u64(0));
}

#[test]
fn test_commitment_round_trip() {
    // for every leaf, replaying its path reproduces the root
    let leaves = felts(&[1, 2, 3, 4, 5, 6, 7, 8]);
    let tree = MerkleTree::new(leaves.clone());
    for i in 0..leaves.len() {
        let path = tree.get_merkle_path(i as u64);
        let root = reconstruct_merkle_root(leaves[i], &path);
        assert_eq!(root, tree.root);
    }
}

#[test]
fn test_domain_generator_order() {
    // the generator for a length-4 polynomial has multiplicative order 4
    let poly = felts(&[7, 7, 7, 7]);
    let omega = get_omega(&poly);
    let x_pow_4 = felts(&[0, 0, 0, 0, 1]);
    let x_pow_2 = felts(&[0, 0, 1]);
    assert_eq!(evaluate(&x_pow_4, omega), felt_from_u64(1));
    assert_ne!(evaluate(&x_pow_2, omega), felt_from_u64(1));
    assert_ne!(omega, felt_from_u64(1));
}

#[test]
fn test_two_adic_root_constant() {
    // the canonical value the field library uses for its two-adic root
    let ta = <F as ark_ff::FftField>::TWO_ADIC_ROOT_OF_UNITY;
    assert_eq!(
        ta.to_string(),
        "10238227357739495823651030575849232062558860180284477541189508159991286009131"
    );
}

#[test]
fn test_domain_generator_of_length_two() {
    // the only element of multiplicative order two is minus one
    let poly = felts(&[1, 1]);
    let omega = get_omega(&poly);
    let minus_one = Felt {
        l0: 18446744069414584320,
        l1: 6034159408538082302,
        l2: 3691218898639771653,
        l3: 8353516859464449352,
    };
    assert_eq!(omega, minus_one);
}

#[test]
fn test_evaluate_empty() {
    let value = evaluate(&Vec::new(), felt_from_u64(5));
    assert_eq!(value, felt_from_u64(0));
}

fn committed_session() -> (FRI, Vec<Felt>) {
    // polynomial of f(x) = 19 + 56x + 34x^2 + 48x^3 + 43x^4 + 37x^5 + 10x^6 + 0x^7
    let poly = felts(&[19, 56, 34, 48, 43, 37, 10, 0]);
    let mut fri = FRI::new(4);
    let random_values = felts(&[12, 32, 64]);
    let commitments = fri.commit(poly, random_values);
    (fri, commitments)
}

#[test]
fn test_commitment_list_shape() {
    // a length-8 polynomial folds in 3 rounds: 4 commitments, the last of
    // which is the constant coefficient of the fully folded polynomial
    let (_, commitments) = committed_session();
    assert_eq!(commitments.len(), 4);

    let poly = felts(&[19, 56, 34, 48, 43, 37, 10, 0]);
    let f1 = fold_polynomial(&poly, felt_from_u64(12));
    let f2 = fold_polynomial(&f1, felt_from_u64(32));
    let f3 = fold_polynomial(&f2, felt_from_u64(64));
    assert_eq!(f3.len(), 1);
    assert_eq!(commitments[3], f3[0]);
}

#[test]
fn test_honest_protocol_accepts() {
    // an honestly committed session accepts a query at every index of the
    // round-0 evaluation domain (8 * 4 = 32 points)
    let (fri, _) = committed_session();
    for index in 0..32u64 {
        let proofs = fri.query(index);
        assert_eq!(proofs.len(), 3);
        assert!(fri.verify(proofs));
    }
}

#[test]
fn test_query_idempotent() {
    let (fri, _) = committed_session();
    let p1 = fri.query(4);
    let p2 = fri.query(4);
    assert_eq!(p1.len(), p2.len());
    for (a, b) in p1.iter().zip(p2.iter()) {
        assert_eq!(a.omega, b.omega);
        assert_eq!(a.f_g, b.f_g);
        assert_eq!(a.f_negative_g, b.f_negative_g);
        assert_eq!(a.merkle_path, b.merkle_path);
    }
}

#[test]
fn test_tampering_evaluation_detected() {
    let (fri, _) = committed_session();
    for round in 0..3 {
        let mut proofs = fri.query(4);
        proofs[round].f_g = bogus(proofs[round].f_g);
        assert!(!fri.verify(proofs));
    }
}

#[test]
fn test_tampering_negative_evaluation_detected() {
    let (fri, _) = committed_session();
    for round in 0..3 {
        let mut proofs = fri.query(4);
        proofs[round].f_negative_g = bogus(proofs[round].f_negative_g);
        assert!(!fri.verify(proofs));
    }
}

#[test]
fn test_tampering_domain_point_detected() {
    let (fri, _) = committed_session();
    for round in 0..3 {
        let mut proofs = fri.query(4);
        proofs[round].omega = bogus(proofs[round].omega);
        assert!(!fri.verify(proofs));
    }
}

#[test]
fn test_tampering_path_detected() {
    let (fri, _) = committed_session();
    let baseline = fri.query(4);
    for round in 0..3 {
        for entry in 0..baseline[round].merkle_path.len() {
            let mut proofs = fri.query(4);
            proofs[round].merkle_path[entry] = bogus(proofs[round].merkle_path[entry]);
            assert!(!fri.verify(proofs));
        }
    }
}

#[test]
fn test_single_round_session() {
    // a length-2 polynomial: one round, two commitments
    let poly = felts(&[3, 5]);
    let mut fri = FRI::new(2);
    let commitments = fri.commit(poly, felts(&[9]));
    assert_eq!(commitments.len(), 2);
    // 3 + 9*5 = 48 is the plaintext final commitment
    assert_eq!(commitments[1], felt_from_u64(48));
    let proofs = fri.query(1);
    assert!(fri.verify(proofs));
}
