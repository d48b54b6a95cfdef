use sumcheck::field::{F_to_bytes, FieldElement};
use sumcheck::sumcheck::{Prover, SumcheckProof, Verifier};

fn f(v: u64) -> FieldElement {
    FieldElement::from_u64(v)
}

fn table(vs: &[u64]) -> Vec<FieldElement> {
    vs.iter().map(|&v| f(v)).collect()
}

fn clone_proof(p: &SumcheckProof) -> SumcheckProof {
    SumcheckProof {
        initial_claimed_sum: p.initial_claimed_sum,
        initial_poly: p.initial_poly.clone(),
        uni_poly_for_each_round: p.uni_poly_for_each_round.clone(),
    }
}

#[test]
fn test_prover_init() {
    let evaluated_values = vec![f(0), f(0), f(3), f(8)];
    let prover = Prover::new(&evaluated_values);

    assert_eq!(prover.initial_claimed_sum, f(11));
    assert_eq!(prover.initial_poly.evaluated_values, evaluated_values);
}

#[test]
fn test_completeness_roundtrip() {
    let inputs: Vec<Vec<FieldElement>> = vec![
        table(&[7]),
        table(&[2, 9]),
        table(&[0, 0, 3, 8]),
        table(&[1, 2, 3, 4, 5, 6, 7, 8]),
        table(&[0, 0, 0, 0]),
    ];
    for evals in inputs {
        let mut prover = Prover::new(&evals);
        let proof = prover.prove();
        let mut verifier = Verifier::new();
        assert!(verifier.verify(proof));
    }
}

#[test]
fn test_initial_claimed_sum_is_exact() {
    assert_eq!(Prover::new(&table(&[1, 2, 3, 4])).initial_claimed_sum, f(10));
    assert_eq!(Prover::new(&table(&[5])).initial_claimed_sum, f(5));
    assert_eq!(Prover::new(&table(&[0, 0, 0, 0])).initial_claimed_sum, f(0));
}

#[test]
fn test_prover_is_deterministic() {
    let evals = table(&[4, 1, 2, 2, 0, 7, 3, 5]);
    let mut p1 = Prover::new(&evals);
    let mut p2 = Prover::new(&evals);
    let proof1 = p1.prove();
    let proof2 = p2.prove();
    assert_eq!(proof1.initial_claimed_sum, proof2.initial_claimed_sum);
    assert_eq!(proof1.initial_poly.evaluated_values, proof2.initial_poly.evaluated_values);
    assert_eq!(proof1.uni_poly_for_each_round.len(), proof2.uni_poly_for_each_round.len());
    for i in 0..proof1.uni_poly_for_each_round.len() {
        // Byte-identical round polynomials, entry by entry.
        let r1 = &proof1.uni_poly_for_each_round[i];
        let r2 = &proof2.uni_poly_for_each_round[i];
        assert_eq!(r1.evaluated_values, r2.evaluated_values);
        assert_eq!(r1.convert_to_bytes(), r2.convert_to_bytes());
    }
    assert_eq!(
        proof1.initial_poly.convert_to_bytes(),
        proof2.initial_poly.convert_to_bytes()
    );
    assert_eq!(
        F_to_bytes(proof1.initial_claimed_sum),
        F_to_bytes(proof2.initial_claimed_sum)
    );
}

#[test]
fn test_round_count_matches_variable_count() {
    let proof2 = Prover::new(&table(&[0, 0, 3, 8])).prove();
    assert_eq!(proof2.uni_poly_for_each_round.len(), 2);
    let proof3 = Prover::new(&table(&[1, 2, 3, 4, 5, 6, 7, 8])).prove();
    assert_eq!(proof3.uni_poly_for_each_round.len(), 3);
    let proof0 = Prover::new(&table(&[9])).prove();
    assert_eq!(proof0.uni_poly_for_each_round.len(), 0);
}

#[test]
fn test_concrete_scenario() {
    // Vector [0, 0, 3, 8]: claimed sum 11, two variables, a full cycle
    // accepts, and round zero's polynomial is (p(0), p(1)) = (0, 11).
    let mut prover = Prover::new(&table(&[0, 0, 3, 8]));
    assert_eq!(prover.initial_claimed_sum, f(11));
    assert_eq!(prover.initial_poly.no_of_vars, 2);
    let proof = prover.prove();
    assert_eq!(proof.uni_poly_for_each_round.len(), 2);
    let round0 = &proof.uni_poly_for_each_round[0];
    assert_eq!(round0.evaluated_values, table(&[0, 11]));
    assert_eq!(round0.evaluated_values[0].add(&round0.evaluated_values[1]), f(11));
    let mut verifier = Verifier::new();
    assert!(verifier.verify(proof));
}

#[test]
fn test_tamper_rejection() {
    // Flipping any single byte of any round-polynomial entry of a valid
    // proof must make verification fail.
    let proof = Prover::new(&table(&[0, 0, 3, 8])).prove();
    assert!(Verifier::new().verify(clone_proof(&proof)));
    for round in 0..proof.uni_poly_for_each_round.len() {
        for entry in 0..2 {
            for byte in 0..32 {
                let mut bytes =
                    F_to_bytes(proof.uni_poly_for_each_round[round].evaluated_values[entry]);
                bytes[byte] ^= 1;
                let tampered_entry = FieldElement::from_be_bytes_mod_order(&bytes);
                let mut tampered = clone_proof(&proof);
                tampered.uni_poly_for_each_round[round].evaluated_values[entry] = tampered_entry;
                let mut verifier = Verifier::new();
                assert!(!verifier.verify(tampered));
            }
        }
    }
}

#[test]
fn test_truncated_rounds_rejected() {
    // A proof with one round polynomial missing fails the length check.
    let mut proof = Prover::new(&table(&[0, 0, 3, 8])).prove();
    proof.uni_poly_for_each_round.pop();
    let mut verifier = Verifier::new();
    assert!(!verifier.verify(proof));
}

#[test]
fn test_wrong_claimed_sum_rejected() {
    let mut proof = Prover::new(&table(&[0, 0, 3, 8])).prove();
    proof.initial_claimed_sum = f(12);
    let mut verifier = Verifier::new();
    assert!(!verifier.verify(proof));
}
