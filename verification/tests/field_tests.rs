use sumcheck::circuit::{Gate, Layer, Operator};
use sumcheck::field::{F_to_bytes, FieldElement};
use sumcheck::transcript::Transcript;

/// The 32 big-endian bytes of the BN254 base-field prime.
const Q_BYTES: [u8; 32] = [
    0x30, 0x64, 0x4e, 0x72, 0xe1, 0x31, 0xa0, 0x29, 0xb8, 0x50, 0x45, 0xb6, 0x81, 0x81, 0x58,
    0x5d, 0x97, 0x81, 0x6a, 0x91, 0x68, 0x71, 0xca, 0x8d, 0x3c, 0x20, 0x8c, 0x16, 0xd8, 0x7c,
    0xfd, 0x47,
];

#[test]
fn test_field_add_mul_exact() {
    let a = FieldElement::from_u64(20);
    let b = FieldElement::from_u64(22);
    assert_eq!(a.add(&b), FieldElement::from_u64(42));
    let c = FieldElement::from_u64(7);
    let d = FieldElement::from_u64(6);
    assert_eq!(c.mul(&d), FieldElement::from_u64(42));
    assert_eq!(a.mul(&FieldElement::zero()), FieldElement::zero());
    assert_eq!(a.mul(&FieldElement::one()), a);
}

#[test]
fn test_field_sub_wraps_around() {
    let three = FieldElement::from_u64(3);
    let five = FieldElement::from_u64(5);
    let wrapped = three.sub(&five);
    // 3 - 5 = -2 lands on q - 2, which added back to 5 gives 3 again.
    assert_ne!(wrapped, three);
    assert_eq!(wrapped.add(&five), three);
    assert_eq!(FieldElement::zero().sub(&FieldElement::one()).add(&FieldElement::one()),
        FieldElement::zero());
}

#[test]
fn test_f_to_bytes_is_fixed_width_big_endian() {
    let eleven = F_to_bytes(FieldElement::from_u64(11));
    assert_eq!(eleven.len(), 32);
    assert_eq!(eleven[31], 11);
    for i in 0..31 {
        assert_eq!(eleven[i], 0);
    }
    let two_fifty_eight = F_to_bytes(FieldElement::from_u64(258));
    assert_eq!(two_fifty_eight.len(), 32);
    assert_eq!(two_fifty_eight[30], 1);
    assert_eq!(two_fifty_eight[31], 2);
}

#[test]
fn test_from_be_bytes_mod_order_reduces() {
    // The prime itself reduces to zero, and the prime plus one to one.
    let q_bytes: Vec<u8> = Q_BYTES.to_vec();
    assert_eq!(FieldElement::from_be_bytes_mod_order(&q_bytes), FieldElement::zero());
    let mut q_plus_one = Q_BYTES;
    q_plus_one[31] = 0x48;
    assert_eq!(
        FieldElement::from_be_bytes_mod_order(&q_plus_one.to_vec()),
        FieldElement::one()
    );
    assert_eq!(
        FieldElement::from_be_bytes_mod_order(&vec![11u8]),
        FieldElement::from_u64(11)
    );
    // Round trip through the canonical encoding.
    let x = FieldElement::from_u64(123456789);
    assert_eq!(FieldElement::from_be_bytes_mod_order(&F_to_bytes(x)), x);
}

#[test]
fn test_transcript_challenges_are_deterministic() {
    let mut t1 = Transcript::new();
    let mut t2 = Transcript::new();
    t1.append(&vec![1, 2, 3]);
    t2.append(&vec![1, 2, 3]);
    let c1 = t1.random_challenge_as_field_element();
    let c2 = t2.random_challenge_as_field_element();
    assert_eq!(c1, c2);
    // After identical derivations the logs still agree.
    assert_eq!(t1.random_challenge_as_field_element(), t2.random_challenge_as_field_element());
}

#[test]
fn test_transcript_challenges_depend_on_log() {
    let mut t1 = Transcript::new();
    let mut t2 = Transcript::new();
    t1.append(&vec![1]);
    t2.append(&vec![2]);
    assert_ne!(
        t1.random_challenge_as_field_element(),
        t2.random_challenge_as_field_element()
    );
    // Two consecutive derivations without intervening appends differ,
    // because the first digest is absorbed back into the log.
    let mut t3 = Transcript::new();
    let first = t3.random_challenge_as_field_element();
    let second = t3.random_challenge_as_field_element();
    assert_ne!(first, second);
}

#[test]
fn test_gate_execution() {
    let mut add_gate = Gate::new(0, 1, 0, Operator::Add);
    let mut mul_gate = Gate::new(0, 1, 0, Operator::Mul);
    let inputs = vec![FieldElement::from_u64(3), FieldElement::from_u64(4)];
    assert_eq!(add_gate.execute_gate(inputs.clone()), FieldElement::from_u64(7));
    assert_eq!(mul_gate.execute_gate(inputs), FieldElement::from_u64(12));
}

#[test]
fn test_layer_holds_its_gates() {
    let layer = Layer::new(vec![Gate::new(0, 1, 0, Operator::Add), Gate::new(2, 3, 1, Operator::Mul)]);
    assert_eq!(layer.gates.len(), 2);
    assert_eq!(layer.gates[0].left_index, 0);
    assert_eq!(layer.gates[1].output_index, 1);
    assert_eq!(layer.gates[1].gate_operator, Operator::Mul);
}
