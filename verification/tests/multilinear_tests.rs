use sumcheck::field::FieldElement;
use sumcheck::multilinear::MultilinearPolynomial;
use sumcheck::sumcheck::split_and_reduce;

fn f(v: u64) -> FieldElement {
    FieldElement::from_u64(v)
}

fn table(vs: &[u64]) -> Vec<FieldElement> {
    vs.iter().map(|&v| f(v)).collect()
}

#[test]
fn test_new_counts_variables() {
    assert_eq!(MultilinearPolynomial::new(&table(&[5])).no_of_vars, 0);
    assert_eq!(MultilinearPolynomial::new(&table(&[1, 2])).no_of_vars, 1);
    assert_eq!(MultilinearPolynomial::new(&table(&[1, 2, 3, 4])).no_of_vars, 2);
    assert_eq!(MultilinearPolynomial::new(&table(&[0, 0, 3, 8, 1, 2, 3, 4])).no_of_vars, 3);
}

#[test]
fn test_partial_evaluate_pair_formula() {
    // For a two-entry table the fold is v0 + c * (v1 - v0).
    let evals = table(&[3, 10]);
    let folded = MultilinearPolynomial::partial_evaluate(&evals, f(5));
    assert_eq!(folded.evaluated_values.len(), 1);
    assert_eq!(folded.no_of_vars, 0);
    assert_eq!(folded.evaluated_values[0], f(38));
    // The source table is untouched.
    assert_eq!(evals, table(&[3, 10]));
}

#[test]
fn test_partial_evaluate_at_one_keeps_second_half() {
    let folded = MultilinearPolynomial::partial_evaluate(&table(&[4, 9, 7, 2]), f(1));
    assert_eq!(folded.evaluated_values, table(&[7, 2]));
}

#[test]
fn test_partial_evaluate_at_zero_keeps_first_half() {
    let folded = MultilinearPolynomial::partial_evaluate(&table(&[4, 9, 7, 2]), f(0));
    assert_eq!(folded.evaluated_values, table(&[4, 9]));
}

#[test]
fn test_evaluate_multilinear_extension() {
    // Table [0, 0, 3, 8] is f(x, y) = 3x + 5xy.
    let poly = MultilinearPolynomial::new(&table(&[0, 0, 3, 8]));
    // Boolean corners reproduce the table.
    assert_eq!(poly.evaluate(&table(&[0, 0])), f(0));
    assert_eq!(poly.evaluate(&table(&[0, 1])), f(0));
    assert_eq!(poly.evaluate(&table(&[1, 0])), f(3));
    assert_eq!(poly.evaluate(&table(&[1, 1])), f(8));
    // A point off the hypercube: f(1, 2) = 3 + 10 = 13.
    assert_eq!(poly.evaluate(&table(&[1, 2])), f(13));
    // One variable: [2, 5] at 3 gives 2 + 3 * (5 - 2) = 11.
    let line = MultilinearPolynomial::new(&table(&[2, 5]));
    assert_eq!(line.evaluate(&table(&[3])), f(11));
}

#[test]
fn test_convert_to_bytes_layout() {
    let poly = MultilinearPolynomial::new(&table(&[1, 258]));
    let bytes = poly.convert_to_bytes();
    // 8-byte big-endian length prefix, then two 32-byte entries.
    assert_eq!(bytes.len(), 8 + 2 * 32);
    assert_eq!(&bytes[0..8], &[0, 0, 0, 0, 0, 0, 0, 2]);
    assert_eq!(bytes[8 + 31], 1);
    assert_eq!(bytes[8 + 32 + 30], 1);
    assert_eq!(bytes[8 + 32 + 31], 2);
    // Distinct tables encode distinctly.
    let other = MultilinearPolynomial::new(&table(&[1, 259])).convert_to_bytes();
    assert_ne!(bytes, other);
}

#[test]
fn test_split_and_reduce_sums_halves() {
    assert_eq!(split_and_reduce(&table(&[0, 0, 3, 8])), table(&[0, 11]));
    assert_eq!(split_and_reduce(&table(&[1, 2, 3, 4])), table(&[3, 7]));
    assert_eq!(split_and_reduce(&table(&[5, 9])), table(&[5, 9]));
}
