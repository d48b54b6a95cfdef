//! The non-interactive sum-check protocol.
//!
//! The prover holds a multilinear polynomial and the claimed sum of its
//! evaluations over the boolean hypercube. Round by round it sends the
//! univariate restriction of the leading variable, evaluated at zero and
//! one, absorbs it into its transcript, derives a challenge and folds the
//! working table with it. The verifier replays the identical transcript,
//! checks each round polynomial against the running claim, and closes with
//! one direct evaluation of the initial polynomial at the full challenge
//! point.

use vstd::prelude::*;

use crate::field::{all_fe_ok, be_bytes, fadd, fe_ok, q, vals, F_to_bytes, FieldElement};
use crate::multilinear::{
    eval_mle, fold_all, fold_once, in_range, is_power_of_two, lemma_eval_pair,
    lemma_eval_pair_at_one, lemma_eval_pair_at_zero, lemma_fold_all_snoc, lemma_fold_once_sum,
    lemma_sum_concat, lemma_sum_in_range, sum_mod, table_bytes, MultilinearPolynomial,
};
use crate::transcript::{chal, digest_of, Transcript};

verus! {

use vstd::arithmetic::power2::pow2;
use vstd::arithmetic::power2::lemma_pow2_strictly_increases;
use vstd::arithmetic::power2::lemma_pow2_adds;
use vstd::arithmetic::power2::lemma2_to64;

/// The round polynomial of a table, as its two evaluations: the sum of the
/// half with the leading variable fixed to zero, then the half fixed to
/// one.
pub open spec fn round_pair(t: Seq<int>) -> Seq<int> {
    seq![
        sum_mod(t.take((t.len() / 2) as int)),
        sum_mod(t.skip((t.len() / 2) as int)),
    ]
}

/// What both parties absorb before the rounds: the initial table's
/// encoding, then the claimed sum's 32-byte encoding.
pub open spec fn init_log(t: Seq<int>, claim: int) -> Seq<u8> {
    table_bytes(t) + be_bytes(claim, 32)
}

/// The round polynomials an honest prover sends, starting from table `t`
/// with transcript log `log`: each round absorbs the round pair, derives
/// the challenge from the log, absorbs the digest, and folds.
pub open spec fn prove_rounds(t: Seq<int>, log: Seq<u8>) -> Seq<Seq<int>>
    decreases t.len(),
{
    if t.len() < 2 {
        Seq::empty()
    } else {
        let pair = round_pair(t);
        let log1 = log + table_bytes(pair);
        let c = chal(log1);
        seq![pair] + prove_rounds(fold_once(t, c), log1 + digest_of(log1))
    }
}

/// The full list of round polynomials for an initial table: the transcript
/// starts from the table's own encoding and its true sum.
pub open spec fn spec_round_polys(t: Seq<int>) -> Seq<Seq<int>> {
    prove_rounds(t, init_log(t, sum_mod(t)))
}

/// The verifier's round replay: each round polynomial must sum to the
/// running claim at zero and one; the claim then moves to its value at the
/// replayed challenge. After the last round the initial polynomial itself,
/// evaluated at all recorded challenges, must equal the final claim.
pub open spec fn verify_rounds(
    init: Seq<int>,
    rounds: Seq<Seq<int>>,
    claim: int,
    log: Seq<u8>,
    chals: Seq<int>,
) -> bool
    decreases rounds.len(),
{
    if rounds.len() == 0 {
        eval_mle(init, chals) == claim
    } else {
        let p = rounds.first();
        if fadd(eval_mle(p, seq![0int]), eval_mle(p, seq![1int])) != claim {
            false
        } else {
            let log1 = log + table_bytes(p);
            let c = chal(log1);
            verify_rounds(
                init,
                rounds.drop_first(),
                eval_mle(p, seq![c]),
                log1 + digest_of(log1),
                chals.push(c),
            )
        }
    }
}

/// Whether the verifier accepts a proof: the round count must match the
/// variable count of the initial polynomial, and the round replay with the
/// final oracle check must go through.
pub open spec fn spec_verify(claim: int, init: Seq<int>, rounds: Seq<Seq<int>>) -> bool {
    if pow2(rounds.len()) != init.len() {
        false
    } else {
        verify_rounds(init, rounds, claim, init_log(init, claim), Seq::empty())
    }
}

/// The integer tables of a list of round polynomials.
pub open spec fn round_views(v: Seq<MultilinearPolynomial>) -> Seq<Seq<int>> {
    v.map_values(|p: MultilinearPolynomial| p.values())
}

/// A sum-check proof: the claimed sum, the initial polynomial in the open,
/// and one two-entry round polynomial per variable.
pub struct SumcheckProof {
    pub initial_claimed_sum: FieldElement,
    pub initial_poly: MultilinearPolynomial,
    pub uni_poly_for_each_round: Vec<MultilinearPolynomial>,
}

impl SumcheckProof {
    /// A structurally sound proof: the initial polynomial is well formed,
    /// and every round polynomial is a well-formed one-variable table.
    pub open spec fn wf(self) -> bool {
        &&& self.initial_poly.wf()
        &&& fe_ok(self.initial_claimed_sum)
        &&& forall|i: int|
            0 <= i < self.uni_poly_for_each_round@.len() ==> (
            #[trigger] self.uni_poly_for_each_round@[i]).wf()
                && self.uni_poly_for_each_round@[i].no_of_vars == 1
    }

    /// The integer tables of the round polynomials.
    pub open spec fn rounds(self) -> Seq<Seq<int>> {
        round_views(self.uni_poly_for_each_round@)
    }
}

/// A prover run: the polynomial, its claimed sum, the prover's own
/// transcript and the round polynomials produced so far.
pub struct Prover {
    pub initial_poly: MultilinearPolynomial,
    pub initial_claimed_sum: FieldElement,
    pub transcript: Transcript,
    pub uni_poly_for_each_round: Vec<MultilinearPolynomial>,
}

/// A verifier run, with its own independent transcript.
pub struct Verifier {
    pub transcript: Transcript,
}

/// Sums the entries of `v` between `from` and `to` in the field.
fn sum_elements(v: &Vec<FieldElement>, from: usize, to: usize) -> (r: FieldElement)
    requires
        from <= to <= v@.len(),
        all_fe_ok(v@),
    ensures
        r.val() == sum_mod(vals(v@).subrange(from as int, to as int)),
        fe_ok(r),
{
    let mut acc = FieldElement::zero();
    let mut i: usize = from;
    proof {
        assert(vals(v@).subrange(from as int, from as int) =~= Seq::<int>::empty());
    }
    while i < to
        invariant
            from <= i <= to <= v@.len(),
            all_fe_ok(v@),
            fe_ok(acc),
            acc.val() == sum_mod(vals(v@).subrange(from as int, i as int)),
        decreases to - i,
    {
        let e = v[i];
        acc = acc.add(&e);
        proof {
            let s = vals(v@);
            assert(s.subrange(from as int, i + 1).drop_last() =~= s.subrange(
                from as int,
                i as int,
            ));
            assert(s.subrange(from as int, i + 1).last() == s[i as int]);
            assert(s[i as int] == v@[i as int].val());
        }
        i = i + 1;
    }
    acc
}

/// The split-and-reduce step: the sums of the two halves of the table,
/// giving the round polynomial's evaluations at zero and one.
pub fn split_and_reduce(polynomial_evaluated_values: &Vec<FieldElement>) -> (r: Vec<
    FieldElement,
>)
    requires
        all_fe_ok(polynomial_evaluated_values@),
    ensures
        r@.len() == 2,
        all_fe_ok(r@),
        vals(r@) == round_pair(vals(polynomial_evaluated_values@)),
{
    let mid = polynomial_evaluated_values.len() / 2;
    let left_sum = sum_elements(polynomial_evaluated_values, 0, mid);
    let right_sum = sum_elements(
        polynomial_evaluated_values,
        mid,
        polynomial_evaluated_values.len(),
    );
    let mut univariate_polynomial: Vec<FieldElement> = Vec::new();
    univariate_polynomial.push(left_sum);
    univariate_polynomial.push(right_sum);
    proof {
        let t = vals(polynomial_evaluated_values@);
        assert(t.subrange(0, mid as int) =~= t.take(mid as int));
        assert(t.subrange(mid as int, t.len() as int) =~= t.skip(mid as int));
        assert(vals(univariate_polynomial@) =~= round_pair(t));
    }
    univariate_polynomial
}

impl Prover {
    /// A prover is fresh when nothing has been absorbed or produced yet and
    /// the claimed sum is the true sum of its polynomial's table.
    pub open spec fn fresh(self) -> bool {
        &&& self.initial_poly.wf()
        &&& fe_ok(self.initial_claimed_sum)
        &&& self.initial_claimed_sum.val() == sum_mod(self.initial_poly.values())
        &&& self.transcript.log_view() == Seq::<u8>::empty()
        &&& self.uni_poly_for_each_round@ == Seq::<MultilinearPolynomial>::empty()
    }

    /// Builds a prover for the given evaluation table; the claimed sum is
    /// computed as the exact field sum of the entries.
    pub fn new(initial_poly_evaluation: &Vec<FieldElement>) -> (r: Prover)
        requires
            is_power_of_two(initial_poly_evaluation@.len() as nat),
            all_fe_ok(initial_poly_evaluation@),
        ensures
            r.fresh(),
            r.initial_poly.evaluated_values@ == initial_poly_evaluation@,
            pow2(r.initial_poly.no_of_vars as nat) == initial_poly_evaluation@.len(),
            r.initial_claimed_sum.val() == sum_mod(vals(initial_poly_evaluation@)),
            r.uni_poly_for_each_round@.len() == 0,
    {
        let polynomial = MultilinearPolynomial::new(initial_poly_evaluation);
        let transcript = Transcript::new();
        let sum = sum_elements(initial_poly_evaluation, 0, initial_poly_evaluation.len());
        proof {
            let t = vals(initial_poly_evaluation@);
            assert(t.subrange(0, t.len() as int) =~= t);
        }
        let r = Prover {
            initial_poly: polynomial,
            initial_claimed_sum: sum,
            transcript,
            uni_poly_for_each_round: Vec::new(),
        };
        proof {
            assert(r.uni_poly_for_each_round@ =~= Seq::<MultilinearPolynomial>::empty());
        }
        r
    }
}

/// Clones a list of round polynomials entry by entry.
fn clone_poly_vec(v: &Vec<MultilinearPolynomial>) -> (r: Vec<MultilinearPolynomial>)
    ensures
        r@.len() == v@.len(),
        forall|i: int|
            0 <= i < v@.len() ==> (#[trigger] r@[i]).evaluated_values@
                == v@[i].evaluated_values@ && r@[i].no_of_vars == v@[i].no_of_vars,
{
    let mut r: Vec<MultilinearPolynomial> = Vec::new();
    let mut i: usize = 0;
    while i < v.len()
        invariant
            i <= v@.len(),
            r@.len() == i,
            forall|j: int|
                0 <= j < i ==> (#[trigger] r@[j]).evaluated_values@ == v@[j].evaluated_values@
                    && r@[j].no_of_vars == v@[j].no_of_vars,
        decreases v@.len() - i,
    {
        let p = &v[i];
        r.push(p.clone());
        i = i + 1;
    }
    r
}

impl Prover {
    /// Runs all rounds: absorbs the initial polynomial and the claimed sum,
    /// then per round sends the split-and-reduce pair, absorbs it, derives
    /// the challenge and folds, and finally bundles the proof.
    pub fn prove(&mut self) -> (r: SumcheckProof)
        requires
            old(self).fresh(),
        ensures
            r.wf(),
            r.initial_claimed_sum == old(self).initial_claimed_sum,
            r.initial_poly.evaluated_values@ == old(self).initial_poly.evaluated_values@,
            r.initial_poly.no_of_vars == old(self).initial_poly.no_of_vars,
            r.initial_claimed_sum.val() == sum_mod(r.initial_poly.values()),
            r.rounds() == spec_round_polys(old(self).initial_poly.values()),
            r.uni_poly_for_each_round@.len() == old(self).initial_poly.no_of_vars,
            final(self).initial_poly.evaluated_values@ == old(
                self,
            ).initial_poly.evaluated_values@,
            final(self).initial_claimed_sum == old(self).initial_claimed_sum,
            round_views(final(self).uni_poly_for_each_round@) == r.rounds(),
    {
        let ghost t0 = old(self).initial_poly.values();
        let ghost claim0 = old(self).initial_claimed_sum.val();
        let init_bytes = self.initial_poly.convert_to_bytes();
        self.transcript.append(&init_bytes);
        let sum_bytes = F_to_bytes(self.initial_claimed_sum);
        self.transcript.append(&sum_bytes);
        proof {
            assert(self.transcript.log_view() =~= init_log(t0, sum_mod(t0)));
        }
        let mut current_polynomial = self.initial_poly.clone();
        let k = self.initial_poly.no_of_vars;
        let mut round: usize = 0;
        proof {
            assert(round_views(self.uni_poly_for_each_round@) =~= Seq::<Seq<int>>::empty());
            assert(Seq::<Seq<int>>::empty() + prove_rounds(t0, init_log(t0, sum_mod(t0)))
                =~= prove_rounds(t0, init_log(t0, sum_mod(t0))));
        }
        while round < k
            invariant
                round <= k,
                k == old(self).initial_poly.no_of_vars,
                self.initial_poly.evaluated_values@ == old(self).initial_poly.evaluated_values@,
                self.initial_poly.no_of_vars == old(self).initial_poly.no_of_vars,
                self.initial_claimed_sum == old(self).initial_claimed_sum,
                old(self).fresh(),
                t0 == old(self).initial_poly.values(),
                current_polynomial.wf(),
                current_polynomial.evaluated_values@.len() == pow2((k - round) as nat),
                self.uni_poly_for_each_round@.len() == round,
                forall|i: int|
                    0 <= i < round ==> (#[trigger] self.uni_poly_for_each_round@[i]).wf()
                        && self.uni_poly_for_each_round@[i].no_of_vars == 1,
                spec_round_polys(t0) == round_views(self.uni_poly_for_each_round@) + prove_rounds(
                    current_polynomial.values(),
                    self.transcript.log_view(),
                ),
            decreases k - round,
        {
            let ghost t_cur = current_polynomial.values();
            let ghost log_cur = self.transcript.log_view();
            let ghost uni_pre = self.uni_poly_for_each_round@;
            proof {
                lemma2_to64();
                if (k - round) as nat > 1 {
                    lemma_pow2_strictly_increases(1, (k - round) as nat);
                }
                assert(t_cur.len() >= 2);
            }
            let univariate_poly_values = split_and_reduce(&current_polynomial.evaluated_values);
            proof {
                assert(univariate_poly_values@.len() as nat == pow2(1));
            }
            let univariate_polynomial = MultilinearPolynomial::new(&univariate_poly_values);
            proof {
                let nv = univariate_polynomial.no_of_vars as nat;
                if nv == 0 {
                    assert(pow2(0) == 1);
                } else if nv > 1 {
                    lemma_pow2_strictly_increases(1, nv);
                }
                assert(univariate_polynomial.no_of_vars == 1);
            }
            let ghost pair = univariate_polynomial.values();
            let univariate_polynomial_in_bytes = univariate_polynomial.convert_to_bytes();
            self.uni_poly_for_each_round.push(univariate_polynomial);
            self.transcript.append(&univariate_polynomial_in_bytes);
            let random_challenge = self.transcript.random_challenge_as_field_element();
            proof {
                assert(current_polynomial.evaluated_values@.len() as nat == pow2(
                    (k - round) as nat,
                ));
            }
            current_polynomial = MultilinearPolynomial::partial_evaluate(
                &current_polynomial.evaluated_values,
                random_challenge,
            );
            proof {
                lemma_pow2_adds((k - round - 1) as nat, 1);
                assert(pair == round_pair(t_cur));
                let log1 = log_cur + table_bytes(pair);
                assert(self.transcript.log_view() == log1 + digest_of(log1));
                assert(random_challenge.val() == chal(log1));
                assert(current_polynomial.values() == fold_once(t_cur, chal(log1)));
                assert(prove_rounds(t_cur, log_cur) == seq![pair] + prove_rounds(
                    current_polynomial.values(),
                    self.transcript.log_view(),
                ));
                assert(round_views(self.uni_poly_for_each_round@) =~= round_views(uni_pre).push(
                    pair,
                ));
                assert(round_views(uni_pre).push(pair) + prove_rounds(
                    current_polynomial.values(),
                    self.transcript.log_view(),
                ) =~= round_views(uni_pre) + (seq![pair] + prove_rounds(
                    current_polynomial.values(),
                    self.transcript.log_view(),
                )));
            }
            round = round + 1;
        }
        proof {
            lemma2_to64();
            assert(current_polynomial.evaluated_values@.len() == 1);
            assert(prove_rounds(current_polynomial.values(), self.transcript.log_view())
                =~= Seq::<Seq<int>>::empty());
            assert(round_views(self.uni_poly_for_each_round@) + Seq::<Seq<int>>::empty()
                =~= round_views(self.uni_poly_for_each_round@));
        }
        let proof_rounds = clone_poly_vec(&self.uni_poly_for_each_round);
        let result = SumcheckProof {
            initial_claimed_sum: self.initial_claimed_sum,
            initial_poly: self.initial_poly.clone(),
            uni_poly_for_each_round: proof_rounds,
        };
        proof {
            assert(result.rounds() =~= round_views(self.uni_poly_for_each_round@));
        }
        result
    }
}

impl Verifier {
    /// A verifier with an empty transcript.
    pub fn new() -> (r: Verifier)
        ensures
            r.transcript.log_view() == Seq::<u8>::empty(),
    {
        Verifier { transcript: Transcript::new() }
    }

    /// Replays the prover's transcript and checks the proof: the round
    /// count must match the variable count, each round polynomial must sum
    /// to the running claim at zero and one, and the initial polynomial,
    /// evaluated at the replayed challenges, must equal the final claim.
    /// Every failure is reported as a bare `false`.
    pub fn verify(&mut self, sumcheck_proof: SumcheckProof) -> (r: bool)
        requires
            sumcheck_proof.wf(),
            old(self).transcript.log_view() == Seq::<u8>::empty(),
        ensures
            r == spec_verify(
                sumcheck_proof.initial_claimed_sum.val(),
                sumcheck_proof.initial_poly.values(),
                sumcheck_proof.rounds(),
            ),
            sumcheck_proof.uni_poly_for_each_round@.len()
                != sumcheck_proof.initial_poly.no_of_vars ==> r == false,
    {
        let ghost init = sumcheck_proof.initial_poly.values();
        let ghost claim0 = sumcheck_proof.initial_claimed_sum.val();
        let ghost rounds = sumcheck_proof.rounds();
        if sumcheck_proof.uni_poly_for_each_round.len() != sumcheck_proof.initial_poly.no_of_vars {
            proof {
                let rl = rounds.len();
                let nv = sumcheck_proof.initial_poly.no_of_vars as nat;
                if rl < nv {
                    lemma_pow2_strictly_increases(rl, nv);
                } else {
                    lemma_pow2_strictly_increases(nv, rl);
                }
                assert(pow2(rl) != init.len());
            }
            return false;
        }
        let mut current_claim_sum = sumcheck_proof.initial_claimed_sum;
        let init_bytes = sumcheck_proof.initial_poly.convert_to_bytes();
        self.transcript.append(&init_bytes);
        let claim_bytes = F_to_bytes(sumcheck_proof.initial_claimed_sum);
        self.transcript.append(&claim_bytes);
        proof {
            assert(self.transcript.log_view() =~= init_log(init, claim0));
            assert(rounds.skip(0) =~= rounds);
            assert(vals(Seq::<FieldElement>::empty()) =~= Seq::<int>::empty());
        }
        let mut challenges: Vec<FieldElement> = Vec::new();
        let k = sumcheck_proof.uni_poly_for_each_round.len();
        let mut i: usize = 0;
        while i < k
            invariant
                i <= k,
                k == sumcheck_proof.uni_poly_for_each_round@.len(),
                k == sumcheck_proof.initial_poly.no_of_vars,
                sumcheck_proof.wf(),
                init == sumcheck_proof.initial_poly.values(),
                claim0 == sumcheck_proof.initial_claimed_sum.val(),
                rounds == sumcheck_proof.rounds(),
                pow2(rounds.len()) == init.len(),
                challenges@.len() == i,
                all_fe_ok(challenges@),
                fe_ok(current_claim_sum),
                spec_verify(claim0, init, rounds) == verify_rounds(
                    init,
                    rounds.skip(i as int),
                    current_claim_sum.val(),
                    self.transcript.log_view(),
                    vals(challenges@),
                ),
            decreases k - i,
        {
            let ghost log_pre = self.transcript.log_view();
            let ghost chals_pre = challenges@;
            let p_i = &sumcheck_proof.uni_poly_for_each_round[i];
            proof {
                assert(sumcheck_proof.uni_poly_for_each_round@[i as int].wf());
                lemma2_to64();
            }
            let mut evaluation_at_zero: Vec<FieldElement> = Vec::new();
            evaluation_at_zero.push(FieldElement::zero());
            let mut evaluation_at_one: Vec<FieldElement> = Vec::new();
            evaluation_at_one.push(FieldElement::one());
            proof {
                assert(vals(evaluation_at_zero@) =~= seq![0int]);
                assert(vals(evaluation_at_one@) =~= seq![1int]);
            }
            let e0 = p_i.evaluate(&evaluation_at_zero);
            let e1 = p_i.evaluate(&evaluation_at_one);
            let boundary = e0.add(&e1);
            proof {
                assert(rounds.skip(i as int).first() == rounds[i as int]);
                assert(rounds[i as int] == p_i.values());
            }
            if !(boundary == current_claim_sum) {
                return false;
            }
            let round_bytes = p_i.convert_to_bytes();
            self.transcript.append(&round_bytes);
            let challenge = self.transcript.random_challenge_as_field_element();
            challenges.push(challenge);
            let mut challenge_point: Vec<FieldElement> = Vec::new();
            challenge_point.push(challenge);
            proof {
                assert(vals(challenge_point@) =~= seq![challenge.val()]);
            }
            current_claim_sum = p_i.evaluate(&challenge_point);
            proof {
                assert(rounds.skip(i as int).drop_first() =~= rounds.skip(i + 1));
                assert(vals(challenges@) =~= vals(chals_pre).push(challenge.val()));
                let log1 = log_pre + table_bytes(p_i.values());
                assert(self.transcript.log_view() == log1 + digest_of(log1));
                assert(challenge.val() == chal(log1));
            }
            i = i + 1;
        }
        proof {
            assert(rounds.skip(k as int) =~= Seq::<Seq<int>>::empty());
        }
        let final_evaluation = sumcheck_proof.initial_poly.evaluate(&challenges);
        final_evaluation == current_claim_sum
    }
}

/// An honest prover sends one round polynomial per variable.
proof fn lemma_prove_rounds_len(t: Seq<int>, log: Seq<u8>, n: nat)
    requires
        t.len() == pow2(n),
    ensures
        prove_rounds(t, log).len() == n,
    decreases n,
{
    lemma2_to64();
    if n == 0 {
        assert(t.len() == 1);
    } else {
        if n > 1 {
            lemma_pow2_strictly_increases(1, n);
        }
        assert(t.len() >= 2);
        let pair = round_pair(t);
        let log1 = log + table_bytes(pair);
        let c = chal(log1);
        lemma_pow2_adds((n - 1) as nat, 1);
        assert(fold_once(t, c).len() == pow2((n - 1) as nat));
        lemma_prove_rounds_len(fold_once(t, c), log1 + digest_of(log1), (n - 1) as nat);
    }
}

/// The heart of completeness: if the running table is the fold of the
/// initial one by the challenges recorded so far, and the running claim is
/// its true sum, the verifier's replay of the remaining honest rounds
/// accepts.
proof fn lemma_rounds_complete(init: Seq<int>, t: Seq<int>, log: Seq<u8>, chals: Seq<int>, n: nat)
    requires
        in_range(t),
        t == fold_all(init, chals),
        t.len() == pow2(n),
    ensures
        verify_rounds(init, prove_rounds(t, log), sum_mod(t), log, chals),
    decreases n,
{
    lemma2_to64();
    if n == 0 {
        assert(t.len() == 1);
        assert(prove_rounds(t, log) =~= Seq::<Seq<int>>::empty());
        assert(eval_mle(init, chals) == fold_all(init, chals)[0]);
        assert(t.drop_last() =~= Seq::<int>::empty());
        assert(sum_mod(Seq::<int>::empty()) == 0);
        assert(t.last() == t[0]);
        assert(sum_mod(t) == fadd(0, t[0]));
        assert(t[0] % q() == t[0]);
        assert(sum_mod(t) == t[0]);
    } else {
        if n > 1 {
            lemma_pow2_strictly_increases(1, n);
        }
        assert(t.len() >= 2);
        lemma_pow2_adds((n - 1) as nat, 1);
        assert(t.len() == pow2((n - 1) as nat) * 2);
        assert(t.len() % 2 == 0);
        let h = (t.len() / 2) as int;
        let pair = round_pair(t);
        let log1 = log + table_bytes(pair);
        let c = chal(log1);
        let t2 = fold_once(t, c);
        let log2 = log1 + digest_of(log1);
        let rounds = prove_rounds(t, log);
        assert(rounds == seq![pair] + prove_rounds(t2, log2));
        assert(rounds.first() == pair);
        assert(rounds.drop_first() =~= prove_rounds(t2, log2));
        lemma_sum_in_range(t.take(h));
        lemma_sum_in_range(t.skip(h));
        assert(pair.len() == 2);
        assert(pair[0] == sum_mod(t.take(h)));
        assert(pair[1] == sum_mod(t.skip(h)));
        lemma_eval_pair_at_zero(pair);
        lemma_eval_pair_at_one(pair);
        assert(t.take(h) + t.skip(h) =~= t);
        lemma_sum_concat(t.take(h), t.skip(h));
        assert(fadd(eval_mle(pair, seq![0int]), eval_mle(pair, seq![1int])) == sum_mod(t));
        lemma_eval_pair(pair, c);
        lemma_fold_once_sum(t, c);
        assert(eval_mle(pair, seq![c]) == sum_mod(t2));
        assert(in_range(t2)) by {
            assert(forall|i: int| 0 <= i < t2.len() ==> 0 <= #[trigger] t2[i] < q());
        }
        lemma_fold_all_snoc(init, chals, c);
        assert(t2 == fold_all(init, chals.push(c)));
        lemma_pow2_adds((n - 1) as nat, 1);
        assert(t2.len() == pow2((n - 1) as nat));
        lemma_rounds_complete(init, t2, log2, chals.push(c), (n - 1) as nat);
    }
}

/// Completeness: for any power-of-two table of field values, the round
/// polynomials an honest prover produces, together with the table's true
/// sum, satisfy the verifier's whole replay, oracle check included.
pub proof fn lemma_completeness(evals: Seq<int>)
    requires
        in_range(evals),
        is_power_of_two(evals.len() as nat),
    ensures
        spec_verify(sum_mod(evals), evals, spec_round_polys(evals)),
{
    let k = choose|k: nat| evals.len() as nat == pow2(k);
    let log0 = init_log(evals, sum_mod(evals));
    lemma_prove_rounds_len(evals, log0, k);
    assert(fold_all(evals, Seq::<int>::empty()) == evals);
    lemma_rounds_complete(evals, evals, log0, Seq::<int>::empty(), k);
    assert(pow2(spec_round_polys(evals).len()) == evals.len());
}

/// Determinism: the proof is a function of the input table alone. Two
/// prover runs on the same table carry the same claimed sum and the same
/// round polynomials, so their byte encodings coincide as well.
pub proof fn lemma_prove_deterministic(p1: SumcheckProof, p2: SumcheckProof)
    requires
        p1.initial_poly.values() == p2.initial_poly.values(),
        p1.initial_claimed_sum.val() == sum_mod(p1.initial_poly.values()),
        p2.initial_claimed_sum.val() == sum_mod(p2.initial_poly.values()),
        p1.rounds() == spec_round_polys(p1.initial_poly.values()),
        p2.rounds() == spec_round_polys(p2.initial_poly.values()),
    ensures
        p1.initial_claimed_sum.val() == p2.initial_claimed_sum.val(),
        p1.rounds() == p2.rounds(),
        table_bytes(p1.initial_poly.values()) == table_bytes(p2.initial_poly.values()),
        be_bytes(p1.initial_claimed_sum.val(), 32) == be_bytes(p2.initial_claimed_sum.val(), 32),
{
}

} // verus!
