//! Multilinear polynomials in evaluation form.
//!
//! A polynomial in `k` variables, each of degree at most one, is determined
//! by its `2^k` evaluations over the boolean hypercube; index `i`, read as a
//! `k`-bit string with the most significant bit first, encodes the point.
//! The table is the polynomial: evaluation at an arbitrary point proceeds by
//! fixing the leading variable to a field value, which folds each pair of
//! entries `(low, high)` differing in the leading bit to
//! `low + c * (high - low)`, halving the table; `k` folds leave the value of
//! the unique multilinear extension at the point.

use vstd::prelude::*;

use crate::field::{
    all_fe_ok, be_bytes, fadd, fe_ok, fmul, fsub, q, vals, F_to_bytes, FieldElement,
};

verus! {

use vstd::arithmetic::power2::pow2;
use vstd::arithmetic::power2::lemma_pow2_strictly_increases;
use vstd::arithmetic::power2::lemma_pow2_adds;
use vstd::arithmetic::power2::lemma2_to64;
use vstd::arithmetic::div_mod::lemma_add_mod_noop;
use vstd::arithmetic::div_mod::lemma_add_mod_noop_right;
use vstd::arithmetic::div_mod::lemma_sub_mod_noop;
use vstd::arithmetic::div_mod::lemma_mul_mod_noop_right;

/// Every entry is a canonical residue of the field.
pub open spec fn in_range(s: Seq<int>) -> bool {
    forall|i: int| 0 <= i < s.len() ==> 0 <= #[trigger] s[i] < q()
}

/// `n` is an exact power of two.
pub open spec fn is_power_of_two(n: nat) -> bool {
    exists|k: nat| n == pow2(k)
}

/// The sum of a table's entries in the field.
pub open spec fn sum_mod(s: Seq<int>) -> int
    decreases s.len(),
{
    if s.len() == 0 {
        0
    } else {
        fadd(sum_mod(s.drop_last()), s.last())
    }
}

/// One folding step: fix the leading variable to `c`. Entry `i` of the
/// result interpolates between the two entries of `s` that differ only in
/// the leading bit: `s[i] + c * (s[half + i] - s[i])`.
pub open spec fn fold_once(s: Seq<int>, c: int) -> Seq<int> {
    Seq::new(
        s.len() / 2,
        |i: int| fadd(s[i], fmul(c, fsub(s[s.len() / 2 + i], s[i]))),
    )
}

/// Fold with each challenge in turn, leading variable first.
pub open spec fn fold_all(s: Seq<int>, cs: Seq<int>) -> Seq<int>
    decreases cs.len(),
{
    if cs.len() == 0 {
        s
    } else {
        fold_all(fold_once(s, cs.first()), cs.drop_first())
    }
}

/// The multilinear extension of the table `s`, evaluated at the point `cs`:
/// fixing every variable by folding leaves a single entry, the value of the
/// unique multilinear polynomial with these boolean evaluations. Folding is
/// exactly the multilinear-Lagrange weighting, one variable at a time: each
/// step replaces the pair `(low, high)` by `(1 - c) * low + c * high`.
pub open spec fn eval_mle(s: Seq<int>, cs: Seq<int>) -> int {
    fold_all(s, cs)[0]
}

/// The canonical byte encoding of a table's entries, in order, 32 bytes
/// each.
pub open spec fn entries_bytes(s: Seq<int>) -> Seq<u8>
    decreases s.len(),
{
    if s.len() == 0 {
        Seq::empty()
    } else {
        entries_bytes(s.drop_last()) + be_bytes(s.last(), 32)
    }
}

/// The transcript encoding of a table: an 8-byte big-endian length prefix,
/// then each entry's canonical 32-byte encoding in order.
pub open spec fn table_bytes(s: Seq<int>) -> Seq<u8> {
    be_bytes(s.len() as int, 8) + entries_bytes(s)
}

/// A multilinear polynomial, as the table of its evaluations over the
/// boolean hypercube.
pub struct MultilinearPolynomial {
    pub evaluated_values: Vec<FieldElement>,
    pub no_of_vars: usize,
}

/// Copies a table entry by entry.
fn copy_fe_vec(v: &Vec<FieldElement>) -> (r: Vec<FieldElement>)
    ensures
        r@ == v@,
{
    let mut r: Vec<FieldElement> = Vec::new();
    let mut i: usize = 0;
    while i < v.len()
        invariant
            i <= v@.len(),
            r@ == v@.take(i as int),
        decreases v@.len() - i,
    {
        r.push(v[i]);
        proof {
            assert(r@ =~= v@.take(i + 1));
        }
        i = i + 1;
    }
    proof {
        assert(v@.take(v@.len() as int) =~= v@);
    }
    r
}

/// Appends the bytes of `src` to `dst`.
pub(crate) fn extend_bytes(dst: &mut Vec<u8>, src: &Vec<u8>)
    ensures
        final(dst)@ == old(dst)@ + src@,
{
    let mut j: usize = 0;
    while j < src.len()
        invariant
            j <= src@.len(),
            dst@ == old(dst)@ + src@.take(j as int),
        decreases src@.len() - j,
    {
        dst.push(src[j]);
        proof {
            assert(old(dst)@ + src@.take(j + 1) =~= (old(dst)@ + src@.take(j as int)).push(
                src@[j as int],
            ));
        }
        j = j + 1;
    }
    proof {
        assert(old(dst)@ + src@.take(src@.len() as int) =~= old(dst)@ + src@);
    }
}

/// Folds a table once: entry `i` of the result is
/// `low + challenge * (high - low)` for the pair `(low, high)` at indices
/// `i` and `half + i`.
fn fold_table(evals: &Vec<FieldElement>, challenge: &FieldElement) -> (r: Vec<FieldElement>)
    requires
        all_fe_ok(evals@),
        fe_ok(*challenge),
        evals@.len() % 2 == 0,
    ensures
        vals(r@) == fold_once(vals(evals@), challenge.val()),
        all_fe_ok(r@),
        r@.len() == evals@.len() / 2,
{
    let len = evals.len();
    let half = len / 2;
    let mut r: Vec<FieldElement> = Vec::new();
    let mut i: usize = 0;
    while i < half
        invariant
            i <= half,
            len == evals@.len(),
            half == evals@.len() / 2,
            evals@.len() % 2 == 0,
            all_fe_ok(evals@),
            fe_ok(*challenge),
            r@.len() == i,
            all_fe_ok(r@),
            forall|j: int|
                0 <= j < i ==> #[trigger] r@[j].val() == fold_once(
                    vals(evals@),
                    challenge.val(),
                )[j],
        decreases half - i,
    {
        proof {
            assert(2 * half == len);
            assert(half + i < len);
        }
        let low = evals[i];
        let high = evals[half + i];
        let diff = high.sub(&low);
        let scaled = diff.mul(challenge);
        let folded = low.add(&scaled);
        r.push(folded);
        proof {
            let s = vals(evals@);
            assert(s.len() == evals@.len());
            assert(s[i as int] == evals@[i as int].val());
            assert(s[half + i] == evals@[half + i].val());
            assert(fold_once(s, challenge.val())[i as int] == fadd(
                s[i as int],
                fmul(challenge.val(), fsub(s[half + i], s[i as int])),
            ));
            assert(r@[i as int] == folded);
        }
        i = i + 1;
    }
    proof {
        assert(vals(r@) =~= fold_once(vals(evals@), challenge.val()));
    }
    r
}

impl MultilinearPolynomial {
    /// The integer values of the evaluation table.
    pub open spec fn values(self) -> Seq<int> {
        vals(self.evaluated_values@)
    }

    /// A well-formed polynomial: the table's length is exactly
    /// `2^no_of_vars` and every entry is a canonical field residue.
    pub open spec fn wf(self) -> bool {
        &&& self.evaluated_values@.len() == pow2(self.no_of_vars as nat)
        &&& all_fe_ok(self.evaluated_values@)
    }

    /// Builds the polynomial owning the given evaluation table. The length
    /// must be an exact power of two; the number of variables is its
    /// base-two logarithm.
    pub fn new(evaluations: &Vec<FieldElement>) -> (r: MultilinearPolynomial)
        requires
            is_power_of_two(evaluations@.len() as nat),
            all_fe_ok(evaluations@),
        ensures
            r.evaluated_values@ == evaluations@,
            r.wf(),
            pow2(r.no_of_vars as nat) == evaluations@.len(),
    {
        let n = evaluations.len();
        let ghost k = choose|k: nat| evaluations@.len() as nat == pow2(k);
        let mut p: usize = 1;
        let mut vars: usize = 0;
        proof {
            lemma2_to64();
            vstd::arithmetic::power2::lemma2_to64_rest();
            vstd::arithmetic::power2::lemma_pow2_pos(k);
            assert(n <= usize::MAX);
            if k > 64 {
                lemma_pow2_strictly_increases(64, k);
            }
            assert(k <= 64);
        }
        while p < evaluations.len()
            invariant
                p == pow2(vars as nat),
                p <= evaluations@.len(),
                evaluations@.len() == pow2(k),
                (vars as nat) <= k,
                k <= 64,
            decreases evaluations@.len() - p,
        {
            proof {
                lemma2_to64();
                vstd::arithmetic::power2::lemma_pow2_pos(vars as nat);
                if (vars as nat) >= k {
                    assert((vars as nat) == k);
                    assert(p == evaluations@.len());
                }
                assert((vars as nat) < k);
                if ((vars + 1) as nat) < k {
                    lemma_pow2_strictly_increases((vars + 1) as nat, k);
                }
                lemma_pow2_adds(vars as nat, 1);
                assert(pow2(1) == 2);
                assert(pow2((vars + 1) as nat) <= pow2(k));
            }
            p = p * 2;
            vars = vars + 1;
        }
        proof {
            assert(p == evaluations@.len());
        }
        MultilinearPolynomial { evaluated_values: copy_fe_vec(evaluations), no_of_vars: vars }
    }

    /// Fixes the leading variable of the table to `challenge`, returning the
    /// folded polynomial of one fewer variable; the source table is left
    /// untouched.
    pub fn partial_evaluate(
        evaluations: &Vec<FieldElement>,
        challenge: FieldElement,
    ) -> (r: MultilinearPolynomial)
        requires
            is_power_of_two(evaluations@.len() as nat),
            evaluations@.len() >= 2,
            all_fe_ok(evaluations@),
            fe_ok(challenge),
        ensures
            r.values() == fold_once(vals(evaluations@), challenge.val()),
            r.wf(),
            r.evaluated_values@.len() == evaluations@.len() / 2,
            pow2(r.no_of_vars as nat) == evaluations@.len() / 2,
    {
        proof {
            lemma_len_even(evaluations@.len() as nat);
        }
        let folded = fold_table(evaluations, &challenge);
        proof {
            lemma_half_pow2(evaluations@.len() as nat);
        }
        MultilinearPolynomial::new(&folded)
    }

    /// Evaluates the multilinear extension of the table at an arbitrary
    /// point, folding one variable at a time.
    pub fn evaluate(&self, point: &Vec<FieldElement>) -> (r: FieldElement)
        requires
            self.wf(),
            point@.len() == self.no_of_vars,
            all_fe_ok(point@),
        ensures
            r.val() == eval_mle(self.values(), vals(point@)),
            fe_ok(r),
    {
        let n = point.len();
        let mut current = copy_fe_vec(&self.evaluated_values);
        let mut i: usize = 0;
        while i < n
            invariant
                i <= n,
                n == point@.len(),
                self.wf(),
                point@.len() == self.no_of_vars,
                all_fe_ok(point@),
                all_fe_ok(current@),
                current@.len() == pow2((n - i) as nat),
                vals(current@) == fold_all(self.values(), vals(point@).take(i as int)),
            decreases n - i,
        {
            proof {
                lemma2_to64();
                if (n - i) as nat > 1 {
                    lemma_pow2_strictly_increases(1, (n - i) as nat);
                }
                assert(current@.len() as nat == pow2((n - i) as nat));
                assert(current@.len() >= 2);
                lemma_len_even(current@.len() as nat);
                assert(vals(point@).take(i + 1) =~= vals(point@).take(i as int).push(
                    point@[i as int].val(),
                ));
                lemma_fold_all_snoc(
                    self.values(),
                    vals(point@).take(i as int),
                    point@[i as int].val(),
                );
            }
            let c = point[i];
            current = fold_table(&current, &c);
            proof {
                lemma2_to64();
                if (n - i) as nat > 1 {
                    lemma_pow2_strictly_increases(1, (n - i) as nat);
                }
                lemma_half_pow2(pow2((n - i) as nat));
                assert(pow2((n - i) as nat) / 2 == pow2((n - i - 1) as nat));
            }
            i = i + 1;
        }
        proof {
            assert(vals(point@).take(n as int) =~= vals(point@));
            assert(pow2(0) == 1) by {
                lemma2_to64();
            }
        }
        current[0]
    }

    /// Encodes the table for transcript absorption: an 8-byte big-endian
    /// length prefix followed by each entry's canonical 32-byte big-endian
    /// encoding, in table order. Distinct tables encode distinctly.
    pub fn convert_to_bytes(&self) -> (r: Vec<u8>)
        requires
            all_fe_ok(self.evaluated_values@),
        ensures
            r@ == table_bytes(self.values()),
    {
        let n = self.evaluated_values.len();
        let len64 = n as u64;
        let mut bytes: Vec<u8> = Vec::new();
        bytes.push(((len64 >> 56) & 0xff) as u8);
        bytes.push(((len64 >> 48) & 0xff) as u8);
        bytes.push(((len64 >> 40) & 0xff) as u8);
        bytes.push(((len64 >> 32) & 0xff) as u8);
        bytes.push(((len64 >> 24) & 0xff) as u8);
        bytes.push(((len64 >> 16) & 0xff) as u8);
        bytes.push(((len64 >> 8) & 0xff) as u8);
        bytes.push((len64 & 0xff) as u8);
        proof {
            lemma_shifts_are_be_bytes(len64);
            assert(bytes@ =~= be_bytes(n as int, 8));
        }
        let mut i: usize = 0;
        while i < n
            invariant
                i <= n,
                n == self.evaluated_values@.len(),
                all_fe_ok(self.evaluated_values@),
                bytes@ == be_bytes(n as int, 8) + entries_bytes(self.values().take(i as int)),
            decreases n - i,
        {
            let mut chunk = F_to_bytes(self.evaluated_values[i]);
            extend_bytes(&mut bytes, &chunk);
            proof {
                let s = self.values();
                assert(s.take(i + 1).drop_last() =~= s.take(i as int));
                assert(s.take(i + 1).last() == s[i as int]);
                assert(entries_bytes(s.take(i + 1)) == entries_bytes(s.take(i as int)) + be_bytes(
                    s[i as int],
                    32,
                ));
            }
            i = i + 1;
        }
        proof {
            assert(self.values().take(n as int) =~= self.values());
        }
        bytes
    }
}

impl Clone for MultilinearPolynomial {
    /// Clones the polynomial, table and variable count alike.
    fn clone(&self) -> (r: MultilinearPolynomial)
        ensures
            r.evaluated_values@ == self.evaluated_values@,
            r.no_of_vars == self.no_of_vars,
    {
        MultilinearPolynomial {
            evaluated_values: copy_fe_vec(&self.evaluated_values),
            no_of_vars: self.no_of_vars,
        }
    }
}

/// A power of two of at least two is even.
proof fn lemma_len_even(n: nat)
    requires
        is_power_of_two(n),
        n >= 2,
    ensures
        n % 2 == 0,
        is_power_of_two((n / 2) as nat),
{
    let k = choose|k: nat| n == pow2(k);
    if k == 0 {
        assert(pow2(0) == 1) by {
            lemma2_to64();
        }
    }
    lemma_pow2_adds((k - 1) as nat, 1);
    assert(pow2(1) == 2) by {
        lemma2_to64();
    }
    assert(n == pow2((k - 1) as nat) * 2);
    assert(n / 2 == pow2((k - 1) as nat));
}

/// Halving a power of two of at least two steps the exponent down by one.
proof fn lemma_half_pow2(n: nat)
    requires
        is_power_of_two(n),
        n >= 2,
    ensures
        is_power_of_two((n / 2) as nat),
        forall|k: nat| n == #[trigger] pow2(k) ==> n / 2 == pow2((k - 1) as nat),
{
    lemma_len_even(n);
    assert forall|k: nat| n == #[trigger] pow2(k) implies n / 2 == pow2((k - 1) as nat) by {
        if k == 0 {
            assert(pow2(0) == 1) by {
                lemma2_to64();
            }
        }
        lemma_pow2_adds((k - 1) as nat, 1);
        assert(pow2(1) == 2) by {
            lemma2_to64();
        }
        assert(n == pow2((k - 1) as nat) * 2);
    }
}

/// Folding with the challenges `cs` and then once more with `c` is folding
/// with `cs.push(c)`.
pub proof fn lemma_fold_all_snoc(s: Seq<int>, cs: Seq<int>, c: int)
    ensures
        fold_all(s, cs.push(c)) == fold_once(fold_all(s, cs), c),
    decreases cs.len(),
{
    if cs.len() == 0 {
        assert(cs.push(c).drop_first() =~= Seq::<int>::empty());
        assert(cs.push(c).first() == c);
        assert(fold_all(s, cs.push(c)) == fold_all(fold_once(s, c), Seq::<int>::empty()));
        assert(fold_all(fold_once(s, c), Seq::<int>::empty()) == fold_once(s, c));
        assert(fold_all(s, cs) == s);
    } else {
        assert(cs.push(c).first() == cs.first());
        assert(cs.push(c).drop_first() =~= cs.drop_first().push(c));
        assert(fold_all(s, cs.push(c)) == fold_all(
            fold_once(s, cs.first()),
            cs.drop_first().push(c),
        ));
        lemma_fold_all_snoc(fold_once(s, cs.first()), cs.drop_first(), c);
        assert(fold_all(s, cs) == fold_all(fold_once(s, cs.first()), cs.drop_first()));
    }
}

/// The eight masked shifts of a 64-bit value are its big-endian bytes.
proof fn lemma_shifts_are_be_bytes(v: u64)
    ensures
        ((v >> 56) & 0xff) as u8 == be_bytes(v as int, 8)[0],
        ((v >> 48) & 0xff) as u8 == be_bytes(v as int, 8)[1],
        ((v >> 40) & 0xff) as u8 == be_bytes(v as int, 8)[2],
        ((v >> 32) & 0xff) as u8 == be_bytes(v as int, 8)[3],
        ((v >> 24) & 0xff) as u8 == be_bytes(v as int, 8)[4],
        ((v >> 16) & 0xff) as u8 == be_bytes(v as int, 8)[5],
        ((v >> 8) & 0xff) as u8 == be_bytes(v as int, 8)[6],
        (v & 0xff) as u8 == be_bytes(v as int, 8)[7],
{
    lemma2_to64();
    vstd::arithmetic::power2::lemma2_to64_rest();
    assert((v >> 56) & 0xff == (v / 0x100000000000000) % 0x100) by (bit_vector);
    assert((v >> 48) & 0xff == (v / 0x1000000000000) % 0x100) by (bit_vector);
    assert((v >> 40) & 0xff == (v / 0x10000000000) % 0x100) by (bit_vector);
    assert((v >> 32) & 0xff == (v / 0x100000000) % 0x100) by (bit_vector);
    assert((v >> 24) & 0xff == (v / 0x1000000) % 0x100) by (bit_vector);
    assert((v >> 16) & 0xff == (v / 0x10000) % 0x100) by (bit_vector);
    assert((v >> 8) & 0xff == (v / 0x100) % 0x100) by (bit_vector);
    assert(v & 0xff == v % 0x100) by (bit_vector);
    assert(v as int / 1 == v as int) by {
        vstd::arithmetic::div_mod::lemma_div_basics(v as int);
    }
}


/// A field sum is itself a canonical residue.
pub proof fn lemma_sum_in_range(s: Seq<int>)
    ensures
        0 <= sum_mod(s) < q(),
{
    if s.len() == 0 {
    }
}

/// Field addition reassociates.
proof fn lemma_fadd_assoc(x: int, y: int, z: int)
    ensures
        fadd(fadd(x, y), z) == fadd(x, fadd(y, z)),
{
    lemma_add_mod_noop_right(z, x + y, q());
    lemma_add_mod_noop_right(x, y + z, q());
}

/// The field sum of a concatenation is the field sum of the sums.
pub proof fn lemma_sum_concat(a: Seq<int>, b: Seq<int>)
    ensures
        sum_mod(a + b) == fadd(sum_mod(a), sum_mod(b)),
    decreases b.len(),
{
    if b.len() == 0 {
        assert(a + b =~= a);
        lemma_sum_in_range(a);
        assert(fadd(sum_mod(a), 0) == sum_mod(a) % q());
        assert(sum_mod(a) % q() == sum_mod(a));
    } else {
        assert((a + b).drop_last() =~= a + b.drop_last());
        assert((a + b).last() == b.last());
        lemma_sum_concat(a, b.drop_last());
        lemma_fadd_assoc(sum_mod(a), sum_mod(b.drop_last()), b.last());
    }
}

/// Evaluating a two-entry table at `x` interpolates between its entries:
/// `p(x) = p[0] + x * (p[1] - p[0])`.
pub proof fn lemma_eval_pair(p: Seq<int>, x: int)
    requires
        p.len() == 2,
    ensures
        eval_mle(p, seq![x]) == fadd(p[0], fmul(x, fsub(p[1], p[0]))),
{
    let cs = seq![x];
    assert(cs.first() == x);
    assert(cs.drop_first() =~= Seq::<int>::empty());
    assert(fold_all(p, cs) == fold_all(fold_once(p, x), Seq::<int>::empty()));
    assert(fold_all(fold_once(p, x), Seq::<int>::empty()) == fold_once(p, x));
    assert(fold_once(p, x)[0] == fadd(p[0], fmul(x, fsub(p[1], p[0]))));
}

/// A two-entry table evaluates to its first entry at zero.
pub proof fn lemma_eval_pair_at_zero(p: Seq<int>)
    requires
        p.len() == 2,
        0 <= p[0] < q(),
    ensures
        eval_mle(p, seq![0int]) == p[0],
{
    lemma_eval_pair(p, 0);
    assert(fmul(0, fsub(p[1], p[0])) == 0);
    assert(fadd(p[0], 0) == p[0] % q());
    assert(p[0] % q() == p[0]);
}

/// A two-entry table evaluates to its second entry at one.
pub proof fn lemma_eval_pair_at_one(p: Seq<int>)
    requires
        p.len() == 2,
        0 <= p[0] < q(),
        0 <= p[1] < q(),
    ensures
        eval_mle(p, seq![1int]) == p[1],
{
    lemma_eval_pair(p, 1);
    let d = fsub(p[1], p[0]);
    assert(fmul(1, d) == d % q());
    assert(d % q() == d);
    lemma_add_mod_noop_right(p[0], p[1] - p[0], q());
    assert(fadd(p[0], d) == (p[0] + (p[1] - p[0])) % q());
    assert(p[1] % q() == p[1]);
}

/// Folding with challenge zero keeps exactly the first half of the table.
pub proof fn lemma_fold_once_at_zero(s: Seq<int>)
    requires
        s.len() % 2 == 0,
        in_range(s),
    ensures
        fold_once(s, 0) == s.take((s.len() / 2) as int),
{
    let h = (s.len() / 2) as int;
    assert forall|i: int| 0 <= i < h implies fold_once(s, 0)[i] == s.take(h)[i] by {
        assert(fmul(0, fsub(s[h + i], s[i])) == 0);
        assert(fadd(s[i], 0) == s[i] % q());
        assert(s[i] % q() == s[i]);
    }
    assert(fold_once(s, 0) =~= s.take(h));
}

/// Folding with challenge one keeps exactly the second half of the table.
pub proof fn lemma_fold_once_at_one(s: Seq<int>)
    requires
        s.len() % 2 == 0,
        in_range(s),
    ensures
        fold_once(s, 1) == s.skip((s.len() / 2) as int),
{
    let h = (s.len() / 2) as int;
    assert forall|i: int| 0 <= i < h implies fold_once(s, 1)[i] == s.skip(h)[i] by {
        let d = fsub(s[h + i], s[i]);
        assert(fmul(1, d) == d % q());
        assert(d % q() == d);
        lemma_add_mod_noop_right(s[i], s[h + i] - s[i], q());
        assert(fadd(s[i], d) == (s[i] + (s[h + i] - s[i])) % q());
        assert(s[h + i] % q() == s[h + i]);
        assert(s.skip(h)[i] == s[h + i]);
    }
    assert(fold_once(s, 1) =~= s.skip(h));
}

/// The interpolations of paired entries, as folding forms them.
spec fn zip_fold(a: Seq<int>, b: Seq<int>, c: int) -> Seq<int> {
    Seq::new(a.len(), |i: int| fadd(a[i], fmul(c, fsub(b[i], a[i]))))
}

/// One step of the sum-of-folds identity, over raw integers.
proof fn lemma_fold_step(u: int, v: int, x: int, y: int, c: int)
    ensures
        fadd(fadd(u, fmul(c, fsub(v, u))), fadd(x, fmul(c, fsub(y, x)))) == fadd(
            fadd(u, x),
            fmul(c, fsub(fadd(v, y), fadd(u, x))),
        ),
{
    lemma_mul_mod_noop_right(c, v - u, q());
    lemma_add_mod_noop_right(u, c * (v - u), q());
    lemma_mul_mod_noop_right(c, y - x, q());
    lemma_add_mod_noop_right(x, c * (y - x), q());
    lemma_add_mod_noop(u + c * (v - u), x + c * (y - x), q());
    assert(fadd(fadd(u, fmul(c, fsub(v, u))), fadd(x, fmul(c, fsub(y, x)))) == (u + c * (v - u)
        + (x + c * (y - x))) % q());
    lemma_sub_mod_noop(v + y, u + x, q());
    lemma_mul_mod_noop_right(c, (v + y) - (u + x), q());
    lemma_add_mod_noop((u + x), c * ((v + y) - (u + x)), q());
    lemma_add_mod_noop_right((u + x) % q(), c * ((v + y) - (u + x)), q());
    assert(fadd(fadd(u, x), fmul(c, fsub(fadd(v, y), fadd(u, x)))) == ((u + x) + c * ((v + y) - (u
        + x))) % q()) by {
        assert(fsub(fadd(v, y), fadd(u, x)) == ((v + y) - (u + x)) % q());
        assert(fmul(c, ((v + y) - (u + x)) % q()) == (c * ((v + y) - (u + x))) % q());
        assert(((u + x) % q() + (c * ((v + y) - (u + x))) % q()) % q() == ((u + x) + c * ((v + y)
            - (u + x))) % q());
    }
    assert(u + c * (v - u) + (x + c * (y - x)) == (u + x) + c * ((v + y) - (u + x)))
        by (nonlinear_arith);
}

/// The field sum of pairwise interpolations equals the interpolation of the
/// field sums.
proof fn lemma_zip_fold_sum(a: Seq<int>, b: Seq<int>, c: int)
    requires
        a.len() == b.len(),
    ensures
        sum_mod(zip_fold(a, b, c)) == fadd(sum_mod(a), fmul(c, fsub(sum_mod(b), sum_mod(a)))),
    decreases a.len(),
{
    if a.len() == 0 {
        assert(zip_fold(a, b, c) =~= Seq::<int>::empty());
        assert(fsub(0, 0) == 0);
        assert(fmul(c, 0) == 0);
        assert(fadd(0, 0) == 0);
    } else {
        let a1 = a.drop_last();
        let b1 = b.drop_last();
        assert(zip_fold(a, b, c).drop_last() =~= zip_fold(a1, b1, c));
        assert(zip_fold(a, b, c).last() == fadd(a.last(), fmul(c, fsub(b.last(), a.last()))));
        lemma_zip_fold_sum(a1, b1, c);
        lemma_fold_step(sum_mod(a1), sum_mod(b1), a.last(), b.last(), c);
    }
}

/// The field sum of a folded table interpolates between the sums of the two
/// halves of the source: `sum(fold(s, c)) = lo + c * (hi - lo)` where `lo`
/// and `hi` are the half sums.
pub proof fn lemma_fold_once_sum(s: Seq<int>, c: int)
    requires
        s.len() % 2 == 0,
    ensures
        sum_mod(fold_once(s, c)) == fadd(
            sum_mod(s.take((s.len() / 2) as int)),
            fmul(c, fsub(sum_mod(s.skip((s.len() / 2) as int)), sum_mod(s.take((s.len() / 2) as int)))),
        ),
{
    let h = (s.len() / 2) as int;
    let a = s.take(h);
    let b = s.skip(h);
    assert forall|i: int| 0 <= i < h implies fold_once(s, c)[i] == zip_fold(a, b, c)[i] by {
        assert(a[i] == s[i]);
        assert(b[i] == s[h + i]);
    }
    assert(fold_once(s, c) =~= zip_fold(a, b, c));
    lemma_zip_fold_sum(a, b, c);
}


/// Each entry contributes exactly 32 bytes to the entry encoding.
proof fn lemma_entries_bytes_len(s: Seq<int>)
    ensures
        entries_bytes(s).len() == 32 * s.len(),
    decreases s.len(),
{
    if s.len() == 0 {
    } else {
        lemma_entries_bytes_len(s.drop_last());
    }
}

/// Splitting equal concatenations at the same offset gives equal parts.
proof fn lemma_concat_parts_equal(a1: Seq<u8>, b1: Seq<u8>, a2: Seq<u8>, b2: Seq<u8>)
    requires
        a1.len() == a2.len(),
        a1 + b1 == a2 + b2,
    ensures
        a1 == a2,
        b1 == b2,
{
    assert((a1 + b1).len() == (a2 + b2).len());
    assert forall|i: int| 0 <= i < a1.len() implies a1[i] == a2[i] by {
        assert((a1 + b1)[i] == a1[i]);
        assert((a2 + b2)[i] == a2[i]);
    }
    assert(a1 =~= a2);
    assert((a1 + b1).len() == a1.len() + b1.len());
    assert((a2 + b2).len() == a2.len() + b2.len());
    assert(b1.len() == b2.len());
    assert forall|i: int| 0 <= i < b1.len() implies b1[i] == b2[i] by {
        assert(0 <= i < b2.len());
        assert((a1 + b1)[a1.len() + i] == b1[i]);
        assert((a2 + b2)[a2.len() + i] == b2[i]);
    }
    assert(b1 =~= b2);
}

/// Tables whose entries encode identically are identical.
proof fn lemma_entries_bytes_injective(s1: Seq<int>, s2: Seq<int>)
    requires
        s1.len() == s2.len(),
        in_range(s1),
        in_range(s2),
        entries_bytes(s1) == entries_bytes(s2),
    ensures
        s1 == s2,
    decreases s1.len(),
{
    if s1.len() == 0 {
        assert(s1 =~= s2);
    } else {
        lemma_entries_bytes_len(s1.drop_last());
        lemma_entries_bytes_len(s2.drop_last());
        lemma_concat_parts_equal(
            entries_bytes(s1.drop_last()),
            be_bytes(s1.last(), 32),
            entries_bytes(s2.drop_last()),
            be_bytes(s2.last(), 32),
        );
        crate::field::lemma_q_below_pow2_256();
        if s1.last() != s2.last() {
            crate::field::lemma_be_bytes_injective(s1.last(), s2.last(), 32);
        }
        assert(s1.last() == s2.last());
        assert(in_range(s1.drop_last())) by {
            assert(forall|i: int|
                0 <= i < s1.len() - 1 ==> #[trigger] s1.drop_last()[i] == s1[i]);
        }
        assert(in_range(s2.drop_last())) by {
            assert(forall|i: int|
                0 <= i < s2.len() - 1 ==> #[trigger] s2.drop_last()[i] == s2[i]);
        }
        lemma_entries_bytes_injective(s1.drop_last(), s2.drop_last());
        assert forall|i: int| 0 <= i < s1.len() implies s1[i] == s2[i] by {
            if i < s1.len() - 1 {
                assert(s1.drop_last()[i] == s1[i]);
                assert(s2.drop_last()[i] == s2[i]);
            } else {
                assert(s1.last() == s1[i]);
                assert(s2.last() == s2[i]);
            }
        }
        assert(s1 =~= s2);
    }
}

/// No two distinct tables of field values share a transcript encoding: the
/// length prefix pins the length, and the fixed-width canonical entry
/// encodings pin each entry.
pub proof fn lemma_table_bytes_injective(s1: Seq<int>, s2: Seq<int>)
    requires
        in_range(s1),
        in_range(s2),
        s1.len() < pow2(64),
        s2.len() < pow2(64),
        s1 != s2,
    ensures
        table_bytes(s1) != table_bytes(s2),
{
    if table_bytes(s1) == table_bytes(s2) {
        lemma_concat_parts_equal(
            be_bytes(s1.len() as int, 8),
            entries_bytes(s1),
            be_bytes(s2.len() as int, 8),
            entries_bytes(s2),
        );
        if s1.len() != s2.len() {
            crate::field::lemma_be_bytes_injective(s1.len() as int, s2.len() as int, 8);
        }
        assert(s1.len() == s2.len());
        lemma_entries_bytes_injective(s1, s2);
    }
}


/// The table index a string of boolean coordinates selects, most
/// significant bit first.
pub open spec fn bits_index(bits: Seq<int>) -> int
    decreases bits.len(),
{
    if bits.len() == 0 {
        0
    } else {
        bits.first() * pow2((bits.len() - 1) as nat) + bits_index(bits.drop_first())
    }
}

/// Every coordinate is zero or one.
pub open spec fn all_bits(bits: Seq<int>) -> bool {
    forall|i: int| 0 <= i < bits.len() ==> #[trigger] bits[i] == 0 || bits[i] == 1
}

/// A bit string of length `k` indexes into a table of length `2^k`.
proof fn lemma_bits_index_bound(bits: Seq<int>)
    requires
        all_bits(bits),
    ensures
        0 <= bits_index(bits) < pow2(bits.len()),
    decreases bits.len(),
{
    lemma2_to64();
    if bits.len() == 0 {
    } else {
        let rest = bits.drop_first();
        assert(all_bits(rest)) by {
            assert forall|i: int| 0 <= i < rest.len() implies #[trigger] rest[i] == 0 || rest[i]
                == 1 by {
                assert(rest[i] == bits[i + 1]);
            }
        }
        lemma_bits_index_bound(rest);
        lemma_pow2_adds((bits.len() - 1) as nat, 1);
        assert(pow2(bits.len()) == pow2((bits.len() - 1) as nat) * 2);
        assert(bits.first() == 0 || bits.first() == 1);
    }
}

/// At a boolean point the multilinear extension returns exactly the table
/// entry the bits select, most significant bit first: the evaluation table
/// is the polynomial.
pub proof fn lemma_eval_mle_on_hypercube(s: Seq<int>, bits: Seq<int>)
    requires
        in_range(s),
        all_bits(bits),
        s.len() == pow2(bits.len()),
    ensures
        eval_mle(s, bits) == s[bits_index(bits)],
    decreases bits.len(),
{
    lemma2_to64();
    if bits.len() == 0 {
        assert(s.len() == 1);
        assert(fold_all(s, bits) == s);
    } else {
        let b = bits.first();
        let rest = bits.drop_first();
        let k1 = (bits.len() - 1) as nat;
        lemma_pow2_adds(k1, 1);
        assert(s.len() == pow2(k1) * 2);
        assert(s.len() % 2 == 0);
        let h = (s.len() / 2) as int;
        assert(h == pow2(k1));
        assert(all_bits(rest)) by {
            assert forall|i: int| 0 <= i < rest.len() implies #[trigger] rest[i] == 0 || rest[i]
                == 1 by {
                assert(rest[i] == bits[i + 1]);
            }
        }
        lemma_bits_index_bound(rest);
        assert(fold_all(s, bits) == fold_all(fold_once(s, b), rest));
        if b == 0 {
            lemma_fold_once_at_zero(s);
            assert(in_range(s.take(h))) by {
                assert(forall|i: int|
                    0 <= i < h ==> #[trigger] s.take(h)[i] == s[i]);
            }
            lemma_eval_mle_on_hypercube(s.take(h), rest);
            assert(s.take(h)[bits_index(rest)] == s[bits_index(rest)]);
            assert(bits_index(bits) == bits_index(rest));
        } else {
            lemma_fold_once_at_one(s);
            assert(in_range(s.skip(h))) by {
                assert(forall|i: int|
                    0 <= i < h ==> #[trigger] s.skip(h)[i] == s[h + i]);
            }
            lemma_eval_mle_on_hypercube(s.skip(h), rest);
            assert(s.skip(h)[bits_index(rest)] == s[h + bits_index(rest)]);
            assert(bits_index(bits) == h + bits_index(rest));
        }
    }
}

} // verus!
