//! Elements of the BN254 base field, modeled as canonical residues.
//!
//! A `FieldElement` holds the four little-endian 64-bit limbs of the
//! canonical (fully reduced) representative of a residue modulo the field
//! prime `q()`. Arithmetic is delegated to `ark_bn254` / `ark_ff` through
//! trusted wrappers whose contracts state the result as exact modular
//! arithmetic on the limb values.

use ark_bn254::Fq;
use ark_ff::{BigInt, BigInteger, PrimeField};
use vstd::prelude::*;

verus! {

use vstd::arithmetic::power2::pow2;
use vstd::arithmetic::power2::lemma_pow2_adds;
use vstd::arithmetic::power2::lemma2_to64;
use vstd::arithmetic::power2::lemma2_to64_rest;
use vstd::arithmetic::div_mod::lemma_fundamental_div_mod;
use vstd::arithmetic::div_mod::lemma_fundamental_div_mod_converse;
use vstd::arithmetic::div_mod::lemma_div_denominator;
use vstd::arithmetic::div_mod::lemma_div_pos_is_pos;
use vstd::arithmetic::div_mod::lemma_multiply_divide_lt;

/// The big-endian, fixed-width base-256 digits of `v`: `n` bytes, most
/// significant first.
pub open spec fn be_bytes(v: int, n: nat) -> Seq<u8> {
    Seq::new(n, |i: int| ((v / pow2(((n - 1 - i) * 8) as nat) as int) % 256) as u8)
}

/// The integer a big-endian byte string stands for.
pub open spec fn be_val(s: Seq<u8>) -> int
    decreases s.len(),
{
    if s.len() == 0 {
        0
    } else {
        be_val(s.drop_last()) * 256 + s.last()
    }
}

/// Reading the big-endian digits of a small enough value back as an
/// integer recovers the value: the encoding loses nothing.
pub proof fn lemma_be_val_of_be_bytes(v: int, n: nat)
    requires
        0 <= v < pow2(8 * n),
    ensures
        be_val(be_bytes(v, n)) == v,
    decreases n,
{
    lemma2_to64();
    if n == 0 {
        assert(pow2(0) == 1);
        assert(be_bytes(v, 0) =~= Seq::<u8>::empty());
    } else {
        let m = (n - 1) as nat;
        lemma_pow2_adds(8, 8 * m);
        assert(pow2(8 * n) == 256 * pow2(8 * m));
        lemma_div_pos_is_pos(v, 256);
        lemma_multiply_divide_lt(v, 256, pow2(8 * m) as int);
        assert(0 <= v / 256 < pow2(8 * m));
        assert(be_bytes(v, n).drop_last() =~= be_bytes(v / 256, m)) by {
            assert forall|i: int| 0 <= i < m implies be_bytes(v, n).drop_last()[i] == be_bytes(
                v / 256,
                m,
            )[i] by {
                lemma_pow2_adds(8, ((m - 1 - i) * 8) as nat);
                vstd::arithmetic::power2::lemma_pow2_pos(((m - 1 - i) * 8) as nat);
                lemma_div_denominator(v, 256, pow2(((m - 1 - i) * 8) as nat) as int);
                assert((v / 256) / pow2(((m - 1 - i) * 8) as nat) as int == v / pow2(
                    ((n - 1 - i) * 8) as nat,
                ) as int);
            }
        }
        assert(be_bytes(v, n).last() == ((v / pow2(0) as int) % 256) as u8);
        assert(v / 1 == v) by {
            vstd::arithmetic::div_mod::lemma_div_basics(v);
        }
        lemma_be_val_of_be_bytes(v / 256, m);
        lemma_fundamental_div_mod(v, 256);
        assert(be_val(be_bytes(v, n)) == (v / 256) * 256 + v % 256);
    }
}

/// Big-endian encodings of distinct small values differ.
pub proof fn lemma_be_bytes_injective(v1: int, v2: int, n: nat)
    requires
        0 <= v1 < pow2(8 * n),
        0 <= v2 < pow2(8 * n),
        v1 != v2,
    ensures
        be_bytes(v1, n) != be_bytes(v2, n),
{
    if be_bytes(v1, n) == be_bytes(v2, n) {
        lemma_be_val_of_be_bytes(v1, n);
        lemma_be_val_of_be_bytes(v2, n);
    }
}

/// The field prime fits in 32 bytes.
pub proof fn lemma_q_below_pow2_256()
    ensures
        q() < pow2(256),
{
    lemma2_to64_rest();
    lemma_pow2_adds(64, 64);
    assert(pow2(128) == 0x100000000000000000000000000000000int) by (nonlinear_arith)
        requires
            pow2(128) == pow2(64) * pow2(64),
            pow2(64) == 0x10000000000000000int,
    ;
    lemma_pow2_adds(128, 128);
    assert(pow2(256)
        == 0x10000000000000000000000000000000000000000000000000000000000000000int)
        by (nonlinear_arith)
        requires
            pow2(256) == pow2(128) * pow2(128),
            pow2(128) == 0x100000000000000000000000000000000int,
    ;
}

/// The BN254 base-field prime.
pub open spec fn q() -> int {
    21888242871839275222246405745257275088696311157297823662689037894645226208583int
}

/// Addition in the field: the canonical residue of `a + b`.
pub open spec fn fadd(a: int, b: int) -> int {
    (a + b) % q()
}

/// Subtraction in the field: the canonical residue of `a - b`.
pub open spec fn fsub(a: int, b: int) -> int {
    (a - b) % q()
}

/// Multiplication in the field: the canonical residue of `a * b`.
pub open spec fn fmul(a: int, b: int) -> int {
    (a * b) % q()
}

/// An element of the field, stored as the four little-endian 64-bit limbs
/// of its canonical representative.
#[derive(Clone, Copy, Debug)]
pub struct FieldElement {
    limbs: [u64; 4],
}

/// The value of a field element is its canonical representative, an
/// integer in `[0, q())`.
pub open spec fn fe_ok(x: FieldElement) -> bool {
    0 <= x.val() < q()
}

/// Every element of a sequence of field elements is a canonical residue.
pub open spec fn all_fe_ok(s: Seq<FieldElement>) -> bool {
    forall|i: int| 0 <= i < s.len() ==> fe_ok(#[trigger] s[i])
}

/// The integer values of a sequence of field elements.
pub open spec fn vals(s: Seq<FieldElement>) -> Seq<int> {
    s.map_values(|x: FieldElement| x.val())
}

impl FieldElement {
    /// The integer this element stands for: the little-endian base-2^64
    /// combination of its limbs.
    pub closed spec fn val(self) -> int {
        self.limbs[0] + self.limbs[1] * 0x10000000000000000int
            + self.limbs[2] * 0x100000000000000000000000000000000int
            + self.limbs[3] * 0x1000000000000000000000000000000000000000000000000int
    }

    /// The additive identity.
    pub fn zero() -> (r: FieldElement)
        ensures
            r.val() == 0,
            fe_ok(r),
    {
        FieldElement { limbs: [0, 0, 0, 0] }
    }

    /// The multiplicative identity.
    pub fn one() -> (r: FieldElement)
        ensures
            r.val() == 1,
            fe_ok(r),
    {
        FieldElement { limbs: [1, 0, 0, 0] }
    }

    /// The element standing for a small nonnegative integer; `n` is always
    /// below the field prime, so no reduction happens.
    pub fn from_u64(n: u64) -> (r: FieldElement)
        ensures
            r.val() == n,
            fe_ok(r),
    {
        FieldElement { limbs: [n, 0, 0, 0] }
    }

    /// Relies on ark_ff's `PrimeField::from_be_bytes_mod_order` for
    /// `ark_bn254::Fq`: the bytes are read as a big-endian integer and
    /// reduced modulo the field prime.
    #[verifier::external_body]
    pub fn from_be_bytes_mod_order(bytes: &Vec<u8>) -> (r: FieldElement)
        ensures
            r.val() == be_val(bytes@) % q(),
            fe_ok(r),
    {
        FieldElement { limbs: Fq::from_be_bytes_mod_order(bytes.as_slice()).into_bigint().0 }
    }

    /// Relies on ark_ff's `Add` for `ark_bn254::Fq`: addition modulo the
    /// field prime, on canonical representatives.
    #[verifier::external_body]
    pub fn add(&self, other: &FieldElement) -> (r: FieldElement)
        requires
            fe_ok(*self),
            fe_ok(*other),
        ensures
            r.val() == fadd(self.val(), other.val()),
            fe_ok(r),
    {
        let x = Fq::from_bigint(BigInt::new(self.limbs)).unwrap();
        let y = Fq::from_bigint(BigInt::new(other.limbs)).unwrap();
        FieldElement { limbs: (x + y).into_bigint().0 }
    }

    /// Relies on ark_ff's `Sub` for `ark_bn254::Fq`: subtraction modulo the
    /// field prime, on canonical representatives.
    #[verifier::external_body]
    pub fn sub(&self, other: &FieldElement) -> (r: FieldElement)
        requires
            fe_ok(*self),
            fe_ok(*other),
        ensures
            r.val() == fsub(self.val(), other.val()),
            fe_ok(r),
    {
        let x = Fq::from_bigint(BigInt::new(self.limbs)).unwrap();
        let y = Fq::from_bigint(BigInt::new(other.limbs)).unwrap();
        FieldElement { limbs: (x - y).into_bigint().0 }
    }

    /// Relies on ark_ff's `Mul` for `ark_bn254::Fq`: multiplication modulo
    /// the field prime, on canonical representatives.
    #[verifier::external_body]
    pub fn mul(&self, other: &FieldElement) -> (r: FieldElement)
        requires
            fe_ok(*self),
            fe_ok(*other),
        ensures
            r.val() == fmul(self.val(), other.val()),
            fe_ok(r),
    {
        let x = Fq::from_bigint(BigInt::new(self.limbs)).unwrap();
        let y = Fq::from_bigint(BigInt::new(other.limbs)).unwrap();
        FieldElement { limbs: (x * y).into_bigint().0 }
    }
}

/// The canonical byte encoding of a field element: 32 bytes, big-endian.
/// Relies on ark_ff's `BigInteger::to_bytes_be`, which serializes all four
/// limbs of the canonical representative, most significant byte first.
#[allow(non_snake_case)]
#[verifier::external_body]
pub fn F_to_bytes(field_element: FieldElement) -> (r: Vec<u8>)
    requires
        fe_ok(field_element),
    ensures
        r@ == be_bytes(field_element.val(), 32),
{
    BigInt::new(field_element.limbs).to_bytes_be()
}

impl PartialEq for FieldElement {
    fn eq(&self, other: &FieldElement) -> (r: bool) {
        proof {
            lemma_limbs_unique(*self, *other);
        }
        self.limbs[0] == other.limbs[0] && self.limbs[1] == other.limbs[1]
            && self.limbs[2] == other.limbs[2] && self.limbs[3] == other.limbs[3]
    }
}

impl Eq for FieldElement {}

impl vstd::std_specs::cmp::PartialEqSpecImpl for FieldElement {
    open spec fn obeys_eq_spec() -> bool {
        true
    }

    open spec fn eq_spec(&self, other: &FieldElement) -> bool {
        self.val() == other.val()
    }
}

/// The limb representation of a value is unique: equal values have equal
/// limbs.
proof fn lemma_limbs_unique(a: FieldElement, b: FieldElement)
    ensures
        a.val() == b.val() ==> (a.limbs[0] == b.limbs[0] && a.limbs[1] == b.limbs[1]
            && a.limbs[2] == b.limbs[2] && a.limbs[3] == b.limbs[3]),
{
    if a.val() == b.val() {
        let base = 0x10000000000000000int;
        let a1 = a.limbs[1] + a.limbs[2] * base + a.limbs[3] * base * base;
        let b1 = b.limbs[1] + b.limbs[2] * base + b.limbs[3] * base * base;
        assert(a.val() == a.limbs[0] + base * a1) by (nonlinear_arith)
            requires
                a1 == a.limbs[1] + a.limbs[2] * base + a.limbs[3] * base * base,
                base == 0x10000000000000000int,
                a.val() == a.limbs[0] + a.limbs[1] * 0x10000000000000000int
                    + a.limbs[2] * 0x100000000000000000000000000000000int
                    + a.limbs[3] * 0x1000000000000000000000000000000000000000000000000int,
        ;
        assert(b.val() == b.limbs[0] + base * b1) by (nonlinear_arith)
            requires
                b1 == b.limbs[1] + b.limbs[2] * base + b.limbs[3] * base * base,
                base == 0x10000000000000000int,
                b.val() == b.limbs[0] + b.limbs[1] * 0x10000000000000000int
                    + b.limbs[2] * 0x100000000000000000000000000000000int
                    + b.limbs[3] * 0x1000000000000000000000000000000000000000000000000int,
        ;
        assert(0 <= a1 && 0 <= b1) by (nonlinear_arith)
            requires
                a1 == a.limbs[1] + a.limbs[2] * base + a.limbs[3] * base * base,
                b1 == b.limbs[1] + b.limbs[2] * base + b.limbs[3] * base * base,
                base == 0x10000000000000000int,
                0 <= a.limbs[1] && 0 <= a.limbs[2] && 0 <= a.limbs[3],
                0 <= b.limbs[1] && 0 <= b.limbs[2] && 0 <= b.limbs[3],
        ;
        lemma_fundamental_div_mod_converse(a.val(), base, a1, a.limbs[0] as int);
        lemma_fundamental_div_mod_converse(b.val(), base, b1, b.limbs[0] as int);
        assert(a.limbs[0] == b.limbs[0]);
        assert(a1 == b1);
        let a2 = a.limbs[2] + a.limbs[3] * base;
        let b2 = b.limbs[2] + b.limbs[3] * base;
        assert(a1 == a.limbs[1] + base * a2 && b1 == b.limbs[1] + base * b2)
            by (nonlinear_arith)
            requires
                a1 == a.limbs[1] + a.limbs[2] * base + a.limbs[3] * base * base,
                b1 == b.limbs[1] + b.limbs[2] * base + b.limbs[3] * base * base,
                a2 == a.limbs[2] + a.limbs[3] * base,
                b2 == b.limbs[2] + b.limbs[3] * base,
        ;
        assert(0 <= a2 && 0 <= b2);
        lemma_fundamental_div_mod_converse(a1, base, a2, a.limbs[1] as int);
        lemma_fundamental_div_mod_converse(b1, base, b2, b.limbs[1] as int);
        assert(a.limbs[1] == b.limbs[1]);
        assert(a2 == b2);
        lemma_fundamental_div_mod_converse(a2, base, a.limbs[3] as int, a.limbs[2] as int);
        lemma_fundamental_div_mod_converse(b2, base, b.limbs[3] as int, b.limbs[2] as int);
        assert(a.limbs[2] == b.limbs[2]);
        assert(a.limbs[3] == b.limbs[3]);
    }
}

} // verus!

