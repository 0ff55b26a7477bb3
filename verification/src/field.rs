//! The base and scalar prime fields of the curve, modelled by the canonical
//! little-endian byte form of each element.  The heavy field arithmetic is
//! supplied by the `ark` field library behind trusted wrappers; everything
//! stated here is over the numeric value of the bytes.

use vstd::prelude::*;
use ark_serialize::CanonicalDeserialize;
use ark_serialize::CanonicalSerialize;
use crate::bytes::{
    le_nat, pow256, limbs_nat, double_bytes, le_bytes_lt, lemma_le_nat_append, lemma_le_nat_single,
    lemma_le_nat_split, lemma_le_nat_bound, lemma_pow256_pos,
};

verus! {

/// Little-endian bytes of the base-field prime.
pub open spec fn p_modulus_bytes() -> Seq<u8> {
    seq![
        0xabu8, 0xaa, 0xff, 0xff, 0xff, 0xff, 0xfe, 0xb9, 0xff, 0xff, 0x53, 0xb1, 0xfe, 0xff,
        0xab, 0x1e, 0x24, 0xf6, 0xb0, 0xf6, 0xa0, 0xd2, 0x30, 0x67, 0xbf, 0x12, 0x85, 0xf3, 0x84,
        0x4b, 0x77, 0x64, 0xd7, 0xac, 0x4b, 0x43, 0xb6, 0xa7, 0x1b, 0x4b, 0x9a, 0xe6, 0x7f, 0x39,
        0xea, 0x11, 0x01, 0x1a,
    ]
}

/// The base-field prime.
pub open spec fn p_modulus() -> nat {
    le_nat(p_modulus_bytes())
}

/// Little-endian bytes of the scalar-field prime (the subgroup order).
pub open spec fn r_modulus_bytes() -> Seq<u8> {
    seq![
        0x01u8, 0x00, 0x00, 0x00, 0xff, 0xff, 0xff, 0xff, 0xfe, 0x5b, 0xfe, 0xff, 0x02, 0xa4,
        0xbd, 0x53, 0x05, 0xd8, 0xa1, 0x09, 0x08, 0xd8, 0x39, 0x33, 0x48, 0x7d, 0x9d, 0x29, 0x53,
        0xa7, 0xed, 0x73,
    ]
}

/// The subgroup order.
pub open spec fn r_modulus() -> nat {
    le_nat(r_modulus_bytes())
}

/// Little-endian bytes of the endomorphism constant: a non-trivial cubic root
/// of unity in the base field.
pub open spec fn beta_bytes_spec() -> Seq<u8> {
    seq![
        0xfeu8, 0xff, 0xfe, 0xff, 0xff, 0xff, 0x01, 0x2e, 0x02, 0x00, 0x0a, 0x62, 0x13, 0xd8,
        0x17, 0xde, 0x88, 0x96, 0xf8, 0xe6, 0x3b, 0xa9, 0xb3, 0xdd, 0xea, 0x77, 0x0f, 0x6a, 0x07,
        0xc6, 0x69, 0xba, 0x51, 0xce, 0x76, 0xdf, 0x2f, 0x67, 0x19, 0x5f, 0x00, 0x00, 0x00, 0x00,
        0x00, 0x00, 0x00, 0x00,
    ]
}

pub open spec fn beta_value() -> nat {
    le_nat(beta_bytes_spec())
}

/// A canonical base-field element: 48 bytes denoting a value below the prime.
pub open spec fn fq_wf(s: Seq<u8>) -> bool {
    s.len() == 48 && le_nat(s) < p_modulus()
}

/// Product in the base field.
pub open spec fn mul_mod(a: nat, b: nat) -> nat {
    (a * b) % p_modulus()
}

/// Negation in the base field, for representatives below the prime.
pub open spec fn neg_mod(a: nat) -> nat {
    if a == 0 {
        0
    } else {
        (p_modulus() - a) as nat
    }
}

/// The right-hand side of the curve equation y^2 = x^3 + 4 for the base group.
pub open spec fn rhs1(x: nat) -> nat {
    (mul_mod(mul_mod(x, x), x) + 4) % p_modulus()
}

/// The curve equation for the base group.
pub open spec fn on_curve1(x: nat, y: nat) -> bool {
    mul_mod(y, y) == rhs1(x)
}

/// `y` is the lexicographically larger of the two roots `y` and `-y`: as
/// integers below the prime, `y > p - y`, that is `2y > p`.
pub open spec fn lex_largest(y: nat) -> bool {
    2 * y > p_modulus()
}

/// The base-field prime, as bytes.
pub fn p_modulus_le_bytes() -> (r: Vec<u8>)
    ensures
        r@ =~= p_modulus_bytes(),
{
    let r: Vec<u8> = vec![
        0xabu8, 0xaa, 0xff, 0xff, 0xff, 0xff, 0xfe, 0xb9, 0xff, 0xff, 0x53, 0xb1, 0xfe, 0xff,
        0xab, 0x1e, 0x24, 0xf6, 0xb0, 0xf6, 0xa0, 0xd2, 0x30, 0x67, 0xbf, 0x12, 0x85, 0xf3, 0x84,
        0x4b, 0x77, 0x64, 0xd7, 0xac, 0x4b, 0x43, 0xb6, 0xa7, 0x1b, 0x4b, 0x9a, 0xe6, 0x7f, 0x39,
        0xea, 0x11, 0x01, 0x1a,
    ];
    proof {
        assert(r@ =~= p_modulus_bytes());
    }
    r
}

/// The subgroup order, as bytes.
pub fn r_modulus_le_bytes() -> (r: Vec<u8>)
    ensures
        r@ =~= r_modulus_bytes(),
{
    let r: Vec<u8> = vec![
        0x01u8, 0x00, 0x00, 0x00, 0xff, 0xff, 0xff, 0xff, 0xfe, 0x5b, 0xfe, 0xff, 0x02, 0xa4,
        0xbd, 0x53, 0x05, 0xd8, 0xa1, 0x09, 0x08, 0xd8, 0x39, 0x33, 0x48, 0x7d, 0x9d, 0x29, 0x53,
        0xa7, 0xed, 0x73,
    ];
    proof {
        assert(r@ =~= r_modulus_bytes());
    }
    r
}

/// The endomorphism constant, as bytes.
pub fn beta_le_bytes() -> (r: Vec<u8>)
    ensures
        r@ =~= beta_bytes_spec(),
{
    let r: Vec<u8> = vec![
        0xfeu8, 0xff, 0xfe, 0xff, 0xff, 0xff, 0x01, 0x2e, 0x02, 0x00, 0x0a, 0x62, 0x13, 0xd8,
        0x17, 0xde, 0x88, 0x96, 0xf8, 0xe6, 0x3b, 0xa9, 0xb3, 0xdd, 0xea, 0x77, 0x0f, 0x6a, 0x07,
        0xc6, 0x69, 0xba, 0x51, 0xce, 0x76, 0xdf, 0x2f, 0x67, 0x19, 0x5f, 0x00, 0x00, 0x00, 0x00,
        0x00, 0x00, 0x00, 0x00,
    ];
    proof {
        assert(r@ =~= beta_bytes_spec());
    }
    r
}

/// A 48-byte string whose top byte is below the prime's top byte denotes a
/// value below the prime.
pub proof fn lemma_lt_p_by_top(s: Seq<u8>)
    requires
        s.len() == 48,
        (s[47] as nat) < 0x1a,
    ensures
        le_nat(s) < p_modulus(),
{
    lemma_le_nat_split(s, 47);
    lemma_le_nat_split(p_modulus_bytes(), 47);
    lemma_le_nat_bound(s.subrange(0, 47));
    assert(s.subrange(47, 48) =~= seq![s[47]]);
    lemma_le_nat_single(s[47]);
    assert(p_modulus_bytes().subrange(47, 48) =~= seq![p_modulus_bytes()[47]]);
    lemma_le_nat_single(p_modulus_bytes()[47]);
    assert(p_modulus_bytes()[47] == 0x1a);
    lemma_pow256_pos(47);
    assert(le_nat(s.subrange(0, 47)) + pow256(47) * (s[47] as nat) < pow256(47) * 0x1a)
        by (nonlinear_arith)
        requires
            le_nat(s.subrange(0, 47)) < pow256(47),
            (s[47] as nat) < 0x1a,
            pow256(47) >= 1,
    ;
}

/// The base-field prime is odd.
pub proof fn lemma_p_odd()
    ensures
        p_modulus() % 2 == 1,
{
    let s = p_modulus_bytes();
    let t = s.subrange(1, s.len() as int);
    assert(le_nat(s) == 0xab + 256 * le_nat(t));
    assert((0xab + 256 * le_nat(t)) % 2 == 1) by (nonlinear_arith);
}

/// The base-field prime is positive.
pub proof fn lemma_p_pos()
    ensures
        p_modulus() > 0,
{
    let s = p_modulus_bytes();
    let t = s.subrange(1, s.len() as int);
    assert(le_nat(s) == 0xab + 256 * le_nat(t));
}

/// True exactly when the bytes are a canonical base-field element.
pub fn fq_bytes_canonical(b: &Vec<u8>) -> (r: bool)
    ensures
        r == fq_wf(b@),
{
    if b.len() != 48 {
        return false;
    }
    let m = p_modulus_le_bytes();
    le_bytes_lt(b, &m)
}

/// True exactly when `y` is the lexicographically larger square root.
pub fn fq_is_lex_largest(y: &Vec<u8>) -> (r: bool)
    requires
        y@.len() == 48,
    ensures
        r == lex_largest(le_nat(y@)),
{
    let d = double_bytes(y);
    let mut m = p_modulus_le_bytes();
    let ghost m0 = m@;
    m.push(0u8);
    proof {
        assert(m@ =~= m0 + seq![0u8]);
        lemma_le_nat_append(m0, seq![0u8]);
        lemma_le_nat_single(0u8);
    }
    le_bytes_lt(&m, &d)
}

/// A scalar: the canonical 32-byte form of an element of the scalar field.
#[derive(Clone, Debug, PartialEq, Eq)]
pub struct Scalar {
    pub bytes: Vec<u8>,
}

impl Scalar {
    /// Canonical: 32 bytes denoting a value below the subgroup order.
    pub open spec fn wf(&self) -> bool {
        self.bytes@.len() == 32 && le_nat(self.bytes@) < r_modulus()
    }

    /// The numeric value of the scalar.
    pub open spec fn value(&self) -> nat {
        le_nat(self.bytes@)
    }
}

/// Checks and wraps the canonical byte form of a scalar.
pub fn scalar_from_bytes(b: Vec<u8>) -> (r: Option<Scalar>)
    ensures
        r matches Some(s) ==> s.wf() && s.bytes@ =~= b@,
        (r is None) <==> !(b@.len() == 32 && le_nat(b@) < r_modulus()),
{
    if b.len() != 32 {
        return None;
    }
    let m = r_modulus_le_bytes();
    if le_bytes_lt(&b, &m) {
        Some(Scalar { bytes: b })
    } else {
        None
    }
}

/// `1 - v` in the scalar field, where `v` carries a separate sign.
pub open spec fn one_minus_signed(value_is_negative: bool, v: nat) -> nat {
    if value_is_negative {
        (1 + v % r_modulus()) % r_modulus()
    } else {
        ((1 + r_modulus() - v % r_modulus()) as nat) % r_modulus()
    }
}

/// Relies on `ark_bls12_381::Fq` multiplication: the returned bytes are the
/// canonical form of the product of the two elements, reduced mod the prime.
#[verifier::external_body]
pub(crate) fn fq_mul_bytes(a: &Vec<u8>, b: &Vec<u8>) -> (r: Vec<u8>)
    requires
        fq_wf(a@),
        fq_wf(b@),
    ensures
        fq_wf(r@),
        le_nat(r@) == mul_mod(le_nat(a@), le_nat(b@)),
{
    let af = ark_bls12_381::Fq::deserialize_compressed(&a[..]).unwrap();
    let bf = ark_bls12_381::Fq::deserialize_compressed(&b[..]).unwrap();
    let mut out = Vec::new();
    (af * bf).serialize_compressed(&mut out).unwrap();
    out
}

/// Relies on `ark_bls12_381::Fq` negation: the returned bytes are the
/// canonical form of `-a`, that is `p - a` for non-zero `a` and `0` for zero.
#[verifier::external_body]
pub(crate) fn fq_neg_bytes(a: &Vec<u8>) -> (r: Vec<u8>)
    requires
        fq_wf(a@),
    ensures
        fq_wf(r@),
        le_nat(r@) == neg_mod(le_nat(a@)),
{
    let af = ark_bls12_381::Fq::deserialize_compressed(&a[..]).unwrap();
    let mut out = Vec::new();
    (-af).serialize_compressed(&mut out).unwrap();
    out
}

/// Relies on `ark_bls12_381::Fr::from_sign_and_limbs` and field subtraction:
/// the returned bytes are the canonical form of `1 - x` in the scalar field,
/// where `x` is the signed value given by the limbs.
#[verifier::external_body]
pub(crate) fn fr_one_minus_limbs(limbs: &Vec<u64>, value_is_negative: bool) -> (r: Vec<u8>)
    requires
        limbs@.len() <= 4,
    ensures
        r@.len() == 32,
        le_nat(r@) < r_modulus(),
        le_nat(r@) == one_minus_signed(value_is_negative, limbs_nat(limbs@)),
{
    let x = ark_bls12_381::Fr::from_sign_and_limbs(!value_is_negative, &limbs[..]);
    let one = <ark_bls12_381::Fr as ark_ff::One>::one();
    let mut out = Vec::new();
    (one - x).serialize_compressed(&mut out).unwrap();
    out
}

} // verus!
