//! The base group: its affine points, the canonical wire codec, the
//! endomorphism-based subgroup membership test, cofactor clearing, and the
//! delegated multiplication operations.

use vstd::prelude::*;
use ark_ec::AffineRepr;
use ark_ec::CurveGroup;
use ark_serialize::CanonicalDeserialize;
use ark_serialize::CanonicalSerialize;
use crate::Error;
use crate::bytes::{
    le_nat, pow256, le_bytes_of, limbs_nat, copy_bytes, copy_range, bytes_eq, bytes_all_zero,
    le_bytes_lt, limbs_to_le_bytes, lemma_le_nat_single, lemma_le_nat_split, lemma_le_nat_bound,
    lemma_le_nat_zero, lemma_le_nat_inj, lemma_le_bytes_of_len, lemma_le_bytes_of_le_nat,
    lemma_le_nat_of_le_bytes, lemma_pow256_pos,
};
use crate::field::{
    p_modulus, p_modulus_bytes, p_modulus_le_bytes, beta_value, beta_bytes_spec,
    beta_le_bytes, fq_wf, mul_mod, neg_mod, rhs1, on_curve1, lex_largest, fq_is_lex_largest,
    lemma_lt_p_by_top, lemma_p_odd, lemma_p_pos, Scalar, one_minus_signed, fq_mul_bytes, fq_neg_bytes,
    fr_one_minus_limbs,
};
use crate::pairing::HostFunctions;

verus! {

/// An affine point of the base group, coordinates in canonical little-endian
/// byte form; the identity is a separate state carried by `infinity`, whose
/// canonical coordinate bytes are all zero.
#[derive(Clone, Debug, PartialEq, Eq)]
pub struct G1Affine {
    pub infinity: bool,
    pub x: Vec<u8>,
    pub y: Vec<u8>,
}

/// The mathematical value of a base-group point.
pub ghost struct G1Model {
    pub infinity: bool,
    pub x: nat,
    pub y: nat,
}

impl View for G1Affine {
    type V = G1Model;

    open spec fn view(&self) -> G1Model {
        G1Model { infinity: self.infinity, x: le_nat(self.x@), y: le_nat(self.y@) }
    }
}

pub open spec fn g1_model_wf(m: G1Model) -> bool {
    &&& m.x < p_modulus()
    &&& m.y < p_modulus()
    &&& (m.infinity ==> m.x == 0 && m.y == 0)
}

/// On the curve, or the identity.
pub open spec fn g1_model_on_curve(m: G1Model) -> bool {
    m.infinity || on_curve1(m.x, m.y)
}

impl G1Affine {
    /// Canonical representation: both coordinates canonical field bytes, and
    /// all-zero coordinates for the identity.
    pub open spec fn wf(&self) -> bool {
        &&& fq_wf(self.x@)
        &&& fq_wf(self.y@)
        &&& (self.infinity ==> le_nat(self.x@) == 0 && le_nat(self.y@) == 0)
    }
}

/// What scalar multiplication by the magnitude of the curve's loop parameter
/// returns; supplied by the curve-arithmetic library, a function of the point
/// alone.
pub uninterp spec fn mul_by_x_of(m: G1Model) -> G1Model;

/// The smaller square root of a base-field element, when one exists; supplied
/// by the curve-arithmetic library, a function of its argument alone.
pub uninterp spec fn sqrt_min_of(rhs: nat) -> Option<nat>;

/// The root that decoding with a given sign choice selects.
pub open spec fn sqrt_sel(rhs: nat, greatest: bool) -> Option<nat> {
    match sqrt_min_of(rhs) {
        Option::None => Option::None,
        Option::Some(y0) => Option::Some(
            if greatest && y0 != 0 {
                (p_modulus() - y0) as nat
            } else {
                y0
            },
        ),
    }
}

/// Point negation on values.
pub open spec fn g1_neg_model(m: G1Model) -> G1Model {
    if m.infinity {
        m
    } else {
        G1Model { y: neg_mod(m.y), ..m }
    }
}

/// The curve endomorphism on values: x is multiplied by the cubic root of
/// unity, y is kept.
pub open spec fn g1_endo_model(m: G1Model) -> G1Model {
    if m.infinity {
        m
    } else {
        G1Model { x: mul_mod(beta_value(), m.x), ..m }
    }
}

/// The endomorphism-based subgroup membership test, on values: with `u` the
/// loop parameter magnitude, a non-identity point fixed by `u` is rejected
/// outright; otherwise membership is equivalent to `-(u*(u*P))` meeting the
/// endomorphism of `P`.
pub open spec fn in_subgroup1(m: G1Model) -> bool {
    let up = mul_by_x_of(m);
    if up == m && !m.infinity {
        false
    } else {
        g1_neg_model(mul_by_x_of(up)) == g1_endo_model(m)
    }
}

/// Relies on `ark_ec::short_weierstrass::Affine::get_point_from_x_unchecked`
/// for the BLS12-381 base curve: returns the on-curve y for this x whose sign
/// class matches `greatest`, or `None` when `x^3 + 4` has no square root.  A
/// square in the prime field has at most the two roots `y` and `p - y`.
#[verifier::external_body]
fn g1_y_from_x(x: &Vec<u8>, greatest: bool) -> (r: Option<Vec<u8>>)
    requires
        fq_wf(x@),
    ensures
        r matches Some(y) ==> {
            &&& fq_wf(y@)
            &&& Option::Some(le_nat(y@)) == sqrt_sel(rhs1(le_nat(x@)), greatest)
            &&& mul_mod(le_nat(y@), le_nat(y@)) == rhs1(le_nat(x@))
            &&& (le_nat(y@) != 0 ==> lex_largest(le_nat(y@)) == greatest)
            &&& forall|z: nat|
                z < p_modulus() && mul_mod(z, z) == rhs1(le_nat(x@)) ==> (z == le_nat(y@) || z
                    + le_nat(y@) == p_modulus())
        },
        r is None ==> {
            &&& sqrt_min_of(rhs1(le_nat(x@))) is None
            &&& forall|z: nat| z < p_modulus() ==> mul_mod(z, z) != rhs1(le_nat(x@))
        },
{
    let xf = ark_bls12_381::Fq::deserialize_compressed(&x[..]).unwrap();
    match ark_bls12_381::G1Affine::get_point_from_x_unchecked(xf, greatest) {
        None => None,
        Some(p) => {
            let mut out = Vec::new();
            p.y.serialize_compressed(&mut out).unwrap();
            Some(out)
        },
    }
}

/// Relies on `ark_ec::short_weierstrass::Affine::is_on_curve` for the
/// BLS12-381 base curve: whether `y^2 = x^3 + 4`.
#[verifier::external_body]
fn g1_on_curve_bytes(x: &Vec<u8>, y: &Vec<u8>) -> (r: bool)
    requires
        fq_wf(x@),
        fq_wf(y@),
    ensures
        r == on_curve1(le_nat(x@), le_nat(y@)),
{
    let xf = ark_bls12_381::Fq::deserialize_compressed(&x[..]).unwrap();
    let yf = ark_bls12_381::Fq::deserialize_compressed(&y[..]).unwrap();
    ark_bls12_381::G1Affine::new_unchecked(xf, yf).is_on_curve()
}

/// Relies on `ark_ec` scalar multiplication (`mul_bigint`) by the magnitude
/// of the BLS12-381 loop parameter, normalized back to affine form; the
/// result is the function of the point named `mul_by_x_of`.
#[verifier::external_body]
fn g1_mul_by_x_point(p: &G1Affine) -> (r: G1Affine)
    requires
        p.wf(),
    ensures
        r.wf(),
        r@ == mul_by_x_of(p@),
{
    let a = if p.infinity { ark_bls12_381::G1Affine::identity() } else {
        let xf = ark_bls12_381::Fq::deserialize_compressed(&p.x[..]).unwrap();
        let yf = ark_bls12_381::Fq::deserialize_compressed(&p.y[..]).unwrap();
        ark_bls12_381::G1Affine::new_unchecked(xf, yf)
    };
    let m = a.mul_bigint(&[0xd201000000010000u64]).into_affine();
    let mut rx = Vec::new();
    let mut ry = Vec::new();
    if m.infinity { rx.resize(48, 0u8); ry.resize(48, 0u8); } else {
        m.x.serialize_compressed(&mut rx).unwrap();
        m.y.serialize_compressed(&mut ry).unwrap();
    }
    G1Affine { infinity: m.infinity, x: rx, y: ry }
}

/// Whether the point satisfies the curve equation (the identity counts).
pub fn g1_is_on_curve(p: &G1Affine) -> (r: bool)
    requires
        p.wf(),
    ensures
        r == g1_model_on_curve(p@),
{
    if p.infinity {
        true
    } else {
        g1_on_curve_bytes(&p.x, &p.y)
    }
}

/// Point equality of canonical representations.
pub fn g1_eq(a: &G1Affine, b: &G1Affine) -> (r: bool)
    requires
        a.wf(),
        b.wf(),
    ensures
        r == (a@ == b@),
{
    if a.infinity != b.infinity {
        return false;
    }
    if a.infinity {
        return true;
    }
    let xe = bytes_eq(&a.x, &b.x);
    let ye = bytes_eq(&a.y, &b.y);
    proof {
        if !xe && le_nat(a.x@) == le_nat(b.x@) {
            lemma_le_nat_inj(a.x@, b.x@);
        }
        if !ye && le_nat(a.y@) == le_nat(b.y@) {
            lemma_le_nat_inj(a.y@, b.y@);
        }
    }
    xe && ye
}

/// Point negation of the canonical representation.
pub fn g1_neg(p: &G1Affine) -> (r: G1Affine)
    requires
        p.wf(),
    ensures
        r.wf(),
        r@ == g1_neg_model(p@),
{
    if p.infinity {
        G1Affine { infinity: true, x: copy_bytes(&p.x), y: copy_bytes(&p.y) }
    } else {
        G1Affine { infinity: false, x: copy_bytes(&p.x), y: fq_neg_bytes(&p.y) }
    }
}

/// The curve endomorphism: `(x, y)` to `(beta * x, y)` with `beta` a fixed
/// non-trivial cubic root of unity of the base field.
pub fn endomorphism(p: &G1Affine) -> (r: G1Affine)
    requires
        p.wf(),
    ensures
        r.wf(),
        r@ == g1_endo_model(p@),
{
    if p.infinity {
        return G1Affine { infinity: true, x: copy_bytes(&p.x), y: copy_bytes(&p.y) };
    }
    let beta = beta_le_bytes();
    proof {
        lemma_lt_p_by_top(beta_bytes_spec());
    }
    let x2 = fq_mul_bytes(&beta, &p.x);
    G1Affine { infinity: false, x: x2, y: copy_bytes(&p.y) }
}

/// The effective cofactor `1 - x` of the signed loop parameter, as a scalar.
pub fn one_minus_x(x_is_negative: bool, x_value: &Vec<u64>) -> (r: Scalar)
    requires
        x_value@.len() <= 4,
    ensures
        r.wf(),
        r.value() == one_minus_signed(x_is_negative, limbs_nat(x_value@)),
{
    let b = fr_one_minus_limbs(x_value, x_is_negative);
    Scalar { bytes: b }
}

/// The base-group instance of the curve parameter set: the coefficients,
/// generator, cofactor data, and the group operations of this layer.
pub struct Parameters;

/// The low limb of the base-group cofactor `(x - 1)^2 / 3`.
pub const COFACTOR_LIMB_0: u64 = 0x8c00aaab0000aaab;

/// The high limb of the base-group cofactor.
pub const COFACTOR_LIMB_1: u64 = 0x396c8c005555e156;

/// The base-group cofactor as a limb sequence, least significant first.
pub fn cofactor() -> (r: Vec<u64>)
    ensures
        r@ =~= seq![COFACTOR_LIMB_0, COFACTOR_LIMB_1],
{
    let mut r: Vec<u64> = Vec::new();
    r.push(COFACTOR_LIMB_0);
    r.push(COFACTOR_LIMB_1);
    proof {
        assert(r@ =~= seq![COFACTOR_LIMB_0, COFACTOR_LIMB_1]);
    }
    r
}

/// Little-endian bytes of the cofactor's inverse mod the subgroup order.
pub open spec fn cofactor_inv_bytes_spec() -> Seq<u8> {
    seq![
        0xfbu8, 0xff, 0x05, 0x00, 0x02, 0x00, 0x00, 0xec, 0x09, 0x48, 0xf1, 0x3b, 0xf7, 0x8f,
        0x7c, 0xd0, 0x21, 0xbb, 0x8f, 0x45, 0x31, 0x0b, 0x4f, 0xe3, 0x44, 0x7d, 0x9d, 0x29, 0x53,
        0xa7, 0xed, 0x73,
    ]
}

/// The inverse of the cofactor mod the subgroup order, in canonical bytes;
/// with the cofactor it satisfies `cofactor * cofactor_inv = 1 (mod r)`.
pub fn cofactor_inv_le_bytes() -> (r: Vec<u8>)
    ensures
        r@ =~= cofactor_inv_bytes_spec(),
{
    let r: Vec<u8> = vec![
        0xfbu8, 0xff, 0x05, 0x00, 0x02, 0x00, 0x00, 0xec, 0x09, 0x48, 0xf1, 0x3b, 0xf7, 0x8f,
        0x7c, 0xd0, 0x21, 0xbb, 0x8f, 0x45, 0x31, 0x0b, 0x4f, 0xe3, 0x44, 0x7d, 0x9d, 0x29, 0x53,
        0xa7, 0xed, 0x73,
    ];
    proof {
        assert(r@ =~= cofactor_inv_bytes_spec());
    }
    r
}

/// Little-endian bytes of the generator's x coordinate.
pub open spec fn g1_generator_x_bytes() -> Seq<u8> {
    seq![
        0xbbu8, 0xc6, 0x22, 0xdb, 0x0a, 0xf0, 0x3a, 0xfb, 0xef, 0x1a, 0x7a, 0xf9, 0x3f, 0xe8,
        0x55, 0x6c, 0x58, 0xac, 0x1b, 0x17, 0x3f, 0x3a, 0x4e, 0xa1, 0x05, 0xb9, 0x74, 0x97, 0x4f,
        0x8c, 0x68, 0xc3, 0x0f, 0xac, 0xa9, 0x4f, 0x8c, 0x63, 0x95, 0x26, 0x94, 0xd7, 0x97, 0x31,
        0xa7, 0xd3, 0xf1, 0x17,
    ]
}

/// Little-endian bytes of the generator's y coordinate.
pub open spec fn g1_generator_y_bytes() -> Seq<u8> {
    seq![
        0xe1u8, 0xe7, 0xc5, 0x46, 0x29, 0x23, 0xaa, 0x0c, 0xe4, 0x8a, 0x88, 0xa2, 0x44, 0xc7,
        0x3c, 0xd0, 0xed, 0xb3, 0x04, 0x2c, 0xcb, 0x18, 0xdb, 0x00, 0xf6, 0x0a, 0xd0, 0xd5, 0x95,
        0xe0, 0xf5, 0xfc, 0xe4, 0x8a, 0x1d, 0x74, 0xed, 0x30, 0x9e, 0xa0, 0xf1, 0xa0, 0xaa, 0xe3,
        0x81, 0xf4, 0xb3, 0x08,
    ]
}

/// The fixed affine generator of the base group.
pub fn g1_generator() -> (r: G1Affine)
    ensures
        r.wf(),
        !r@.infinity,
        r@.x == le_nat(g1_generator_x_bytes()),
        r@.y == le_nat(g1_generator_y_bytes()),
{
    let x: Vec<u8> = vec![
        0xbbu8, 0xc6, 0x22, 0xdb, 0x0a, 0xf0, 0x3a, 0xfb, 0xef, 0x1a, 0x7a, 0xf9, 0x3f, 0xe8,
        0x55, 0x6c, 0x58, 0xac, 0x1b, 0x17, 0x3f, 0x3a, 0x4e, 0xa1, 0x05, 0xb9, 0x74, 0x97, 0x4f,
        0x8c, 0x68, 0xc3, 0x0f, 0xac, 0xa9, 0x4f, 0x8c, 0x63, 0x95, 0x26, 0x94, 0xd7, 0x97, 0x31,
        0xa7, 0xd3, 0xf1, 0x17,
    ];
    let y: Vec<u8> = vec![
        0xe1u8, 0xe7, 0xc5, 0x46, 0x29, 0x23, 0xaa, 0x0c, 0xe4, 0x8a, 0x88, 0xa2, 0x44, 0xc7,
        0x3c, 0xd0, 0xed, 0xb3, 0x04, 0x2c, 0xcb, 0x18, 0xdb, 0x00, 0xf6, 0x0a, 0xd0, 0xd5, 0x95,
        0xe0, 0xf5, 0xfc, 0xe4, 0x8a, 0x1d, 0x74, 0xed, 0x30, 0x9e, 0xa0, 0xf1, 0xa0, 0xaa, 0xe3,
        0x81, 0xf4, 0xb3, 0x08,
    ];
    proof {
        assert(x@ =~= g1_generator_x_bytes());
        assert(y@ =~= g1_generator_y_bytes());
        lemma_lt_p_by_top(g1_generator_x_bytes());
        lemma_lt_p_by_top(g1_generator_y_bytes());
    }
    G1Affine { infinity: false, x, y }
}

impl Parameters {
    /// The curve's `a` coefficient is zero, so multiplying by it gives zero.
    pub fn mul_by_a(_x: &Vec<u8>) -> (r: Vec<u8>)
        ensures
            r@.len() == 48,
            le_nat(r@) == 0,
    {
        zero48()
    }

    /// The endomorphism-based subgroup membership test, for points already
    /// known to lie on the curve (or be the identity).
    pub fn is_in_correct_subgroup_assuming_on_curve(p: &G1Affine) -> (r: bool)
        requires
            p.wf(),
        ensures
            r == in_subgroup1(p@),
    {
        let x_times_p = g1_mul_by_x_point(p);
        if g1_eq(&x_times_p, p) && !p.infinity {
            return false;
        }
        let minus_x_squared_times_p = g1_neg(&g1_mul_by_x_point(&x_times_p));
        let endomorphism_p = endomorphism(p);
        g1_eq(&minus_x_squared_times_p, &endomorphism_p)
    }
}

/// 48 zero bytes.
pub fn zero48() -> (r: Vec<u8>)
    ensures
        r@.len() == 48,
        le_nat(r@) == 0,
        r@ =~= le_bytes_of(0, 48),
{
    let mut r: Vec<u8> = Vec::new();
    let mut i: usize = 0;
    while i < 48
        invariant
            i <= 48,
            r@.len() == i,
            forall|j: int| 0 <= j < i ==> r@[j] == 0u8,
        decreases 48 - i,
    {
        r.push(0u8);
        i = i + 1;
    }
    proof {
        lemma_le_nat_zero(r@);
        lemma_le_bytes_zero(48);
        assert(r@ =~= le_bytes_of(0, 48));
    }
    r
}

/// The three flag bits, placed in the most-significant bits of the last byte
/// of the x segment: compression, infinity, and sign.
pub open spec fn flags_byte(compress: bool, infinity: bool, sign: bool) -> u8 {
    ((if compress {
        0x80u8
    } else {
        0u8
    }) | (if infinity {
        0x40u8
    } else {
        0u8
    })) | (if sign {
        0x20u8
    } else {
        0u8
    })
}

/// The canonical wire encoding of a base-group point: the x coordinate (zero
/// for the identity), flags in the top bits of its last byte, and for the
/// uncompressed form the y coordinate appended.
pub open spec fn encode1_spec(m: G1Model, compress: bool) -> Seq<u8> {
    let xv = if m.infinity {
        0
    } else {
        m.x
    };
    let yv = if m.infinity {
        0
    } else {
        m.y
    };
    let sign = compress && !m.infinity && lex_largest(m.y);
    let xb = le_bytes_of(xv, 48);
    let xb2 = xb.update(47, xb[47] | flags_byte(compress, m.infinity, sign));
    if compress {
        xb2
    } else {
        xb2 + le_bytes_of(yv, 48)
    }
}

/// The x segment with the flag bits masked out.
pub open spec fn masked_x_bytes(b: Seq<u8>) -> Seq<u8> {
    b.subrange(0, 48).update(47, b[47] & 0x1f)
}

/// The encoding with its sign bit toggled.
pub open spec fn flip_sign(b: Seq<u8>) -> Seq<u8> {
    b.update(47, b[47] ^ 0x20)
}

/// Structural decoding of a byte string: the inverse of `encode1_spec`, with
/// every malformed input mapped to its error.
pub open spec fn decode1_struct(b: Seq<u8>, compress: bool) -> Result<
    G1Model,
    Error,
> {
    if b.len() != (if compress {
        48int
    } else {
        96int
    }) {
        Result::Err(Error::MalformedEncoding)
    } else {
        let fb = b[47];
        let f_comp = (fb & 0x80) == 0x80;
        let f_inf = (fb & 0x40) == 0x40;
        let f_sign = (fb & 0x20) == 0x20;
        if f_comp != compress {
            Result::Err(Error::MalformedEncoding)
        } else if f_inf {
            if f_sign || le_nat(masked_x_bytes(b)) != 0 || (!compress && le_nat(
                b.subrange(48, 96),
            ) != 0) {
                Result::Err(Error::MalformedEncoding)
            } else {
                Result::Ok(G1Model { infinity: true, x: 0, y: 0 })
            }
        } else {
            let x = le_nat(masked_x_bytes(b));
            if x >= p_modulus() {
                Result::Err(Error::MalformedEncoding)
            } else if compress {
                match sqrt_sel(rhs1(x), f_sign) {
                    Option::None => Result::Err(Error::NotOnCurve),
                    Option::Some(y) => Result::Ok(G1Model { infinity: false, x, y }),
                }
            } else {
                if f_sign {
                    Result::Err(Error::MalformedEncoding)
                } else {
                    let y = le_nat(b.subrange(48, 96));
                    if y >= p_modulus() {
                        Result::Err(Error::MalformedEncoding)
                    } else if !on_curve1(x, y) {
                        Result::Err(Error::NotOnCurve)
                    } else {
                        Result::Ok(G1Model { infinity: false, x, y })
                    }
                }
            }
        }
    }
}

/// What decoding means: structural decoding, then the subgroup membership
/// test when validation is requested.
pub open spec fn decode1_spec(b: Seq<u8>, compress: bool, validate: bool) -> Result<
    G1Model,
    Error,
> {
    match decode1_struct(b, compress) {
        Result::Ok(m) => if validate && !in_subgroup1(m) {
            Result::Err(Error::NotInSubgroup)
        } else {
            Result::Ok(m)
        },
        Result::Err(e) => Result::Err(e),
    }
}

/// Setting flags in a byte below 0x20 is reversible, and each flag reads
/// back; toggling the sign bit only flips the sign flag.
pub proof fn lemma_flag_bits(x: u8, compress: bool, infinity: bool, sign: bool)
    requires
        x < 0x20,
    ensures
        ({
            let m = x | flags_byte(compress, infinity, sign);
            &&& ((m & 0x80) == 0x80) == compress
            &&& ((m & 0x40) == 0x40) == infinity
            &&& ((m & 0x20) == 0x20) == sign
            &&& (m & 0x1f) == x
            &&& (m ^ 0x20) == (x | flags_byte(compress, infinity, !sign))
        }),
{
    let c: u8 = if compress {
        0x80u8
    } else {
        0u8
    };
    let i: u8 = if infinity {
        0x40u8
    } else {
        0u8
    };
    let s: u8 = if sign {
        0x20u8
    } else {
        0u8
    };
    let s2: u8 = if !sign {
        0x20u8
    } else {
        0u8
    };
    assert(flags_byte(compress, infinity, sign) == (c | i) | s);
    assert(flags_byte(compress, infinity, !sign) == (c | i) | s2);
    assert((((x | ((c | i) | s)) & 0x80) == 0x80) == (c == 0x80) && (((x | ((c | i) | s)) & 0x40)
        == 0x40) == (i == 0x40) && (((x | ((c | i) | s)) & 0x20) == 0x20) == (s == 0x20) && ((x | ((
    c | i) | s)) & 0x1f) == x && ((x | ((c | i) | s)) ^ 0x20) == (x | ((c | i) | s2)))
        by (bit_vector)
        requires
            x < 0x20,
            c == 0x80 || c == 0,
            i == 0x40 || i == 0,
            s == 0x20 || s == 0,
            s2 == 0x20 || s2 == 0,
            (s == 0x20) == (s2 == 0),
    ;
}

/// A canonical field element's last byte leaves the three flag bits clear.
pub proof fn lemma_byte47_low(s: Seq<u8>)
    requires
        s.len() == 48,
        le_nat(s) < p_modulus(),
    ensures
        s[47] < 0x20,
{
    lemma_le_nat_split(s, 47);
    assert(s.subrange(47, 48) =~= seq![s[47]]);
    lemma_le_nat_single(s[47]);
    lemma_le_nat_split(p_modulus_bytes(), 47);
    lemma_le_nat_bound(p_modulus_bytes().subrange(0, 47));
    assert(p_modulus_bytes().subrange(47, 48) =~= seq![p_modulus_bytes()[47]]);
    lemma_le_nat_single(p_modulus_bytes()[47]);
    assert(p_modulus_bytes()[47] == 0x1a);
    lemma_pow256_pos(47);
    assert(p_modulus() < pow256(47) * 0x1b) by (nonlinear_arith)
        requires
            p_modulus() == le_nat(p_modulus_bytes().subrange(0, 47)) + pow256(47) * 0x1a,
            le_nat(p_modulus_bytes().subrange(0, 47)) < pow256(47),
    ;
    if (s[47] as nat) >= 0x1b {
        assert(pow256(47) * (s[47] as nat) >= pow256(47) * 0x1b) by (nonlinear_arith)
            requires
                (s[47] as nat) >= 0x1b,
                pow256(47) >= 1,
        ;
        assert(false);
    }
}

/// The pieces of an encoded point: lengths, flag readback, and that masking
/// recovers the coordinate bytes exactly.
pub proof fn lemma_encode_parts(m: G1Model, compress: bool)
    requires
        g1_model_wf(m),
    ensures
        ({
            let b = encode1_spec(m, compress);
            let xv = if m.infinity {
                0
            } else {
                m.x
            };
            let yv = if m.infinity {
                0
            } else {
                m.y
            };
            let sign = compress && !m.infinity && lex_largest(m.y);
            &&& b.len() == (if compress {
                48int
            } else {
                96int
            })
            &&& ((b[47] & 0x80) == 0x80) == compress
            &&& ((b[47] & 0x40) == 0x40) == m.infinity
            &&& ((b[47] & 0x20) == 0x20) == sign
            &&& masked_x_bytes(b) =~= le_bytes_of(xv, 48)
            &&& le_nat(masked_x_bytes(b)) == xv
            &&& (!compress ==> b.subrange(48, 96) =~= le_bytes_of(yv, 48) && le_nat(
                b.subrange(48, 96),
            ) == yv)
            &&& (b[47] ^ 0x20) == (le_bytes_of(xv, 48)[47] | flags_byte(
                compress,
                m.infinity,
                !sign,
            ))
        }),
{
    let b = encode1_spec(m, compress);
    let xv = if m.infinity {
        0nat
    } else {
        m.x
    };
    let yv = if m.infinity {
        0nat
    } else {
        m.y
    };
    let sign = compress && !m.infinity && lex_largest(m.y);
    let xb = le_bytes_of(xv, 48);
    lemma_le_bytes_of_len(xv, 48);
    lemma_le_bytes_of_len(yv, 48);
    lemma_le_nat_bound(p_modulus_bytes());
    assert(xv < pow256(48));
    lemma_le_nat_of_le_bytes(xv, 48);
    lemma_byte47_low(xb);
    lemma_flag_bits(xb[47], compress, m.infinity, sign);
    let f = flags_byte(compress, m.infinity, sign);
    let xb2 = xb.update(47, xb[47] | f);
    assert(b[47] == xb[47] | f);
    assert(b.subrange(0, 48) =~= xb2);
    assert(masked_x_bytes(b) =~= xb2.update(47, b[47] & 0x1f));
    assert((b[47] & 0x1f) == xb[47]);
    assert(xb2.update(47, xb[47]) =~= xb);
    assert(masked_x_bytes(b) =~= xb);
    if !compress {
        assert(b =~= xb2 + le_bytes_of(yv, 48));
        assert(b.subrange(48, 96) =~= le_bytes_of(yv, 48));
        lemma_le_nat_of_le_bytes(yv, 48);
    }
}

/// Opposite sign classes: if two non-zero values below the prime sum to the
/// prime, exactly one of them is the lexicographically larger root.
pub proof fn lemma_lex_opposite(a: nat, b: nat)
    requires
        a < p_modulus(),
        b < p_modulus(),
        a + b == p_modulus(),
    ensures
        lex_largest(a) == !lex_largest(b),
{
    lemma_p_odd();
    assert(2 * a != p_modulus() && 2 * b != p_modulus()) by (nonlinear_arith)
        requires
            p_modulus() % 2 == 1,
    ;
}

impl Parameters {
    /// The length of the wire form.
    pub fn serialized_size(compress: bool) -> (r: usize)
        ensures
            r == (if compress {
                48int
            } else {
                96int
            }),
    {
        if compress {
            48
        } else {
            96
        }
    }

    /// Encodes a point into its canonical wire form.
    pub fn serialize_with_mode(item: &G1Affine, compress: bool) -> (r: Vec<u8>)
        requires
            item.wf(),
        ensures
            r@ == encode1_spec(item@, compress),
            r@.len() == (if compress {
                48int
            } else {
                96int
            }),
    {
        let ghost m = item@;
        let mut xb = if item.infinity {
            zero48()
        } else {
            copy_bytes(&item.x)
        };
        proof {
            if !item.infinity {
                lemma_le_bytes_of_le_nat(item.x@);
            }
            assert(xb@ =~= le_bytes_of(
                if m.infinity {
                    0nat
                } else {
                    m.x
                },
                48,
            ));
        }
        let sign = if compress && !item.infinity {
            fq_is_lex_largest(&item.y)
        } else {
            false
        };
        let c: u8 = if compress {
            0x80u8
        } else {
            0u8
        };
        let fi: u8 = if item.infinity {
            0x40u8
        } else {
            0u8
        };
        let fs: u8 = if sign {
            0x20u8
        } else {
            0u8
        };
        let f: u8 = (c | fi) | fs;
        proof {
            assert(f == flags_byte(compress, m.infinity, compress && !m.infinity && lex_largest(
                m.y,
            )));
        }
        let b47 = xb[47];
        let mut out = copy_range(&xb, 0, 47);
        out.push(b47 | f);
        proof {
            assert(out@ =~= xb@.update(47, xb@[47] | f));
        }
        if compress {
            proof {
                assert(out@ =~= encode1_spec(m, true));
            }
            out
        } else {
            let yb = if item.infinity {
                zero48()
            } else {
                copy_bytes(&item.y)
            };
            proof {
                if !item.infinity {
                    lemma_le_bytes_of_le_nat(item.y@);
                }
            }
            let ghost xpart = out@;
            let mut k: usize = 0;
            while k < 48
                invariant
                    k <= 48,
                    yb@.len() == 48,
                    out@ =~= xpart + yb@.subrange(0, k as int),
                decreases 48 - k,
            {
                out.push(yb[k]);
                k = k + 1;
                assert(out@ =~= xpart + yb@.subrange(0, k as int));
            }
            proof {
                assert(yb@.subrange(0, 48) =~= yb@);
                assert(out@ =~= encode1_spec(m, false));
            }
            out
        }
    }
}

/// Structural decoding, without subgroup validation: reads the flags, masks
/// them out, recovers the coordinates, and rejects anything malformed or off
/// the curve.  Beyond mirroring `decode1_spec`, the contract carries what the
/// square-root oracle guaranteed about the returned y: it squares to the
/// curve equation's right-hand side, its sign class matches the sign flag,
/// and any root is either it or its negation.
fn decode_inner(bytes: &Vec<u8>, compress: bool) -> (r: Result<G1Affine, Error>)
    ensures
        r matches Ok(q) ==> q.wf() && (decode1_spec(bytes@, compress, false) matches Ok(mm) && q@
            == mm) && g1_model_on_curve(q@),
        r matches Err(e) ==> (decode1_spec(bytes@, compress, false) matches Err(e2) && e == e2),
        r matches Ok(q) ==> ((compress && !q.infinity && q@.y != 0) ==> lex_largest(q@.y) == ((
        bytes@[47] & 0x20) == 0x20)),
        r matches Ok(q) ==> ((compress && !q.infinity) ==> (forall|z: nat|
            z < p_modulus() && mul_mod(z, z) == rhs1(q@.x) ==> (z == q@.y || z + q@.y
                == p_modulus()))),
        r matches Err(e) ==> ((compress && e == Error::NotOnCurve) ==> (forall|z: nat|
            z < p_modulus() ==> mul_mod(z, z) != rhs1(le_nat(masked_x_bytes(bytes@))))),
{
    let expected: usize = if compress {
        48
    } else {
        96
    };
    if bytes.len() != expected {
        return Err(Error::MalformedEncoding);
    }
    let fb = bytes[47];
    let f_comp = (fb & 0x80) == 0x80;
    let f_inf = (fb & 0x40) == 0x40;
    let f_sign = (fb & 0x20) == 0x20;
    if f_comp != compress {
        return Err(Error::MalformedEncoding);
    }
    let mut xb = copy_range(bytes, 0, 47);
    xb.push(fb & 0x1f);
    proof {
        assert(xb@ =~= masked_x_bytes(bytes@));
    }
    if f_inf {
        if f_sign {
            return Err(Error::MalformedEncoding);
        }
        if !bytes_all_zero(&xb) {
            return Err(Error::MalformedEncoding);
        }
        proof {
            lemma_p_pos();
        }
        if !compress {
            let yb = copy_range(bytes, 48, 96);
            if !bytes_all_zero(&yb) {
                return Err(Error::MalformedEncoding);
            }
            return Ok(G1Affine { infinity: true, x: xb, y: yb });
        }
        let yz = zero48();
        return Ok(G1Affine { infinity: true, x: xb, y: yz });
    }
    let pm = p_modulus_le_bytes();
    if !le_bytes_lt(&xb, &pm) {
        return Err(Error::MalformedEncoding);
    }
    if compress {
        match g1_y_from_x(&xb, f_sign) {
            None => Err(Error::NotOnCurve),
            Some(yb) => {
                let q = G1Affine { infinity: false, x: xb, y: yb };
                Ok(q)
            },
        }
    } else {
        if f_sign {
            return Err(Error::MalformedEncoding);
        }
        let yb = copy_range(bytes, 48, 96);
        if !le_bytes_lt(&yb, &pm) {
            return Err(Error::MalformedEncoding);
        }
        if !g1_on_curve_bytes(&xb, &yb) {
            return Err(Error::NotOnCurve);
        }
        Ok(G1Affine { infinity: false, x: xb, y: yb })
    }
}

/// Subgroup validation composes with structural decoding: validated decoding
/// is structural decoding followed by the membership test.
pub proof fn lemma_decode_validate(b: Seq<u8>, compress: bool)
    ensures
        decode1_spec(b, compress, true) == (match decode1_spec(b, compress, false) {
            Result::Ok(m) => if in_subgroup1(m) {
                Result::<G1Model, Error>::Ok(m)
            } else {
                Result::<G1Model, Error>::Err(Error::NotInSubgroup)
            },
            Result::Err(e) => Result::<G1Model, Error>::Err(e),
        }),
{
    match decode1_struct(b, compress) {
        Result::Ok(m) => {},
        Result::Err(e) => {},
    }
}

/// The pieces of a sign-flipped compressed encoding: the sign flag is the
/// only thing that changes, and masking still recovers the x bytes.
pub proof fn lemma_flip_parts(m: G1Model)
    requires
        g1_model_wf(m),
        !m.infinity,
    ensures
        ({
            let b = flip_sign(encode1_spec(m, true));
            &&& b.len() == 48
            &&& ((b[47] & 0x80) == 0x80) == true
            &&& ((b[47] & 0x40) == 0x40) == false
            &&& ((b[47] & 0x20) == 0x20) == !lex_largest(m.y)
            &&& le_nat(masked_x_bytes(b)) == m.x
        }),
{
    lemma_encode_parts(m, true);
    let b0 = encode1_spec(m, true);
    let xb = le_bytes_of(m.x, 48);
    lemma_le_bytes_of_len(m.x, 48);
    lemma_le_nat_bound(p_modulus_bytes());
    lemma_le_nat_of_le_bytes(m.x, 48);
    lemma_byte47_low(xb);
    lemma_flag_bits(xb[47], true, false, !lex_largest(m.y));
    let b = flip_sign(b0);
    assert(b[47] == (b0[47] ^ 0x20));
    assert(b[47] == (xb[47] | flags_byte(true, false, !lex_largest(m.y))));
    assert(masked_x_bytes(b) =~= xb) by {
        assert(forall|j: int| 0 <= j < 47 ==> b[j] == b0[j]);
        assert(forall|j: int| 0 <= j < 47 ==> masked_x_bytes(b0)[j] == b0[j]);
        assert(forall|j: int| 0 <= j < 47 ==> masked_x_bytes(b)[j] == b[j]);
        assert((b[47] & 0x1f) == xb[47]);
        assert(masked_x_bytes(b)[47] == (b[47] & 0x1f));
    };
}

impl Parameters {
    /// Decodes a point from its canonical wire form, validating subgroup
    /// membership when asked.  The result is exactly `decode1_spec`; decoding
    /// the encoding of a point returns that point, and flipping the sign bit
    /// of a compressed encoding yields the negated point.
    pub fn deserialize_with_mode(bytes: &Vec<u8>, compress: bool, validate: bool) -> (r: Result<
        G1Affine,
        Error,
    >)
        ensures
            r matches Ok(q) ==> q.wf() && (decode1_spec(bytes@, compress, validate) matches Ok(mm)
                && q@ == mm) && g1_model_on_curve(q@) && (validate ==> in_subgroup1(q@)),
            r matches Err(e) ==> (decode1_spec(bytes@, compress, validate) matches Err(e2) && e
                == e2),
            forall|m: G1Model| #![trigger encode1_spec(m, compress)]
                g1_model_wf(m) && g1_model_on_curve(m) && (validate ==> in_subgroup1(m)) && bytes@
                    == encode1_spec(m, compress) ==> (r matches Ok(q) && q@ == m),
            forall|m: G1Model| #![trigger flip_sign(encode1_spec(m, true))]
                g1_model_wf(m) && !m.infinity && on_curve1(m.x, m.y) && m.y != 0 && compress
                    && !validate && bytes@ == flip_sign(encode1_spec(m, true)) ==> (
                r matches Ok(q) && q@ == g1_neg_model(m)),
    {
        let r0 = decode_inner(bytes, compress);
        proof {
            lemma_decode_validate(bytes@, compress);
        }
        let r1 = match r0 {
            Err(e) => Err(e),
            Ok(q) => {
                if validate && !Self::is_in_correct_subgroup_assuming_on_curve(&q) {
                    Err(Error::NotInSubgroup)
                } else {
                    Ok(q)
                }
            },
        };
        proof {
            assert forall|m: G1Model|
                g1_model_wf(m) && g1_model_on_curve(m) && (validate ==> in_subgroup1(m)) && bytes@
                    == encode1_spec(m, compress) implies (r1 matches Ok(q) && q@ == m) by {
                lemma_encode_parts(m, compress);
                if m.infinity {
                    assert(decode1_spec(bytes@, compress, false) == Result::<G1Model, Error>::Ok(
                        G1Model { infinity: true, x: 0, y: 0 },
                    ));
                    assert(m == G1Model { infinity: true, x: 0, y: 0 });
                } else if compress {
                    if r0 is Err {
                        assert(decode1_spec(bytes@, compress, false) matches Err(e2));
                        assert(decode1_spec(bytes@, compress, false) == Result::<
                            G1Model,
                            Error,
                        >::Err(Error::NotOnCurve));
                        assert(mul_mod(m.y, m.y) == rhs1(le_nat(masked_x_bytes(bytes@))));
                        assert(false);
                    } else {
                        let q0 = r0->Ok_0;
                        assert(q0@.x == m.x);
                        assert(mul_mod(m.y, m.y) == rhs1(q0@.x));
                        if m.y != q0@.y {
                            assert(m.y + q0@.y == p_modulus());
                            if q0@.y == 0 {
                                assert(false);
                            } else if m.y == 0 {
                                assert(false);
                            } else {
                                lemma_lex_opposite(m.y, q0@.y);
                                assert(lex_largest(q0@.y) == ((bytes@[47] & 0x20) == 0x20));
                                assert(((bytes@[47] & 0x20) == 0x20) == lex_largest(m.y));
                                assert(false);
                            }
                        }
                        assert(q0@ == m);
                    }
                } else {
                    assert(decode1_spec(bytes@, compress, false) == Result::<G1Model, Error>::Ok(
                        G1Model { infinity: false, x: m.x, y: m.y },
                    ));
                    assert(m == G1Model { infinity: false, x: m.x, y: m.y });
                }
            }
            assert forall|m: G1Model|
                g1_model_wf(m) && !m.infinity && on_curve1(m.x, m.y) && m.y != 0 && compress
                    && !validate && bytes@ == flip_sign(encode1_spec(m, true)) implies (
            r1 matches Ok(q) && q@ == g1_neg_model(m)) by {
                lemma_flip_parts(m);
                if r0 is Err {
                    assert(decode1_spec(bytes@, true, false) == Result::<G1Model, Error>::Err(
                        Error::NotOnCurve,
                    ));
                    assert(mul_mod(m.y, m.y) == rhs1(le_nat(masked_x_bytes(bytes@))));
                    assert(false);
                } else {
                    let q0 = r0->Ok_0;
                    assert(q0@.x == m.x);
                    assert(mul_mod(m.y, m.y) == rhs1(q0@.x));
                    if q0@.y == 0 {
                        assert(m.y == q0@.y || m.y + q0@.y == p_modulus());
                        assert(false);
                    }
                    assert(lex_largest(q0@.y) == ((bytes@[47] & 0x20) == 0x20));
                    assert(((bytes@[47] & 0x20) == 0x20) == !lex_largest(m.y));
                    if m.y == q0@.y {
                        assert(false);
                    }
                    assert(m.y + q0@.y == p_modulus());
                    assert(q0@ == g1_neg_model(m));
                }
            }
        }
        r1
    }
}

/// Whether a provider response is structurally a compressed base-group point.
pub open spec fn provider_g1_ok(b: Seq<u8>) -> bool {
    decode1_spec(b, true, false) is Ok
}

/// Validates a provider response that should be a compressed base-group
/// point; any structural failure — a wrong length, bad flags, a value off
/// the curve — is a provider-contract violation, never silently accepted.
pub fn g1_from_provider(bytes: &Vec<u8>) -> (r: Result<G1Affine, Error>)
    ensures
        r matches Ok(q) ==> q.wf() && g1_model_on_curve(q@) && (decode1_spec(bytes@, true, false)
            matches Ok(mm) && q@ == mm),
        r matches Err(e) ==> e == Error::ProviderContractViolation && !provider_g1_ok(bytes@),
        bytes@.len() != 48 ==> (r matches Err(e) && e == Error::ProviderContractViolation),
{
    match Parameters::deserialize_with_mode(bytes, true, false) {
        Ok(q) => Ok(q),
        Err(_) => Err(Error::ProviderContractViolation),
    }
}

impl Parameters {
    /// Multi-scalar multiplication, delegated: every base is sent in the
    /// canonical compressed encoding, every scalar in its canonical 32-byte
    /// form, and the provider's answer is structurally validated.
    pub fn msm<H: HostFunctions>(bases: &Vec<G1Affine>, scalars: &Vec<Scalar>) -> (r: Result<
        G1Affine,
        Error,
    >)
        requires
            forall|i: int| 0 <= i < bases@.len() ==> bases@[i].wf(),
            forall|i: int| 0 <= i < scalars@.len() ==> scalars@[i].wf(),
        ensures
            r matches Ok(q) ==> q.wf() && g1_model_on_curve(q@),
            r matches Err(e) ==> e == Error::ProviderContractViolation,
    {
        let mut eb: Vec<Vec<u8>> = Vec::new();
        let mut i: usize = 0;
        while i < bases.len()
            invariant
                i <= bases@.len(),
                forall|j: int| 0 <= j < bases@.len() ==> bases@[j].wf(),
            decreases bases@.len() - i,
        {
            eb.push(Self::serialize_with_mode(&bases[i], true));
            i = i + 1;
        }
        let mut es: Vec<Vec<u8>> = Vec::new();
        let mut k: usize = 0;
        while k < scalars.len()
            invariant
                k <= scalars@.len(),
                forall|j: int| 0 <= j < scalars@.len() ==> scalars@[j].wf(),
            decreases scalars@.len() - k,
        {
            es.push(copy_bytes(&scalars[k].bytes));
            k = k + 1;
        }
        let resp = H::bls12_381_msm_g1(eb, es);
        g1_from_provider(&resp)
    }

    /// Scalar multiplication with a projective base, delegated; the base is
    /// handed over as its canonical affine representative.
    pub fn mul_projective<H: HostFunctions>(base: &G1Affine, scalar: &Vec<u64>) -> (r: Result<
        G1Affine,
        Error,
    >)
        requires
            base.wf(),
            scalar@.len() <= 4,
        ensures
            r matches Ok(q) ==> q.wf() && g1_model_on_curve(q@),
            r matches Err(e) ==> e == Error::ProviderContractViolation,
    {
        let eb = Self::serialize_with_mode(base, true);
        let es = limbs_to_le_bytes(scalar, 32);
        let resp = H::bls12_381_mul_projective_g1(eb, es);
        g1_from_provider(&resp)
    }

    /// Scalar multiplication with an affine base, delegated.
    pub fn mul_affine<H: HostFunctions>(base: &G1Affine, scalar: &Vec<u64>) -> (r: Result<
        G1Affine,
        Error,
    >)
        requires
            base.wf(),
            scalar@.len() <= 4,
        ensures
            r matches Ok(q) ==> q.wf() && g1_model_on_curve(q@),
            r matches Err(e) ==> e == Error::ProviderContractViolation,
    {
        let eb = Self::serialize_with_mode(base, true);
        let es = limbs_to_le_bytes(scalar, 32);
        let resp = H::bls12_381_mul_affine_g1(eb, es);
        g1_from_provider(&resp)
    }

    /// Cofactor clearing by the effective cofactor `1 - x`: far cheaper than
    /// the true cofactor and with the same image, the prime-order subgroup.
    /// The multiplication itself is delegated; the answer is structurally
    /// validated, so a success is always an on-curve point.
    pub fn clear_cofactor<H: HostFunctions>(p: &G1Affine) -> (r: Result<G1Affine, Error>)
        requires
            p.wf(),
        ensures
            r matches Ok(q) ==> q.wf() && g1_model_on_curve(q@),
            r matches Err(e) ==> e == Error::ProviderContractViolation,
    {
        let limbs = crate::pairing::x_limbs();
        let h_eff = one_minus_x(crate::pairing::X_IS_NEGATIVE, &limbs);
        let eb = Self::serialize_with_mode(p, true);
        let resp = H::bls12_381_mul_affine_g1(eb, h_eff.bytes);
        g1_from_provider(&resp)
    }
}

/// The canonical bytes of zero are all zero.
pub proof fn lemma_le_bytes_zero(n: nat)
    ensures
        le_bytes_of(0, n).len() == n,
        forall|j: int| 0 <= j < n ==> le_bytes_of(0, n)[j] == 0u8,
    decreases n,
{
    if n > 0 {
        lemma_le_bytes_zero((n - 1) as nat);
        let s = le_bytes_of(0, n);
        assert(s =~= seq![0u8] + le_bytes_of(0, (n - 1) as nat));
        assert(forall|j: int|
            1 <= j < n ==> s[j] == le_bytes_of(0, (n - 1) as nat)[j - 1]);
    }
}

} // verus!
