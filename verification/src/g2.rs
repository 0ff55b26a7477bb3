//! The twist group: affine points over the quadratic extension field and
//! their canonical wire encoding, as handed to the delegation gateway for
//! the pairing operations.

use vstd::prelude::*;
use ark_serialize::CanonicalDeserialize;
use ark_serialize::CanonicalSerialize;
use crate::Error;
use crate::bytes::{
    le_nat, pow256, le_bytes_of, copy_bytes, copy_range, bytes_all_zero, le_bytes_lt,
    lemma_le_bytes_of_le_nat,
};
use crate::field::{
    p_modulus, p_modulus_le_bytes, fq_wf, mul_mod, neg_mod, lex_largest, fq_is_lex_largest,
    fq_bytes_canonical, lemma_p_pos,
};
use crate::g1::{flags_byte, zero48};
use crate::pairing::HostFunctions;

verus! {

/// An affine point of the twist group.  Each coordinate of the quadratic
/// extension field is a pair `(c0, c1)` of base-field elements, each in
/// canonical little-endian byte form; the identity carries all-zero bytes.
#[derive(Clone, Debug, PartialEq, Eq)]
pub struct G2Affine {
    pub infinity: bool,
    pub x0: Vec<u8>,
    pub x1: Vec<u8>,
    pub y0: Vec<u8>,
    pub y1: Vec<u8>,
}

/// The mathematical value of a twist-group point.
pub ghost struct G2Model {
    pub infinity: bool,
    pub x0: nat,
    pub x1: nat,
    pub y0: nat,
    pub y1: nat,
}

impl View for G2Affine {
    type V = G2Model;

    open spec fn view(&self) -> G2Model {
        G2Model {
            infinity: self.infinity,
            x0: le_nat(self.x0@),
            x1: le_nat(self.x1@),
            y0: le_nat(self.y0@),
            y1: le_nat(self.y1@),
        }
    }
}

impl G2Affine {
    /// Canonical representation: every coordinate half canonical, all-zero
    /// bytes for the identity.
    pub open spec fn wf(&self) -> bool {
        &&& fq_wf(self.x0@)
        &&& fq_wf(self.x1@)
        &&& fq_wf(self.y0@)
        &&& fq_wf(self.y1@)
        &&& (self.infinity ==> le_nat(self.x0@) == 0 && le_nat(self.x1@) == 0 && le_nat(self.y0@)
            == 0 && le_nat(self.y1@) == 0)
    }
}

/// Subtraction in the base field, for representatives below the prime.
pub open spec fn sub_mod(a: nat, b: nat) -> nat {
    ((a + p_modulus() - b) as nat) % p_modulus()
}

/// The first component of a product in the quadratic extension
/// `Fq[u]/(u^2 + 1)`: `(a0 + a1 u)(b0 + b1 u) = (a0 b0 - a1 b1) + (a0 b1 + a1 b0) u`.
pub open spec fn fq2_mul_c0(a0: nat, a1: nat, b0: nat, b1: nat) -> nat {
    sub_mod(mul_mod(a0, b0), mul_mod(a1, b1))
}

/// The second component of a product in the quadratic extension.
pub open spec fn fq2_mul_c1(a0: nat, a1: nat, b0: nat, b1: nat) -> nat {
    (mul_mod(a0, b1) + mul_mod(a1, b0)) % p_modulus()
}

/// The first component of the right-hand side `x^3 + 4(u + 1)` of the twist
/// curve equation.
pub open spec fn rhs2_c0(x0: nat, x1: nat) -> nat {
    let x20 = fq2_mul_c0(x0, x1, x0, x1);
    let x21 = fq2_mul_c1(x0, x1, x0, x1);
    (fq2_mul_c0(x20, x21, x0, x1) + 4) % p_modulus()
}

/// The second component of the right-hand side of the twist curve equation.
pub open spec fn rhs2_c1(x0: nat, x1: nat) -> nat {
    let x20 = fq2_mul_c0(x0, x1, x0, x1);
    let x21 = fq2_mul_c1(x0, x1, x0, x1);
    (fq2_mul_c1(x20, x21, x0, x1) + 4) % p_modulus()
}

/// The twist curve equation `y^2 = x^3 + 4(u + 1)`, on values.
pub open spec fn on_curve2(x0: nat, x1: nat, y0: nat, y1: nat) -> bool {
    &&& fq2_mul_c0(y0, y1, y0, y1) == rhs2_c0(x0, x1)
    &&& fq2_mul_c1(y0, y1, y0, y1) == rhs2_c1(x0, x1)
}

pub open spec fn g2_model_wf(m: G2Model) -> bool {
    &&& m.x0 < p_modulus()
    &&& m.x1 < p_modulus()
    &&& m.y0 < p_modulus()
    &&& m.y1 < p_modulus()
    &&& (m.infinity ==> m.x0 == 0 && m.x1 == 0 && m.y0 == 0 && m.y1 == 0)
}

/// On the curve, or the identity.
pub open spec fn g2_model_on_curve(m: G2Model) -> bool {
    m.infinity || on_curve2(m.x0, m.x1, m.y0, m.y1)
}

/// The lexicographic sign class of an extension-field element: decided by
/// the second component, falling back to the first when it is zero.
pub open spec fn lex2(y0: nat, y1: nat) -> bool {
    if y1 != 0 {
        lex_largest(y1)
    } else {
        lex_largest(y0)
    }
}

/// The canonical wire encoding of a twist-group point: the x coordinate as
/// `c0` then `c1` (zero for the identity), flags in the top bits of the last
/// byte of the x segment, and for the uncompressed form the y coordinate
/// appended the same way.
pub open spec fn encode2_spec(m: G2Model, compress: bool) -> Seq<u8> {
    let x0 = if m.infinity {
        0
    } else {
        m.x0
    };
    let x1 = if m.infinity {
        0
    } else {
        m.x1
    };
    let y0 = if m.infinity {
        0
    } else {
        m.y0
    };
    let y1 = if m.infinity {
        0
    } else {
        m.y1
    };
    let sign = compress && !m.infinity && lex2(m.y0, m.y1);
    let xs = le_bytes_of(x0, 48) + le_bytes_of(x1, 48);
    let xs2 = xs.update(95, xs[95] | flags_byte(compress, m.infinity, sign));
    if compress {
        xs2
    } else {
        xs2 + (le_bytes_of(y0, 48) + le_bytes_of(y1, 48))
    }
}

/// Relies on `ark_ec::short_weierstrass::Affine::is_on_curve` for the
/// BLS12-381 twist curve: whether `y^2 = x^3 + 4(u + 1)` over the quadratic
/// extension field.
#[verifier::external_body]
fn g2_on_curve_bytes(x0: &Vec<u8>, x1: &Vec<u8>, y0: &Vec<u8>, y1: &Vec<u8>) -> (r: bool)
    requires
        fq_wf(x0@),
        fq_wf(x1@),
        fq_wf(y0@),
        fq_wf(y1@),
    ensures
        r == on_curve2(le_nat(x0@), le_nat(x1@), le_nat(y0@), le_nat(y1@)),
{
    let xc0 = ark_bls12_381::Fq::deserialize_compressed(&x0[..]).unwrap();
    let xc1 = ark_bls12_381::Fq::deserialize_compressed(&x1[..]).unwrap();
    let yc0 = ark_bls12_381::Fq::deserialize_compressed(&y0[..]).unwrap();
    let yc1 = ark_bls12_381::Fq::deserialize_compressed(&y1[..]).unwrap();
    let x = ark_bls12_381::Fq2::new(xc0, xc1);
    let y = ark_bls12_381::Fq2::new(yc0, yc1);
    ark_bls12_381::G2Affine::new_unchecked(x, y).is_on_curve()
}

/// The identity of the twist group, in canonical form.
pub fn g2_identity() -> (r: G2Affine)
    ensures
        r.wf(),
        r@.infinity,
{
    proof {
        crate::field::lemma_p_pos();
    }
    G2Affine { infinity: true, x0: zero48(), x1: zero48(), y0: zero48(), y1: zero48() }
}

/// Checks coordinates and wraps them as a twist-group point: every half must
/// be a canonical field element and the pair must satisfy the twist curve
/// equation.
pub fn g2_from_coordinates(x0: Vec<u8>, x1: Vec<u8>, y0: Vec<u8>, y1: Vec<u8>) -> (r: Option<
    G2Affine,
>)
    ensures
        r matches Some(q) ==> q.wf() && !q.infinity && g2_model_on_curve(q@) && q@.x0 == le_nat(
            x0@,
        ) && q@.x1 == le_nat(x1@) && q@.y0 == le_nat(y0@) && q@.y1 == le_nat(y1@),
        (r is None) <==> !(fq_wf(x0@) && fq_wf(x1@) && fq_wf(y0@) && fq_wf(y1@) && on_curve2(
            le_nat(x0@),
            le_nat(x1@),
            le_nat(y0@),
            le_nat(y1@),
        )),
{
    if !(fq_bytes_canonical(&x0) && fq_bytes_canonical(&x1) && fq_bytes_canonical(&y0)
        && fq_bytes_canonical(&y1)) {
        return None;
    }
    if !g2_on_curve_bytes(&x0, &x1, &y0, &y1) {
        return None;
    }
    Some(G2Affine { infinity: false, x0, x1, y0, y1 })
}

/// The smaller square root of a quadratic-extension element, when one
/// exists; supplied by the curve-arithmetic library, a function of its
/// argument alone.
pub uninterp spec fn sqrt2_min_of(r0: nat, r1: nat) -> Option<(nat, nat)>;

/// The root that decoding with a given sign choice selects.
pub open spec fn sqrt2_sel(r0: nat, r1: nat, greatest: bool) -> Option<(nat, nat)> {
    match sqrt2_min_of(r0, r1) {
        Option::None => Option::None,
        Option::Some(y) => Option::Some(
            if greatest && !(y.0 == 0 && y.1 == 0) {
                (neg_mod(y.0), neg_mod(y.1))
            } else {
                y
            },
        ),
    }
}

/// The x segment of a twist encoding with the flag bits masked out.
pub open spec fn masked_x2_bytes(b: Seq<u8>) -> Seq<u8> {
    b.subrange(0, 96).update(95, b[95] & 0x1f)
}

/// Structural decoding of a twist point: the inverse of `encode2_spec`, with
/// every malformed input mapped to its error.
pub open spec fn decode2_struct(b: Seq<u8>, compress: bool) -> Result<G2Model, Error> {
    if b.len() != (if compress {
        96int
    } else {
        192int
    }) {
        Result::Err(Error::MalformedEncoding)
    } else {
        let fb = b[95];
        let f_comp = (fb & 0x80) == 0x80;
        let f_inf = (fb & 0x40) == 0x40;
        let f_sign = (fb & 0x20) == 0x20;
        if f_comp != compress {
            Result::Err(Error::MalformedEncoding)
        } else if f_inf {
            if f_sign || le_nat(masked_x2_bytes(b)) != 0 || (!compress && le_nat(
                b.subrange(96, 192),
            ) != 0) {
                Result::Err(Error::MalformedEncoding)
            } else {
                Result::Ok(G2Model { infinity: true, x0: 0, x1: 0, y0: 0, y1: 0 })
            }
        } else {
            let x0 = le_nat(masked_x2_bytes(b).subrange(0, 48));
            let x1 = le_nat(masked_x2_bytes(b).subrange(48, 96));
            if x0 >= p_modulus() || x1 >= p_modulus() {
                Result::Err(Error::MalformedEncoding)
            } else if compress {
                match sqrt2_sel(rhs2_c0(x0, x1), rhs2_c1(x0, x1), f_sign) {
                    Option::None => Result::Err(Error::NotOnCurve),
                    Option::Some(y) => Result::Ok(
                        G2Model { infinity: false, x0, x1, y0: y.0, y1: y.1 },
                    ),
                }
            } else {
                if f_sign {
                    Result::Err(Error::MalformedEncoding)
                } else {
                    let y0 = le_nat(b.subrange(96, 144));
                    let y1 = le_nat(b.subrange(144, 192));
                    if y0 >= p_modulus() || y1 >= p_modulus() {
                        Result::Err(Error::MalformedEncoding)
                    } else if !on_curve2(x0, x1, y0, y1) {
                        Result::Err(Error::NotOnCurve)
                    } else {
                        Result::Ok(G2Model { infinity: false, x0, x1, y0, y1 })
                    }
                }
            }
        }
    }
}

/// Relies on `ark_ec::short_weierstrass::Affine::get_point_from_x_unchecked`
/// for the BLS12-381 twist curve: returns the on-curve y for this x whose
/// sign class matches `greatest`, or `None` when the curve equation's
/// right-hand side has no square root.  A square in the quadratic extension
/// field has at most the two roots `y` and `-y`.
#[verifier::external_body]
fn g2_y_from_x(x0: &Vec<u8>, x1: &Vec<u8>, greatest: bool) -> (r: Option<(Vec<u8>, Vec<u8>)>)
    requires
        fq_wf(x0@),
        fq_wf(x1@),
    ensures
        r matches Some(y) ==> {
            &&& fq_wf(y.0@)
            &&& fq_wf(y.1@)
            &&& Option::Some((le_nat(y.0@), le_nat(y.1@))) == sqrt2_sel(
                rhs2_c0(le_nat(x0@), le_nat(x1@)),
                rhs2_c1(le_nat(x0@), le_nat(x1@)),
                greatest,
            )
            &&& on_curve2(le_nat(x0@), le_nat(x1@), le_nat(y.0@), le_nat(y.1@))
            &&& (!(le_nat(y.0@) == 0 && le_nat(y.1@) == 0) ==> lex2(le_nat(y.0@), le_nat(y.1@))
                == greatest)
        },
        r is None ==> sqrt2_min_of(
            rhs2_c0(le_nat(x0@), le_nat(x1@)),
            rhs2_c1(le_nat(x0@), le_nat(x1@)),
        ) is None,
{
    let xc0 = ark_bls12_381::Fq::deserialize_compressed(&x0[..]).unwrap();
    let xc1 = ark_bls12_381::Fq::deserialize_compressed(&x1[..]).unwrap();
    let x = ark_bls12_381::Fq2::new(xc0, xc1);
    match ark_bls12_381::G2Affine::get_point_from_x_unchecked(x, greatest) {
        None => None,
        Some(p) => {
            let mut o0 = Vec::new();
            let mut o1 = Vec::new();
            p.y.c0.serialize_compressed(&mut o0).unwrap();
            p.y.c1.serialize_compressed(&mut o1).unwrap();
            Some((o0, o1))
        },
    }
}

/// The twist-group instance of the curve parameter set: the codec of this
/// layer for twist points.
pub struct Parameters;

impl Parameters {
    /// The length of the wire form.
    pub fn serialized_size(compress: bool) -> (r: usize)
        ensures
            r == (if compress {
                96int
            } else {
                192int
            }),
    {
        if compress {
            96
        } else {
            192
        }
    }

    /// Encodes a twist point into its canonical wire form.
    pub fn serialize_with_mode(item: &G2Affine, compress: bool) -> (r: Vec<u8>)
        requires
            item.wf(),
        ensures
            r@ == encode2_spec(item@, compress),
            r@.len() == (if compress {
                96int
            } else {
                192int
            }),
    {
        let ghost m = item@;
        let mut xs = if item.infinity {
            zero48()
        } else {
            copy_bytes(&item.x0)
        };
        let xb1 = if item.infinity {
            zero48()
        } else {
            copy_bytes(&item.x1)
        };
        let ghost x0part = xs@;
        let mut k: usize = 0;
        while k < 48
            invariant
                k <= 48,
                xb1@.len() == 48,
                xs@ =~= x0part + xb1@.subrange(0, k as int),
            decreases 48 - k,
        {
            xs.push(xb1[k]);
            k = k + 1;
            assert(xs@ =~= x0part + xb1@.subrange(0, k as int));
        }
        proof {
            assert(xb1@.subrange(0, 48) =~= xb1@);
            if !item.infinity {
                lemma_le_bytes_of_le_nat(item.x0@);
                lemma_le_bytes_of_le_nat(item.x1@);
            }
            assert(xs@ =~= le_bytes_of(
                if m.infinity {
                    0nat
                } else {
                    m.x0
                },
                48,
            ) + le_bytes_of(
                if m.infinity {
                    0nat
                } else {
                    m.x1
                },
                48,
            ));
        }
        let sign = if compress && !item.infinity {
            let y1_zero = crate::bytes::bytes_all_zero(&item.y1);
            if y1_zero {
                fq_is_lex_largest(&item.y0)
            } else {
                fq_is_lex_largest(&item.y1)
            }
        } else {
            false
        };
        let c: u8 = if compress {
            0x80u8
        } else {
            0u8
        };
        let fi: u8 = if item.infinity {
            0x40u8
        } else {
            0u8
        };
        let fs: u8 = if sign {
            0x20u8
        } else {
            0u8
        };
        let f: u8 = (c | fi) | fs;
        proof {
            assert(f == flags_byte(compress, m.infinity, compress && !m.infinity && lex2(
                m.y0,
                m.y1,
            )));
        }
        let b95 = xs[95];
        let mut out = copy_range(&xs, 0, 95);
        out.push(b95 | f);
        proof {
            assert(out@ =~= xs@.update(95, xs@[95] | f));
        }
        if compress {
            proof {
                assert(out@ =~= encode2_spec(m, true));
            }
            return out;
        }
        let yb0 = if item.infinity {
            zero48()
        } else {
            copy_bytes(&item.y0)
        };
        let yb1 = if item.infinity {
            zero48()
        } else {
            copy_bytes(&item.y1)
        };
        proof {
            if !item.infinity {
                lemma_le_bytes_of_le_nat(item.y0@);
                lemma_le_bytes_of_le_nat(item.y1@);
            }
        }
        let ghost xpart = out@;
        let mut j: usize = 0;
        while j < 48
            invariant
                j <= 48,
                yb0@.len() == 48,
                out@ =~= xpart + yb0@.subrange(0, j as int),
            decreases 48 - j,
        {
            out.push(yb0[j]);
            j = j + 1;
            assert(out@ =~= xpart + yb0@.subrange(0, j as int));
        }
        proof {
            assert(yb0@.subrange(0, 48) =~= yb0@);
        }
        let ghost xypart = out@;
        let mut t: usize = 0;
        while t < 48
            invariant
                t <= 48,
                yb1@.len() == 48,
                out@ =~= xypart + yb1@.subrange(0, t as int),
            decreases 48 - t,
        {
            out.push(yb1[t]);
            t = t + 1;
            assert(out@ =~= xypart + yb1@.subrange(0, t as int));
        }
        proof {
            assert(yb1@.subrange(0, 48) =~= yb1@);
            assert(out@ =~= encode2_spec(m, false));
        }
        out
    }
}

impl Parameters {
    /// Structurally decodes a twist point from its canonical wire form; the
    /// result is exactly `decode2_struct`.  Subgroup validation for the
    /// twist instance is outside this layer.
    pub fn deserialize_with_mode(bytes: &Vec<u8>, compress: bool) -> (r: Result<G2Affine, Error>)
        ensures
            r matches Ok(q) ==> q.wf() && (decode2_struct(bytes@, compress) matches Ok(mm) && q@
                == mm) && g2_model_on_curve(q@),
            r matches Err(e) ==> (decode2_struct(bytes@, compress) matches Err(e2) && e == e2),
    {
        let expected: usize = if compress {
            96
        } else {
            192
        };
        if bytes.len() != expected {
            return Err(Error::MalformedEncoding);
        }
        let fb = bytes[95];
        let f_comp = (fb & 0x80) == 0x80;
        let f_inf = (fb & 0x40) == 0x40;
        let f_sign = (fb & 0x20) == 0x20;
        if f_comp != compress {
            return Err(Error::MalformedEncoding);
        }
        let xb0 = copy_range(bytes, 0, 48);
        let mut xb1 = copy_range(bytes, 48, 95);
        xb1.push(fb & 0x1f);
        let mut mx = copy_range(bytes, 0, 95);
        mx.push(fb & 0x1f);
        proof {
            assert(mx@ =~= masked_x2_bytes(bytes@));
            assert(xb0@ =~= masked_x2_bytes(bytes@).subrange(0, 48));
            assert(xb1@ =~= masked_x2_bytes(bytes@).subrange(48, 96));
        }
        if f_inf {
            if f_sign {
                return Err(Error::MalformedEncoding);
            }
            if !bytes_all_zero(&mx) {
                return Err(Error::MalformedEncoding);
            }
            proof {
                lemma_p_pos();
            }
            if !compress {
                let yseg = copy_range(bytes, 96, 192);
                if !bytes_all_zero(&yseg) {
                    return Err(Error::MalformedEncoding);
                }
            }
            return Ok(g2_identity());
        }
        let pm = p_modulus_le_bytes();
        if !le_bytes_lt(&xb0, &pm) || !le_bytes_lt(&xb1, &pm) {
            return Err(Error::MalformedEncoding);
        }
        if compress {
            match g2_y_from_x(&xb0, &xb1, f_sign) {
                None => Err(Error::NotOnCurve),
                Some(y) => {
                    let (ya, yb) = y;
                    Ok(G2Affine { infinity: false, x0: xb0, x1: xb1, y0: ya, y1: yb })
                },
            }
        } else {
            if f_sign {
                return Err(Error::MalformedEncoding);
            }
            let yb0 = copy_range(bytes, 96, 144);
            let yb1 = copy_range(bytes, 144, 192);
            if !le_bytes_lt(&yb0, &pm) || !le_bytes_lt(&yb1, &pm) {
                return Err(Error::MalformedEncoding);
            }
            if !g2_on_curve_bytes(&xb0, &xb1, &yb0, &yb1) {
                return Err(Error::NotOnCurve);
            }
            Ok(G2Affine { infinity: false, x0: xb0, x1: xb1, y0: yb0, y1: yb1 })
        }
    }
}

/// The pieces of an encoded twist point: lengths, flag readback, and that
/// masking recovers the coordinate bytes exactly.
pub proof fn lemma_encode2_parts(m: G2Model, compress: bool)
    requires
        g2_model_wf(m),
    ensures
        ({
            let b = encode2_spec(m, compress);
            let x0 = if m.infinity {
                0
            } else {
                m.x0
            };
            let x1 = if m.infinity {
                0
            } else {
                m.x1
            };
            let y0 = if m.infinity {
                0
            } else {
                m.y0
            };
            let y1 = if m.infinity {
                0
            } else {
                m.y1
            };
            let sign = compress && !m.infinity && lex2(m.y0, m.y1);
            &&& b.len() == (if compress {
                96int
            } else {
                192int
            })
            &&& ((b[95] & 0x80) == 0x80) == compress
            &&& ((b[95] & 0x40) == 0x40) == m.infinity
            &&& ((b[95] & 0x20) == 0x20) == sign
            &&& le_nat(masked_x2_bytes(b).subrange(0, 48)) == x0
            &&& le_nat(masked_x2_bytes(b).subrange(48, 96)) == x1
            &&& le_nat(masked_x2_bytes(b)) == x0 + pow256(48) * x1
            &&& (!compress ==> le_nat(b.subrange(96, 144)) == y0 && le_nat(b.subrange(144, 192))
                == y1)
            &&& (!compress ==> le_nat(b.subrange(96, 192)) == y0 + pow256(48) * y1)
        }),
{
    let b = encode2_spec(m, compress);
    let x0 = if m.infinity {
        0nat
    } else {
        m.x0
    };
    let x1 = if m.infinity {
        0nat
    } else {
        m.x1
    };
    let y0 = if m.infinity {
        0nat
    } else {
        m.y0
    };
    let y1 = if m.infinity {
        0nat
    } else {
        m.y1
    };
    let sign = compress && !m.infinity && lex2(m.y0, m.y1);
    let xa = le_bytes_of(x0, 48);
    let xbb = le_bytes_of(x1, 48);
    crate::bytes::lemma_le_bytes_of_len(x0, 48);
    crate::bytes::lemma_le_bytes_of_len(x1, 48);
    crate::bytes::lemma_le_bytes_of_len(y0, 48);
    crate::bytes::lemma_le_bytes_of_len(y1, 48);
    crate::bytes::lemma_le_nat_bound(crate::field::p_modulus_bytes());
    crate::bytes::lemma_le_nat_of_le_bytes(x0, 48);
    crate::bytes::lemma_le_nat_of_le_bytes(x1, 48);
    crate::bytes::lemma_le_nat_of_le_bytes(y0, 48);
    crate::bytes::lemma_le_nat_of_le_bytes(y1, 48);
    let xs = xa + xbb;
    assert(xs[95] == xbb[47]);
    crate::g1::lemma_byte47_low(xbb);
    crate::g1::lemma_flag_bits(xs[95], compress, m.infinity, sign);
    let f = flags_byte(compress, m.infinity, sign);
    let xs2 = xs.update(95, xs[95] | f);
    assert(b[95] == (xs[95] | f));
    assert(b.subrange(0, 96) =~= xs2);
    assert(masked_x2_bytes(b) =~= xs2.update(95, b[95] & 0x1f));
    assert((b[95] & 0x1f) == xs[95]);
    assert(xs2.update(95, xs[95]) =~= xs);
    assert(masked_x2_bytes(b) =~= xs);
    assert(masked_x2_bytes(b).subrange(0, 48) =~= xa);
    assert(masked_x2_bytes(b).subrange(48, 96) =~= xbb);
    crate::bytes::lemma_le_nat_append(xa, xbb);
    if !compress {
        let ya = le_bytes_of(y0, 48);
        let yb = le_bytes_of(y1, 48);
        assert(b =~= xs2 + (ya + yb));
        assert(b.subrange(96, 144) =~= ya);
        assert(b.subrange(144, 192) =~= yb);
        assert(b.subrange(96, 192) =~= ya + yb);
        crate::bytes::lemma_le_nat_append(ya, yb);
    }
}

/// Whether a provider response is structurally a compressed twist point.
pub open spec fn provider_g2_ok(b: Seq<u8>) -> bool {
    decode2_struct(b, true) is Ok
}

/// Validates a provider response that should be a compressed twist point;
/// any structural failure is a provider-contract violation, never silently
/// accepted.
pub fn g2_from_provider(bytes: &Vec<u8>) -> (r: Result<G2Affine, Error>)
    ensures
        r matches Ok(q) ==> q.wf() && g2_model_on_curve(q@) && (decode2_struct(bytes@, true)
            matches Ok(mm) && q@ == mm),
        r matches Err(e) ==> e == Error::ProviderContractViolation && !provider_g2_ok(bytes@),
        bytes@.len() != 96 ==> (r matches Err(e) && e == Error::ProviderContractViolation),
{
    match Parameters::deserialize_with_mode(bytes, true) {
        Ok(q) => Ok(q),
        Err(_) => Err(Error::ProviderContractViolation),
    }
}

impl Parameters {
    /// Multi-scalar multiplication over the twist group, delegated; the
    /// provider's answer is structurally validated.
    pub fn msm<H: HostFunctions>(bases: &Vec<G2Affine>, scalars: &Vec<crate::field::Scalar>) -> (r:
        Result<G2Affine, Error>)
        requires
            forall|i: int| 0 <= i < bases@.len() ==> bases@[i].wf(),
            forall|i: int| 0 <= i < scalars@.len() ==> scalars@[i].wf(),
        ensures
            r matches Ok(q) ==> q.wf() && g2_model_on_curve(q@),
            r matches Err(e) ==> e == Error::ProviderContractViolation,
    {
        let mut eb: Vec<Vec<u8>> = Vec::new();
        let mut i: usize = 0;
        while i < bases.len()
            invariant
                i <= bases@.len(),
                forall|j: int| 0 <= j < bases@.len() ==> bases@[j].wf(),
            decreases bases@.len() - i,
        {
            eb.push(Self::serialize_with_mode(&bases[i], true));
            i = i + 1;
        }
        let mut es: Vec<Vec<u8>> = Vec::new();
        let mut k: usize = 0;
        while k < scalars.len()
            invariant
                k <= scalars@.len(),
                forall|j: int| 0 <= j < scalars@.len() ==> scalars@[j].wf(),
            decreases scalars@.len() - k,
        {
            es.push(copy_bytes(&scalars[k].bytes));
            k = k + 1;
        }
        let resp = H::bls12_381_msm_g2(eb, es);
        g2_from_provider(&resp)
    }

    /// Scalar multiplication with a projective base over the twist group,
    /// delegated; the base is handed over as its affine representative.
    pub fn mul_projective<H: HostFunctions>(base: &G2Affine, scalar: &Vec<u64>) -> (r: Result<
        G2Affine,
        Error,
    >)
        requires
            base.wf(),
            scalar@.len() <= 4,
        ensures
            r matches Ok(q) ==> q.wf() && g2_model_on_curve(q@),
            r matches Err(e) ==> e == Error::ProviderContractViolation,
    {
        let eb = Self::serialize_with_mode(base, true);
        let es = crate::bytes::limbs_to_le_bytes(scalar, 32);
        let resp = H::bls12_381_mul_projective_g2(eb, es);
        g2_from_provider(&resp)
    }

    /// Scalar multiplication with an affine base over the twist group,
    /// delegated.
    pub fn mul_affine<H: HostFunctions>(base: &G2Affine, scalar: &Vec<u64>) -> (r: Result<
        G2Affine,
        Error,
    >)
        requires
            base.wf(),
            scalar@.len() <= 4,
        ensures
            r matches Ok(q) ==> q.wf() && g2_model_on_curve(q@),
            r matches Err(e) ==> e == Error::ProviderContractViolation,
    {
        let eb = Self::serialize_with_mode(base, true);
        let es = crate::bytes::limbs_to_le_bytes(scalar, 32);
        let resp = H::bls12_381_mul_affine_g2(eb, es);
        g2_from_provider(&resp)
    }
}

} // verus!
