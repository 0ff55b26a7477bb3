//! The codec and validator laws, proved once and for all inputs.  The
//! compressed round trip and the sign-bit flip are stated on the decoder
//! itself (see `Parameters::deserialize_with_mode`); what can be stated
//! purely over the specification functions stands here.

use vstd::prelude::*;
use crate::Error;
use crate::field::lemma_p_pos;
use crate::g1::{
    G1Model, g1_model_wf, g1_model_on_curve, encode1_spec, decode1_spec, decode1_struct,
    flags_byte, in_subgroup1, mul_by_x_of, lemma_encode_parts, provider_g1_ok,
};

verus! {

/// Round trip, uncompressed: decoding the uncompressed encoding of any
/// well-formed on-curve point (the identity included) returns that point.
pub proof fn lemma_round_trip_uncompressed(m: G1Model)
    requires
        g1_model_wf(m),
        g1_model_on_curve(m),
    ensures
        decode1_spec(encode1_spec(m, false), false, false) == Result::<G1Model, Error>::Ok(m),
{
    lemma_encode_parts(m, false);
    let b = encode1_spec(m, false);
    if m.infinity {
        assert(decode1_struct(b, false) == Result::<G1Model, Error>::Ok(
            G1Model { infinity: true, x: 0, y: 0 },
        ));
        assert(m == G1Model { infinity: true, x: 0, y: 0 });
    } else {
        assert(decode1_struct(b, false) == Result::<G1Model, Error>::Ok(
            G1Model { infinity: false, x: m.x, y: m.y },
        ));
        assert(m == G1Model { infinity: false, x: m.x, y: m.y });
    }
}

/// Round trip for the identity, in both modes: decoding the encoding of the
/// identity returns the identity.
pub proof fn lemma_round_trip_identity(compress: bool)
    ensures
        decode1_spec(
            encode1_spec(G1Model { infinity: true, x: 0, y: 0 }, compress),
            compress,
            false,
        ) == Result::<G1Model, Error>::Ok(G1Model { infinity: true, x: 0, y: 0 }),
{
    let m = G1Model { infinity: true, x: 0, y: 0 };
    lemma_p_pos();
    lemma_encode_parts(m, compress);
    let b = encode1_spec(m, compress);
    assert(decode1_struct(b, compress) == Result::<G1Model, Error>::Ok(m));
}

/// Identity encoding: every byte of the encoded identity is zero apart from
/// the flag byte, which holds exactly the compression and infinity flags.
pub proof fn lemma_identity_encoding(compress: bool)
    ensures
        ({
            let b = encode1_spec(G1Model { infinity: true, x: 0, y: 0 }, compress);
            &&& b.len() == (if compress {
                48int
            } else {
                96int
            })
            &&& b[47] == flags_byte(compress, true, false)
            &&& forall|j: int| 0 <= j < b.len() && j != 47 ==> b[j] == 0u8
        }),
{
    let m = G1Model { infinity: true, x: 0, y: 0 };
    lemma_p_pos();
    lemma_encode_parts(m, compress);
    crate::g1::lemma_le_bytes_zero(48);
    let b = encode1_spec(m, compress);
    let f = flags_byte(compress, true, false);
    assert(b[47] == (crate::bytes::le_bytes_of(0, 48)[47] | f));
    assert((0u8 | f) == f) by (bit_vector);
}

/// The documented early-out of the subgroup test: a point other than the
/// identity that is fixed by multiplication by the loop parameter magnitude
/// is never accepted as a subgroup member.
pub proof fn lemma_early_out(m: G1Model)
    requires
        !m.infinity,
        mul_by_x_of(m) == m,
    ensures
        !in_subgroup1(m),
{
}

/// Round trip for the twist group, uncompressed: decoding the uncompressed
/// encoding of any well-formed on-curve twist point returns that point.
pub proof fn lemma_g2_round_trip_uncompressed(m: crate::g2::G2Model)
    requires
        crate::g2::g2_model_wf(m),
        crate::g2::g2_model_on_curve(m),
    ensures
        crate::g2::decode2_struct(crate::g2::encode2_spec(m, false), false) == Result::<
            crate::g2::G2Model,
            Error,
        >::Ok(m),
{
    crate::g2::lemma_encode2_parts(m, false);
    let b = crate::g2::encode2_spec(m, false);
    assert(crate::bytes::pow256(48) * 0nat == 0) by (nonlinear_arith);
    if m.infinity {
        assert(crate::g2::decode2_struct(b, false) == Result::<crate::g2::G2Model, Error>::Ok(
            crate::g2::G2Model { infinity: true, x0: 0, x1: 0, y0: 0, y1: 0 },
        ));
        assert(m == crate::g2::G2Model { infinity: true, x0: 0, x1: 0, y0: 0, y1: 0 });
    } else {
        assert(crate::g2::decode2_struct(b, false) == Result::<crate::g2::G2Model, Error>::Ok(
            crate::g2::G2Model { infinity: false, x0: m.x0, x1: m.x1, y0: m.y0, y1: m.y1 },
        ));
        assert(m == crate::g2::G2Model {
            infinity: false,
            x0: m.x0,
            x1: m.x1,
            y0: m.y0,
            y1: m.y1,
        });
    }
}

/// Round trip for the twist-group identity, in both modes.
pub proof fn lemma_g2_round_trip_identity(compress: bool)
    ensures
        crate::g2::decode2_struct(
            crate::g2::encode2_spec(
                crate::g2::G2Model { infinity: true, x0: 0, x1: 0, y0: 0, y1: 0 },
                compress,
            ),
            compress,
        ) == Result::<crate::g2::G2Model, Error>::Ok(
            crate::g2::G2Model { infinity: true, x0: 0, x1: 0, y0: 0, y1: 0 },
        ),
{
    let m = crate::g2::G2Model { infinity: true, x0: 0, x1: 0, y0: 0, y1: 0 };
    lemma_p_pos();
    crate::g2::lemma_encode2_parts(m, compress);
    let b = crate::g2::encode2_spec(m, compress);
    assert(crate::bytes::pow256(48) * 0nat == 0) by (nonlinear_arith);
    assert(crate::bytes::le_nat(crate::g2::masked_x2_bytes(b)) == 0);
    assert(crate::g2::decode2_struct(b, compress) == Result::<crate::g2::G2Model, Error>::Ok(m));
}

/// The delegation boundary rejects short or long answers: a provider
/// response whose length is not the compressed point size never decodes, so
/// the gateway reports a provider-contract violation rather than producing
/// a default element.
pub proof fn lemma_provider_rejects_wrong_length(b: Seq<u8>)
    requires
        b.len() != 48,
    ensures
        !provider_g1_ok(b),
        decode1_struct(b, true) == Result::<G1Model, Error>::Err(Error::MalformedEncoding),
{
}

} // verus!
