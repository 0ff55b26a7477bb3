//! The delegation boundary: the external computation provider's interface,
//! the pairing-level curve parameters, and the target-group element type the
//! pairing operations exchange with the provider.

use vstd::prelude::*;
use ark_serialize::CanonicalDeserialize;
use crate::Error;

verus! {

/// The external computation provider: eight operations over opaque byte
/// buffers.  Implementations perform the heavy group arithmetic; nothing is
/// assumed of what they return — the gateway validates every answer.
pub trait HostFunctions {
    fn bls12_381_multi_miller_loop(a: Vec<Vec<u8>>, b: Vec<Vec<u8>>) -> Vec<u8>;

    fn bls12_381_final_exponentiation(f12: Vec<u8>) -> Vec<u8>;

    fn bls12_381_msm_g1(bases: Vec<Vec<u8>>, scalars: Vec<Vec<u8>>) -> Vec<u8>;

    fn bls12_381_mul_projective_g1(base: Vec<u8>, scalar: Vec<u8>) -> Vec<u8>;

    fn bls12_381_mul_affine_g1(base: Vec<u8>, scalar: Vec<u8>) -> Vec<u8>;

    fn bls12_381_msm_g2(bases: Vec<Vec<u8>>, scalars: Vec<Vec<u8>>) -> Vec<u8>;

    fn bls12_381_mul_projective_g2(base: Vec<u8>, scalar: Vec<u8>) -> Vec<u8>;

    fn bls12_381_mul_affine_g2(base: Vec<u8>, scalar: Vec<u8>) -> Vec<u8>;
}

/// Whether 576 bytes are the canonical serialized form of a target-group
/// (degree-twelve extension field) element; decided by the field library.
pub uninterp spec fn fq12_valid(b: Seq<u8>) -> bool;

/// Relies on `ark_bls12_381::Fq12` canonical deserialization: whether the
/// bytes parse as a target-group field element.
#[verifier::external_body]
fn fq12_check(b: &Vec<u8>) -> (r: bool)
    ensures
        r == fq12_valid(b@),
{
    ark_bls12_381::Fq12::deserialize_compressed(&b[..]).is_ok()
}

/// A serialized target-group element, as produced by the miller loop and the
/// final exponentiation: 576 canonical bytes.
#[derive(Clone, Debug, PartialEq, Eq)]
pub struct TargetElement {
    pub bytes: Vec<u8>,
}

impl TargetElement {
    pub open spec fn wf(&self) -> bool {
        self.bytes@.len() == 576 && fq12_valid(self.bytes@)
    }
}

/// What the gateway accepts from the provider as a target-group element.
pub open spec fn target_ok(b: Seq<u8>) -> bool {
    b.len() == 576 && fq12_valid(b)
}

/// Validates a provider response that should be a target-group element;
/// anything else is a provider-contract violation.
pub fn target_from_provider(b: Vec<u8>) -> (r: Result<TargetElement, Error>)
    ensures
        r matches Ok(t) ==> t.wf() && t.bytes@ =~= b@ && target_ok(b@),
        r matches Err(e) ==> e == Error::ProviderContractViolation && !target_ok(b@),
{
    if b.len() != 576 {
        return Err(Error::ProviderContractViolation);
    }
    if !fq12_check(&b) {
        return Err(Error::ProviderContractViolation);
    }
    Ok(TargetElement { bytes: b })
}

/// The pairing-level curve parameter set: the loop parameter and the two
/// pairing phases, delegated to the provider.
pub struct Parameters;

impl Parameters {
    /// The multi-pairing miller loop, delegated: every base-group and
    /// twist-group input is sent in its canonical compressed encoding, and
    /// the provider's answer must be a structurally valid target-group
    /// element — anything else is a provider-contract violation.
    pub fn multi_miller_loop<H: HostFunctions>(
        a: &Vec<crate::g1::G1Affine>,
        b: &Vec<crate::g2::G2Affine>,
    ) -> (r: Result<TargetElement, Error>)
        requires
            forall|i: int| 0 <= i < a@.len() ==> a@[i].wf(),
            forall|i: int| 0 <= i < b@.len() ==> b@[i].wf(),
        ensures
            r matches Ok(t) ==> t.wf(),
            r matches Err(e) ==> e == Error::ProviderContractViolation,
    {
        let mut ea: Vec<Vec<u8>> = Vec::new();
        let mut i: usize = 0;
        while i < a.len()
            invariant
                i <= a@.len(),
                forall|j: int| 0 <= j < a@.len() ==> a@[j].wf(),
            decreases a@.len() - i,
        {
            ea.push(crate::g1::Parameters::serialize_with_mode(&a[i], true));
            i = i + 1;
        }
        let mut eb: Vec<Vec<u8>> = Vec::new();
        let mut k: usize = 0;
        while k < b.len()
            invariant
                k <= b@.len(),
                forall|j: int| 0 <= j < b@.len() ==> b@[j].wf(),
            decreases b@.len() - k,
        {
            eb.push(crate::g2::Parameters::serialize_with_mode(&b[k], true));
            k = k + 1;
        }
        let resp = H::bls12_381_multi_miller_loop(ea, eb);
        target_from_provider(resp)
    }

    /// The final exponentiation, delegated: the miller-loop output is sent
    /// in its serialized form and the answer is validated the same way.
    pub fn final_exponentiation<H: HostFunctions>(f: &TargetElement) -> (r: Result<
        TargetElement,
        Error,
    >)
        requires
            f.wf(),
        ensures
            r matches Ok(t) ==> t.wf(),
            r matches Err(e) ==> e == Error::ProviderContractViolation,
    {
        let buf = crate::bytes::copy_bytes(&f.bytes);
        let resp = H::bls12_381_final_exponentiation(buf);
        target_from_provider(resp)
    }
}

/// The magnitude of the pairing loop parameter, one 64-bit limb.
pub const X_LIMB: u64 = 0xd201000000010000;

/// The loop parameter is negative for this curve.
pub const X_IS_NEGATIVE: bool = true;

/// The loop parameter magnitude as a limb sequence.
pub fn x_limbs() -> (r: Vec<u64>)
    ensures
        r@ =~= seq![X_LIMB],
{
    let mut r: Vec<u64> = Vec::new();
    r.push(X_LIMB);
    proof {
        assert(r@ =~= seq![X_LIMB]);
    }
    r
}

} // verus!
