use ark_ec::pairing::Pairing;
use ark_ec::AffineRepr;
use ark_ec::CurveGroup;
use ark_serialize::CanonicalDeserialize;
use ark_serialize::CanonicalSerialize;
use ark_std::rand::Rng;
use ark_std::UniformRand;
use sub_bls12_381::field::{scalar_from_bytes, Scalar};
use sub_bls12_381::g1::{endomorphism, g1_eq, g1_generator, one_minus_x, G1Affine};
use sub_bls12_381::g2::{g2_from_coordinates, G2Affine};
use sub_bls12_381::pairing::{HostFunctions, X_IS_NEGATIVE, X_LIMB};
use sub_bls12_381::Error;

fn fq_to_bytes(f: &ark_bls12_381::Fq) -> Vec<u8> {
    let mut out = Vec::new();
    f.serialize_compressed(&mut out).unwrap();
    out
}

fn fq_from_bytes(b: &[u8]) -> ark_bls12_381::Fq {
    ark_bls12_381::Fq::deserialize_compressed(b).unwrap()
}

fn ark_to_lib(p: &ark_bls12_381::G1Affine) -> G1Affine {
    if p.infinity {
        G1Affine {
            infinity: true,
            x: vec![0u8; 48],
            y: vec![0u8; 48],
        }
    } else {
        G1Affine {
            infinity: false,
            x: fq_to_bytes(&p.x),
            y: fq_to_bytes(&p.y),
        }
    }
}

fn lib_to_ark(p: &G1Affine) -> ark_bls12_381::G1Affine {
    if p.infinity {
        ark_bls12_381::G1Affine::identity()
    } else {
        ark_bls12_381::G1Affine::new_unchecked(fq_from_bytes(&p.x), fq_from_bytes(&p.y))
    }
}

fn g2_ark_to_lib(p: &ark_bls12_381::G2Affine) -> G2Affine {
    g2_from_coordinates(
        fq_to_bytes(&p.x.c0),
        fq_to_bytes(&p.x.c1),
        fq_to_bytes(&p.y.c0),
        fq_to_bytes(&p.y.c1),
    )
    .unwrap()
}

fn g2_lib_to_ark(p: &G2Affine) -> ark_bls12_381::G2Affine {
    if p.infinity {
        ark_bls12_381::G2Affine::identity()
    } else {
        ark_bls12_381::G2Affine::new_unchecked(
            ark_bls12_381::Fq2::new(fq_from_bytes(&p.x0), fq_from_bytes(&p.x1)),
            ark_bls12_381::Fq2::new(fq_from_bytes(&p.y0), fq_from_bytes(&p.y1)),
        )
    }
}

/// A provider backed by the real curve arithmetic, speaking this layer's
/// wire encodings.
struct GoodHost;

impl HostFunctions for GoodHost {
    fn bls12_381_multi_miller_loop(a: Vec<Vec<u8>>, b: Vec<Vec<u8>>) -> Vec<u8> {
        let ga: Vec<ark_bls12_381::G1Affine> = a
            .iter()
            .map(|e| {
                lib_to_ark(
                    &sub_bls12_381::g1::Parameters::deserialize_with_mode(e, true, false).unwrap(),
                )
            })
            .collect();
        let gb: Vec<ark_bls12_381::G2Affine> = b
            .iter()
            .map(|e| {
                g2_lib_to_ark(&sub_bls12_381::g2::Parameters::deserialize_with_mode(e, true).unwrap())
            })
            .collect();
        let out = ark_bls12_381::Bls12_381::multi_miller_loop(ga, gb);
        let mut buf = Vec::new();
        out.0.serialize_compressed(&mut buf).unwrap();
        buf
    }

    fn bls12_381_final_exponentiation(f12: Vec<u8>) -> Vec<u8> {
        let f = ark_bls12_381::Fq12::deserialize_compressed(&f12[..]).unwrap();
        let r = ark_bls12_381::Bls12_381::final_exponentiation(
            ark_ec::pairing::MillerLoopOutput(f),
        )
        .unwrap();
        let mut buf = Vec::new();
        r.0.serialize_compressed(&mut buf).unwrap();
        buf
    }

    fn bls12_381_msm_g1(bases: Vec<Vec<u8>>, scalars: Vec<Vec<u8>>) -> Vec<u8> {
        let mut acc = <ark_bls12_381::G1Projective as ark_std::Zero>::zero();
        for (b, s) in bases.iter().zip(scalars.iter()) {
            let p = lib_to_ark(
                &sub_bls12_381::g1::Parameters::deserialize_with_mode(b, true, false).unwrap(),
            );
            let k = ark_bls12_381::Fr::deserialize_compressed(&s[..]).unwrap();
            acc = acc + p * k;
        }
        let enc = sub_bls12_381::g1::Parameters::serialize_with_mode(
            &ark_to_lib(&acc.into_affine()),
            true,
        );
        enc
    }

    fn bls12_381_mul_projective_g1(base: Vec<u8>, scalar: Vec<u8>) -> Vec<u8> {
        Self::bls12_381_mul_affine_g1(base, scalar)
    }

    fn bls12_381_mul_affine_g1(base: Vec<u8>, scalar: Vec<u8>) -> Vec<u8> {
        let p = lib_to_ark(
            &sub_bls12_381::g1::Parameters::deserialize_with_mode(&base, true, false).unwrap(),
        );
        let k = ark_bls12_381::Fr::deserialize_compressed(&scalar[..]).unwrap();
        let r = (p * k).into_affine();
        sub_bls12_381::g1::Parameters::serialize_with_mode(&ark_to_lib(&r), true)
    }

    fn bls12_381_msm_g2(bases: Vec<Vec<u8>>, scalars: Vec<Vec<u8>>) -> Vec<u8> {
        let mut acc = <ark_bls12_381::G2Projective as ark_std::Zero>::zero();
        for (b, s) in bases.iter().zip(scalars.iter()) {
            let p = g2_lib_to_ark(
                &sub_bls12_381::g2::Parameters::deserialize_with_mode(b, true).unwrap(),
            );
            let k = ark_bls12_381::Fr::deserialize_compressed(&s[..]).unwrap();
            acc = acc + p * k;
        }
        sub_bls12_381::g2::Parameters::serialize_with_mode(&g2_ark_to_lib(&acc.into_affine()), true)
    }

    fn bls12_381_mul_projective_g2(base: Vec<u8>, scalar: Vec<u8>) -> Vec<u8> {
        Self::bls12_381_mul_affine_g2(base, scalar)
    }

    fn bls12_381_mul_affine_g2(base: Vec<u8>, scalar: Vec<u8>) -> Vec<u8> {
        let p = g2_lib_to_ark(
            &sub_bls12_381::g2::Parameters::deserialize_with_mode(&base, true).unwrap(),
        );
        let k = ark_bls12_381::Fr::deserialize_compressed(&scalar[..]).unwrap();
        sub_bls12_381::g2::Parameters::serialize_with_mode(
            &g2_ark_to_lib(&(p * k).into_affine()),
            true,
        )
    }
}

/// A broken provider that answers every request with five bytes.
struct BadHost;

impl HostFunctions for BadHost {
    fn bls12_381_multi_miller_loop(_a: Vec<Vec<u8>>, _b: Vec<Vec<u8>>) -> Vec<u8> {
        vec![1, 2, 3, 4, 5]
    }

    fn bls12_381_final_exponentiation(_f12: Vec<u8>) -> Vec<u8> {
        vec![1, 2, 3, 4, 5]
    }

    fn bls12_381_msm_g1(_bases: Vec<Vec<u8>>, _scalars: Vec<Vec<u8>>) -> Vec<u8> {
        vec![1, 2, 3, 4, 5]
    }

    fn bls12_381_mul_projective_g1(_base: Vec<u8>, _scalar: Vec<u8>) -> Vec<u8> {
        vec![1, 2, 3, 4, 5]
    }

    fn bls12_381_mul_affine_g1(_base: Vec<u8>, _scalar: Vec<u8>) -> Vec<u8> {
        vec![1, 2, 3, 4, 5]
    }

    fn bls12_381_msm_g2(_bases: Vec<Vec<u8>>, _scalars: Vec<Vec<u8>>) -> Vec<u8> {
        vec![1, 2, 3, 4, 5]
    }

    fn bls12_381_mul_projective_g2(_base: Vec<u8>, _scalar: Vec<u8>) -> Vec<u8> {
        vec![1, 2, 3, 4, 5]
    }

    fn bls12_381_mul_affine_g2(_base: Vec<u8>, _scalar: Vec<u8>) -> Vec<u8> {
        vec![1, 2, 3, 4, 5]
    }
}

fn sample_unchecked() -> ark_bls12_381::G1Affine {
    let mut rng = ark_std::test_rng();
    loop {
        let x = ark_bls12_381::Fq::rand(&mut rng);
        let greatest = rng.gen();
        if let Some(p) = ark_bls12_381::G1Affine::get_point_from_x_unchecked(x, greatest) {
            return p;
        }
    }
}

fn sample_many(n: usize) -> Vec<ark_bls12_381::G1Affine> {
    let mut rng = ark_std::test_rng();
    let mut out = Vec::new();
    while out.len() < n {
        let x = ark_bls12_381::Fq::rand(&mut rng);
        let greatest = rng.gen();
        if let Some(p) = ark_bls12_381::G1Affine::get_point_from_x_unchecked(x, greatest) {
            out.push(p);
        }
    }
    out
}

fn is_on_curve_lib(p: &G1Affine) -> bool {
    sub_bls12_381::g1::g1_is_on_curve(p)
}

#[test]
fn test_cofactor_clearing() {
    const SAMPLES: usize = 100;
    for p in sample_many(SAMPLES) {
        let p = ark_to_lib(&p);
        let p = sub_bls12_381::g1::Parameters::clear_cofactor::<GoodHost>(&p).unwrap();
        assert!(is_on_curve_lib(&p));
        assert!(sub_bls12_381::g1::Parameters::is_in_correct_subgroup_assuming_on_curve(&p));
    }
}

#[test]
fn test_round_trip_generator() {
    let g = g1_generator();
    for compress in [true, false] {
        let enc = sub_bls12_381::g1::Parameters::serialize_with_mode(&g, compress);
        assert_eq!(enc.len(), if compress { 48 } else { 96 });
        let back =
            sub_bls12_381::g1::Parameters::deserialize_with_mode(&enc, compress, true).unwrap();
        assert!(g1_eq(&back, &g));
        assert_eq!(back, g);
    }
}

#[test]
fn test_identity_round_trip_and_zero_bytes() {
    let id = G1Affine {
        infinity: true,
        x: vec![0u8; 48],
        y: vec![0u8; 48],
    };
    for compress in [true, false] {
        let enc = sub_bls12_381::g1::Parameters::serialize_with_mode(&id, compress);
        for (i, b) in enc.iter().enumerate() {
            if i == 47 {
                assert_eq!(*b, if compress { 0xc0 } else { 0x40 });
            } else {
                assert_eq!(*b, 0);
            }
        }
        let back =
            sub_bls12_381::g1::Parameters::deserialize_with_mode(&enc, compress, false).unwrap();
        assert!(back.infinity);
    }
}

#[test]
fn test_compressed_generator_scenario() {
    // The generator's y is the lexicographically smaller root, so the sign
    // bit is clear: flags are {compressed, not infinity, sign 0}.
    let g = g1_generator();
    let enc = sub_bls12_381::g1::Parameters::serialize_with_mode(&g, true);
    assert_eq!(enc.len(), 48);
    assert_eq!(enc[47] & 0xe0, 0x80);
    let back = sub_bls12_381::g1::Parameters::deserialize_with_mode(&enc, true, true).unwrap();
    assert_eq!(back, g);
}

#[test]
fn test_sign_bit_flip_negates() {
    let g = g1_generator();
    let mut enc = sub_bls12_381::g1::Parameters::serialize_with_mode(&g, true);
    enc[47] ^= 0x20;
    let back = sub_bls12_381::g1::Parameters::deserialize_with_mode(&enc, true, false).unwrap();
    let neg = sub_bls12_381::g1::g1_neg(&g);
    assert!(g1_eq(&back, &neg));
    let expected = (-lib_to_ark(&g)).y;
    assert_eq!(back.y, fq_to_bytes(&expected));
}

#[test]
fn test_generator_sanity() {
    let g = g1_generator();
    assert!(is_on_curve_lib(&g));
    assert!(sub_bls12_381::g1::Parameters::is_in_correct_subgroup_assuming_on_curve(&g));
    // Twist instance: the fixed generator satisfies the twist curve equation.
    let g2 = ark_bls12_381::G2Affine::generator();
    let lib_g2 = g2_ark_to_lib(&g2);
    assert!(!lib_g2.infinity);
}

#[test]
fn test_subgroup_closure() {
    let g = lib_to_ark(&g1_generator());
    for k in [1u64, 2, 3, 5, 1000, 0xffff_ffff_ffff_ffff] {
        let p = (g * ark_bls12_381::Fr::from(k)).into_affine();
        let lp = ark_to_lib(&p);
        assert!(sub_bls12_381::g1::Parameters::is_in_correct_subgroup_assuming_on_curve(&lp));
    }
}

#[test]
fn test_random_point_usually_not_in_subgroup() {
    let p = sample_unchecked();
    let lp = ark_to_lib(&p);
    let member = sub_bls12_381::g1::Parameters::is_in_correct_subgroup_assuming_on_curve(&lp);
    // The deterministic sample lies outside the prime-order subgroup.
    assert!(!member);
    let enc = sub_bls12_381::g1::Parameters::serialize_with_mode(&lp, true);
    let res = sub_bls12_381::g1::Parameters::deserialize_with_mode(&enc, true, true);
    assert_eq!(res.unwrap_err(), Error::NotInSubgroup);
}

#[test]
fn test_endomorphism_multiplies_x_by_beta() {
    let g = g1_generator();
    let e = endomorphism(&g);
    assert_ne!(e.x, g.x);
    assert_eq!(e.y, g.y);
    let beta = fq_from_bytes(&sub_bls12_381::field::beta_le_bytes());
    let expected = fq_from_bytes(&g.x) * beta;
    assert_eq!(e.x, fq_to_bytes(&expected));
}

#[test]
fn test_one_minus_x_value() {
    let s = one_minus_x(X_IS_NEGATIVE, &vec![X_LIMB]);
    // 1 - (-0xd201000000010000) = 0xd201000000010001.
    let mut expected = vec![0u8; 32];
    expected[0] = 0x01;
    expected[1] = 0x00;
    expected[2] = 0x01;
    expected[3] = 0x00;
    expected[4] = 0x00;
    expected[5] = 0x00;
    expected[6] = 0x01;
    expected[7] = 0xd2;
    assert_eq!(s.bytes, expected);
}

#[test]
fn test_decode_error_variants() {
    // Wrong length.
    let short = vec![0u8; 47];
    assert_eq!(
        sub_bls12_381::g1::Parameters::deserialize_with_mode(&short, true, false).unwrap_err(),
        Error::MalformedEncoding
    );
    // Compression flag disagrees with the requested mode.
    let g = g1_generator();
    let enc = sub_bls12_381::g1::Parameters::serialize_with_mode(&g, false);
    let mut wrong = enc.clone();
    wrong.truncate(48);
    assert_eq!(
        sub_bls12_381::g1::Parameters::deserialize_with_mode(&wrong, true, false).unwrap_err(),
        Error::MalformedEncoding
    );
    // Non-canonical x: the modulus itself, compressed flag set.
    let mut noncanon = sub_bls12_381::field::p_modulus_le_bytes();
    noncanon[47] |= 0x80;
    assert_eq!(
        sub_bls12_381::g1::Parameters::deserialize_with_mode(&noncanon, true, false).unwrap_err(),
        Error::MalformedEncoding
    );
    // Infinity flag with a non-zero coordinate.
    let mut inf_bad = vec![0u8; 48];
    inf_bad[0] = 1;
    inf_bad[47] = 0xc0;
    assert_eq!(
        sub_bls12_381::g1::Parameters::deserialize_with_mode(&inf_bad, true, false).unwrap_err(),
        Error::MalformedEncoding
    );
    // Sign bit together with the infinity flag.
    let mut inf_sign = vec![0u8; 48];
    inf_sign[47] = 0xe0;
    assert_eq!(
        sub_bls12_381::g1::Parameters::deserialize_with_mode(&inf_sign, true, false).unwrap_err(),
        Error::MalformedEncoding
    );
    // Sign bit on an uncompressed encoding.
    let mut unc = sub_bls12_381::g1::Parameters::serialize_with_mode(&g, false);
    unc[47] |= 0x20;
    assert_eq!(
        sub_bls12_381::g1::Parameters::deserialize_with_mode(&unc, false, false).unwrap_err(),
        Error::MalformedEncoding
    );
    // An x whose curve equation has no square root.
    let mut found = false;
    for k in 1u8..40 {
        let mut b = vec![0u8; 48];
        b[0] = k;
        b[47] = 0x80;
        match sub_bls12_381::g1::Parameters::deserialize_with_mode(&b, true, false) {
            Err(e) => {
                assert_eq!(e, Error::NotOnCurve);
                found = true;
                break;
            }
            Ok(_) => {}
        }
    }
    assert!(found);
    // Off-curve (x, y) in the uncompressed form.
    let mut bad_y = sub_bls12_381::g1::Parameters::serialize_with_mode(&g, false);
    bad_y[48] ^= 1;
    assert_eq!(
        sub_bls12_381::g1::Parameters::deserialize_with_mode(&bad_y, false, false).unwrap_err(),
        Error::NotOnCurve
    );
}

#[test]
fn test_provider_contract_violation() {
    let g = g1_generator();
    let r = sub_bls12_381::g1::Parameters::msm::<BadHost>(&vec![g.clone()], &vec![]);
    assert_eq!(r.unwrap_err(), Error::ProviderContractViolation);
    let r = sub_bls12_381::g1::Parameters::mul_affine::<BadHost>(&g, &vec![2u64]);
    assert_eq!(r.unwrap_err(), Error::ProviderContractViolation);
    let r = sub_bls12_381::g1::Parameters::clear_cofactor::<BadHost>(&g);
    assert_eq!(r.unwrap_err(), Error::ProviderContractViolation);
    let r = sub_bls12_381::pairing::Parameters::multi_miller_loop::<BadHost>(
        &vec![g],
        &vec![],
    );
    assert_eq!(r.unwrap_err(), Error::ProviderContractViolation);
}

#[test]
fn test_msm_and_mul_match_direct_arithmetic() {
    let g = g1_generator();
    let k = ark_bls12_381::Fr::from(7u64);
    let mut kb = Vec::new();
    k.serialize_compressed(&mut kb).unwrap();
    let s: Scalar = scalar_from_bytes(kb).unwrap();
    let r = sub_bls12_381::g1::Parameters::msm::<GoodHost>(&vec![g.clone()], &vec![s]).unwrap();
    let expected = ark_to_lib(&(lib_to_ark(&g) * ark_bls12_381::Fr::from(7u64)).into_affine());
    assert!(g1_eq(&r, &expected));
    let r2 = sub_bls12_381::g1::Parameters::mul_affine::<GoodHost>(&g, &vec![7u64]).unwrap();
    assert!(g1_eq(&r2, &expected));
    let r3 = sub_bls12_381::g1::Parameters::mul_projective::<GoodHost>(&g, &vec![7u64]).unwrap();
    assert!(g1_eq(&r3, &expected));
}

#[test]
fn test_scalar_from_bytes_bounds() {
    assert!(scalar_from_bytes(vec![0u8; 31]).is_none());
    assert!(scalar_from_bytes(vec![0u8; 32]).is_some());
    // The subgroup order itself is rejected.
    let r_bytes = sub_bls12_381::field::r_modulus_le_bytes();
    assert!(scalar_from_bytes(r_bytes).is_none());
}

#[test]
fn test_cofactor_inverse_invariant() {
    // cofactor * cofactor_inv = 1 (mod r).
    let limbs = sub_bls12_381::g1::cofactor();
    let h = ark_bls12_381::Fr::from_sign_and_limbs(true, &limbs);
    let hinv =
        ark_bls12_381::Fr::deserialize_compressed(&sub_bls12_381::g1::cofactor_inv_le_bytes()[..])
            .unwrap();
    assert_eq!(h * hinv, ark_bls12_381::Fr::from(1u64));
}

#[test]
fn test_mul_by_a_is_zero() {
    let g = g1_generator();
    let r = sub_bls12_381::g1::Parameters::mul_by_a(&g.x);
    assert_eq!(r, vec![0u8; 48]);
    assert_eq!(sub_bls12_381::g1::Parameters::serialized_size(true), 48);
    assert_eq!(sub_bls12_381::g1::Parameters::serialized_size(false), 96);
    assert_eq!(sub_bls12_381::g2::Parameters::serialized_size(true), 96);
}

#[test]
fn test_pairing_delegation() {
    let g1 = g1_generator();
    let g2 = g2_ark_to_lib(&ark_bls12_381::G2Affine::generator());
    let enc2 = sub_bls12_381::g2::Parameters::serialize_with_mode(&g2, true);
    assert_eq!(enc2.len(), 96);
    assert_eq!(enc2[95] & 0xc0, 0x80);
    let f = sub_bls12_381::pairing::Parameters::multi_miller_loop::<GoodHost>(
        &vec![g1],
        &vec![g2],
    )
    .unwrap();
    assert_eq!(f.bytes.len(), 576);
    let e = sub_bls12_381::pairing::Parameters::final_exponentiation::<GoodHost>(&f).unwrap();
    assert_eq!(e.bytes.len(), 576);
    // The pairing of the generators is not the identity of the target group.
    let expected = ark_bls12_381::Bls12_381::pairing(
        ark_bls12_381::G1Affine::generator(),
        ark_bls12_381::G2Affine::generator(),
    );
    let mut buf = Vec::new();
    expected.0.serialize_compressed(&mut buf).unwrap();
    assert_eq!(e.bytes, buf);
}

#[test]
fn test_g2_round_trip_generator() {
    let g = g2_ark_to_lib(&ark_bls12_381::G2Affine::generator());
    for compress in [true, false] {
        let enc = sub_bls12_381::g2::Parameters::serialize_with_mode(&g, compress);
        assert_eq!(enc.len(), if compress { 96 } else { 192 });
        let back = sub_bls12_381::g2::Parameters::deserialize_with_mode(&enc, compress).unwrap();
        assert_eq!(back, g);
    }
}

#[test]
fn test_g2_identity_round_trip() {
    let id = sub_bls12_381::g2::g2_identity();
    for compress in [true, false] {
        let enc = sub_bls12_381::g2::Parameters::serialize_with_mode(&id, compress);
        for (i, b) in enc.iter().enumerate() {
            if i == 95 {
                assert_eq!(*b, if compress { 0xc0 } else { 0x40 });
            } else {
                assert_eq!(*b, 0);
            }
        }
        let back = sub_bls12_381::g2::Parameters::deserialize_with_mode(&enc, compress).unwrap();
        assert!(back.infinity);
    }
}

#[test]
fn test_g2_delegated_multiplication() {
    let g = g2_ark_to_lib(&ark_bls12_381::G2Affine::generator());
    let expected = g2_ark_to_lib(
        &(ark_bls12_381::G2Affine::generator() * ark_bls12_381::Fr::from(11u64)).into_affine(),
    );
    let r = sub_bls12_381::g2::Parameters::mul_affine::<GoodHost>(&g, &vec![11u64]).unwrap();
    assert_eq!(r, expected);
    let k = ark_bls12_381::Fr::from(11u64);
    let mut kb = Vec::new();
    k.serialize_compressed(&mut kb).unwrap();
    let s: Scalar = scalar_from_bytes(kb).unwrap();
    let r2 = sub_bls12_381::g2::Parameters::msm::<GoodHost>(&vec![g], &vec![s]).unwrap();
    assert_eq!(r2, expected);
    let bad = sub_bls12_381::g2::Parameters::mul_affine::<BadHost>(
        &g2_ark_to_lib(&ark_bls12_381::G2Affine::generator()),
        &vec![2u64],
    );
    assert_eq!(bad.unwrap_err(), Error::ProviderContractViolation);
}

#[test]
fn test_g2_decode_errors() {
    assert_eq!(
        sub_bls12_381::g2::Parameters::deserialize_with_mode(&vec![0u8; 95], true).unwrap_err(),
        Error::MalformedEncoding
    );
    let g = g2_ark_to_lib(&ark_bls12_381::G2Affine::generator());
    let mut enc = sub_bls12_381::g2::Parameters::serialize_with_mode(&g, false);
    enc[96] ^= 1;
    assert_eq!(
        sub_bls12_381::g2::Parameters::deserialize_with_mode(&enc, false).unwrap_err(),
        Error::NotOnCurve
    );
}
