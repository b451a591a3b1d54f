use k256::elliptic_curve::sec1::ToEncodedPoint;
use k256::{NonZeroScalar, ProjectivePoint};
use nostringer::hex::hex_encode;
use nostringer::open_ring::OpenRing;
use nostringer::point::Point;
use nostringer::sag::{
    close_ring, hash_to_scalar, locate_signer, sign, sign_binary, sign_binary_with_nonces,
    sign_with_rng, verify, verify_binary,
};
use nostringer::scalar::Scalar;
use nostringer::types::{hex_to_scalar, scalar_to_hex, Error, RingSignature, RingSignatureBinary};
use nostringer::utils::{hex_to_point, SystemRng};
use rand::rngs::OsRng;

fn system_rng() -> SystemRng {
    SystemRng::new(OsRng)
}

struct KeyPairHex {
    private_key_hex: String,
    public_key_hex: String,
}

fn generate_keypair_hex(format: &str) -> KeyPairHex {
    let secret = NonZeroScalar::random(&mut OsRng);
    let public = ProjectivePoint::GENERATOR * *secret;
    let encoded = public.to_encoded_point(format != "uncompressed");
    let bytes = if format == "xonly" { &encoded.as_bytes()[1..] } else { encoded.as_bytes() };
    KeyPairHex {
        private_key_hex: hex_encode(&secret.to_bytes()),
        public_key_hex: hex_encode(bytes),
    }
}

fn generate_keypairs(count: usize, format: &str) -> Vec<KeyPairHex> {
    (0..count).map(|_| generate_keypair_hex(format)).collect()
}

fn setup_test_ring(ring_size: usize) -> (Vec<Point>, Scalar, usize) {
    let keypairs_hex = generate_keypairs(ring_size, "compressed");
    let ring_pubkeys: Vec<Point> =
        keypairs_hex.iter().map(|kp| hex_to_point(&kp.public_key_hex).unwrap()).collect();
    let signer_index = ring_size / 2;
    let signer_priv = hex_to_scalar(&keypairs_hex[signer_index].private_key_hex).unwrap();
    (ring_pubkeys, signer_priv, signer_index)
}

fn small(value: u64) -> Scalar {
    let mut bytes = [0u8; 32];
    bytes[24..].copy_from_slice(&value.to_be_bytes());
    Scalar::from_repr(bytes).unwrap()
}

fn multiple(value: u64) -> Point {
    Point::generator().mul(&small(value))
}

fn hex_scalar(digits: &str) -> Scalar {
    hex_to_scalar(digits).unwrap()
}

#[test]
fn test_hash_for_challenge_consistency() {
    let message = b"test message";
    let ephemeral_placeholder = Point::generator();
    let point1 = Point::generator();
    let point2 = Point::generator().mul(&small(2));
    let ring1 = &[point1];
    let ring2 = &[point2];
    let ring_both = &[point1, point2];

    // Test with consistent inputs
    let hash1 = hash_to_scalar(message, ring1, &ephemeral_placeholder).unwrap();
    let hash2 = hash_to_scalar(message, ring1, &ephemeral_placeholder).unwrap();
    assert_eq!(hash1, hash2, "Hashing should be deterministic");

    // Test with different message
    let hash3 = hash_to_scalar(b"different message", ring1, &ephemeral_placeholder).unwrap();
    assert_ne!(hash1, hash3, "Hash should differ for different messages");

    // Test with different ring
    let hash4 = hash_to_scalar(message, ring2, &ephemeral_placeholder).unwrap();
    assert_ne!(hash1, hash4, "Hash should differ for different ring keys");

    // Test with different ring size/composition
    let hash5 = hash_to_scalar(message, ring_both, &ephemeral_placeholder).unwrap();
    assert_ne!(hash1, hash5, "Hash should differ for different ring sizes/keys");

    // Test with different ephemeral point
    let ephemeral_different = Point::generator().mul(&small(3));
    let hash6 = hash_to_scalar(message, ring1, &ephemeral_different).unwrap();
    assert_ne!(hash1, hash6, "Hash should differ for different ephemeral points");
}

#[test]
fn test_sign_binary_errors() {
    let (ring_pubkeys, signer_priv, _signer_index) = setup_test_ring(3);
    let message = b"test errors";

    // Ring too small
    let small_ring = vec![ring_pubkeys[0]];
    let result_small = sign_binary(message, &signer_priv, &small_ring, &mut system_rng());
    assert!(matches!(result_small, Err(Error::RingTooSmall(1))));

    // Signer not in ring
    let outsider_kp = generate_keypair_hex("compressed");
    let outsider_priv = hex_to_scalar(&outsider_kp.private_key_hex).unwrap();
    let result_outsider = sign_binary(message, &outsider_priv, &ring_pubkeys, &mut system_rng());
    assert!(matches!(result_outsider, Err(Error::SignerNotInRing)));

    // Identity point in the ring
    let mut ring_with_identity = ring_pubkeys.clone();
    ring_with_identity.push(Point::identity());
    let result_identity =
        sign_binary(message, &signer_priv, &ring_with_identity, &mut system_rng());
    assert!(result_identity.is_ok() || result_identity.is_err());
}

#[test]
fn test_verify_binary_errors() {
    let (ring_pubkeys, signer_priv, _signer_index) = setup_test_ring(3);
    let message = b"test verify errors";
    let signature = sign_binary(message, &signer_priv, &ring_pubkeys, &mut system_rng()).unwrap();

    // Empty ring
    let result_empty = verify_binary(&signature, message, &[]);
    assert!(matches!(result_empty, Ok(false)));

    // Signature length mismatch
    let mut short_signature = signature.clone();
    short_signature.s.pop();
    let result_short = verify_binary(&short_signature, message, &ring_pubkeys);
    assert!(matches!(result_short, Err(Error::InvalidSignatureFormat)));

    let mut long_signature = signature.clone();
    long_signature.s.push(Scalar::one());
    let result_long = verify_binary(&long_signature, message, &ring_pubkeys);
    assert!(matches!(result_long, Err(Error::InvalidSignatureFormat)));

    // Verification failure (wrong message)
    let result_wrong_msg = verify_binary(&signature, b"wrong message", &ring_pubkeys);
    assert!(matches!(result_wrong_msg, Ok(false)));

    // Verification failure (wrong ring)
    let (ring2, _, _) = setup_test_ring(3);
    let result_wrong_ring = verify_binary(&signature, message, &ring2);
    assert!(matches!(result_wrong_ring, Ok(false)));
}

#[test]
fn challenge_has_the_expected_value() {
    let ring = [Point::generator()];
    let hash = hash_to_scalar(b"test message", &ring, &Point::generator()).unwrap();
    assert_eq!(
        scalar_to_hex(&hash),
        "47ca0aae5d64e4fef2a98c3aeed379c9ca31a085101aa085ac6424030ef846a0"
    );
}

#[test]
fn hashing_refuses_the_identity() {
    let in_ring = [Point::generator(), Point::identity()];
    let expected_ring = Error::PublicKeyFormat("Cannot hash identity point in ring".to_string());
    let expected_link = Error::PublicKeyFormat("Cannot hash identity ephemeral point".to_string());
    assert_eq!(hash_to_scalar(b"m", &in_ring, &Point::generator()), Err(expected_ring.clone()));
    assert_eq!(hash_to_scalar(b"m", &in_ring, &Point::identity()), Err(expected_ring));
    assert_eq!(hash_to_scalar(b"m", &[Point::generator()], &Point::identity()), Err(expected_link));
}

#[test]
fn signatures_have_the_expected_values() {
    let ring = [multiple(5), multiple(7), multiple(11)];
    let nonces = [small(1001), small(1002), small(1003)];
    let expected = [
        (
            5,
            "777a0ae201e9e078e4de1d57dbdeab2a0078a5a7bd681ae01ab0cedddbfe82b5",
            [
                hex_scalar("aa9dc995f66e9da387a96d48b4a6a82a2db15a6d5ad15a52ba03115124aa3a23"),
                small(1002),
                small(1003),
            ],
        ),
        (
            7,
            "c76c2cb139ed58108cc710dac48d0915a4b19d2276fbc2ab0332e697f64dd3d9",
            [
                small(1003),
                hex_scalar("bea9ccab147bffa1f8356104764ca064d27a673aa3d9eb6f915982a5a22d15be"),
                small(1002),
            ],
        ),
        (
            11,
            "83ea4e781cb44ba2f5656528a0d608cd0e34970df9c91f0584a6540a52ac45de",
            [
                small(1002),
                small(1003),
                hex_scalar("e3125b2c89ef3388c9074d239f16a8debcc684ce8895b154c35197683b029c74"),
            ],
        ),
    ];
    for (key, c0, s) in expected {
        let signature = sign_binary_with_nonces(b"exact", &small(key), &ring, &nonces).unwrap();
        assert_eq!(signature.c0, hex_scalar(c0));
        assert_eq!(signature.s, s.to_vec());
        assert_eq!(verify_binary(&signature, b"exact", &ring), Ok(true));
    }
}

#[test]
fn what_is_signed_verifies_for_every_member() {
    let keys = [5u64, 7, 11, 13];
    let ring: Vec<Point> = keys.iter().map(|k| multiple(*k)).collect();
    for key in keys {
        let signature = sign_binary(b"hello", &small(key), &ring, &mut system_rng()).unwrap();
        assert_eq!(signature.s.len(), 4);
        assert_eq!(verify_binary(&signature, b"hello", &ring), Ok(true));
        assert_eq!(verify_binary(&signature, b"hullo", &ring), Ok(false));
        let mut tampered = signature.clone();
        tampered.s[2] = tampered.s[2].sub(&Scalar::one());
        assert_eq!(verify_binary(&tampered, b"hello", &ring), Ok(false));
    }
}

#[test]
fn a_key_and_its_negation_sign_alike() {
    let ring = [multiple(5), multiple(7)];
    let nonces = [small(21), small(22)];
    let signed = sign_binary_with_nonces(b"m", &small(7), &ring, &nonces);
    assert!(signed.is_ok());
    assert_eq!(sign_binary_with_nonces(b"m", &small(7).negate(), &ring, &nonces), signed);
    assert_eq!(locate_signer(&small(7), &ring), Ok((1, small(7))));
    assert_eq!(locate_signer(&small(7).negate(), &ring), Ok((1, small(7))));
}

#[test]
fn the_first_matching_member_signs() {
    let ring = [multiple(5), multiple(7).mul(&Scalar::one().negate()), multiple(7)];
    assert_eq!(locate_signer(&small(7), &ring), Ok((1, small(7).negate())));
}

#[test]
fn any_member_could_have_made_a_signature() {
    let ring = [multiple(5), multiple(7)];
    let signature = sign_binary(b"who", &small(5), &ring, &mut system_rng()).unwrap();
    // The second member's challenge and link, and the nonces that it would have used.
    let link0 = Point::generator().mul(&signature.s[0]).add(&ring[0].mul(&signature.c0));
    let c1 = hash_to_scalar(b"who", &ring, &link0).unwrap();
    let alpha = signature.s[1].sub(&c1.mul(&small(7)).negate());
    let nonces = [alpha, signature.s[0]];
    let other = sign_binary_with_nonces(b"who", &small(7), &ring, &nonces).unwrap();
    assert_eq!(other, signature);
}

#[test]
fn a_zero_key_is_refused() {
    let ring = [multiple(5), multiple(7)];
    assert_eq!(
        sign_binary(b"m", &Scalar::zero(), &ring, &mut system_rng()),
        Err(Error::PrivateKeyFormat("Private key scalar cannot be zero".to_string()))
    );
    // The size of the ring is looked at first.
    assert_eq!(
        sign_binary(b"m", &Scalar::zero(), &[], &mut system_rng()),
        Err(Error::RingTooSmall(0))
    );
}

#[test]
fn a_ring_with_the_identity_is_refused() {
    let ring = [multiple(5), Point::identity()];
    let expected = Error::PublicKeyFormat("Cannot hash identity point in ring".to_string());
    assert_eq!(sign_binary(b"m", &small(5), &ring, &mut system_rng()), Err(expected.clone()));
    let signature = RingSignatureBinary { c0: Scalar::one(), s: vec![small(1), small(2)] };
    assert_eq!(verify_binary(&signature, b"m", &ring), Err(expected));
}

#[test]
fn an_identity_link_is_refused() {
    let ring = [multiple(5), multiple(7)];
    let expected = Error::PublicKeyFormat("Cannot hash identity ephemeral point".to_string());
    let opening = [Scalar::zero(), small(1)];
    assert_eq!(
        sign_binary_with_nonces(b"m", &small(5), &ring, &opening),
        Err(expected.clone())
    );
    let c1 = hash_to_scalar(b"m", &ring, &multiple(3)).unwrap();
    let following = [small(3), c1.mul(&small(7)).negate()];
    assert_eq!(
        close_ring(b"m", &ring, 0, &small(5), &following),
        Err(expected.clone())
    );
    let signature = RingSignatureBinary { c0: small(2), s: vec![small(10).negate(), small(1)] };
    assert_eq!(verify_binary(&signature, b"m", &ring), Err(expected));
}

#[test]
fn hex_signatures_verify_in_every_key_format() {
    for format in ["xonly", "compressed", "uncompressed"] {
        let keypairs = generate_keypairs(4, format);
        let ring: Vec<String> = keypairs.iter().map(|kp| kp.public_key_hex.clone()).collect();
        for kp in &keypairs {
            let signature = sign(b"hello", &kp.private_key_hex, &ring).unwrap();
            assert_eq!(signature.c0.len(), 64);
            assert_eq!(signature.s.len(), 4);
            assert_eq!(verify(&signature, b"hello", &ring), Ok(true));
            assert_eq!(verify(&signature, b"other", &ring), Ok(false));
            let binary = signature.to_binary().unwrap();
            assert_eq!(RingSignature::from_binary(&binary), signature);
        }
    }
}

#[test]
fn hex_errors_come_in_order() {
    let good: Vec<String> = generate_keypairs(2, "compressed")
        .iter()
        .map(|kp| kp.public_key_hex.clone())
        .collect();
    let bad = vec![good[0].clone(), "zz".to_string(), "00".to_string()];
    let not_hex_key = Error::PublicKeyFormat("Public key is not a hex string".to_string());
    let not_hex_scalar = Error::PrivateKeyFormat("Scalar is not a hex string".to_string());
    let key = scalar_to_hex(&small(5));
    assert_eq!(sign(b"m", "xyz", &bad), Err(not_hex_scalar));
    assert_eq!(sign(b"m", &key, &bad), Err(not_hex_key.clone()));
    assert_eq!(sign(b"m", &key, &good), Err(Error::SignerNotInRing));
    assert_eq!(sign(b"m", &key, &good[..1]), Err(Error::RingTooSmall(1)));

    let unreadable = RingSignature { c0: key.clone(), s: vec!["5".to_string()] };
    assert_eq!(verify(&unreadable, b"m", &bad), Err(Error::InvalidSignatureFormat));
    let readable = RingSignature { c0: key.clone(), s: vec![key] };
    assert_eq!(verify(&readable, b"m", &bad), Err(not_hex_key));
    assert_eq!(verify(&readable, b"m", &good), Err(Error::InvalidSignatureFormat));
    assert_eq!(verify(&readable, b"m", &[]), Ok(false));
}

#[test]
fn hex_and_binary_verifying_say_the_same() {
    let keys: Vec<String> = [5u64, 7, 11]
        .iter()
        .map(|k| hex_encode(&multiple(*k).to_sec1()))
        .collect();
    let ring = [multiple(5), multiple(7), multiple(11)];
    let signature = sign_binary(b"m", &small(11), &ring, &mut system_rng()).unwrap();
    let written = RingSignature::from_binary(&signature);
    assert_eq!(verify(&written, b"m", &keys), verify_binary(&signature, b"m", &ring));
    assert_eq!(verify(&written, b"m", &keys), Ok(true));
    assert_eq!(verify(&written, b"n", &keys), verify_binary(&signature, b"n", &ring));
    assert_eq!(verify(&written, b"n", &keys), Ok(false));
    assert_eq!(written.to_binary(), Ok(signature));
}

#[test]
fn one_response_makes_a_link_the_identity() {
    let (p, c) = (multiple(7), small(9));
    let link = |s: &Scalar| Point::generator().mul(s).add(&p.mul(&c));
    let response = small(63).negate();
    assert!(link(&response).is_identity());
    assert!(!link(&response.sub(&Scalar::one())).is_identity());
    assert!(!link(&small(63)).is_identity());
}

#[test]
fn a_ring_is_gone_round_member_by_member() {
    let ring = [multiple(5), multiple(7), multiple(11)];
    let nonces = [small(1001), small(1002), small(1003)];
    let open = OpenRing::open(b"exact", &ring, 1, &nonces[0]).unwrap();
    assert!(!open.is_round());
    let open = open.pass(&nonces[1]).unwrap();
    assert!(!open.is_round());
    let open = open.pass(&nonces[2]).unwrap();
    assert!(open.is_round());
    let signature = open.close(&small(7));
    assert_eq!(Ok(signature.clone()), close_ring(b"exact", &ring, 1, &small(7), &nonces));
    assert_eq!(signature.s[1], hex_scalar(
        "bea9ccab147bffa1f8356104764ca064d27a673aa3d9eb6f915982a5a22d15be"
    ));
}

#[test]
fn an_open_ring_refuses_the_identity() {
    let in_ring = Error::PublicKeyFormat("Cannot hash identity point in ring".to_string());
    let ephemeral = Error::PublicKeyFormat("Cannot hash identity ephemeral point".to_string());
    let with_identity = [multiple(5), Point::identity()];
    assert_eq!(OpenRing::open(b"m", &with_identity, 0, &small(3)).err(), Some(in_ring));
    let ring = [multiple(5), multiple(7)];
    assert_eq!(
        OpenRing::open(b"m", &ring, 0, &Scalar::zero()).err(),
        Some(ephemeral.clone())
    );
    let c1 = hash_to_scalar(b"m", &ring, &multiple(3)).unwrap();
    let open = OpenRing::open(b"m", &ring, 0, &small(3)).unwrap();
    assert_eq!(open.pass(&c1.mul(&small(7)).negate()).err(), Some(ephemeral));
}

#[test]
fn further_nonces_are_not_looked_at() {
    let ring = [multiple(5), multiple(7)];
    let nonces = [small(21), small(22), small(23)];
    let signed = sign_binary_with_nonces(b"m", &small(7), &ring, &nonces[..2]);
    assert_eq!(sign_binary_with_nonces(b"m", &small(7), &ring, &nonces), signed);
}

#[test]
fn the_hash_tells_message_ring_and_link_apart() {
    let ring = [multiple(5), multiple(7)];
    let hash = hash_to_scalar(b"one", &ring, &multiple(3)).unwrap();
    let swapped = [multiple(7), multiple(5)];
    let longer = [multiple(5), multiple(7), multiple(7)];
    assert_eq!(hash_to_scalar(b"one", &ring, &multiple(3)), Ok(hash));
    assert_ne!(hash_to_scalar(b"two", &ring, &multiple(3)), Ok(hash));
    assert_ne!(hash_to_scalar(b"longer", &ring, &multiple(3)), Ok(hash));
    assert_ne!(hash_to_scalar(b"one", &swapped, &multiple(3)), Ok(hash));
    assert_ne!(hash_to_scalar(b"one", &longer, &multiple(3)), Ok(hash));
    assert_ne!(hash_to_scalar(b"one", &ring, &multiple(4)), Ok(hash));
}

#[test]
fn one_source_serves_many_signatures() {
    let mut rng = system_rng();
    let ring = [multiple(5), multiple(7), multiple(11)];
    let keys: Vec<String> = ring.iter().map(|p| hex_encode(&p.to_sec1())).collect();
    let first = sign_binary(b"m", &small(7), &ring, &mut rng).unwrap();
    let second = sign_binary(b"m", &small(7), &ring, &mut rng).unwrap();
    assert_ne!(first, second);
    assert_eq!(verify_binary(&first, b"m", &ring), Ok(true));
    assert_eq!(verify_binary(&second, b"m", &ring), Ok(true));
    let outsider = sign_binary(b"m", &small(6), &ring, &mut rng);
    assert_eq!(outsider, Err(Error::SignerNotInRing));
    let written = sign_with_rng(b"m", &scalar_to_hex(&small(7)), &keys, &mut rng).unwrap();
    assert_eq!(verify(&written, b"m", &keys), Ok(true));
    let outsider = sign_with_rng(b"m", &scalar_to_hex(&small(6)), &keys, &mut rng);
    assert_eq!(outsider, Err(Error::SignerNotInRing));
}
