use nostringer::hex::{hex_decode, hex_encode};
use nostringer::point::Point;
use nostringer::scalar::Scalar;
use nostringer::types::{hex_to_scalar, scalar_to_hex, Error};
use nostringer::utils::{hex_to_point, hex_to_ring, random_non_zero_scalar, SystemRng};
use rand::rngs::OsRng;

const ORDER: &str = "fffffffffffffffffffffffffffffffebaaedce6af48a03bbfd25e8cd0364141";
const ORDER_LESS_3: &str = "fffffffffffffffffffffffffffffffebaaedce6af48a03bbfd25e8cd036413e";
const TWICE_G_X: &str = "c6047f9441ed7d6d3045406e95c07cd85c778e4b8cef3ca7abac09b95c709ee5";
const TWICE_G_Y: &str = "1ae168fea63dc339a3c58419466ceaeef7f632653266d0e1236431a950cfe52a";

fn small(value: u8) -> Scalar {
    let mut bytes = [0u8; 32];
    bytes[31] = value;
    Scalar::from_repr(bytes).unwrap()
}

fn multiple(value: u8) -> Point {
    Point::generator().mul(&small(value))
}

#[test]
fn scalars_wrap_round_the_order() {
    assert_eq!(scalar_to_hex(&small(3).negate()), ORDER_LESS_3);
    assert_eq!(Scalar::zero().negate(), Scalar::zero());
    assert_eq!(small(4).sub(&small(7)), small(3).negate());
    assert_eq!(small(9).sub(&small(7)), small(2));
    assert_eq!(small(6).mul(&small(7)), small(42));
    assert_eq!(small(1).negate().mul(&small(2).negate()), small(2));
}

#[test]
fn scalars_are_reduced_when_read() {
    let order: [u8; 32] = hex_decode(ORDER).unwrap().try_into().unwrap();
    assert_eq!(Scalar::from_repr(order), None);
    assert_eq!(Scalar::reduce(&order), Scalar::zero());
    assert_eq!(
        scalar_to_hex(&Scalar::reduce(&[0xff; 32])),
        "000000000000000000000000000000014551231950b75fc4402da1732fc9bebe"
    );
    let mut seven = [0u8; 32];
    seven[31] = 7;
    assert_eq!(Scalar::reduce(&seven), small(7));
    assert_eq!(small(7).to_repr(), seven);
}

#[test]
fn scalars_are_compared_and_selected() {
    assert!(small(7).ct_eq(&small(7)));
    assert!(!small(7).ct_eq(&small(8)));
    assert_eq!(Scalar::conditional_select(&small(1), &small(2), false), small(1));
    assert_eq!(Scalar::conditional_select(&small(1), &small(2), true), small(2));
}

#[test]
fn points_form_a_group() {
    assert_eq!(multiple(2).add(&multiple(3)), multiple(5));
    assert_eq!(multiple(2).mul(&small(3)), multiple(6));
    assert_eq!(multiple(5).add(&Point::identity()), multiple(5));
    assert!(multiple(5).add(&multiple(5).mul(&small(1).negate())).is_identity());
    assert!(multiple(0).is_identity());
    assert_eq!(multiple(0), Point::identity());
    assert!(!Point::generator().is_identity());
    assert!(multiple(6).same(&multiple(3).add(&multiple(3))));
    assert!(!multiple(6).same(&multiple(7)));
}

#[test]
fn points_are_encoded_and_read_back() {
    assert_eq!(hex_encode(&multiple(2).to_sec1()), format!("02{}", TWICE_G_X));
    assert_eq!(Point::from_sec1(&multiple(2).to_sec1()), Some(multiple(2)));
    assert_eq!(multiple(6).to_sec1()[0], 3);
    assert_eq!(Point::from_sec1(&multiple(6).to_sec1()), Some(multiple(6)));
    assert_eq!(Point::identity().to_sec1(), vec![0]);
    assert_eq!(Point::from_sec1(&[0]), Some(Point::identity()));
    let mut compact = multiple(2).to_sec1();
    compact[0] = 5;
    assert_eq!(Point::from_sec1(&compact), Some(multiple(2)));
    assert_eq!(Point::from_sec1(&[]), None);
    assert_eq!(Point::from_sec1(&[0; 33]), None);
}

#[test]
fn public_keys_are_read_in_three_formats() {
    let two = multiple(2);
    assert_eq!(hex_to_point(TWICE_G_X), Ok(two));
    assert_eq!(hex_to_point(&format!("02{}", TWICE_G_X)), Ok(two));
    assert_eq!(hex_to_point(&format!("02{}", TWICE_G_X.to_uppercase())), Ok(two));
    assert_eq!(hex_to_point(&format!("04{}{}", TWICE_G_X, TWICE_G_Y)), Ok(two));
    assert_eq!(
        hex_to_point(&format!("03{}", TWICE_G_X)),
        Ok(two.mul(&small(1).negate()))
    );
}

#[test]
fn malformed_public_keys_are_refused() {
    let not_hex = Error::PublicKeyFormat("Public key is not a hex string".to_string());
    let wrong_size = Error::PublicKeyFormat("Public key is not 32, 33 or 65 bytes".to_string());
    let off_curve = Error::PublicKeyFormat("Public key is not on the curve".to_string());
    assert_eq!(hex_to_point("0g"), Err(not_hex.clone()));
    assert_eq!(hex_to_point("é"), Err(not_hex.clone()));
    assert_eq!(hex_to_point("0"), Err(not_hex));
    assert_eq!(hex_to_point(""), Err(wrong_size.clone()));
    assert_eq!(hex_to_point("00"), Err(wrong_size));
    assert_eq!(hex_to_point(&format!("{:064x}", 5)), Err(off_curve.clone()));
    assert_eq!(hex_to_point(&format!("04{}{}", TWICE_G_X, TWICE_G_X)), Err(off_curve.clone()));
    assert_eq!(hex_to_point(&format!("06{}", TWICE_G_X)), Err(off_curve.clone()));
    assert_eq!(hex_to_point(&"ff".repeat(32)), Err(off_curve));
}

#[test]
fn rings_are_read_member_by_member() {
    let keys = vec![TWICE_G_X.to_string(), format!("03{}", TWICE_G_X)];
    assert_eq!(hex_to_ring(&keys), Ok(vec![multiple(2), multiple(2).mul(&small(1).negate())]));
    assert_eq!(hex_to_ring(&[]), Ok(vec![]));
    let bad = vec![TWICE_G_X.to_string(), "00".to_string(), "zz".to_string()];
    assert_eq!(
        hex_to_ring(&bad),
        Err(Error::PublicKeyFormat("Public key is not 32, 33 or 65 bytes".to_string()))
    );
}

#[test]
fn scalars_in_hex_round_trip() {
    assert_eq!(hex_to_scalar(ORDER_LESS_3), Ok(small(3).negate()));
    assert_eq!(hex_to_scalar(&scalar_to_hex(&small(200))), Ok(small(200)));
    assert_eq!(
        hex_to_scalar("5"),
        Err(Error::PrivateKeyFormat("Scalar is not a hex string".to_string()))
    );
    assert_eq!(
        hex_to_scalar("05"),
        Err(Error::PrivateKeyFormat("Scalar is not 32 bytes".to_string()))
    );
    assert_eq!(
        hex_to_scalar(ORDER),
        Err(Error::PrivateKeyFormat("Scalar is not below the group order".to_string()))
    );
}

#[test]
fn bytes_in_hex_round_trip() {
    let bytes: Vec<u8> = (0..=255).collect();
    assert_eq!(hex_decode(&hex_encode(&bytes)), Some(bytes));
    assert_eq!(hex_encode(&[0x00, 0x1f, 0xa0]), "001fa0");
    assert_eq!(hex_decode("001Fa0"), Some(vec![0x00, 0x1f, 0xa0]));
    assert_eq!(hex_decode(""), Some(vec![]));
    assert_eq!(hex_decode("abc"), None);
    assert_eq!(hex_decode("a:"), None);
}

#[test]
fn drawn_scalars_are_not_zero() {
    let mut rng = SystemRng::new(OsRng);
    let one = random_non_zero_scalar(&mut rng);
    let other = random_non_zero_scalar(&mut rng);
    assert!(!one.ct_eq(&Scalar::zero()));
    assert!(!other.ct_eq(&Scalar::zero()));
    assert!(!one.ct_eq(&other));
}

#[test]
fn the_generator_has_its_documented_bytes() {
    let digits = "0279be667ef9dcbbac55a06295ce870b07029bfcdb2dce28d959f2815b16f81798";
    assert_eq!(hex_encode(&Point::generator().to_sec1()), digits);
    assert_eq!(hex_to_point(digits), Ok(Point::generator()));
    assert_eq!(hex_to_point(&digits[2..]), Ok(Point::generator()));
}

#[test]
fn encodings_have_one_length() {
    for k in 1..=20 {
        assert_eq!(multiple(k).to_sec1().len(), 33);
    }
}
