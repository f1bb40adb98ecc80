use pasta_codec::field::{Fp, Fq};
use pasta_codec::point::{Compressed, EpAffine, EqAffine};
use pasta_codec::InvalidEncoding;

const P_BYTES: [u8; 32] = [
    0x01, 0x00, 0x00, 0x00, 0xed, 0x30, 0x2d, 0x99, 0x1b, 0xf9, 0x4c, 0x09, 0xfc, 0x98, 0x46, 0x22,
    0x00, 0x00, 0x00, 0x00, 0x00, 0x00, 0x00, 0x00, 0x00, 0x00, 0x00, 0x00, 0x00, 0x00, 0x00, 0x40,
];

const Q_BYTES: [u8; 32] = [
    0x01, 0x00, 0x00, 0x00, 0x21, 0xeb, 0x46, 0x8c, 0xdd, 0xa8, 0x94, 0x09, 0xfc, 0x98, 0x46, 0x22,
    0x00, 0x00, 0x00, 0x00, 0x00, 0x00, 0x00, 0x00, 0x00, 0x00, 0x00, 0x00, 0x00, 0x00, 0x00, 0x40,
];

const EP_GENERATOR: [u8; 32] = [
    0, 0, 0, 0, 237, 48, 45, 153, 27, 249, 76, 9, 252, 152, 70, 34, 0, 0, 0, 0, 0, 0, 0, 0, 0, 0,
    0, 0, 0, 0, 0, 64,
];

const EQ_GENERATOR: [u8; 32] = [
    0, 0, 0, 0, 33, 235, 70, 140, 221, 168, 148, 9, 252, 152, 70, 34, 0, 0, 0, 0, 0, 0, 0, 0, 0, 0,
    0, 0, 0, 0, 0, 64,
];

/// `m - k` on little-endian bytes, with borrow.
fn minus(m: &[u8; 32], k: u8) -> [u8; 32] {
    let mut b = *m;
    let mut borrow = k as u16;
    for byte in b.iter_mut() {
        let v = *byte as u16 + 256 - borrow;
        *byte = (v % 256) as u8;
        borrow = if v < 256 { 1 } else { 0 };
    }
    b
}

#[test]
fn field_identities_encode_to_literal_vectors() {
    let mut one = [0u8; 32];
    one[0] = 1;
    assert_eq!(Fp::zero().to_repr(), [0u8; 32]);
    assert_eq!(Fp::one().to_repr(), one);
    assert_eq!(Fq::zero().to_repr(), [0u8; 32]);
    assert_eq!(Fq::one().to_repr(), one);
    assert_eq!(Fp::one().serialize(), one.to_vec());
}

#[test]
fn fp_rejects_the_modulus_and_above() {
    assert_eq!(Fp::from_repr(P_BYTES), Err(InvalidEncoding));
    assert_eq!(Fp::from_repr([0xff; 32]), Err(InvalidEncoding));
    let mut above = P_BYTES;
    above[31] = 0x41;
    assert_eq!(Fp::from_repr(above), Err(InvalidEncoding));
    let top = minus(&P_BYTES, 1);
    assert_eq!(Fp::from_repr(top).unwrap().to_repr(), top);
}

#[test]
fn fq_rejects_the_modulus_and_above() {
    assert_eq!(Fq::from_repr(Q_BYTES), Err(InvalidEncoding));
    assert_eq!(Fq::from_repr([0xff; 32]), Err(InvalidEncoding));
    let top = minus(&Q_BYTES, 1);
    assert_eq!(Fq::from_repr(top).unwrap().to_repr(), top);
    // Below q but not below p: the two fields differ there.
    assert!(Fp::from_repr(Q_BYTES).is_ok() != Fq::from_repr(P_BYTES).is_ok());
}

#[test]
fn leaves_of_other_lengths_are_refused() {
    assert_eq!(Fp::deserialize(&[0u8; 31]), Err(InvalidEncoding));
    assert_eq!(Fq::deserialize(&[0u8; 33]), Err(InvalidEncoding));
    assert_eq!(EpAffine::deserialize(&[]), Err(InvalidEncoding));
    assert_eq!(EqAffine::deserialize(&[0u8; 64]), Err(InvalidEncoding));
    assert_eq!(Fp::deserialize(&P_BYTES), Err(InvalidEncoding));
}

#[test]
fn unchecked_decode_of_canonical_bytes() {
    let mut one = [0u8; 32];
    one[0] = 1;
    assert_eq!(Fp::from_repr_unchecked(one), Fp::one());
    assert_eq!(Fq::from_repr_unchecked(one), Fq::one());
    assert_eq!(
        EpAffine::decompress_unchecked(EP_GENERATOR),
        EpAffine::decompress(EP_GENERATOR).unwrap()
    );
    assert_eq!(EqAffine::decompress_unchecked([0u8; 32]), Compressed::Identity);
}

#[test]
fn identity_encodes_to_zeros() {
    assert_eq!(EpAffine::identity().to_bytes(), [0u8; 32]);
    assert_eq!(EqAffine::identity().to_bytes(), [0u8; 32]);
    assert_eq!(EpAffine::decompress([0u8; 32]), Ok(Compressed::Identity));
    assert_eq!(EqAffine::decompress([0u8; 32]), Ok(Compressed::Identity));
    assert_eq!(
        EpAffine::from_lifted(Compressed::Identity, None),
        Ok(EpAffine::Identity)
    );
}

#[test]
fn generators_encode_to_recorded_bytes() {
    assert_eq!(EpAffine::generator().to_bytes(), EP_GENERATOR);
    assert_eq!(EqAffine::generator().to_bytes(), EQ_GENERATOR);
    let c = EpAffine::decompress(EP_GENERATOR).unwrap();
    let x = Fp::from_repr(minus(&P_BYTES, 1)).unwrap();
    assert_eq!(c, Compressed::Coordinate { x, odd: false });
}

#[test]
fn odd_y_sets_the_top_bit() {
    // (-1, -2) lies on the curve too; -2 is odd.
    let x = Fp::from_repr(minus(&P_BYTES, 1)).unwrap();
    let y = Fp::from_repr(minus(&P_BYTES, 2)).unwrap();
    let c = Compressed::Coordinate { x, odd: true };
    let pt = EpAffine::from_lifted(c, Some(y)).unwrap();
    let bytes = pt.to_bytes();
    let mut expected = EP_GENERATOR;
    expected[31] = 0xc0;
    assert_eq!(bytes, expected);
    assert_eq!(EpAffine::decompress(bytes), Ok(c));

    let x = Fq::from_repr(minus(&Q_BYTES, 1)).unwrap();
    let y = Fq::from_repr(minus(&Q_BYTES, 2)).unwrap();
    let pt = EqAffine::from_lifted(Compressed::Coordinate { x, odd: true }, Some(y)).unwrap();
    let mut expected = EQ_GENERATOR;
    expected[31] = 0xc0;
    assert_eq!(pt.to_bytes(), expected);
}

#[test]
fn failed_lift_or_wrong_parity_is_refused() {
    let x = Fp::from_repr(minus(&P_BYTES, 1)).unwrap();
    let c = Compressed::Coordinate { x, odd: false };
    assert_eq!(EpAffine::from_lifted(c, None), Err(InvalidEncoding));
    let odd_y = Fp::from_repr(minus(&P_BYTES, 2)).unwrap();
    assert_eq!(EpAffine::from_lifted(c, Some(odd_y)), Err(InvalidEncoding));

    let x = Fq::from_repr(minus(&Q_BYTES, 1)).unwrap();
    let c = Compressed::Coordinate { x, odd: true };
    assert_eq!(EqAffine::from_lifted(c, None), Err(InvalidEncoding));
}

#[test]
fn out_of_range_x_is_refused() {
    assert_eq!(EpAffine::decompress(P_BYTES), Err(InvalidEncoding));
    let mut flagged = Q_BYTES;
    flagged[31] |= 0x80;
    assert_eq!(EqAffine::decompress(flagged), Err(InvalidEncoding));
    assert_eq!(EpAffine::decompress([0xff; 32]), Err(InvalidEncoding));
}

#[test]
fn sign_bit_alone_is_not_the_identity() {
    let mut b = [0u8; 32];
    b[31] = 0x80;
    assert_eq!(
        EpAffine::decompress(b),
        Ok(Compressed::Coordinate { x: Fp::zero(), odd: true })
    );
    assert_eq!(
        EqAffine::deserialize(&b),
        Ok(Compressed::Coordinate { x: Fq::zero(), odd: true })
    );
}

#[test]
fn distinct_values_have_distinct_encodings() {
    let mut two = [0u8; 32];
    two[0] = 2;
    let a = Fp::from_repr(two).unwrap();
    assert_ne!(a.to_repr(), Fp::one().to_repr());
    assert_eq!(Fp::from_repr(a.to_repr()), Ok(a));
    assert_ne!(
        EpAffine::generator().to_bytes(),
        EpAffine::identity().to_bytes()
    );
    let b = Fq::from_repr(two).unwrap();
    assert_eq!(Fq::from_repr(b.to_repr()), Ok(b));
}
