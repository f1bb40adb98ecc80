use pasta_codec::field::{Fp, Fq};
use pasta_codec::point::{Compressed, EpAffine, EqAffine};
use rand::{RngCore, SeedableRng};
use rand_xorshift::XorShiftRng;

const SEED: [u8; 16] = [
    0x59, 0x62, 0xbe, 0x5d, 0x76, 0x3d, 0x31, 0x8d, 0x17, 0xdb, 0x37, 0x32, 0x54, 0x06, 0xbc,
    0xe5,
];

fn to_json(leaf: &[u8]) -> Vec<u8> {
    serde_json::to_vec(leaf).unwrap()
}

fn from_json(json: &[u8]) -> Vec<u8> {
    serde_json::from_slice::<Vec<u8>>(json).unwrap()
}

/// Random canonical encodings: random bytes under the modulus's top byte.
fn random_reprs(rng: &mut XorShiftRng, n: usize) -> Vec<[u8; 32]> {
    let mut out = Vec::new();
    while out.len() < n {
        let mut b = [0u8; 32];
        rng.fill_bytes(&mut b);
        b[31] &= 0x3f;
        out.push(b);
    }
    out
}

fn fp_roundtrip(f: &Fp) {
    let json = to_json(&f.serialize());
    assert_eq!(*f, Fp::deserialize(&from_json(&json)).unwrap());
}

fn fq_roundtrip(f: &Fq) {
    let json = to_json(&f.serialize());
    assert_eq!(*f, Fq::deserialize(&from_json(&json)).unwrap());
}

fn ep_roundtrip(p: &EpAffine) {
    let json = to_json(&p.serialize());
    let c = EpAffine::deserialize(&from_json(&json)).unwrap();
    let y = match p {
        EpAffine::Identity => None,
        EpAffine::Point { y, .. } => Some(*y),
    };
    assert_eq!(*p, EpAffine::from_lifted(c, y).unwrap());
}

fn eq_roundtrip(p: &EqAffine) {
    let json = to_json(&p.serialize());
    let c = EqAffine::deserialize(&from_json(&json)).unwrap();
    let y = match p {
        EqAffine::Identity => None,
        EqAffine::Point { y, .. } => Some(*y),
    };
    assert_eq!(*p, EqAffine::from_lifted(c, y).unwrap());
}

#[test]
fn serde_fp() {
    let mut rng = XorShiftRng::from_seed(SEED);
    for b in random_reprs(&mut rng, 100) {
        let f = Fp::from_repr(b).unwrap();
        fp_roundtrip(&f);
    }

    let f = Fp::zero();
    fp_roundtrip(&f);
    assert_eq!(
        Fp::deserialize(&from_json(
            b"[0,0,0,0,0,0,0,0,0,0,0,0,0,0,0,0,0,0,0,0,0,0,0,0,0,0,0,0,0,0,0,0]"
        ))
        .unwrap(),
        f
    );

    let f = Fp::one();
    fp_roundtrip(&f);
    assert_eq!(
        Fp::deserialize(&from_json(
            b"[1,0,0,0,0,0,0,0,0,0,0,0,0,0,0,0,0,0,0,0,0,0,0,0,0,0,0,0,0,0,0,0]"
        ))
        .unwrap(),
        f
    );
}

#[test]
fn serde_fq() {
    let mut rng = XorShiftRng::from_seed(SEED);
    for b in random_reprs(&mut rng, 100) {
        let f = Fq::from_repr(b).unwrap();
        fq_roundtrip(&f);
    }

    let f = Fq::zero();
    fq_roundtrip(&f);
    assert_eq!(
        Fq::deserialize(&from_json(
            b"[0,0,0,0,0,0,0,0,0,0,0,0,0,0,0,0,0,0,0,0,0,0,0,0,0,0,0,0,0,0,0,0]"
        ))
        .unwrap(),
        f
    );

    let f = Fq::one();
    fq_roundtrip(&f);
    assert_eq!(
        Fq::deserialize(&from_json(
            b"[1,0,0,0,0,0,0,0,0,0,0,0,0,0,0,0,0,0,0,0,0,0,0,0,0,0,0,0,0,0,0,0]"
        ))
        .unwrap(),
        f
    );
}

#[test]
fn serde_ep_affine() {
    let f = EpAffine::identity();
    ep_roundtrip(&f);
    let c = EpAffine::deserialize(&from_json(
        b"[0,0,0,0,0,0,0,0,0,0,0,0,0,0,0,0,0,0,0,0,0,0,0,0,0,0,0,0,0,0,0,0]",
    ))
    .unwrap();
    assert_eq!(EpAffine::from_lifted(c, None).unwrap(), f);

    let f = EpAffine::generator();
    ep_roundtrip(&f);
    let c = EpAffine::deserialize(&from_json(
        b"[0,0,0,0,237,48,45,153,27,249,76,9,252,152,70,34,0,0,0,0,0,0,0,0,0,0,0,0,0,0,0,64]",
    ))
    .unwrap();
    let y = match f {
        EpAffine::Point { y, .. } => y,
        EpAffine::Identity => panic!("the generator is not the identity"),
    };
    assert_eq!(EpAffine::from_lifted(c, Some(y)).unwrap(), f);
}

#[test]
fn serde_eq_affine() {
    let f = EqAffine::identity();
    eq_roundtrip(&f);
    let c = EqAffine::deserialize(&from_json(
        b"[0,0,0,0,0,0,0,0,0,0,0,0,0,0,0,0,0,0,0,0,0,0,0,0,0,0,0,0,0,0,0,0]",
    ))
    .unwrap();
    assert_eq!(EqAffine::from_lifted(c, None).unwrap(), f);

    let f = EqAffine::generator();
    eq_roundtrip(&f);
    let c = EqAffine::deserialize(&from_json(
        b"[0,0,0,0,33,235,70,140,221,168,148,9,252,152,70,34,0,0,0,0,0,0,0,0,0,0,0,0,0,0,0,64]",
    ))
    .unwrap();
    let y = match f {
        EqAffine::Point { y, .. } => y,
        EqAffine::Identity => panic!("the generator is not the identity"),
    };
    assert_eq!(EqAffine::from_lifted(c, Some(y)).unwrap(), f);
}
