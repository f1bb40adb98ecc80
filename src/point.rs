//! Affine points of Pallas and Vesta and their compressed 32-byte encodings.

use vstd::prelude::*;
use vstd::arithmetic::div_mod::lemma_mod_multiples_vanish;

use crate::bytes::{
    all_zero, array_leaf, is_all_zero, le_value, leaf_array, lemma_le_value_parity,
    lemma_le_value_zero, lemma_top_bit_clear,
};
use crate::field::{lemma_moduli_bounds, p_modulus, q_modulus, Fp, Fq};
use crate::modular::{is_prime, lemma_root_of_parity_unique};
use crate::InvalidEncoding;

verus! {

/// Both curves of the cycle are `y^2 = x^3 + 5` over their base field.
pub open spec fn on_curve(x: nat, y: nat, m: nat) -> bool {
    (y * y) % m == (x * x * x + 5) % m
}

/// Whether a residue is odd, the sign that an encoding keeps of `y`.
pub open spec fn is_odd(v: nat) -> bool {
    v % 2 == 1
}

/// The x-coordinate bytes of a point encoding: the top bit cleared.
pub open spec fn x_part(s: Seq<u8>) -> Seq<u8> {
    s.update(31, (s[31] % 128) as u8)
}

/// The sign flag of a point encoding: the top bit of the last byte.
pub open spec fn sign_bit(s: Seq<u8>) -> bool {
    s[31] >= 128
}

/// `(-1, 2)` lies on `y^2 = x^3 + 5` modulo any `m` above 4.
pub proof fn lemma_minus_one_two_on_curve(m: nat)
    requires
        m > 4,
    ensures
        on_curve((m - 1) as nat, 2, m),
{
    let x = (m - 1) as nat;
    let k = m * m - 3 * m + 3;
    assert(x * x * x + 5 == m * k + 4) by (nonlinear_arith)
        requires
            x == m - 1,
            k == m * m - 3 * m + 3,
    ;
    lemma_mod_multiples_vanish(k, 4, m as int);
}

/// A point encoding taken apart: the identity, or an x-coordinate with the
/// parity of its `y`. Lifting `x` to its `y` is the curve arithmetic's work.
#[derive(Clone, Copy, Debug, PartialEq, Eq)]
pub enum Compressed<F> {
    Identity,
    Coordinate { x: F, odd: bool },
}

/// Splits a 32-byte encoding into the identity sentinel, or x-coordinate bytes and sign.
fn split_encoding(bytes: [u8; 32]) -> (r: Option<([u8; 32], bool)>)
    ensures
        r is None <==> all_zero(bytes@),
        r matches Some((xb, odd)) ==> xb@ == x_part(bytes@) && odd == sign_bit(bytes@),
{
    if is_all_zero(&bytes) {
        return None;
    }
    let odd = bytes[31] >= 128;
    let mut xb = bytes;
    xb[31] = bytes[31] % 128;
    assert(xb@ =~= x_part(bytes@));
    Some((xb, odd))
}

/// Sets the sign flag of y's parity on the bytes of an x-coordinate.
fn join_encoding(xb: [u8; 32], yb: [u8; 32], m: Ghost<nat>) -> (r: [u8; 32])
    requires
        le_value(xb@) < m@,
        m@ <= 128 * crate::bytes::pow256(31),
    ensures
        le_value(x_part(r@)) == le_value(xb@),
        sign_bit(r@) == is_odd(le_value(yb@)),
{
    proof {
        lemma_top_bit_clear(xb@, m@);
        lemma_le_value_parity(yb@);
    }
    let mut r = xb;
    if yb[0] % 2 == 1 {
        r[31] = xb[31] + 128;
    }
    assert(x_part(r@) =~= xb@);
    r
}

/// An encoding is all zero exactly when its x-part is zero and its sign clear.
proof fn lemma_all_zero_parts(s: Seq<u8>)
    requires
        s.len() == 32,
    ensures
        all_zero(s) <==> (le_value(x_part(s)) == 0 && !sign_bit(s)),
{
    lemma_le_value_zero(x_part(s));
    if all_zero(s) {
        assert(all_zero(x_part(s)));
    }
    if le_value(x_part(s)) == 0 && !sign_bit(s) {
        assert forall|i: int| 0 <= i < 32 implies s[i] == 0 by {
            assert(x_part(s)[i] == 0);
        }
    }
}

/// An affine point of Pallas, over `Fp`.
#[derive(Clone, Copy, Debug, PartialEq, Eq)]
pub enum EpAffine {
    Identity,
    Point { x: Fp, y: Fp },
}

impl EpAffine {
    /// Canonical coordinates on the curve, or the identity.
    pub open spec fn wf(self) -> bool {
        match self {
            EpAffine::Identity => true,
            EpAffine::Point { x, y } => x.wf() && y.wf() && on_curve(x@, y@, p_modulus()),
        }
    }

    /// `s` is the encoding of this point.
    pub open spec fn encodes(self, s: Seq<u8>) -> bool {
        s.len() == 32 && match self {
            EpAffine::Identity => all_zero(s),
            EpAffine::Point { x, y } => le_value(x_part(s)) == x@ && sign_bit(s) == is_odd(y@),
        }
    }

    /// The neutral element of the group.
    pub fn identity() -> (r: EpAffine)
        ensures
            r == EpAffine::Identity,
    {
        EpAffine::Identity
    }

    /// The generator `(-1, 2)`.
    pub fn generator() -> (r: EpAffine)
        ensures
            r.wf(),
            r matches EpAffine::Point { x, y } && x@ == p_modulus() - 1 && y@ == 2,
    {
        let xb: [u8; 32] = [
            0x00, 0x00, 0x00, 0x00, 0xed, 0x30, 0x2d, 0x99, 0x1b, 0xf9, 0x4c, 0x09, 0xfc, 0x98,
            0x46, 0x22, 0x00, 0x00, 0x00, 0x00, 0x00, 0x00, 0x00, 0x00, 0x00, 0x00, 0x00, 0x00,
            0x00, 0x00, 0x00, 0x40,
        ];
        let mut yb = [0u8; 32];
        yb[0] = 2;
        proof {
            reveal_with_fuel(le_value, 33);
            lemma_le_value_zero(yb@.drop_first());
            lemma_moduli_bounds();
            lemma_minus_one_two_on_curve(p_modulus());
        }
        let x = Fp::from_repr_unchecked(xb);
        let y = Fp::from_repr_unchecked(yb);
        EpAffine::Point { x, y }
    }

    /// The encoding: 32 zero bytes for the identity, else the bytes of `x`
    /// with the top bit set when `y` is odd.
    pub fn to_bytes(&self) -> (r: [u8; 32])
        requires
            self matches EpAffine::Point { x, .. } ==> x.wf(),
        ensures
            self.encodes(r@),
    {
        match self {
            EpAffine::Identity => [0u8; 32],
            EpAffine::Point { x, y } => {
                proof {
                    lemma_moduli_bounds();
                }
                join_encoding(x.to_repr(), y.to_repr(), Ghost(p_modulus()))
            },
        }
    }

    /// Checked decode of an encoding down to its x-coordinate and sign: the
    /// all-zero string is the identity, any other needs `x` below the modulus.
    pub fn decompress(bytes: [u8; 32]) -> (r: Result<Compressed<Fp>, InvalidEncoding>)
        ensures
            all_zero(bytes@) ==> r == Ok::<Compressed<Fp>, InvalidEncoding>(Compressed::Identity),
            !all_zero(bytes@) ==> (r is Ok <==> le_value(x_part(bytes@)) < p_modulus()),
            !all_zero(bytes@) ==> (r matches Ok(c) ==> (c matches Compressed::Coordinate { x, odd }
                && x.wf() && x@ == le_value(x_part(bytes@)) && odd == sign_bit(bytes@))),
    {
        match split_encoding(bytes) {
            None => Ok(Compressed::Identity),
            Some((xb, odd)) => match Fp::from_repr(xb) {
                Ok(x) => Ok(Compressed::Coordinate { x, odd }),
                Err(e) => Err(e),
            },
        }
    }

    /// Decode of an encoding already known canonical, with no range check on `x`.
    pub fn decompress_unchecked(bytes: [u8; 32]) -> (r: Compressed<Fp>)
        requires
            all_zero(bytes@) || le_value(x_part(bytes@)) < p_modulus(),
        ensures
            all_zero(bytes@) ==> r == Compressed::<Fp>::Identity,
            !all_zero(bytes@) ==> (r matches Compressed::Coordinate { x, odd } && x.wf() && x@
                == le_value(x_part(bytes@)) && odd == sign_bit(bytes@)),
    {
        match split_encoding(bytes) {
            None => Compressed::Identity,
            Some((xb, odd)) => Compressed::Coordinate { x: Fp::from_repr_unchecked(xb), odd },
        }
    }

    /// Completes a decode with `y`, the root of `x^3 + 5` of the encoded
    /// parity that the curve arithmetic found, or `None` where it found none.
    /// A root of the other parity is refused too.
    pub fn from_lifted(c: Compressed<Fp>, y: Option<Fp>) -> (r: Result<EpAffine, InvalidEncoding>)
        requires
            c matches Compressed::Coordinate { x, .. } ==> x.wf(),
            y matches Some(v) ==> v.wf(),
            y matches Some(v) ==> (c matches Compressed::Coordinate { x, .. } ==> on_curve(
                x@,
                v@,
                p_modulus(),
            )),
        ensures
            c is Identity ==> r == Ok::<EpAffine, InvalidEncoding>(EpAffine::Identity),
            c matches Compressed::Coordinate { x, odd } ==> (r is Ok <==> (y matches Some(v)
                && is_odd(v@) == odd)),
            c matches Compressed::Coordinate { x, odd } ==> (r matches Ok(p) ==> (y matches Some(v)
                && p == (EpAffine::Point { x, y: v }))),
            r matches Ok(p) ==> p.wf(),
    {
        match c {
            Compressed::Identity => Ok(EpAffine::Identity),
            Compressed::Coordinate { x, odd } => match y {
                None => Err(InvalidEncoding),
                Some(v) => {
                    let vb = v.to_repr();
                    proof {
                        lemma_le_value_parity(vb@);
                    }
                    if (vb[0] % 2 == 1) == odd {
                        Ok(EpAffine::Point { x, y: v })
                    } else {
                        Err(InvalidEncoding)
                    }
                },
            },
        }
    }

    /// Only the identity, or a point with `x = 0` and an even `y`, encodes to
    /// 32 zero bytes.
    pub proof fn lemma_zero_encoding(pt: EpAffine, enc: Seq<u8>)
        requires
            pt.encodes(enc),
            all_zero(enc),
        ensures
            pt is Identity || (pt matches EpAffine::Point { x, y } && x@ == 0 && !is_odd(y@)),
    {
        lemma_all_zero_parts(enc);
    }

    /// Decoding the encoding of a point gives it back: `decompress` accepts
    /// the bytes and yields the identity, or `x` with the parity of `y`, from
    /// which `from_lifted` with that `y` restores the point. A point that
    /// would encode to all zero bytes is set aside.
    pub proof fn lemma_round_trip(pt: EpAffine, enc: Seq<u8>, c: Compressed<Fp>)
        requires
            pt.wf(),
            pt.encodes(enc),
            pt matches EpAffine::Point { x, y } ==> (x@ != 0 || is_odd(y@)),
            all_zero(enc) ==> c == Compressed::<Fp>::Identity,
            !all_zero(enc) ==> (c matches Compressed::Coordinate { x, odd } && x@ == le_value(
                x_part(enc),
            ) && odd == sign_bit(enc)),
        ensures
            !all_zero(enc) ==> le_value(x_part(enc)) < p_modulus(),
            pt is Identity ==> all_zero(enc) && c == Compressed::<Fp>::Identity,
            pt matches EpAffine::Point { x, y } ==> c == (Compressed::Coordinate {
                x,
                odd: is_odd(y@),
            }),
    {
        lemma_all_zero_parts(enc);
        if let EpAffine::Point { x, y } = pt {
            if let Compressed::Coordinate { x: cx, odd } = c {
                Fp::lemma_view_injective(x, cx);
            }
        }
    }

    /// Over a prime modulus the lift has one answer: any `y` on the curve over
    /// `x` with the encoded parity is the `y` of the point that was encoded,
    /// so `from_lifted` restores that point whatever lift kept its contract.
    pub proof fn lemma_lifted_y_unique(x: Fp, y: Fp, v: Fp)
        requires
            is_prime(p_modulus()),
            y.wf(),
            v.wf(),
            on_curve(x@, y@, p_modulus()),
            on_curve(x@, v@, p_modulus()),
            is_odd(v@) == is_odd(y@),
        ensures
            v == y,
    {
        lemma_root_of_parity_unique(p_modulus(), v@, y@);
        Fp::lemma_view_injective(v, y);
    }

    /// Two points with one encoding are both the identity, or share `x` and
    /// the parity of `y`. Points that would encode to all zero bytes are set
    /// aside. That one `x` and one parity leave a single `y` on the curve is
    /// a fact of the prime field, not shown here.
    pub proof fn lemma_encoding_determines_x_and_sign(a: EpAffine, b: EpAffine, enc: Seq<u8>)
        requires
            a.encodes(enc),
            b.encodes(enc),
            a matches EpAffine::Point { x, y } ==> (x@ != 0 || is_odd(y@)),
            b matches EpAffine::Point { x, y } ==> (x@ != 0 || is_odd(y@)),
        ensures
            a is Identity <==> b is Identity,
            a is Identity ==> a == b,
            a matches EpAffine::Point { x: xa, y: ya } ==> (b matches EpAffine::Point { x: xb, y: yb }
                && xa == xb && is_odd(ya@) == is_odd(yb@)),
    {
        lemma_all_zero_parts(enc);
        if let EpAffine::Point { x: xa, y: ya } = a {
            if let EpAffine::Point { x: xb, y: yb } = b {
                Fp::lemma_view_injective(xa, xb);
            }
        }
    }

    /// Over a prime modulus, two points with one encoding are equal: the
    /// encoding keeps `x` and the parity of `y`, and of the two roots `y` and
    /// `-y` only one has each parity. Points that would encode to all zero
    /// bytes are set aside.
    pub proof fn lemma_encoding_injective(a: EpAffine, b: EpAffine, enc: Seq<u8>)
        requires
            is_prime(p_modulus()),
            a.wf(),
            b.wf(),
            a.encodes(enc),
            b.encodes(enc),
            a matches EpAffine::Point { x, y } ==> (x@ != 0 || is_odd(y@)),
            b matches EpAffine::Point { x, y } ==> (x@ != 0 || is_odd(y@)),
        ensures
            a == b,
    {
        EpAffine::lemma_encoding_determines_x_and_sign(a, b, enc);
        if let EpAffine::Point { x: xa, y: ya } = a {
            if let EpAffine::Point { x: xb, y: yb } = b {
                lemma_root_of_parity_unique(p_modulus(), ya@, yb@);
                Fp::lemma_view_injective(ya, yb);
            }
        }
    }

    /// Where no `y` of the encoded parity lies on the curve over `x`, a lift
    /// that keeps its contract finds none of that parity, and `from_lifted`
    /// refuses the encoding.
    pub proof fn lemma_off_curve_rejected(x: Fp, odd: bool, y: Option<Fp>)
        requires
            x.wf(),
            forall|v: nat| v < p_modulus() && is_odd(v) == odd ==> !on_curve(x@, v, p_modulus()),
            y matches Some(v) ==> v.wf() && on_curve(x@, v@, p_modulus()),
        ensures
            !(y matches Some(v) && is_odd(v@) == odd),
    {
    }

    /// The interchange leaf of this point: its encoding.
    pub fn serialize(&self) -> (r: Vec<u8>)
        requires
            self matches EpAffine::Point { x, .. } ==> x.wf(),
        ensures
            self.encodes(r@),
    {
        let b = self.to_bytes();
        array_leaf(&b)
    }

    /// Reads an interchange leaf: exactly 32 bytes, decoded as `decompress` does.
    pub fn deserialize(leaf: &[u8]) -> (r: Result<Compressed<Fp>, InvalidEncoding>)
        ensures
            leaf@.len() != 32 ==> r is Err,
            leaf@.len() == 32 && all_zero(leaf@) ==> r == Ok::<Compressed<Fp>, InvalidEncoding>(
                Compressed::Identity,
            ),
            leaf@.len() == 32 && !all_zero(leaf@) ==> (r is Ok <==> le_value(x_part(leaf@))
                < p_modulus()),
            leaf@.len() == 32 && !all_zero(leaf@) ==> (r matches Ok(c)
                ==> (c matches Compressed::Coordinate { x, odd } && x.wf() && x@ == le_value(
                x_part(leaf@),
            ) && odd == sign_bit(leaf@))),
    {
        match leaf_array(leaf) {
            Some(bytes) => EpAffine::decompress(bytes),
            None => Err(InvalidEncoding),
        }
    }
}

/// An affine point of Vesta, over `Fq`.
#[derive(Clone, Copy, Debug, PartialEq, Eq)]
pub enum EqAffine {
    Identity,
    Point { x: Fq, y: Fq },
}

impl EqAffine {
    /// Canonical coordinates on the curve, or the identity.
    pub open spec fn wf(self) -> bool {
        match self {
            EqAffine::Identity => true,
            EqAffine::Point { x, y } => x.wf() && y.wf() && on_curve(x@, y@, q_modulus()),
        }
    }

    /// `s` is the encoding of this point.
    pub open spec fn encodes(self, s: Seq<u8>) -> bool {
        s.len() == 32 && match self {
            EqAffine::Identity => all_zero(s),
            EqAffine::Point { x, y } => le_value(x_part(s)) == x@ && sign_bit(s) == is_odd(y@),
        }
    }

    /// The neutral element of the group.
    pub fn identity() -> (r: EqAffine)
        ensures
            r == EqAffine::Identity,
    {
        EqAffine::Identity
    }

    /// The generator `(-1, 2)`.
    pub fn generator() -> (r: EqAffine)
        ensures
            r.wf(),
            r matches EqAffine::Point { x, y } && x@ == q_modulus() - 1 && y@ == 2,
    {
        let xb: [u8; 32] = [
            0x00, 0x00, 0x00, 0x00, 0x21, 0xeb, 0x46, 0x8c, 0xdd, 0xa8, 0x94, 0x09, 0xfc, 0x98,
            0x46, 0x22, 0x00, 0x00, 0x00, 0x00, 0x00, 0x00, 0x00, 0x00, 0x00, 0x00, 0x00, 0x00,
            0x00, 0x00, 0x00, 0x40,
        ];
        let mut yb = [0u8; 32];
        yb[0] = 2;
        proof {
            reveal_with_fuel(le_value, 33);
            lemma_le_value_zero(yb@.drop_first());
            lemma_moduli_bounds();
            lemma_minus_one_two_on_curve(q_modulus());
        }
        let x = Fq::from_repr_unchecked(xb);
        let y = Fq::from_repr_unchecked(yb);
        EqAffine::Point { x, y }
    }

    /// The encoding: 32 zero bytes for the identity, else the bytes of `x`
    /// with the top bit set when `y` is odd.
    pub fn to_bytes(&self) -> (r: [u8; 32])
        requires
            self matches EqAffine::Point { x, .. } ==> x.wf(),
        ensures
            self.encodes(r@),
    {
        match self {
            EqAffine::Identity => [0u8; 32],
            EqAffine::Point { x, y } => {
                proof {
                    lemma_moduli_bounds();
                }
                join_encoding(x.to_repr(), y.to_repr(), Ghost(q_modulus()))
            },
        }
    }

    /// Checked decode of an encoding down to its x-coordinate and sign: the
    /// all-zero string is the identity, any other needs `x` below the modulus.
    pub fn decompress(bytes: [u8; 32]) -> (r: Result<Compressed<Fq>, InvalidEncoding>)
        ensures
            all_zero(bytes@) ==> r == Ok::<Compressed<Fq>, InvalidEncoding>(Compressed::Identity),
            !all_zero(bytes@) ==> (r is Ok <==> le_value(x_part(bytes@)) < q_modulus()),
            !all_zero(bytes@) ==> (r matches Ok(c) ==> (c matches Compressed::Coordinate { x, odd }
                && x.wf() && x@ == le_value(x_part(bytes@)) && odd == sign_bit(bytes@))),
    {
        match split_encoding(bytes) {
            None => Ok(Compressed::Identity),
            Some((xb, odd)) => match Fq::from_repr(xb) {
                Ok(x) => Ok(Compressed::Coordinate { x, odd }),
                Err(e) => Err(e),
            },
        }
    }

    /// Decode of an encoding already known canonical, with no range check on `x`.
    pub fn decompress_unchecked(bytes: [u8; 32]) -> (r: Compressed<Fq>)
        requires
            all_zero(bytes@) || le_value(x_part(bytes@)) < q_modulus(),
        ensures
            all_zero(bytes@) ==> r == Compressed::<Fq>::Identity,
            !all_zero(bytes@) ==> (r matches Compressed::Coordinate { x, odd } && x.wf() && x@
                == le_value(x_part(bytes@)) && odd == sign_bit(bytes@)),
    {
        match split_encoding(bytes) {
            None => Compressed::Identity,
            Some((xb, odd)) => Compressed::Coordinate { x: Fq::from_repr_unchecked(xb), odd },
        }
    }

    /// Completes a decode with `y`, the root of `x^3 + 5` of the encoded
    /// parity that the curve arithmetic found, or `None` where it found none.
    /// A root of the other parity is refused too.
    pub fn from_lifted(c: Compressed<Fq>, y: Option<Fq>) -> (r: Result<EqAffine, InvalidEncoding>)
        requires
            c matches Compressed::Coordinate { x, .. } ==> x.wf(),
            y matches Some(v) ==> v.wf(),
            y matches Some(v) ==> (c matches Compressed::Coordinate { x, .. } ==> on_curve(
                x@,
                v@,
                q_modulus(),
            )),
        ensures
            c is Identity ==> r == Ok::<EqAffine, InvalidEncoding>(EqAffine::Identity),
            c matches Compressed::Coordinate { x, odd } ==> (r is Ok <==> (y matches Some(v)
                && is_odd(v@) == odd)),
            c matches Compressed::Coordinate { x, odd } ==> (r matches Ok(p) ==> (y matches Some(v)
                && p == (EqAffine::Point { x, y: v }))),
            r matches Ok(p) ==> p.wf(),
    {
        match c {
            Compressed::Identity => Ok(EqAffine::Identity),
            Compressed::Coordinate { x, odd } => match y {
                None => Err(InvalidEncoding),
                Some(v) => {
                    let vb = v.to_repr();
                    proof {
                        lemma_le_value_parity(vb@);
                    }
                    if (vb[0] % 2 == 1) == odd {
                        Ok(EqAffine::Point { x, y: v })
                    } else {
                        Err(InvalidEncoding)
                    }
                },
            },
        }
    }

    /// Only the identity, or a point with `x = 0` and an even `y`, encodes to
    /// 32 zero bytes.
    pub proof fn lemma_zero_encoding(pt: EqAffine, enc: Seq<u8>)
        requires
            pt.encodes(enc),
            all_zero(enc),
        ensures
            pt is Identity || (pt matches EqAffine::Point { x, y } && x@ == 0 && !is_odd(y@)),
    {
        lemma_all_zero_parts(enc);
    }

    /// Decoding the encoding of a point gives it back: `decompress` accepts
    /// the bytes and yields the identity, or `x` with the parity of `y`, from
    /// which `from_lifted` with that `y` restores the point. A point that
    /// would encode to all zero bytes is set aside.
    pub proof fn lemma_round_trip(pt: EqAffine, enc: Seq<u8>, c: Compressed<Fq>)
        requires
            pt.wf(),
            pt.encodes(enc),
            pt matches EqAffine::Point { x, y } ==> (x@ != 0 || is_odd(y@)),
            all_zero(enc) ==> c == Compressed::<Fq>::Identity,
            !all_zero(enc) ==> (c matches Compressed::Coordinate { x, odd } && x@ == le_value(
                x_part(enc),
            ) && odd == sign_bit(enc)),
        ensures
            !all_zero(enc) ==> le_value(x_part(enc)) < q_modulus(),
            pt is Identity ==> all_zero(enc) && c == Compressed::<Fq>::Identity,
            pt matches EqAffine::Point { x, y } ==> c == (Compressed::Coordinate {
                x,
                odd: is_odd(y@),
            }),
    {
        lemma_all_zero_parts(enc);
        if let EqAffine::Point { x, y } = pt {
            if let Compressed::Coordinate { x: cx, odd } = c {
                Fq::lemma_view_injective(x, cx);
            }
        }
    }

    /// Over a prime modulus the lift has one answer: any `y` on the curve over
    /// `x` with the encoded parity is the `y` of the point that was encoded,
    /// so `from_lifted` restores that point whatever lift kept its contract.
    pub proof fn lemma_lifted_y_unique(x: Fq, y: Fq, v: Fq)
        requires
            is_prime(q_modulus()),
            y.wf(),
            v.wf(),
            on_curve(x@, y@, q_modulus()),
            on_curve(x@, v@, q_modulus()),
            is_odd(v@) == is_odd(y@),
        ensures
            v == y,
    {
        lemma_root_of_parity_unique(q_modulus(), v@, y@);
        Fq::lemma_view_injective(v, y);
    }

    /// Two points with one encoding are both the identity, or share `x` and
    /// the parity of `y`. Points that would encode to all zero bytes are set
    /// aside. That one `x` and one parity leave a single `y` on the curve is
    /// a fact of the prime field, not shown here.
    pub proof fn lemma_encoding_determines_x_and_sign(a: EqAffine, b: EqAffine, enc: Seq<u8>)
        requires
            a.encodes(enc),
            b.encodes(enc),
            a matches EqAffine::Point { x, y } ==> (x@ != 0 || is_odd(y@)),
            b matches EqAffine::Point { x, y } ==> (x@ != 0 || is_odd(y@)),
        ensures
            a is Identity <==> b is Identity,
            a is Identity ==> a == b,
            a matches EqAffine::Point { x: xa, y: ya } ==> (b matches EqAffine::Point { x: xb, y: yb }
                && xa == xb && is_odd(ya@) == is_odd(yb@)),
    {
        lemma_all_zero_parts(enc);
        if let EqAffine::Point { x: xa, y: ya } = a {
            if let EqAffine::Point { x: xb, y: yb } = b {
                Fq::lemma_view_injective(xa, xb);
            }
        }
    }

    /// Over a prime modulus, two points with one encoding are equal: the
    /// encoding keeps `x` and the parity of `y`, and of the two roots `y` and
    /// `-y` only one has each parity. Points that would encode to all zero
    /// bytes are set aside.
    pub proof fn lemma_encoding_injective(a: EqAffine, b: EqAffine, enc: Seq<u8>)
        requires
            is_prime(q_modulus()),
            a.wf(),
            b.wf(),
            a.encodes(enc),
            b.encodes(enc),
            a matches EqAffine::Point { x, y } ==> (x@ != 0 || is_odd(y@)),
            b matches EqAffine::Point { x, y } ==> (x@ != 0 || is_odd(y@)),
        ensures
            a == b,
    {
        EqAffine::lemma_encoding_determines_x_and_sign(a, b, enc);
        if let EqAffine::Point { x: xa, y: ya } = a {
            if let EqAffine::Point { x: xb, y: yb } = b {
                lemma_root_of_parity_unique(q_modulus(), ya@, yb@);
                Fq::lemma_view_injective(ya, yb);
            }
        }
    }

    /// Where no `y` of the encoded parity lies on the curve over `x`, a lift
    /// that keeps its contract finds none of that parity, and `from_lifted`
    /// refuses the encoding.
    pub proof fn lemma_off_curve_rejected(x: Fq, odd: bool, y: Option<Fq>)
        requires
            x.wf(),
            forall|v: nat| v < q_modulus() && is_odd(v) == odd ==> !on_curve(x@, v, q_modulus()),
            y matches Some(v) ==> v.wf() && on_curve(x@, v@, q_modulus()),
        ensures
            !(y matches Some(v) && is_odd(v@) == odd),
    {
    }

    /// The interchange leaf of this point: its encoding.
    pub fn serialize(&self) -> (r: Vec<u8>)
        requires
            self matches EqAffine::Point { x, .. } ==> x.wf(),
        ensures
            self.encodes(r@),
    {
        let b = self.to_bytes();
        array_leaf(&b)
    }

    /// Reads an interchange leaf: exactly 32 bytes, decoded as `decompress` does.
    pub fn deserialize(leaf: &[u8]) -> (r: Result<Compressed<Fq>, InvalidEncoding>)
        ensures
            leaf@.len() != 32 ==> r is Err,
            leaf@.len() == 32 && all_zero(leaf@) ==> r == Ok::<Compressed<Fq>, InvalidEncoding>(
                Compressed::Identity,
            ),
            leaf@.len() == 32 && !all_zero(leaf@) ==> (r is Ok <==> le_value(x_part(leaf@))
                < q_modulus()),
            leaf@.len() == 32 && !all_zero(leaf@) ==> (r matches Ok(c)
                ==> (c matches Compressed::Coordinate { x, odd } && x.wf() && x@ == le_value(
                x_part(leaf@),
            ) && odd == sign_bit(leaf@))),
    {
        match leaf_array(leaf) {
            Some(bytes) => EqAffine::decompress(bytes),
            None => Err(InvalidEncoding),
        }
    }
}

} // verus!
