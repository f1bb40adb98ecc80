//! The two prime fields of the cycle and their canonical encodings.

use vstd::prelude::*;

use crate::bytes::{
    array_leaf, le_value, leaf_array, lemma_le_value_injective, lemma_le_value_zero, lt_le, pow256,
};
use crate::InvalidEncoding;

verus! {

/// 2^254, the leading term of both moduli.
pub open spec fn two_pow_254() -> nat {
    0x80000000000000000000000000000000 * 0x80000000000000000000000000000000
}

/// The modulus of `Fp`, the base field of Pallas and the scalar field of Vesta.
pub open spec fn p_modulus() -> nat {
    two_pow_254() + 0x224698fc094cf91b992d30ed00000001
}

/// The modulus of `Fq`, the base field of Vesta and the scalar field of Pallas.
pub open spec fn q_modulus() -> nat {
    two_pow_254() + 0x224698fc0994a8dd8c46eb2100000001
}

/// The little-endian bytes of `p_modulus()`.
fn p_modulus_bytes() -> (r: [u8; 32])
    ensures
        le_value(r@) == p_modulus(),
{
    let r: [u8; 32] = [
        0x01, 0x00, 0x00, 0x00, 0xed, 0x30, 0x2d, 0x99, 0x1b, 0xf9, 0x4c, 0x09, 0xfc, 0x98, 0x46,
        0x22, 0x00, 0x00, 0x00, 0x00, 0x00, 0x00, 0x00, 0x00, 0x00, 0x00, 0x00, 0x00, 0x00, 0x00,
        0x00, 0x40,
    ];
    proof {
        reveal_with_fuel(le_value, 33);
    }
    r
}

/// An element of the field of order `p_modulus()`, held in canonical form.
#[derive(Clone, Copy, Debug, PartialEq, Eq)]
pub struct Fp {
    repr: [u8; 32],
}

impl View for Fp {
    type V = nat;

    /// The residue, in `0 .. p_modulus()`.
    closed spec fn view(&self) -> nat {
        le_value(self.repr@)
    }
}

impl Fp {
    /// Canonical form: the residue is below the modulus.
    pub open spec fn wf(self) -> bool {
        self@ < p_modulus()
    }

    /// Elements with one residue are the same element.
    pub proof fn lemma_view_injective(a: Fp, b: Fp)
        ensures
            a@ == b@ <==> a == b,
    {
        if a@ == b@ {
            lemma_le_value_injective(a.repr@, b.repr@);
            assert(a.repr =~= b.repr);
        }
    }

    /// Decoding the encoding of an element gives it back: the bytes that
    /// `to_repr` returns are in range, so `from_repr` accepts them, and the
    /// element it returns is the one encoded.
    pub proof fn lemma_round_trip(e: Fp, enc: Seq<u8>, d: Fp)
        requires
            e.wf(),
            le_value(enc) == e@,
            d@ == le_value(enc),
        ensures
            le_value(enc) < p_modulus(),
            d == e,
    {
        Fp::lemma_view_injective(d, e);
    }

    /// Two elements with one encoding are equal.
    pub proof fn lemma_encoding_injective(a: Fp, b: Fp, enc: Seq<u8>)
        requires
            le_value(enc) == a@,
            le_value(enc) == b@,
        ensures
            a == b,
    {
        Fp::lemma_view_injective(a, b);
    }

    /// The additive identity.
    pub fn zero() -> (r: Fp)
        ensures
            r@ == 0,
            r.wf(),
    {
        let r = Fp { repr: [0u8; 32] };
        proof {
            lemma_le_value_zero(r.repr@);
        }
        r
    }

    /// The multiplicative identity.
    pub fn one() -> (r: Fp)
        ensures
            r@ == 1,
            r.wf(),
    {
        let mut repr = [0u8; 32];
        repr[0] = 1;
        let r = Fp { repr };
        proof {
            lemma_le_value_zero(repr@.drop_first());
        }
        r
    }

    /// The canonical encoding: the residue as 32 little-endian bytes.
    pub fn to_repr(&self) -> (r: [u8; 32])
        ensures
            le_value(r@) == self@,
    {
        self.repr
    }

    /// Decodes 32 little-endian bytes, accepting exactly the values below the modulus.
    pub fn from_repr(bytes: [u8; 32]) -> (r: Result<Fp, InvalidEncoding>)
        ensures
            r is Ok <==> le_value(bytes@) < p_modulus(),
            r matches Ok(e) ==> e@ == le_value(bytes@) && e.wf(),
    {
        let m = p_modulus_bytes();
        if lt_le(&bytes, &m) {
            Ok(Fp { repr: bytes })
        } else {
            Err(InvalidEncoding)
        }
    }

    /// Decodes bytes already known to be canonical, with no range check.
    pub fn from_repr_unchecked(bytes: [u8; 32]) -> (r: Fp)
        requires
            le_value(bytes@) < p_modulus(),
        ensures
            r@ == le_value(bytes@),
            r.wf(),
    {
        Fp { repr: bytes }
    }

    /// The interchange leaf of this element: its canonical encoding.
    pub fn serialize(&self) -> (r: Vec<u8>)
        ensures
            r@.len() == 32,
            le_value(r@) == self@,
    {
        array_leaf(&self.repr)
    }

    /// Reads an interchange leaf: exactly 32 bytes holding a canonical encoding.
    pub fn deserialize(leaf: &[u8]) -> (r: Result<Fp, InvalidEncoding>)
        ensures
            r is Ok <==> leaf@.len() == 32 && le_value(leaf@) < p_modulus(),
            r matches Ok(e) ==> e@ == le_value(leaf@) && e.wf(),
    {
        match leaf_array(leaf) {
            Some(bytes) => Fp::from_repr(bytes),
            None => Err(InvalidEncoding),
        }
    }
}

/// The little-endian bytes of `q_modulus()`.
fn q_modulus_bytes() -> (r: [u8; 32])
    ensures
        le_value(r@) == q_modulus(),
{
    let r: [u8; 32] = [
        0x01, 0x00, 0x00, 0x00, 0x21, 0xeb, 0x46, 0x8c, 0xdd, 0xa8, 0x94, 0x09, 0xfc, 0x98, 0x46,
        0x22, 0x00, 0x00, 0x00, 0x00, 0x00, 0x00, 0x00, 0x00, 0x00, 0x00, 0x00, 0x00, 0x00, 0x00,
        0x00, 0x40,
    ];
    proof {
        reveal_with_fuel(le_value, 33);
    }
    r
}

/// An element of the field of order `q_modulus()`, held in canonical form.
#[derive(Clone, Copy, Debug, PartialEq, Eq)]
pub struct Fq {
    repr: [u8; 32],
}

impl View for Fq {
    type V = nat;

    /// The residue, in `0 .. q_modulus()`.
    closed spec fn view(&self) -> nat {
        le_value(self.repr@)
    }
}

impl Fq {
    /// Canonical form: the residue is below the modulus.
    pub open spec fn wf(self) -> bool {
        self@ < q_modulus()
    }

    /// Elements with one residue are the same element.
    pub proof fn lemma_view_injective(a: Fq, b: Fq)
        ensures
            a@ == b@ <==> a == b,
    {
        if a@ == b@ {
            lemma_le_value_injective(a.repr@, b.repr@);
            assert(a.repr =~= b.repr);
        }
    }

    /// Decoding the encoding of an element gives it back: the bytes that
    /// `to_repr` returns are in range, so `from_repr` accepts them, and the
    /// element it returns is the one encoded.
    pub proof fn lemma_round_trip(e: Fq, enc: Seq<u8>, d: Fq)
        requires
            e.wf(),
            le_value(enc) == e@,
            d@ == le_value(enc),
        ensures
            le_value(enc) < q_modulus(),
            d == e,
    {
        Fq::lemma_view_injective(d, e);
    }

    /// Two elements with one encoding are equal.
    pub proof fn lemma_encoding_injective(a: Fq, b: Fq, enc: Seq<u8>)
        requires
            le_value(enc) == a@,
            le_value(enc) == b@,
        ensures
            a == b,
    {
        Fq::lemma_view_injective(a, b);
    }

    /// The additive identity.
    pub fn zero() -> (r: Fq)
        ensures
            r@ == 0,
            r.wf(),
    {
        let r = Fq { repr: [0u8; 32] };
        proof {
            lemma_le_value_zero(r.repr@);
        }
        r
    }

    /// The multiplicative identity.
    pub fn one() -> (r: Fq)
        ensures
            r@ == 1,
            r.wf(),
    {
        let mut repr = [0u8; 32];
        repr[0] = 1;
        let r = Fq { repr };
        proof {
            lemma_le_value_zero(repr@.drop_first());
        }
        r
    }

    /// The canonical encoding: the residue as 32 little-endian bytes.
    pub fn to_repr(&self) -> (r: [u8; 32])
        ensures
            le_value(r@) == self@,
    {
        self.repr
    }

    /// Decodes 32 little-endian bytes, accepting exactly the values below the modulus.
    pub fn from_repr(bytes: [u8; 32]) -> (r: Result<Fq, InvalidEncoding>)
        ensures
            r is Ok <==> le_value(bytes@) < q_modulus(),
            r matches Ok(e) ==> e@ == le_value(bytes@) && e.wf(),
    {
        let m = q_modulus_bytes();
        if lt_le(&bytes, &m) {
            Ok(Fq { repr: bytes })
        } else {
            Err(InvalidEncoding)
        }
    }

    /// Decodes bytes already known to be canonical, with no range check.
    pub fn from_repr_unchecked(bytes: [u8; 32]) -> (r: Fq)
        requires
            le_value(bytes@) < q_modulus(),
        ensures
            r@ == le_value(bytes@),
            r.wf(),
    {
        Fq { repr: bytes }
    }

    /// The interchange leaf of this element: its canonical encoding.
    pub fn serialize(&self) -> (r: Vec<u8>)
        ensures
            r@.len() == 32,
            le_value(r@) == self@,
    {
        array_leaf(&self.repr)
    }

    /// Reads an interchange leaf: exactly 32 bytes holding a canonical encoding.
    pub fn deserialize(leaf: &[u8]) -> (r: Result<Fq, InvalidEncoding>)
        ensures
            r is Ok <==> leaf@.len() == 32 && le_value(leaf@) < q_modulus(),
            r matches Ok(e) ==> e@ == le_value(leaf@) && e.wf(),
    {
        match leaf_array(leaf) {
            Some(bytes) => Fq::from_repr(bytes),
            None => Err(InvalidEncoding),
        }
    }
}

} // verus!

verus! {

/// Both moduli sit below 2^255 and above 4.
pub proof fn lemma_moduli_bounds()
    ensures
        4 < p_modulus() <= 128 * pow256(31),
        4 < q_modulus() <= 128 * pow256(31),
{
    reveal_with_fuel(pow256, 32);
    assert(128 * pow256(31) == 2 * two_pow_254());
}

} // verus!
