//! Little-endian byte strings and their integer values.

use vstd::prelude::*;

verus! {

/// The integer that `s` holds in little-endian order.
pub open spec fn le_value(s: Seq<u8>) -> nat
    decreases s.len(),
{
    if s.len() == 0 {
        0
    } else {
        s[0] as nat + 256 * le_value(s.drop_first())
    }
}

/// Whether every byte of `s` is zero.
pub open spec fn all_zero(s: Seq<u8>) -> bool {
    forall|i: int| 0 <= i < s.len() ==> s[i] == 0
}

/// Extending a strict order on the upper bytes to one more low byte.
proof fn lemma_lt_step(a: Seq<u8>, b: Seq<u8>)
    requires
        a.len() == b.len(),
        a.len() > 0,
        le_value(a.drop_first()) < le_value(b.drop_first()),
    ensures
        le_value(a) < le_value(b),
{
    let ra = le_value(a.drop_first());
    let rb = le_value(b.drop_first());
    assert(256 * ra + 256 <= 256 * rb) by (nonlinear_arith)
        requires
            ra < rb,
    ;
}

/// Comparing from byte `k` upward.
proof fn lemma_lt_from(a: Seq<u8>, b: Seq<u8>, k: int)
    requires
        a.len() == b.len(),
        0 <= k < a.len(),
        le_value(a.subrange(k, a.len() as int)) < le_value(b.subrange(k, b.len() as int)),
    ensures
        le_value(a) < le_value(b),
    decreases k,
{
    if k > 0 {
        let n = a.len() as int;
        let sa = a.subrange(k - 1, n);
        let sb = b.subrange(k - 1, n);
        assert(sa.drop_first() =~= a.subrange(k, n));
        assert(sb.drop_first() =~= b.subrange(k, n));
        lemma_lt_step(sa, sb);
        lemma_lt_from(a, b, k - 1);
    } else {
        assert(a.subrange(0, a.len() as int) =~= a);
        assert(b.subrange(0, b.len() as int) =~= b);
    }
}

/// Equal upper bytes and a smaller byte at `k` give a smaller value.
proof fn lemma_lt_at(a: Seq<u8>, b: Seq<u8>, k: int)
    requires
        a.len() == b.len(),
        0 <= k < a.len(),
        a.subrange(k + 1, a.len() as int) =~= b.subrange(k + 1, b.len() as int),
        a[k] < b[k],
    ensures
        le_value(a) < le_value(b),
{
    let n = a.len() as int;
    assert(a.subrange(k, n).drop_first() =~= a.subrange(k + 1, n));
    assert(b.subrange(k, n).drop_first() =~= b.subrange(k + 1, n));
    lemma_lt_from(a, b, k);
}

/// `le_value(a) < le_value(b)`, comparing from the most significant byte.
pub fn lt_le(a: &[u8; 32], b: &[u8; 32]) -> (r: bool)
    ensures
        r == (le_value(a@) < le_value(b@)),
{
    let mut i: usize = 32;
    while i > 0
        invariant
            i <= 32,
            forall|j: int| i <= j < 32 ==> a@[j] == b@[j],
        decreases i,
    {
        i = i - 1;
        if a[i] != b[i] {
            assert(a@.subrange(i + 1, 32) =~= b@.subrange(i + 1, 32));
            if a[i] < b[i] {
                proof { lemma_lt_at(a@, b@, i as int); }
                return true;
            } else {
                proof { lemma_lt_at(b@, a@, i as int); }
                return false;
            }
        }
    }
    assert(a@ =~= b@);
    false
}

/// Whether all 32 bytes are zero.
pub fn is_all_zero(a: &[u8; 32]) -> (r: bool)
    ensures
        r == all_zero(a@),
{
    let mut i: usize = 0;
    while i < 32
        invariant
            i <= 32,
            forall|j: int| 0 <= j < i ==> a@[j] == 0,
        decreases 32 - i,
    {
        if a[i] != 0 {
            return false;
        }
        i = i + 1;
    }
    true
}

} // verus!

verus! {

/// Two byte strings of one length with one value are equal.
pub proof fn lemma_le_value_injective(a: Seq<u8>, b: Seq<u8>)
    requires
        a.len() == b.len(),
        le_value(a) == le_value(b),
    ensures
        a == b,
    decreases a.len(),
{
    if a.len() > 0 {
        let ra = le_value(a.drop_first());
        let rb = le_value(b.drop_first());
        assert(ra == rb && a[0] == b[0]) by (nonlinear_arith)
            requires
                a[0] + 256 * ra == b[0] + 256 * rb,
                a[0] < 256,
                b[0] < 256,
        ;
        lemma_le_value_injective(a.drop_first(), b.drop_first());
        assert(a =~= b) by {
            assert forall|i: int| 0 <= i < a.len() implies a[i] == b[i] by {
                if i > 0 {
                    assert(a[i] == a.drop_first()[i - 1]);
                    assert(b[i] == b.drop_first()[i - 1]);
                }
            }
        }
    } else {
        assert(a =~= b);
    }
}

/// The lowest byte decides whether the value is odd.
pub proof fn lemma_le_value_parity(s: Seq<u8>)
    requires
        s.len() > 0,
    ensures
        le_value(s) % 2 == s[0] % 2,
{
    let r = le_value(s.drop_first());
    assert((s[0] + 256 * r) % 2 == s[0] % 2) by (nonlinear_arith);
}

/// Every byte zero is the value zero.
pub proof fn lemma_le_value_zero(s: Seq<u8>)
    ensures
        le_value(s) == 0 <==> all_zero(s),
    decreases s.len(),
{
    if s.len() > 0 {
        lemma_le_value_zero(s.drop_first());
        if all_zero(s) {
            assert(all_zero(s.drop_first()));
        }
        if le_value(s) == 0 {
            assert forall|i: int| 0 <= i < s.len() implies s[i] == 0 by {
                if i > 0 {
                    assert(s[i] == s.drop_first()[i - 1]);
                }
            }
        }
    }
}

/// A leaf of exactly 32 bytes, as an array.
pub fn leaf_array(leaf: &[u8]) -> (r: Option<[u8; 32]>)
    ensures
        r is Some <==> leaf@.len() == 32,
        r matches Some(a) ==> a@ == leaf@,
{
    if leaf.len() != 32 {
        return None;
    }
    let mut a = [0u8; 32];
    let mut i: usize = 0;
    while i < 32
        invariant
            i <= 32,
            leaf@.len() == 32,
            a@.len() == 32,
            forall|j: int| 0 <= j < i ==> a@[j] == leaf@[j],
        decreases 32 - i,
    {
        a[i] = leaf[i];
        i = i + 1;
    }
    assert(a@ =~= leaf@);
    Some(a)
}

/// The leaf form of a 32-byte array.
pub fn array_leaf(a: &[u8; 32]) -> (r: Vec<u8>)
    ensures
        r@ == a@,
{
    let mut v: Vec<u8> = Vec::new();
    let mut i: usize = 0;
    while i < 32
        invariant
            i <= 32,
            v@ =~= a@.subrange(0, i as int),
        decreases 32 - i,
    {
        v.push(a[i]);
        i = i + 1;
    }
    v
}

} // verus!

verus! {

/// `256` raised to `n`.
pub open spec fn pow256(n: nat) -> nat
    decreases n,
{
    if n == 0 {
        1
    } else {
        256 * pow256((n - 1) as nat)
    }
}

/// The most significant byte bounds the value from below.
pub proof fn lemma_le_value_top(s: Seq<u8>)
    requires
        s.len() > 0,
    ensures
        le_value(s) >= s[s.len() - 1] * pow256((s.len() - 1) as nat),
    decreases s.len(),
{
    let n = s.len();
    if n > 1 {
        let t = s.drop_first();
        lemma_le_value_top(t);
        assert(t[t.len() - 1] == s[n - 1]);
        let top = s[n - 1] as nat;
        let pt = pow256((n - 2) as nat);
        assert(pow256((n - 1) as nat) == 256 * pt);
        assert(256 * le_value(t) >= top * (256 * pt)) by (nonlinear_arith)
            requires
                le_value(t) >= top * pt,
        ;
        assert(le_value(s) == s[0] + 256 * le_value(t));
        assert(s[n - 1] * pow256((n - 1) as nat) == top * (256 * pt));
    } else {
        assert(pow256(0) == 1);
        assert(le_value(s.drop_first()) == 0);
        assert(s[0] * pow256(0) == s[0]);
    }
}

/// A 32-byte value below 2^255 leaves the top bit of the last byte clear.
pub proof fn lemma_top_bit_clear(s: Seq<u8>, bound: nat)
    requires
        s.len() == 32,
        le_value(s) < bound,
        bound <= 128 * pow256(31),
    ensures
        s[31] < 128,
{
    lemma_le_value_top(s);
    if s[31] >= 128 {
        assert(s[31] * pow256(31) >= 128 * pow256(31)) by (nonlinear_arith)
            requires
                s[31] >= 128,
        ;
    }
}

} // verus!
