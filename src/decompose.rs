//! Integer division of a field element by a byte-aligned power of two, done by
//! slicing its canonical representation.
use crate::field::{field_order, le_value, FieldValue};
use vstd::arithmetic::div_mod::lemma_fundamental_div_mod_converse;
use vstd::prelude::*;

verus! {

/// `256` raised to the power `k`: the modulus whose width is `k` bytes.
pub open spec fn pow256(k: nat) -> nat
    decreases k,
{
    if k == 0 {
        1
    } else {
        256 * pow256((k - 1) as nat)
    }
}

/// The remainder of `v` modulo a `k`-byte modulus.
pub open spec fn remainder_of(v: nat, k: nat) -> nat {
    v % pow256(k)
}

/// The quotient of `v` by a `k`-byte modulus.
pub open spec fn quotient_of(v: nat, k: nat) -> nat {
    v / pow256(k)
}

proof fn lemma_pow256_positive(k: nat)
    ensures
        pow256(k) > 0,
    decreases k,
{
    if k > 0 {
        lemma_pow256_positive((k - 1) as nat);
    }
}

proof fn lemma_le_value_zeros(b: Seq<u8>)
    requires
        forall|i: int| 0 <= i < b.len() ==> b[i] == 0,
    ensures
        le_value(b) == 0,
    decreases b.len(),
{
    if b.len() > 0 {
        lemma_le_value_zeros(b.drop_first());
    }
}

/// A value of `n` bytes is below `256^n`.
pub proof fn lemma_le_value_bound(b: Seq<u8>)
    ensures
        le_value(b) < pow256(b.len()),
    decreases b.len(),
{
    if b.len() > 0 {
        lemma_le_value_bound(b.drop_first());
    }
}

/// The low `k` bytes and the remaining high bytes split the value at `256^k`.
proof fn lemma_le_value_split(b: Seq<u8>, k: nat)
    requires
        k <= b.len(),
    ensures
        le_value(b) == le_value(b.take(k as int)) + pow256(k) * le_value(b.skip(k as int)),
    decreases k,
{
    if k > 0 {
        let t = b.drop_first();
        lemma_le_value_split(t, (k - 1) as nat);
        assert(b.take(k as int).drop_first() =~= t.take(k - 1));
        assert(b.skip(k as int) =~= t.skip(k - 1));
        let lo = le_value(t.take(k - 1));
        let hi = le_value(t.skip(k - 1));
        let p = pow256((k - 1) as nat);
        assert(le_value(b) == b[0] as nat + 256 * le_value(t));
        assert(le_value(b.take(k as int)) == b[0] as nat + 256 * lo);
        assert(256 * (lo + p * hi) == 256 * lo + (256 * p) * hi) by (nonlinear_arith);
        assert(le_value(b.skip(k as int)) == hi);
    } else {
        assert(b.skip(0) =~= b);
        assert(le_value(b.take(0)) == 0);
        assert(pow256(0) == 1);
    }
}

/// A value is the sum of its low `k` bytes and `256^k` times its high bytes,
/// which gives its remainder and quotient by `256^k`.
proof fn lemma_slices_divide(b: Seq<u8>, k: nat)
    requires
        k <= b.len(),
    ensures
        le_value(b.take(k as int)) == remainder_of(le_value(b), k),
        le_value(b.skip(k as int)) == quotient_of(le_value(b), k),
{
    lemma_le_value_split(b, k);
    lemma_le_value_bound(b.take(k as int));
    lemma_pow256_positive(k);
    let q = le_value(b.skip(k as int));
    assert(pow256(k) * q == q * pow256(k)) by (nonlinear_arith);
    lemma_fundamental_div_mod_converse(
        le_value(b) as int,
        pow256(k) as int,
        le_value(b.skip(k as int)) as int,
        le_value(b.take(k as int)) as int,
    );
}

/// The remainder of `input` modulo `256^modulus_bytes`: its low
/// `modulus_bytes` bytes, zero-extended.
pub fn rem(input: &FieldValue, modulus_bytes: usize) -> (r: FieldValue)
    requires
        input.wf(),
        modulus_bytes <= 32,
    ensures
        r.wf(),
        r@ == remainder_of(input@, modulus_bytes as nat),
{
    let repr = input.repr;
    let mut out = [0u8; 32];
    let mut i: usize = 0;
    while i < modulus_bytes
        invariant
            i <= modulus_bytes <= 32,
            forall|j: int| 0 <= j < i ==> out[j] == repr[j],
            forall|j: int| i <= j < 32 ==> out[j] == 0,
        decreases modulus_bytes - i,
    {
        out[i] = repr[i];
        i = i + 1;
    }
    proof {
        let k = modulus_bytes as nat;
        lemma_le_value_split(out@, k);
        lemma_le_value_zeros(out@.skip(k as int));
        assert(out@.take(k as int) =~= repr@.take(k as int));
        lemma_slices_divide(repr@, k);
        lemma_pow256_positive(k);
        assert(le_value(out@) == le_value(repr@.take(k as int)) + pow256(k) * 0);
        assert(remainder_of(input@, k) <= input@) by (nonlinear_arith)
            requires
                pow256(k) > 0,
                remainder_of(input@, k) == input@ % pow256(k),
        ;
    }
    FieldValue { repr: out }
}

/// The quotient of `input` by `256^modulus_bytes`: its bytes above the low
/// `modulus_bytes`, shifted down and zero-extended.
pub fn quot(input: &FieldValue, modulus_bytes: usize) -> (r: FieldValue)
    requires
        input.wf(),
        modulus_bytes <= 32,
    ensures
        r.wf(),
        r@ == quotient_of(input@, modulus_bytes as nat),
{
    let repr = input.repr;
    let mut out = [0u8; 32];
    let width: usize = 32 - modulus_bytes;
    let mut i: usize = 0;
    while i < width
        invariant
            width == 32 - modulus_bytes,
            i <= width,
            forall|j: int| 0 <= j < i ==> out[j] == repr[j + modulus_bytes],
            forall|j: int| i <= j < 32 ==> out[j] == 0,
        decreases width - i,
    {
        out[i] = repr[i + modulus_bytes];
        i = i + 1;
    }
    proof {
        let k = modulus_bytes as nat;
        let w = width as nat;
        lemma_le_value_split(out@, w);
        lemma_le_value_zeros(out@.skip(w as int));
        assert(out@.take(w as int) =~= repr@.skip(k as int));
        lemma_slices_divide(repr@, k);
        lemma_pow256_positive(k);
        lemma_pow256_positive(w);
        assert(le_value(out@) == le_value(repr@.skip(k as int)) + pow256(w) * 0);
        assert(quotient_of(input@, k) <= input@) by (nonlinear_arith)
            requires
                pow256(k) > 0,
                quotient_of(input@, k) == input@ / pow256(k),
        ;
    }
    FieldValue { repr: out }
}

/// The low `count` bytes of `value`, least significant first, as witnesses for
/// a range check; unknown bytes where the value is unknown. Those bytes give
/// back the value exactly when it is below `256^count`.
pub fn limbs(value: &Option<FieldValue>, count: usize) -> (r: Vec<Option<u8>>)
    requires
        count <= 32,
    ensures
        r@.len() == count,
        value is None ==> forall|i: int| 0 <= i < count ==> r@[i] is None,
        value matches Some(v) ==> forall|i: int| 0 <= i < count ==> r@[i] == Some(v.repr@[i]),
        value matches Some(v) ==> (v@ < pow256(count as nat) <==> le_value(
            v.repr@.take(count as int),
        ) == v@),
{
    let mut r: Vec<Option<u8>> = Vec::new();
    let mut i: usize = 0;
    while i < count
        invariant
            i <= count <= 32,
            r@.len() == i,
            value is None ==> forall|j: int| 0 <= j < i ==> r@[j] is None,
            value matches Some(v) ==> forall|j: int| 0 <= j < i ==> r@[j] == Some(v.repr@[j]),
        decreases count - i,
    {
        match value {
            Some(v) => r.push(Some(v.repr[i])),
            None => r.push(None),
        }
        i = i + 1;
    }
    proof {
        if let Some(v) = *value {
            let k = count as nat;
            lemma_le_value_split(v.repr@, k);
            lemma_le_value_bound(v.repr@.take(k as int));
            lemma_pow256_positive(k);
            let hi = le_value(v.repr@.skip(k as int));
            if hi > 0 {
                assert(pow256(k) * hi >= pow256(k)) by (nonlinear_arith)
                    requires
                        hi > 0,
                        pow256(k) > 0,
                ;
            } else {
                assert(pow256(k) * hi == 0) by (nonlinear_arith)
                    requires
                        hi == 0,
                ;
            }
        }
    }
    r
}

/// Decomposition round trip: for every field element `v` and byte-aligned
/// modulus `256^k`, the remainder is below the modulus and the remainder plus
/// the modulus times the quotient gives back `v` exactly, as integers.
pub proof fn lemma_decomposition_round_trip(v: FieldValue, k: nat)
    requires
        v.wf(),
        k <= 32,
    ensures
        remainder_of(v@, k) < pow256(k),
        remainder_of(v@, k) + pow256(k) * quotient_of(v@, k) == v@,
        v@ < field_order(),
{
    lemma_slices_divide(v.repr@, k);
    lemma_le_value_split(v.repr@, k);
    lemma_le_value_bound(v.repr@.take(k as int));
}

} // verus!
