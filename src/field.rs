//! Elements of the Pallas base field, held as their canonical little-endian bytes.
use halo2_proofs::pasta::group::ff::PrimeField;
use halo2_proofs::pasta::Fp;
use vstd::prelude::*;

verus! {

/// The prime order `p` of the Pallas base field.
pub open spec fn field_order() -> nat {
    0x40000000000000000000000000000000224698fc094cf91b992d30ed00000001nat
}

/// The integer that a byte sequence denotes, least significant byte first.
pub open spec fn le_value(b: Seq<u8>) -> nat
    decreases b.len(),
{
    if b.len() == 0 {
        0
    } else {
        b[0] as nat + 256 * le_value(b.drop_first())
    }
}

/// Relies on `From<u64> for Fp` and `PrimeField::to_repr`: the canonical
/// little-endian bytes of the field element equal to `v`.
#[verifier::external_body]
fn fp_repr_of_u64(v: u64) -> (r: [u8; 32])
    ensures
        le_value(r@) == v,
{
    Fp::from(v).to_repr()
}

/// Relies on `PrimeField::from_repr`: it accepts exactly the byte strings that
/// denote an integer below the field order.
#[verifier::external_body]
fn fp_repr_is_canonical(repr: [u8; 32]) -> (r: bool)
    ensures
        r == (le_value(repr@) < field_order()),
{
    bool::from(Fp::from_repr(repr).is_some())
}

/// Relies on `Add for Fp`: addition modulo the field order, read and written
/// through the canonical representation.
#[verifier::external_body]
fn fp_add(a: [u8; 32], b: [u8; 32]) -> (r: [u8; 32])
    requires
        le_value(a@) < field_order(),
        le_value(b@) < field_order(),
    ensures
        le_value(r@) == (le_value(a@) + le_value(b@)) % field_order(),
{
    (Fp::from_repr(a).unwrap() + Fp::from_repr(b).unwrap()).to_repr()
}

/// Relies on `Mul for Fp`: multiplication modulo the field order, read and
/// written through the canonical representation.
#[verifier::external_body]
fn fp_mul(a: [u8; 32], b: [u8; 32]) -> (r: [u8; 32])
    requires
        le_value(a@) < field_order(),
        le_value(b@) < field_order(),
    ensures
        le_value(r@) == (le_value(a@) * le_value(b@)) % field_order(),
{
    (Fp::from_repr(a).unwrap() * Fp::from_repr(b).unwrap()).to_repr()
}

/// A field element, stored as its canonical little-endian representation.
#[derive(Clone, Copy, Debug, PartialEq, Eq)]
pub struct FieldValue {
    pub repr: [u8; 32],
}

impl View for FieldValue {
    type V = nat;

    open spec fn view(&self) -> nat {
        le_value(self.repr@)
    }
}

impl FieldValue {
    /// The representation is canonical: it denotes an integer below the field order.
    pub open spec fn wf(&self) -> bool {
        self@ < field_order()
    }

    /// The field element equal to the integer `v`.
    pub fn from_u64(v: u64) -> (r: FieldValue)
        ensures
            r.wf(),
            r@ == v,
    {
        let r = FieldValue { repr: fp_repr_of_u64(v) };
        assert(v < field_order());
        r
    }

    /// The element with representation `repr`, or `None` where `repr` is not canonical.
    pub fn from_repr(repr: [u8; 32]) -> (r: Option<FieldValue>)
        ensures
            r is Some <==> le_value(repr@) < field_order(),
            r is Some ==> r->0.repr == repr && r->0.wf(),
    {
        if fp_repr_is_canonical(repr) {
            Some(FieldValue { repr })
        } else {
            None
        }
    }

    /// The field sum `self + other`.
    pub fn add(&self, other: &FieldValue) -> (r: FieldValue)
        requires
            self.wf(),
            other.wf(),
        ensures
            r.wf(),
            r@ == (self@ + other@) % field_order(),
    {
        FieldValue { repr: fp_add(self.repr, other.repr) }
    }

    /// The field product `self * other`.
    pub fn mul(&self, other: &FieldValue) -> (r: FieldValue)
        requires
            self.wf(),
            other.wf(),
        ensures
            r.wf(),
            r@ == (self@ * other@) % field_order(),
    {
        FieldValue { repr: fp_mul(self.repr, other.repr) }
    }
}

} // verus!
