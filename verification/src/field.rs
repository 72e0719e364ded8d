//! The scalar field of BN254.
//!
//! The arithmetic is that of `halo2curves`. Elements are kept in their canonical byte
//! representation, so that a contract can speak of the number that an element stands for.

use crate::bytes::{be_value, le_value, reversed};
use crate::error::TreeError;
use ff::{Field, PrimeField};
use halo2curves::bn256::Fr;
use vstd::arithmetic::power::pow;
use vstd::arithmetic::power2::{lemma2_to64_rest, lemma_pow2_adds, pow2};
use vstd::prelude::*;

verus! {

/// The order of the field.
pub open spec fn modulus() -> nat {
    0x30644e72e131a029b85045b68181585d2833e84879b9709143e1f593f0000001nat
}

/// Whether `repr`, least significant byte first, is the representation of a field element.
pub open spec fn canonical(repr: Seq<u8>) -> bool {
    le_value(repr) < modulus()
}

/// The order of the field fits in 32 bytes.
pub proof fn lemma_modulus_fits()
    ensures
        modulus() < pow2(8 * 32),
{
    lemma2_to64_rest();
    lemma_pow2_adds(64, 64);
    lemma_pow2_adds(128, 128);
    assert(8nat * 32 == 256);
    assert(pow2(256) == 0x1_0000_0000_0000_0000 * 0x1_0000_0000_0000_0000 * (
    0x1_0000_0000_0000_0000 * 0x1_0000_0000_0000_0000));
}

/// An element of the field. Its view is the number below the order of the field that it stands
/// for.
#[derive(Clone, Copy, Debug, PartialEq, Eq)]
pub struct FieldElement {
    repr: [u8; 32],
}

impl View for FieldElement {
    type V = nat;

    closed spec fn view(&self) -> nat {
        le_value(self.repr@)
    }
}

/// `halo2curves::bn256::Fr::from_repr`: takes exactly the byte strings that spell a number below
/// the order of the field, and keeps that number; `to_repr` then spells it with the same bytes.
#[verifier::external_body]
fn canonical_repr(repr: [u8; 32]) -> (r: Option<[u8; 32]>)
    ensures
        r is Some <==> canonical(repr@),
        r is Some ==> r->0@ == repr@,
{
    Option::<Fr>::from(Fr::from_repr(repr.into())).map(|element| element.to_repr().into())
}

/// `From<u64>` of `halo2curves::bn256::Fr`: the element that stands for `value`.
#[verifier::external_body]
fn u64_repr(value: u64) -> (r: [u8; 32])
    ensures
        le_value(r@) == value,
{
    Fr::from(value).to_repr().into()
}

/// `halo2curves::bn256::Fr::from_u128`: the element that stands for `value`.
#[verifier::external_body]
fn u128_repr(value: u128) -> (r: [u8; 32])
    ensures
        le_value(r@) == value,
{
    Fr::from_u128(value).to_repr().into()
}

/// `+` of `halo2curves::bn256::Fr`: addition modulo the order of the field. `from_raw` makes each
/// element of the four words of its number, least significant first.
#[verifier::external_body]
fn sum_repr(a: [u8; 32], b: [u8; 32]) -> (r: [u8; 32])
    requires
        canonical(a@),
        canonical(b@),
    ensures
        le_value(r@) == (le_value(a@) + le_value(b@)) % modulus(),
{
    let word = |r: &[u8; 32], i: usize| u64::from_le_bytes(r[i..i + 8].try_into().unwrap());
    let a = Fr::from_raw([0, 8, 16, 24].map(|i| word(&a, i)));
    let b = Fr::from_raw([0, 8, 16, 24].map(|i| word(&b, i)));
    (a + b).to_repr().into()
}

/// `*` of `halo2curves::bn256::Fr`: multiplication modulo the order of the field. `from_raw` makes
/// each element of the four words of its number, least significant first.
#[verifier::external_body]
fn product_repr(a: [u8; 32], b: [u8; 32]) -> (r: [u8; 32])
    requires
        canonical(a@),
        canonical(b@),
    ensures
        le_value(r@) == (le_value(a@) * le_value(b@)) % modulus(),
{
    let word = |r: &[u8; 32], i: usize| u64::from_le_bytes(r[i..i + 8].try_into().unwrap());
    let a = Fr::from_raw([0, 8, 16, 24].map(|i| word(&a, i)));
    let b = Fr::from_raw([0, 8, 16, 24].map(|i| word(&b, i)));
    (a * b).to_repr().into()
}

/// `ff::Field::pow_vartime` on `halo2curves::bn256::Fr`, with an exponent of one word: the power
/// modulo the order of the field. `from_raw` makes the base of the four words of its number, least
/// significant first.
#[verifier::external_body]
fn power_repr(base: [u8; 32], exponent: u64) -> (r: [u8; 32])
    requires
        canonical(base@),
    ensures
        le_value(r@) == pow(le_value(base@) as int, exponent as nat) % (modulus() as int),
{
    let word = |r: &[u8; 32], i: usize| u64::from_le_bytes(r[i..i + 8].try_into().unwrap());
    let base = Fr::from_raw([0, 8, 16, 24].map(|i| word(&base, i)));
    base.pow_vartime([exponent]).to_repr().into()
}

impl FieldElement {
    /// The number that an element stands for is below the order of the field.
    #[verifier::type_invariant]
    pub open spec fn is_reduced(self) -> bool {
        self@ < modulus()
    }

    /// The element that `repr` represents, least significant byte first, if it represents one.
    pub fn from_repr(repr: [u8; 32]) -> (r: Option<FieldElement>)
        ensures
            r is Some <==> canonical(repr@),
            r is Some ==> r->0@ == le_value(repr@),
    {
        match canonical_repr(repr) {
            Some(repr) => Some(FieldElement { repr }),
            None => None,
        }
    }

    /// The representation of the element, least significant byte first.
    pub fn to_repr(self) -> (r: [u8; 32])
        ensures
            le_value(r@) == self@,
            canonical(r@),
    {
        proof {
            use_type_invariant(&self);
        }
        self.repr
    }

    /// The element that stands for `value`.
    pub fn from_u64(value: u64) -> (r: FieldElement)
        ensures
            r@ == value,
    {
        FieldElement { repr: u64_repr(value) }
    }

    /// The element that stands for `value`.
    pub fn from_u128(value: u128) -> (r: FieldElement)
        ensures
            r@ == value,
    {
        FieldElement { repr: u128_repr(value) }
    }

    pub fn plus(self, other: FieldElement) -> (r: FieldElement)
        ensures
            r@ == (self@ + other@) % modulus(),
    {
        proof {
            use_type_invariant(&self);
            use_type_invariant(&other);
        }
        FieldElement { repr: sum_repr(self.repr, other.repr) }
    }

    pub fn times(self, other: FieldElement) -> (r: FieldElement)
        ensures
            r@ == (self@ * other@) % modulus(),
    {
        proof {
            use_type_invariant(&self);
            use_type_invariant(&other);
        }
        FieldElement { repr: product_repr(self.repr, other.repr) }
    }

    pub fn power(self, exponent: u64) -> (r: FieldElement)
        ensures
            r@ == pow(self@ as int, exponent as nat) % (modulus() as int),
    {
        proof {
            use_type_invariant(&self);
            vstd::arithmetic::div_mod::lemma_mod_bound(
                pow(self@ as int, exponent as nat),
                modulus() as int,
            );
        }
        FieldElement { repr: power_repr(self.repr, exponent) }
    }
}

/// The element that `bytes` spells, most significant byte first.
pub fn fr_from_be(bytes: [u8; 32]) -> (r: Result<FieldElement, TreeError>)
    ensures
        be_value(bytes@) < modulus() ==> r is Ok && r->Ok_0@ == be_value(bytes@),
        be_value(bytes@) >= modulus() ==> r == Err::<FieldElement, _>(TreeError::NonCanonical),
{
    match FieldElement::from_repr(reversed(bytes)) {
        Some(element) => Ok(element),
        None => Err(TreeError::NonCanonical),
    }
}

/// The 32 bytes that spell `value`, most significant byte first.
pub fn fr_to_be(value: FieldElement) -> (r: [u8; 32])
    ensures
        be_value(r@) == value@,
        be_value(r@) < modulus(),
{
    reversed(value.to_repr())
}

/// Bytes represent a field element exactly if the number that they spell, the least significant one
/// first, is below the order of the field.
pub proof fn law_canonical(repr: Seq<u8>)
    ensures
        canonical(repr) <==> le_value(repr)
            < 0x30644e72e131a029b85045b68181585d2833e84879b9709143e1f593f0000001nat,
{
}

} // verus!
