//! Byte strings read as natural numbers, in both byte orders.

use vstd::arithmetic::power2::{lemma2_to64, lemma_pow2_adds, pow2};
use vstd::prelude::*;

verus! {

/// The number that `s` spells in base 256, least significant byte first.
pub open spec fn le_value(s: Seq<u8>) -> nat
    decreases s.len(),
{
    if s.len() == 0 {
        0
    } else {
        (s[0] as nat) + 256 * le_value(s.drop_first())
    }
}

/// The number that `s` spells in base 256, most significant byte first.
pub open spec fn be_value(s: Seq<u8>) -> nat {
    le_value(s.reverse())
}

/// The `len` bytes that spell `value` in base 256, least significant byte first.
pub open spec fn le_bytes(value: nat, len: nat) -> Seq<u8>
    decreases len,
{
    if len == 0 {
        seq![]
    } else {
        seq![(value % 256) as u8] + le_bytes(value / 256, (len - 1) as nat)
    }
}

/// A byte string is determined by its length and the number that it spells.
pub proof fn lemma_le_bytes_of_value(s: Seq<u8>)
    ensures
        le_bytes(le_value(s), s.len()) == s,
    decreases s.len(),
{
    if s.len() > 0 {
        let tail = s.drop_first();
        lemma_le_bytes_of_value(tail);
        let value = le_value(s);
        assert(value % 256 == s[0] as nat && value / 256 == le_value(tail)) by (nonlinear_arith)
            requires
                value == (s[0] as nat) + 256 * le_value(tail),
                s[0] < 256,
        ;
        assert(s =~= seq![s[0]] + tail);
    } else {
        assert(s =~= seq![]);
    }
}

/// The bytes of a number that they have room for spell that number.
pub proof fn lemma_le_value_of_bytes(value: nat, len: nat)
    requires
        value < pow2(8 * len),
    ensures
        le_value(le_bytes(value, len)) == value,
        le_bytes(value, len).len() == len,
    decreases len,
{
    if len == 0 {
        lemma2_to64();
    } else {
        let rest = (len - 1) as nat;
        lemma2_to64();
        lemma_pow2_adds(8, 8 * rest);
        assert(value / 256 < pow2(8 * rest)) by (nonlinear_arith)
            requires
                value < 256 * pow2(8 * rest),
        ;
        lemma_le_value_of_bytes(value / 256, rest);
        let bytes = le_bytes(value, len);
        assert(bytes.drop_first() =~= le_bytes(value / 256, rest));
    }
}

/// Two byte strings of one length that spell the same number are the same string, in either byte
/// order.
pub proof fn lemma_value_injective(a: Seq<u8>, b: Seq<u8>)
    requires
        a.len() == b.len(),
    ensures
        le_value(a) == le_value(b) ==> a == b,
        be_value(a) == be_value(b) ==> a == b,
{
    lemma_le_bytes_of_value(a);
    lemma_le_bytes_of_value(b);
    lemma_le_bytes_of_value(a.reverse());
    lemma_le_bytes_of_value(b.reverse());
    if be_value(a) == be_value(b) {
        assert(a =~= a.reverse().reverse());
        assert(b =~= b.reverse().reverse());
    }
}

/// The same 32 bytes, last one first.
pub(crate) fn reversed(bytes: [u8; 32]) -> (r: [u8; 32])
    ensures
        r@ == bytes@.reverse(),
        le_value(r@) == be_value(bytes@),
        be_value(r@) == le_value(bytes@),
{
    let mut r: [u8; 32] = [0u8; 32];
    for i in 0..32usize
        invariant
            forall|j: int| 0 <= j < i ==> r@[j] == bytes@[31 - j],
    {
        r[i] = bytes[31 - i];
    }
    assert(r@ =~= bytes@.reverse());
    assert(r@.reverse() =~= bytes@);
    r
}

/// The 32 bytes of `data` from `start` on.
pub(crate) fn word_at(data: &[u8], start: usize) -> (r: [u8; 32])
    requires
        start + 32 <= data@.len(),
    ensures
        r@ == data@.subrange(start as int, start + 32),
        start == 0 && data@.len() == 32 ==> r@ == data@,
{
    let len = data.len();
    let mut r: [u8; 32] = [0u8; 32];
    for i in 0..32usize
        invariant
            start + 32 <= len,
            len == data@.len(),
            forall|j: int| 0 <= j < i ==> r@[j] == data@[start + j],
    {
        r[i] = data[start + i];
    }
    assert(r@ =~= data@.subrange(start as int, start + 32));
    r
}

/// Numbers are written in base 256: a byte in front of a little-endian string, and a byte behind a
/// big-endian one, is the digit of the ones.
pub proof fn law_positional(s: Seq<u8>, byte: u8)
    ensures
        le_value(seq![]) == 0,
        be_value(seq![]) == 0,
        le_value(seq![byte] + s) == byte + 256 * le_value(s),
        be_value(s.push(byte)) == byte + 256 * be_value(s),
{
    assert((seq![byte] + s).drop_first() =~= s);
    assert(s.push(byte).reverse() =~= seq![byte] + s.reverse());
    assert((seq![byte] + s.reverse()).drop_first() =~= s.reverse());
    let none: Seq<u8> = seq![];
    assert(none.reverse().len() == 0);
}

} // verus!
