//! Unsigned magnitudes as little-endian byte strings.
//!
//! A byte string denotes the natural number whose base-256 digits it lists,
//! least significant first. Trailing zero bytes do not change the number; the
//! *minimal* string of a number has none, except that zero is the single byte
//! `0`.

use vstd::prelude::*;

verus! {

/// The number a little-endian byte string denotes. The empty string denotes 0.
pub open spec fn le_value(bytes: Seq<u8>) -> nat
    decreases bytes.len(),
{
    if bytes.len() == 0 {
        0
    } else {
        bytes[0] as nat + 256 * le_value(bytes.drop_first())
    }
}

/// The minimal little-endian byte string of `n`.
pub open spec fn le_bytes(n: nat) -> Seq<u8>
    decreases n,
{
    if n < 256 {
        seq![n as u8]
    } else {
        seq![(n % 256) as u8] + le_bytes(n / 256)
    }
}

/// A byte string is minimal when it is not empty and, unless it is a single
/// byte, its most significant byte is not zero.
pub open spec fn is_minimal(bytes: Seq<u8>) -> bool {
    bytes.len() >= 1 && (bytes.len() == 1 || bytes.last() != 0)
}

/// `count` zero bytes.
pub open spec fn zeros(count: nat) -> Seq<u8> {
    Seq::new(count, |i: int| 0u8)
}

/// A string of zero bytes denotes zero.
pub proof fn lemma_zeros_value(count: nat)
    ensures
        le_value(zeros(count)) == 0,
    decreases count,
{
    if count > 0 {
        assert(zeros(count).drop_first() =~= zeros((count - 1) as nat));
        lemma_zeros_value((count - 1) as nat);
    }
}

/// Appending zero bytes to a little-endian string does not change its value.
pub proof fn lemma_padding_keeps_value(bytes: Seq<u8>, count: nat)
    ensures
        le_value(bytes + zeros(count)) == le_value(bytes),
    decreases bytes.len(),
{
    if bytes.len() == 0 {
        assert(bytes + zeros(count) =~= zeros(count));
        lemma_zeros_value(count);
    } else {
        assert((bytes + zeros(count)).drop_first() =~= bytes.drop_first() + zeros(count));
        lemma_padding_keeps_value(bytes.drop_first(), count);
    }
}

/// A byte string denotes zero exactly when all its bytes are zero.
pub proof fn lemma_value_zero_iff(bytes: Seq<u8>)
    ensures
        le_value(bytes) == 0 <==> forall|i: int| 0 <= i < bytes.len() ==> bytes[i] == 0,
    decreases bytes.len(),
{
    if bytes.len() > 0 {
        let rest = bytes.drop_first();
        lemma_value_zero_iff(rest);
        if le_value(bytes) == 0 {
            assert forall|i: int| 0 <= i < bytes.len() implies bytes[i] == 0 by {
                if i > 0 {
                    assert(rest[i - 1] == bytes[i]);
                }
            }
        }
        if forall|i: int| 0 <= i < bytes.len() ==> bytes[i] == 0 {
            assert forall|i: int| 0 <= i < rest.len() implies rest[i] == 0 by {
                assert(rest[i] == bytes[i + 1]);
            }
        }
    }
}

/// 256 to the power `exponent`.
pub open spec fn pow256(exponent: nat) -> nat
    decreases exponent,
{
    if exponent == 0 {
        1
    } else {
        256 * pow256((exponent - 1) as nat)
    }
}

/// The value of two strings joined: the second counts from where the first
/// ends.
pub proof fn lemma_concat_value(low: Seq<u8>, high: Seq<u8>)
    ensures
        le_value(low + high) == le_value(low) + pow256(low.len()) * le_value(high),
    decreases low.len(),
{
    if low.len() == 0 {
        assert(low + high =~= high);
        assert(1 * le_value(high) == le_value(high)) by (nonlinear_arith);
    } else {
        let tail = low.drop_first();
        assert((low + high).drop_first() =~= tail + high);
        assert((low + high)[0] == low[0]);
        lemma_concat_value(tail, high);
        let rest = le_value(tail);
        let scale = pow256(tail.len());
        let top = le_value(high);
        assert(pow256(low.len()) == 256 * scale);
        assert(le_value(low + high) == low[0] + 256 * (rest + scale * top));
        assert(256 * (rest + scale * top) == 256 * rest + (256 * scale) * top) by (nonlinear_arith);
    }
}

/// A string of one byte denotes that byte.
pub proof fn lemma_single_byte_value(bytes: Seq<u8>)
    requires
        bytes.len() == 1,
    ensures
        le_value(bytes) == bytes[0] as nat,
{
    assert(bytes.drop_first() =~= Seq::<u8>::empty());
    assert(le_value(bytes.drop_first()) == 0);
}

/// The number that four bytes denote, written out.
pub proof fn lemma_four_bytes_value(bytes: Seq<u8>)
    requires
        bytes.len() == 4,
    ensures
        le_value(bytes) == bytes[0] + 256 * bytes[1] + 65536 * bytes[2] + 16777216 * bytes[3],
{
    reveal_with_fuel(le_value, 5);
    let b1 = bytes.drop_first();
    let b2 = b1.drop_first();
    let b3 = b2.drop_first();
    assert(b3.drop_first().len() == 0);
}

/// `le_bytes(n)` is minimal and denotes `n`.
pub proof fn lemma_le_bytes_value(n: nat)
    ensures
        le_value(le_bytes(n)) == n,
        is_minimal(le_bytes(n)),
    decreases n,
{
    if n < 256 {
        lemma_single_byte_value(le_bytes(n));
    } else {
        let rest = le_bytes(n / 256);
        lemma_le_bytes_value(n / 256);
        let all = seq![(n % 256) as u8] + rest;
        assert(all.drop_first() =~= rest);
        assert(all.last() == rest.last());
        if rest.len() == 1 {
            lemma_single_byte_value(rest);
        }
    }
}

/// A minimal byte string is the minimal string of the number it denotes: two
/// minimal strings with the same value are the same string.
pub proof fn lemma_minimal_is_le_bytes(bytes: Seq<u8>)
    requires
        is_minimal(bytes),
    ensures
        le_bytes(le_value(bytes)) == bytes,
    decreases bytes.len(),
{
    let rest = bytes.drop_first();
    if bytes.len() == 1 {
        lemma_single_byte_value(bytes);
        assert(le_bytes(bytes[0] as nat) =~= bytes);
    } else {
        assert(rest.last() == bytes.last());
        lemma_minimal_is_le_bytes(rest);
        lemma_value_zero_iff(rest);
        assert(le_value(rest) >= 1) by {
            if le_value(rest) == 0 {
                assert(rest[rest.len() - 1] == 0);
            }
        }
        let v = le_value(bytes);
        assert(v == bytes[0] as nat + 256 * le_value(rest));
        assert(v % 256 == bytes[0] as nat && v / 256 == le_value(rest));
        assert(seq![bytes[0]] + rest =~= bytes);
    }
}

/// Whether a little-endian byte string denotes zero.
pub fn is_zero(bytes: &[u8]) -> (zero: bool)
    ensures
        zero == (le_value(bytes@) == 0),
{
    let mut i: usize = 0;
    while i < bytes.len()
        invariant
            i <= bytes.len(),
            forall|j: int| 0 <= j < i ==> bytes@[j] == 0,
        decreases bytes.len() - i,
    {
        if bytes[i] != 0 {
            proof {
                lemma_value_zero_iff(bytes@);
            }
            return false;
        }
        i += 1;
    }
    proof {
        lemma_value_zero_iff(bytes@);
    }
    true
}

/// Little-endian bytes that denote `value`.
pub fn bytes_of(value: u64) -> (bytes: Vec<u8>)
    ensures
        le_value(bytes@) == value,
{
    let mut bytes: Vec<u8> = Vec::new();
    let mut rest: u64 = value;
    assert(pow256(0) * rest == rest) by (nonlinear_arith)
        requires
            pow256(0) == 1,
    ;
    while rest > 0
        invariant
            le_value(bytes@) + pow256(bytes@.len()) * rest == value,
        decreases rest,
    {
        let byte: u8 = (rest % 256) as u8;
        let ghost before = bytes@;
        bytes.push(byte);
        proof {
            let scale = pow256(before.len());
            let higher = rest / 256;
            assert(bytes@ =~= before + seq![byte]);
            lemma_concat_value(before, seq![byte]);
            lemma_single_byte_value(seq![byte]);
            assert(pow256(bytes@.len()) == 256 * scale);
            assert(scale * rest == scale * byte + (256 * scale) * higher) by (nonlinear_arith)
                requires
                    rest == 256 * higher + byte,
            ;
        }
        rest = rest / 256;
    }
    assert(pow256(bytes@.len()) * rest == 0) by (nonlinear_arith)
        requires
            rest == 0,
    ;
    bytes
}

} // verus!
