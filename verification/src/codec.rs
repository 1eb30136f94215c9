//! The binary encoding of a rational value.
//!
//! ```text
//! [0..4)     the length N of the numerator run, 32 bits, little-endian
//! [4..4+N)   the numerator, little-endian
//! [4+N..)    the denominator, little-endian, at least one byte
//! ```
//!
//! `encode` writes each run with as few bytes as the number needs. `decode`
//! takes runs of any length: trailing zero bytes of a run do not change the
//! number, and what comes out is always in lowest terms.

use crate::fraction::{
    lemma_lowest_terms, lemma_lowest_terms_of_canonical, lowest_terms, Fraction,
};
use crate::magnitude::{
    le_bytes, le_value, lemma_four_bytes_value, lemma_le_bytes_value, lemma_padding_keeps_value,
    lemma_value_zero_iff, zeros,
};
use crate::rational::{Rational, RationalError};
use vstd::prelude::*;

verus! {

/// The greatest length that the prefix can hold.
pub const MAX_RUN_LEN: usize = 0xffff_ffff;

/// The four bytes of the length prefix for a numerator run of `len` bytes.
pub open spec fn length_prefix(len: nat) -> Seq<u8> {
    seq![
        (len % 256) as u8,
        (len / 256 % 256) as u8,
        (len / 256 / 256 % 256) as u8,
        (len / 256 / 256 / 256 % 256) as u8,
    ]
}

/// The layout: the prefix, the numerator run, the denominator run.
pub open spec fn frame(numer_run: Seq<u8>, denom_run: Seq<u8>) -> Seq<u8> {
    length_prefix(numer_run.len()) + numer_run + denom_run
}

/// The encoding of a value: both runs minimal.
pub open spec fn encoding(value: Fraction) -> Seq<u8> {
    frame(le_bytes(value.numer), le_bytes(value.denom))
}

/// Whether the numerator of a value is short enough for the length prefix.
pub open spec fn encodable(value: Fraction) -> bool {
    le_bytes(value.numer).len() <= MAX_RUN_LEN
}

/// What a byte string decodes to.
pub open spec fn decoding(bytes: Seq<u8>) -> Result<Fraction, RationalError> {
    if bytes.len() < 4 {
        Err(RationalError::Truncated)
    } else {
        let numer_len = le_value(bytes.subrange(0, 4)) as int;
        if bytes.len() - 4 <= numer_len {
            Err(RationalError::Truncated)
        } else {
            let numer = le_value(bytes.subrange(4, 4 + numer_len));
            let denom = le_value(bytes.subrange(4 + numer_len, bytes.len() as int));
            if denom == 0 {
                Err(RationalError::DenominatorZero)
            } else {
                Ok(lowest_terms(numer, denom))
            }
        }
    }
}

/// The length prefix denotes the length it was made from.
proof fn lemma_length_prefix_value(len: nat)
    requires
        len <= MAX_RUN_LEN,
    ensures
        length_prefix(len).len() == 4,
        le_value(length_prefix(len)) == len,
{
    let q1 = len / 256;
    let q2 = q1 / 256;
    let q3 = q2 / 256;
    assert(len == 256 * q1 + len % 256);
    assert(q1 == 256 * q2 + q1 % 256);
    assert(q2 == 256 * q3 + q2 % 256);
    assert(q3 < 256);
    lemma_four_bytes_value(length_prefix(len));
}

/// What a frame decodes to, by its two runs.
pub proof fn lemma_decoding_frame(numer_run: Seq<u8>, denom_run: Seq<u8>)
    requires
        numer_run.len() <= MAX_RUN_LEN,
    ensures
        decoding(frame(numer_run, denom_run)) == if denom_run.len() == 0 {
            Err::<Fraction, RationalError>(RationalError::Truncated)
        } else if le_value(denom_run) == 0 {
            Err(RationalError::DenominatorZero)
        } else {
            Ok(lowest_terms(le_value(numer_run), le_value(denom_run)))
        },
{
    let bytes = frame(numer_run, denom_run);
    let n = numer_run.len() as int;
    lemma_length_prefix_value(numer_run.len());
    assert(bytes.subrange(0, 4) =~= length_prefix(numer_run.len()));
    if denom_run.len() > 0 {
        assert(bytes.subrange(4, 4 + n) =~= numer_run);
        assert(bytes.subrange(4 + n, bytes.len() as int) =~= denom_run);
    }
}

/// Round trip: decoding the encoding of a canonical value gives the value.
pub proof fn lemma_round_trip(value: Fraction)
    requires
        value.is_canonical(),
        encodable(value),
    ensures
        decoding(encoding(value)) == Ok::<Fraction, RationalError>(value),
{
    lemma_le_bytes_value(value.numer);
    lemma_le_bytes_value(value.denom);
    lemma_decoding_frame(le_bytes(value.numer), le_bytes(value.denom));
    lemma_lowest_terms_of_canonical(value);
}

/// Padding tolerance: trailing zero bytes appended to the numerator run, to
/// the denominator run or to both do not change what a frame decodes to.
pub proof fn lemma_padding_tolerance(
    numer_run: Seq<u8>,
    denom_run: Seq<u8>,
    numer_padding: nat,
    denom_padding: nat,
)
    requires
        numer_run.len() + numer_padding <= MAX_RUN_LEN,
        denom_run.len() > 0,
    ensures
        decoding(frame(numer_run + zeros(numer_padding), denom_run + zeros(denom_padding)))
            == decoding(frame(numer_run, denom_run)),
{
    lemma_padding_keeps_value(numer_run, numer_padding);
    lemma_padding_keeps_value(denom_run, denom_padding);
    lemma_decoding_frame(numer_run, denom_run);
    lemma_decoding_frame(numer_run + zeros(numer_padding), denom_run + zeros(denom_padding));
}

/// Padding tolerance, of a value: its encoding with any padding on either
/// run decodes to the value.
pub proof fn lemma_padded_encoding(value: Fraction, numer_padding: nat, denom_padding: nat)
    requires
        value.is_canonical(),
        le_bytes(value.numer).len() + numer_padding <= MAX_RUN_LEN,
    ensures
        decoding(
            frame(
                le_bytes(value.numer) + zeros(numer_padding),
                le_bytes(value.denom) + zeros(denom_padding),
            ),
        ) == Ok::<Fraction, RationalError>(value),
{
    lemma_le_bytes_value(value.denom);
    lemma_padding_tolerance(
        le_bytes(value.numer),
        le_bytes(value.denom),
        numer_padding,
        denom_padding,
    );
    lemma_round_trip(value);
}

/// What is rejected: a string too short for the prefix; a prefix that
/// announces more numerator bytes than follow; a string that ends with the
/// numerator run; a denominator run of zero bytes only.
pub proof fn lemma_decoding_rejects(bytes: Seq<u8>)
    ensures
        bytes.len() < 4 ==> decoding(bytes) == Err::<Fraction, RationalError>(
            RationalError::Truncated,
        ),
        bytes.len() >= 4 && le_value(bytes.subrange(0, 4)) >= bytes.len() - 4 ==> decoding(bytes)
            == Err::<Fraction, RationalError>(RationalError::Truncated),
        bytes.len() >= 4 && le_value(bytes.subrange(0, 4)) < bytes.len() - 4 && (forall|i: int|
            4 + le_value(bytes.subrange(0, 4)) <= i < bytes.len() ==> bytes[i] == 0) ==> decoding(
            bytes,
        ) == Err::<Fraction, RationalError>(RationalError::DenominatorZero),
        decoding(bytes) is Ok ==> decoding(bytes)->Ok_0.is_canonical(),
{
    if bytes.len() >= 4 && le_value(bytes.subrange(0, 4)) < bytes.len() - 4 {
        let n = le_value(bytes.subrange(0, 4)) as int;
        let denom_run = bytes.subrange(4 + n, bytes.len() as int);
        lemma_value_zero_iff(denom_run);
        if forall|i: int| 4 + n <= i < bytes.len() ==> bytes[i] == 0 {
            assert forall|i: int| 0 <= i < denom_run.len() implies denom_run[i] == 0 by {
                assert(denom_run[i] == bytes[4 + n + i]);
            }
        }
        if le_value(denom_run) != 0 {
            lemma_lowest_terms(le_value(bytes.subrange(4, 4 + n)), le_value(denom_run));
        }
    }
}

/// The two parts of a slice before and from `mid`, if it is that long.
fn get_split_at(slice: &[u8], mid: usize) -> (parts: Option<(&[u8], &[u8])>)
    ensures
        match parts {
            Some((head, tail)) => mid <= slice@.len() && head@ == slice@.subrange(0, mid as int)
                && tail@ == slice@.subrange(mid as int, slice@.len() as int),
            None => mid > slice@.len(),
        },
{
    if mid > slice.len() {
        None
    } else {
        Some(slice.split_at(mid))
    }
}

impl Rational {
    /// Whether the numerator is short enough for the length prefix, so that
    /// the value can be encoded.
    pub fn is_encodable(&self) -> (fits: bool)
        ensures
            fits == encodable(self@),
    {
        self.numer_bytes().len() <= MAX_RUN_LEN
    }

    /// The encoding of the value.
    pub fn encode(&self) -> (bytes: Vec<u8>)
        requires
            encodable(self@),
        ensures
            bytes@ == encoding(self@),
    {
        let numer = self.numer_bytes();
        let denom = self.denom_bytes();
        let len: usize = numer.len();
        let mut bytes: Vec<u8> = Vec::new();
        bytes.push((len % 256) as u8);
        bytes.push((len / 256 % 256) as u8);
        bytes.push((len / 256 / 256 % 256) as u8);
        bytes.push((len / 256 / 256 / 256 % 256) as u8);
        assert(bytes@ =~= length_prefix(len as nat));
        bytes.extend_from_slice(numer);
        bytes.extend_from_slice(denom);
        assert(bytes@ =~= encoding(self@));
        bytes
    }

    /// The value that a byte string encodes, in lowest terms. `Truncated`
    /// when the string is shorter than four bytes, shorter than the numerator
    /// run that it announces, or ends with that run; `DenominatorZero` when
    /// the denominator run denotes zero.
    pub fn decode(bytes: &[u8]) -> (result: Result<Rational, RationalError>)
        ensures
            match result {
                Ok(value) => decoding(bytes@) == Ok::<Fraction, RationalError>(value@),
                Err(error) => decoding(bytes@) == Err::<Fraction, RationalError>(error),
            },
    {
        let (header, values) = match get_split_at(bytes, 4) {
            Some(parts) => parts,
            None => { return Err(RationalError::Truncated); },
        };
        proof {
            lemma_four_bytes_value(header@);
        }
        let numer_len: u64 = header[0] as u64 + 256 * (header[1] as u64) + 65536 * (header[2] as u64)
            + 16777216 * (header[3] as u64);
        if numer_len >= values.len() as u64 {
            return Err(RationalError::Truncated);
        }
        let (numer, denom) = match get_split_at(values, numer_len as usize) {
            Some(parts) => parts,
            None => { return Err(RationalError::Truncated); },
        };
        assert(numer@ =~= bytes@.subrange(4, 4 + numer_len));
        assert(denom@ =~= bytes@.subrange(4 + numer_len, bytes@.len() as int));
        Rational::new(numer, denom)
    }
}

} // verus!
