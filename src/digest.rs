//! Digests of records, and their text form: lower-case hexadecimal.

use vstd::prelude::*;

verus! {

/// Length in bytes of every digest.
pub const DIGEST_LEN: usize = 64;

/// The SHA3-512 digest of a byte string.
pub uninterp spec fn sha3_512_of(data: Seq<u8>) -> Seq<u8>;

/// Relies on sha3's `Sha3_512`: its digest of `data`, 64 bytes that depend on
/// the bytes of `data` alone.
#[verifier::external_body]
pub(crate) fn sha3_512(data: &[u8]) -> (r: Vec<u8>)
    ensures
        r@ == sha3_512_of(data@),
        r@.len() == DIGEST_LEN,
{
    <sha3::Sha3_512 as sha3::Digest>::digest(data).to_vec()
}

/// The ASCII byte of a hexadecimal digit, lower case.
pub open spec fn hex_digit(n: u8) -> u8 {
    if n < 10 {
        (n + 48) as u8
    } else {
        (n + 87) as u8
    }
}

/// Two lower-case hexadecimal digits for each byte, most significant first.
pub open spec fn hex_encode(d: Seq<u8>) -> Seq<u8>
    decreases d.len(),
{
    if d.len() == 0 {
        Seq::empty()
    } else {
        seq![hex_digit(d[0] / 16), hex_digit(d[0] % 16)] + hex_encode(d.drop_first())
    }
}

/// The value of one hexadecimal digit, upper or lower case.
pub open spec fn hex_value(c: u8) -> Option<u8> {
    if 48 <= c <= 57 {
        Some((c - 48) as u8)
    } else if 97 <= c <= 102 {
        Some((c - 87) as u8)
    } else if 65 <= c <= 70 {
        Some((c - 55) as u8)
    } else {
        None
    }
}

/// The bytes that hexadecimal text stands for: `None` for an odd length or a
/// byte that is no hexadecimal digit.
pub open spec fn hex_decode(s: Seq<u8>) -> Option<Seq<u8>>
    decreases s.len(),
{
    if s.len() == 0 {
        Some(Seq::empty())
    } else if s.len() == 1 {
        None
    } else {
        match (hex_value(s[0]), hex_value(s[1]), hex_decode(s.skip(2))) {
            (Some(hi), Some(lo), Some(rest)) => Some(seq![(hi * 16 + lo) as u8] + rest),
            _ => None,
        }
    }
}

/// Relies on `hex::encode`: two lower-case digits for each byte, in order.
#[verifier::external_body]
pub(crate) fn encode_hex(d: &[u8]) -> (r: Vec<u8>)
    ensures
        r@ == hex_encode(d@),
{
    hex::encode(d).into_bytes()
}

#[verifier::external_type_specification]
#[verifier::external_body]
pub struct ExFromHexError(hex::FromHexError);

/// Relies on `hex::decode`: an error for an odd length or a byte that is no
/// hexadecimal digit, else the bytes that each pair of digits stands for.
#[verifier::external_body]
pub(crate) fn decode_hex(s: &[u8]) -> (r: Result<Vec<u8>, hex::FromHexError>)
    ensures
        r is Ok <==> hex_decode(s@) is Some,
        r matches Ok(v) ==> hex_decode(s@) == Some(v@),
{
    hex::decode(s)
}

/// The text form of a digest, without a line break.
pub fn digest_to_hex(d: &[u8]) -> (r: Vec<u8>)
    ensures
        r@ == hex_encode(d@),
        r@.len() == 2 * d@.len(),
{
    proof {
        lemma_hex_encode_len(d@);
    }
    encode_hex(d)
}

/// The digest that one line of text form stands for: `None` unless the line
/// is hexadecimal text of exactly `DIGEST_LEN` bytes.
pub fn parse_digest_line(line: &[u8]) -> (r: Option<Vec<u8>>)
    ensures
        r is Some <==> (hex_decode(line@) matches Some(d) && d.len() == DIGEST_LEN),
        r matches Some(d) ==> hex_decode(line@) == Some(d@),
{
    match decode_hex(line) {
        Ok(d) => if d.len() == DIGEST_LEN {
            Some(d)
        } else {
            None
        },
        Err(_) => None,
    }
}

pub proof fn lemma_hex_encode_len(d: Seq<u8>)
    ensures
        hex_encode(d).len() == 2 * d.len(),
    decreases d.len(),
{
    if d.len() > 0 {
        lemma_hex_encode_len(d.drop_first());
    }
}

/// Decoding the text form of bytes gives the same bytes back.
pub proof fn lemma_hex_round_trip(d: Seq<u8>)
    ensures
        hex_decode(hex_encode(d)) == Some(d),
    decreases d.len(),
{
    if d.len() > 0 {
        let b = d[0];
        let e = hex_encode(d);
        lemma_hex_round_trip(d.drop_first());
        assert(e.skip(2) =~= hex_encode(d.drop_first()));
        assert(hex_value(hex_digit(b / 16)) == Some(b / 16));
        assert(hex_value(hex_digit(b % 16)) == Some(b % 16));
        assert((b / 16) * 16 + b % 16 == b) by (nonlinear_arith);
        assert(d =~= seq![b] + d.drop_first());
    } else {
        assert(hex_encode(d) =~= Seq::<u8>::empty());
    }
}

} // verus!
