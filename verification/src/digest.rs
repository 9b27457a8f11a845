//! Byte-level building blocks of block hashing: the decimal rendering of
//! integers, the UTF-8 bytes of strings, SHA3-256 and standard base64.

use sha3::Digest;
use vstd::prelude::*;

verus! {

/// ASCII decimal rendering of a natural number, most significant digit first,
/// without leading zeros (`0` renders as `"0"`), as `u64::to_string` writes it.
pub open spec fn decimal_digits(n: nat) -> Seq<u8>
    decreases n,
{
    if n < 10 {
        seq![(48 + n) as u8]
    } else {
        decimal_digits(n / 10).push((48 + n % 10) as u8)
    }
}

/// Appends the decimal rendering of `n` to `out`.
pub fn append_decimal(out: &mut Vec<u8>, n: u64)
    ensures
        final(out)@ == old(out)@ + decimal_digits(n as nat),
    decreases n,
{
    if n >= 10 {
        append_decimal(out, n / 10);
    }
    let digit: u8 = (n % 10) as u8;
    out.push(48 + digit);
    proof {
        assert(out@ =~= old(out)@ + decimal_digits(n as nat));
    }
}

/// Appends every byte of `bytes` to `out`, in order.
pub fn append_bytes(out: &mut Vec<u8>, bytes: &[u8])
    ensures
        final(out)@ == old(out)@ + bytes@,
{
    let mut i: usize = 0;
    while i < bytes.len()
        invariant
            i <= bytes@.len(),
            out@ == old(out)@ + bytes@.subrange(0, i as int),
        decreases bytes@.len() - i,
    {
        out.push(bytes[i]);
        i = i + 1;
        proof {
            assert(bytes@.subrange(0, i as int) =~= bytes@.subrange(0, i - 1).push(bytes@[i - 1]));
        }
    }
    proof {
        assert(bytes@.subrange(0, i as int) =~= bytes@);
    }
}

/// The character that standard base64 (RFC 4648, alphabet `A-Z a-z 0-9 + /`)
/// writes for a six-bit value.
pub open spec fn base64_char(v: int) -> char {
    if v < 26 {
        (65 + v) as char
    } else if v < 52 {
        (97 + (v - 26)) as char
    } else if v < 62 {
        (48 + (v - 52)) as char
    } else if v == 62 {
        '+'
    } else {
        '/'
    }
}

/// Standard base64 with `=` padding: every group of three bytes becomes four
/// characters, and a final group of one or two bytes is padded to four.
pub open spec fn base64_standard(s: Seq<u8>) -> Seq<char>
    decreases s.len(),
{
    if s.len() == 0 {
        Seq::empty()
    } else if s.len() == 1 {
        seq![base64_char((s[0] as int) / 4), base64_char(((s[0] as int) % 4) * 16), '=', '=']
    } else if s.len() == 2 {
        seq![
            base64_char((s[0] as int) / 4),
            base64_char(((s[0] as int) % 4) * 16 + (s[1] as int) / 16),
            base64_char(((s[1] as int) % 16) * 4),
            '=',
        ]
    } else {
        seq![
            base64_char((s[0] as int) / 4),
            base64_char(((s[0] as int) % 4) * 16 + (s[1] as int) / 16),
            base64_char(((s[1] as int) % 16) * 4 + (s[2] as int) / 64),
            base64_char((s[2] as int) % 64),
        ] + base64_standard(s.skip(3))
    }
}

/// The length of a standard base64 encoding: four characters per started
/// group of three bytes.
pub proof fn lemma_base64_len(s: Seq<u8>)
    ensures
        base64_standard(s).len() == 4 * ((s.len() + 2) / 3),
    decreases s.len(),
{
    if s.len() >= 3 {
        lemma_base64_len(s.skip(3));
    }
}

/// The SHA3-256 digest of a byte string (FIPS 202), as `sha3::Sha3_256` computes it.
pub uninterp spec fn sha3_256_digest(data: Seq<u8>) -> Seq<u8>;

/// Calls `<sha3::Sha3_256 as sha3::Digest>::digest`. Trusted: the result is the
/// SHA3-256 digest of `data`, 32 bytes long, as the crate's `OutputSize` of `U32` fixes.
#[verifier::external_body]
fn sha3_256(data: &[u8]) -> (digest: Vec<u8>)
    ensures
        digest@ == sha3_256_digest(data@),
        digest@.len() == 32,
{
    sha3::Sha3_256::digest(data).to_vec()
}

/// Calls `base64::encode`, which encodes with the crate's `STANDARD` configuration
/// (alphabet `A-Z a-z 0-9 + /`, `=` padding). Trusted: the result is the standard
/// base64 encoding of `data`. The crate panics only when the encoded length would
/// overflow `usize`, which `requires` leaves out.
#[verifier::external_body]
fn base64_encode(data: &[u8]) -> (encoded: String)
    requires
        4 * (data@.len() / 3) + (if data@.len() % 3 == 0 { 0int } else { 4int }) <= usize::MAX,
    ensures
        encoded@ == base64_standard(data@),
{
    base64::encode(data)
}

/// SHA3-256 of `bytes`, rendered in standard base64: always 44 ASCII characters.
pub fn hash_base64(bytes: &Vec<u8>) -> (hash: String)
    ensures
        hash@ == base64_standard(sha3_256_digest(bytes@)),
        hash@.len() == 44,
{
    let digest = sha3_256(bytes.as_slice());
    let encoded = base64_encode(digest.as_slice());
    proof {
        lemma_base64_len(digest@);
    }
    encoded
}

} // verus!
