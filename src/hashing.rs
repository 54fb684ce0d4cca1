//! Digests and their lowercase hexadecimal rendering.
use digest::Digest;
use vstd::prelude::*;
use vstd::string::StringSliceAdditionalSpecFns;

verus! {

/// The SHA-1 digest of a byte string.
pub uninterp spec fn sha1_of(b: Seq<u8>) -> Seq<u8>;

/// The SHA-256 digest of a byte string.
pub uninterp spec fn sha256_of(b: Seq<u8>) -> Seq<u8>;

/// The lowercase hexadecimal digit for a value below sixteen.
pub open spec fn hex_digit(n: u8) -> char {
    if n < 10 {
        (n + 48) as char
    } else {
        (n + 87) as char
    }
}

/// Two lowercase hex digits per byte, high nibble first.
pub open spec fn hex_of(b: Seq<u8>) -> Seq<char>
    decreases b.len(),
{
    if b.len() == 0 {
        Seq::empty()
    } else {
        hex_of(b.drop_last()) + seq![hex_digit(b.last() / 16), hex_digit(b.last() % 16)]
    }
}

pub proof fn lemma_hex_len(b: Seq<u8>)
    ensures
        hex_of(b).len() == 2 * b.len(),
    decreases b.len(),
{
    if b.len() > 0 {
        lemma_hex_len(b.drop_last());
    }
}

/// Every hex digit is a lowercase letter or a decimal digit.
pub proof fn lemma_hex_digits(b: Seq<u8>)
    ensures
        forall|i: int|
            0 <= i < hex_of(b).len() ==> ('0' <= #[trigger] hex_of(b)[i] <= '9') || ('a'
                <= hex_of(b)[i] <= 'f'),
    decreases b.len(),
{
    if b.len() > 0 {
        lemma_hex_digits(b.drop_last());
        lemma_hex_len(b.drop_last());
    }
}

/// Relies on `hex::encode`: two lowercase hex digits per byte, in order.
#[verifier::external_body]
fn to_hex(b: &[u8]) -> (r: String)
    ensures
        r@ == hex_of(b@),
{
    hex::encode(b)
}

/// Relies on `sha1::Sha1::digest`: the 20-byte SHA-1 digest of the input.
#[verifier::external_body]
fn sha1_digest(b: &[u8]) -> (r: Vec<u8>)
    ensures
        r@ == sha1_of(b@),
        r@.len() == 20,
{
    sha1::Sha1::digest(b).to_vec()
}

/// Relies on `sha2::Sha256::digest`: the 32-byte SHA-256 digest of the input.
#[verifier::external_body]
fn sha256_digest(b: &[u8]) -> (r: Vec<u8>)
    ensures
        r@ == sha256_of(b@),
        r@.len() == 32,
{
    sha2::Sha256::digest(b).to_vec()
}

/// Hex digest that names a key's bucket.
pub open spec fn key_hash(key: Seq<u8>) -> Seq<char> {
    hex_of(sha1_of(key))
}

/// Hex checksum that guards one log record's payload.
pub open spec fn payload_checksum(payload: Seq<u8>) -> Seq<char> {
    hex_of(sha256_of(payload))
}

/// Lowercase hex SHA-1 of the key's UTF-8 bytes: forty digits.
pub fn hash_key(key: &str) -> (r: String)
    ensures
        r@ == key_hash(key.spec_bytes()),
        r@.len() == 40,
{
    let d = sha1_digest(key.as_bytes());
    proof {
        lemma_hex_len(d@);
    }
    to_hex(d.as_slice())
}

/// Lowercase hex SHA-256 of a payload: sixty-four digits.
pub fn hash_entry(payload: &[u8]) -> (r: String)
    ensures
        r@ == payload_checksum(payload@),
        r@.len() == 64,
{
    let d = sha256_digest(payload);
    proof {
        lemma_hex_len(d@);
    }
    to_hex(d.as_slice())
}

} // verus!
