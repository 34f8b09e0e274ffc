//! Hashing, hex encoding and Ed25519 signatures, as the chain uses them.
//!
//! The outside crates `sha2`, `hex` and `ed25519-dalek` do the work; the
//! trusted items below say what their results are.
use ed25519_dalek::{Signer, SigningKey, Verifier, VerifyingKey, Signature};
use sha2::{Digest, Sha256};
use vstd::prelude::*;
use vstd::utf8::*;
use crate::encoding::hex_digit_char;

verus! {

/// The SHA-256 digest of `data`.
pub uninterp spec fn sha256_digest(data: Seq<u8>) -> Seq<u8>;

/// The compressed Ed25519 public key that belongs to the 32-byte secret `secret`.
pub uninterp spec fn ed25519_public_key(secret: Seq<u8>) -> Seq<u8>;

/// The Ed25519 signature of `msg` under the 32-byte secret `secret`.
pub uninterp spec fn ed25519_signature(secret: Seq<u8>, msg: Seq<u8>) -> Seq<u8>;

/// Whether `sig` is accepted as a signature of `msg` under the encoded public key `public`.
pub uninterp spec fn ed25519_verify(public: Seq<u8>, msg: Seq<u8>, sig: Seq<u8>) -> bool;

/// Lower-case hexadecimal, two digits per byte, high nibble first.
pub open spec fn hex_lower(b: Seq<u8>) -> Seq<char> {
    Seq::new(
        2 * b.len(),
        |i: int|
            if i % 2 == 0 {
                hex_digit_char((b[i / 2] / 16) as nat)
            } else {
                hex_digit_char((b[i / 2] % 16) as nat)
            },
    )
}

/// The value of one hexadecimal digit byte, either case.
pub open spec fn hex_value(c: u8) -> Option<u8> {
    if 48 <= c <= 57 {
        Some((c - 48) as u8)
    } else if 97 <= c <= 102 {
        Some((c - 87) as u8)
    } else if 65 <= c <= 70 {
        Some((c - 55) as u8)
    } else {
        None
    }
}

/// Decoding of a hexadecimal byte string: `None` for an odd length or a
/// byte that is no hexadecimal digit.
pub open spec fn hex_decoded(s: Seq<u8>) -> Option<Seq<u8>> {
    if s.len() % 2 != 0 {
        None
    } else if exists|i: int| 0 <= i < s.len() && hex_value(#[trigger] s[i]) is None {
        None
    } else {
        Some(
            Seq::new(
                s.len() / 2,
                |i: int| (hex_value(s[2 * i])->0 * 16 + hex_value(s[2 * i + 1])->0) as u8,
            ),
        )
    }
}

/// The lower-case hex text of the SHA-256 digest of the UTF-8 bytes of `s`.
pub open spec fn hash_text(s: Seq<char>) -> Seq<char> {
    hex_lower(sha256_digest(encode_utf8(s)))
}

proof fn lemma_hex_digit(d: nat)
    requires
        d < 16,
    ensures
        '\0' <= hex_digit_char(d) <= '\u{7f}',
        hex_value(hex_digit_char(d) as u8) == Some(d as u8),
{
}

/// Hex text is ASCII, twice as long as the bytes, and decodes back to them.
pub proof fn lemma_hex_roundtrip(b: Seq<u8>)
    ensures
        is_ascii_chars(hex_lower(b)),
        hex_lower(b).len() == 2 * b.len(),
        encode_utf8(hex_lower(b)).len() == 2 * b.len(),
        hex_decoded(encode_utf8(hex_lower(b))) == Some(b),
{
    let h = hex_lower(b);
    assert forall|i: int| 0 <= i < h.len() implies '\0' <= #[trigger] h[i] <= '\u{7f}'
        && hex_value(h[i] as u8) is Some by {
        lemma_hex_digit((b[i / 2] / 16) as nat);
        lemma_hex_digit((b[i / 2] % 16) as nat);
    }
    is_ascii_chars_encode_utf8(h);
    let e = encode_utf8(h);
    assert forall|i: int| 0 <= i < e.len() implies hex_value(#[trigger] e[i]) is Some by {
        assert(h[i] as u8 == e[i]);
    }
    let d = Seq::new(
        e.len() / 2,
        |i: int| (hex_value(e[2 * i])->0 * 16 + hex_value(e[2 * i + 1])->0) as u8,
    );
    assert forall|j: int| 0 <= j < b.len() implies d[j] == b[j] by {
        assert((2 * j) / 2 == j && (2 * j + 1) / 2 == j && (2 * j) % 2 == 0 && (2 * j + 1) % 2
            == 1) by (nonlinear_arith);
        assert(h[2 * j] as u8 == e[2 * j]);
        assert(h[2 * j + 1] as u8 == e[2 * j + 1]);
        lemma_hex_digit((b[j] / 16) as nat);
        lemma_hex_digit((b[j] % 16) as nat);
    }
    assert(d =~= b);
}

/// Calls `sha2::Sha256::digest`: the 32-byte SHA-256 digest of `data`.
#[verifier::external_body]
pub(crate) fn sha256(data: &[u8]) -> (r: Vec<u8>)
    ensures
        r@ == sha256_digest(data@),
        r@.len() == 32,
{
    Sha256::digest(data).to_vec()
}

/// Calls `hex::encode`: lower-case hexadecimal of `data`.
#[verifier::external_body]
pub(crate) fn hex_encode(data: &[u8]) -> (r: String)
    ensures
        r@ == hex_lower(data@),
{
    hex::encode(data)
}

/// Calls `hex::decode`: the bytes that the hexadecimal text `data` spells,
/// or `None` where it is of odd length or holds a non-hex byte.
#[verifier::external_body]
pub(crate) fn hex_decode(data: &[u8]) -> (r: Option<Vec<u8>>)
    ensures
        match r {
            Some(v) => hex_decoded(data@) == Some(v@),
            None => hex_decoded(data@) is None,
        },
{
    hex::decode(data).ok()
}

/// Calls `ed25519_dalek::SigningKey::verifying_key` on the key made from
/// `secret`: its 32-byte encoded public key.
#[verifier::external_body]
pub(crate) fn public_key_of(secret: &[u8]) -> (r: Vec<u8>)
    requires
        secret@.len() == 32,
    ensures
        r@ == ed25519_public_key(secret@),
        r@.len() == 32,
{
    let bytes: [u8; 32] = secret.try_into().unwrap();
    SigningKey::from_bytes(&bytes).verifying_key().to_bytes().to_vec()
}

/// Calls `ed25519_dalek::SigningKey::sign` with the key made from `secret`:
/// the 64-byte signature of `msg`, which the key's public half accepts.
#[verifier::external_body]
pub(crate) fn sign_bytes(secret: &[u8], msg: &[u8]) -> (r: Vec<u8>)
    requires
        secret@.len() == 32,
    ensures
        r@ == ed25519_signature(secret@, msg@),
        r@.len() == 64,
        ed25519_verify(ed25519_public_key(secret@), msg@, r@),
{
    let bytes: [u8; 32] = secret.try_into().unwrap();
    SigningKey::from_bytes(&bytes).sign(msg).to_bytes().to_vec()
}

/// Calls `ed25519_dalek::VerifyingKey::verify` on the key decoded from
/// `public` (by `VerifyingKey::from_bytes`; a point that does not decode
/// gives `false`) and the signature made from `sig`.
#[verifier::external_body]
pub(crate) fn verify_bytes(public: &[u8], msg: &[u8], sig: &[u8]) -> (r: bool)
    requires
        public@.len() == 32,
        sig@.len() == 64,
    ensures
        r == ed25519_verify(public@, msg@, sig@),
{
    let pk: [u8; 32] = public.try_into().unwrap();
    let sg: [u8; 64] = sig.try_into().unwrap();
    match VerifyingKey::from_bytes(&pk) {
        Ok(key) => key.verify(msg, &Signature::from_bytes(&sg)).is_ok(),
        Err(_) => false,
    }
}

/// The lower-case hex SHA-256 digest of the UTF-8 bytes of `s`.
pub fn hash_str(s: &str) -> (r: String)
    ensures
        r@ == hash_text(s@),
        r@.len() == 64,
{
    let digest = sha256(s.as_bytes());
    proof {
        lemma_hex_roundtrip(digest@);
    }
    hex_encode(digest.as_slice())
}

} // verus!
