//! Ed25519 keys and signatures, and the text form of a private key.
use vstd::prelude::*;
use data_encoding::BASE32;
use ed25519_dalek::{Signature, Signer, SigningKey, Verifier, VerifyingKey};
use rand::rngs::OsRng;
use rand::RngCore;

verus! {

/// The Ed25519 signature of `msg` under the secret key `secret`.
pub uninterp spec fn ed25519_signature(secret: Seq<u8>, msg: Seq<u8>) -> Seq<u8>;

/// The Ed25519 public key that belongs to the secret key `secret`.
pub uninterp spec fn ed25519_public(secret: Seq<u8>) -> Seq<u8>;

/// Whether `sig` is a valid Ed25519 signature of `msg` under `public`.
pub uninterp spec fn ed25519_accepts(public: Seq<u8>, msg: Seq<u8>, sig: Seq<u8>) -> bool;

/// The padded RFC 4648 base32 text of `b`.
pub uninterp spec fn base32_text(b: Seq<u8>) -> Seq<char>;

/// Relies on ed25519_dalek's `SigningKey::from_bytes` and `Signer::sign`:
/// signing is deterministic, gives 64 bytes, and what it gives is accepted
/// under the key's own verifying key.
#[verifier::external_body]
fn sign_detached(secret: &[u8; 32], msg: &[u8]) -> (r: Vec<u8>)
    ensures
        r@ == ed25519_signature(secret@, msg@),
        r@.len() == 64,
        ed25519_accepts(ed25519_public(secret@), msg@, r@),
{
    SigningKey::from_bytes(secret).sign(msg).to_bytes().to_vec()
}

/// Relies on ed25519_dalek's `SigningKey::verifying_key`.
#[verifier::external_body]
fn verifying_key_bytes(secret: &[u8; 32]) -> (r: [u8; 32])
    ensures
        r@ == ed25519_public(secret@),
{
    SigningKey::from_bytes(secret).verifying_key().to_bytes()
}

/// Relies on ed25519_dalek's `VerifyingKey::from_bytes` and
/// `Verifier::verify`; a key that is no curve point accepts nothing.
#[verifier::external_body]
fn verify_detached(public: &[u8; 32], msg: &[u8], sig: &[u8]) -> (r: bool)
    requires
        sig@.len() == 64,
    ensures
        r == ed25519_accepts(public@, msg@, sig@),
{
    let sig: [u8; 64] = sig.try_into().unwrap();
    match VerifyingKey::from_bytes(public) {
        Ok(key) => key.verify(msg, &Signature::from_bytes(&sig)).is_ok(),
        Err(_) => false,
    }
}

/// Relies on `OsRng::try_fill_bytes` and ed25519_dalek's
/// `SigningKey::from_bytes`, as `SigningKey::generate` uses them; `None`
/// when the operating system's random source fails.
#[verifier::external_body]
pub fn generate_private_key() -> (r: Option<[u8; 32]>) {
    let mut secret = [0u8; 32];
    match OsRng.try_fill_bytes(&mut secret) {
        Ok(()) => Some(SigningKey::from_bytes(&secret).to_bytes()),
        Err(_) => None,
    }
}

/// A base32 symbol of RFC 4648.
pub open spec fn is_base32_symbol(c: char) -> bool {
    ('A' <= c && c <= 'Z') || ('2' <= c && c <= '7')
}

/// How many symbols, before padding, encode `n` bytes: eight for each five
/// bytes, rounded up.
pub open spec fn base32_symbols(n: nat) -> nat {
    (8 * n + 4) / 5
}

/// Relies on `data_encoding::BASE32.encode`: `encode_len` gives eight
/// characters for each five bytes begun, the first `(8 * n + 4) / 5` of
/// them symbols `A`-`Z`, `2`-`7` and the rest padding `=`. It panics on
/// inputs longer than `usize::MAX / 512`.
#[verifier::external_body]
fn base32_encode(b: &[u8]) -> (r: String)
    requires
        b@.len() <= usize::MAX / 512,
    ensures
        r@ == base32_text(b@),
        r@.len() == 8 * ((b@.len() + 4) / 5),
        forall|i: int|
            0 <= i < r@.len() ==> if i < base32_symbols(b@.len()) {
                is_base32_symbol(#[trigger] r@[i])
            } else {
                r@[i] == '='
            },
{
    BASE32.encode(b)
}

/// Relies on `data_encoding::BASE32.decode`, which is correct: decoding the
/// encoding of some bytes gives those bytes back. It also accepts texts
/// that no single encoding gives (padded blocks one after another), so
/// what it accepts is checked by the caller.
#[verifier::external_body]
fn base32_decode(s: &str) -> (r: Option<Vec<u8>>)
    ensures
        r matches Some(w) ==> forall|v: Seq<u8>| #[trigger] base32_text(v) == s@ ==> w@ == v,
        r is None ==> forall|v: Seq<u8>| #[trigger] base32_text(v) != s@,
{
    BASE32.decode(s.as_bytes()).ok()
}

/// `c` with an ASCII lower-case letter made upper case.
pub open spec fn ascii_upper(c: char) -> char {
    if 'a' <= c && c <= 'z' {
        ((c as u32) - 32) as char
    } else {
        c
    }
}

pub open spec fn upper_of(s: Seq<char>) -> Seq<char> {
    s.map_values(|c: char| ascii_upper(c))
}

/// Relies on `str::to_ascii_uppercase`.
#[verifier::external_body]
fn uppercase_ascii(s: &str) -> (r: String)
    ensures
        r@ == upper_of(s@),
{
    s.to_ascii_uppercase()
}

/// The text of a private key could not be read.
#[derive(Clone, Copy, Debug, PartialEq, Eq)]
pub enum KeyFormatError {
    /// Not base32.
    Malformed,
    /// Base32, but not of 32 bytes.
    WrongLength,
}

/// The public key of a private key.
pub fn public_key(private_key: &[u8; 32]) -> (r: [u8; 32])
    ensures
        r@ == ed25519_public(private_key@),
{
    verifying_key_bytes(private_key)
}

/// The signature of `msg` under `private_key`.
pub fn sign(private_key: &[u8; 32], msg: &[u8]) -> (r: Vec<u8>)
    ensures
        r@ == ed25519_signature(private_key@, msg@),
        r@.len() == 64,
        ed25519_accepts(ed25519_public(private_key@), msg@, r@),
{
    sign_detached(private_key, msg)
}

/// Whether `sig` signs `msg` under `public_key`; a signature of any other
/// length than 64 bytes signs nothing.
pub fn signature_valid(public_key: &[u8; 32], msg: &[u8], sig: &[u8]) -> (r: bool)
    ensures
        r == (sig@.len() == 64 && ed25519_accepts(public_key@, msg@, sig@)),
{
    if sig.len() != 64 {
        false
    } else {
        verify_detached(public_key, msg, sig)
    }
}

/// The text form of a private key: padded upper-case base32, 52 symbols
/// and four `=`.
pub fn format_key_base32(key: &[u8; 32]) -> (r: String)
    ensures
        r@ == base32_text(key@),
        r@.len() == 56,
        forall|i: int| 0 <= i < 52 ==> is_base32_symbol(#[trigger] r@[i]),
        forall|i: int| 52 <= i < 56 ==> #[trigger] r@[i] == '=',
        upper_of(r@) == r@,
{
    let r = base32_encode(key.as_slice());
    assert(upper_of(r@) =~= r@);
    r
}

/// Reads a private key from its text form, in either case. The text must
/// be the base32 text of exactly 32 bytes; base32 text of another length is
/// `WrongLength`, anything else `Malformed`.
pub fn parse_key_base32(text: &str) -> (r: Result<[u8; 32], KeyFormatError>)
    ensures
        r matches Ok(k) ==> base32_text(k@) == upper_of(text@),
        forall|k: Seq<u8>| #[trigger]
            base32_text(k) == upper_of(text@) && k.len() == 32 ==> (r matches Ok(x) && x@ == k),
        r is Err <==> !exists|k: Seq<u8>| #[trigger]
            base32_text(k) == upper_of(text@) && k.len() == 32,
        r == Err::<[u8; 32], KeyFormatError>(KeyFormatError::WrongLength) ==> exists|k: Seq<u8>|
            #[trigger] base32_text(k) == upper_of(text@) && k.len() != 32,
        r == Err::<[u8; 32], KeyFormatError>(KeyFormatError::Malformed) ==> forall|k: Seq<u8>|
            #![trigger base32_text(k)]
            k.len() <= usize::MAX / 512 ==> base32_text(k) != upper_of(text@),
{
    let upper = uppercase_ascii(text);
    match base32_decode(upper.as_str()) {
        None => Err(KeyFormatError::Malformed),
        Some(v) => {
            // The decoder also takes texts that are no encoding at all:
            // only the one text that encodes `v` is a key's text.
            if v.len() > usize::MAX / 512 || base32_encode(v.as_slice()) != upper {
                return Err(KeyFormatError::Malformed);
            }
            if v.len() != 32 {
                assert(base32_text(v@) == upper_of(text@));
                return Err(KeyFormatError::WrongLength);
            }
            let mut k = [0u8; 32];
            let mut i: usize = 0;
            while i < 32
                invariant
                    v@.len() == 32,
                    i <= 32,
                    forall|j: int| 0 <= j < i ==> k@[j] == v@[j],
                decreases 32 - i,
            {
                k[i] = v[i];
                i = i + 1;
            }
            assert(k@ =~= v@);
            Ok(k)
        },
    }
}

} // verus!
