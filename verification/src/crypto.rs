//! Authenticated encryption of payloads under a 32-byte key and a 24-byte
//! nonce. The caller keeps nonces unique per key.

use chacha20poly1305::aead::Aead;
use chacha20poly1305::aead::KeyInit;
use chacha20poly1305::XChaCha20Poly1305;
use chacha20poly1305::XNonce;
use vstd::prelude::*;

verus! {

/// The opaque error of the AEAD traits; it carries no detail.
#[verifier::external_type_specification]
#[verifier::external_body]
pub struct ExAeadError(chacha20poly1305::aead::Error);

/// Length in bytes of the authentication tag that ends every ciphertext.
pub const TAG_LEN: usize = 16;

/// Why a payload could not be sealed or opened.
#[derive(Debug, Clone, Copy, PartialEq, Eq, Structural)]
pub enum CryptoError {
    /// The tag does not verify: the ciphertext, key or nonce is not the one
    /// that sealed it.
    AuthenticationFailure,
    /// The plaintext is longer than one nonce can protect.
    MessageTooLong,
}

/// The longest plaintext that one nonce protects, 64 · (2^32 − 2) bytes: the
/// cipher counts 64-byte blocks in 32 bits, spends the first block on the key
/// of the authenticator, and has 2^32 − 2 blocks of keystream left.
pub const MAX_PLAINTEXT_LEN: u64 = 274_877_906_816;

/// The longest ciphertext that can be opened: the longest plaintext and its
/// tag.
pub const MAX_CIPHERTEXT_LEN: u64 = 274_877_906_832;

/// A plaintext of this length fits under one nonce.
pub open spec fn sealable_len(len: int) -> bool {
    len <= MAX_PLAINTEXT_LEN
}

/// A ciphertext of this length may hold a plaintext that fits under one
/// nonce.
pub open spec fn openable_len(len: int) -> bool {
    len <= MAX_CIPHERTEXT_LEN
}

/// The ciphertext, tag included, that XChaCha20-Poly1305 produces with no
/// associated data, as the `chacha20poly1305` crate computes it.
pub uninterp spec fn xchacha_sealed(key: Seq<u8>, nonce: Seq<u8>, plaintext: Seq<u8>) -> Seq<u8>;

/// What the `chacha20poly1305` crate's XChaCha20-Poly1305 recovers from a
/// ciphertext with no associated data: the plaintext, or `None` where it
/// rejects the ciphertext.
pub uninterp spec fn xchacha_opened(key: Seq<u8>, nonce: Seq<u8>, ciphertext: Seq<u8>) -> Option<
    Seq<u8>,
>;

/// What is recovered from a ciphertext: nothing from one too long to hold a
/// plaintext that fits under one nonce, otherwise what the cipher recovers.
pub open spec fn opened(key: Seq<u8>, nonce: Seq<u8>, ciphertext: Seq<u8>) -> Option<Seq<u8>> {
    if openable_len(ciphertext.len() as int) {
        xchacha_opened(key, nonce, ciphertext)
    } else {
        None
    }
}

/// What sealing returns: for a plaintext that fits, the ciphertext for that
/// key, nonce and plaintext, one tag longer than the plaintext and opening back
/// to it; otherwise `MessageTooLong`.
pub open spec fn encrypt_outcome(
    key: Seq<u8>,
    nonce: Seq<u8>,
    plaintext: Seq<u8>,
    r: Result<Vec<u8>, CryptoError>,
) -> bool {
    if sealable_len(plaintext.len() as int) {
        &&& r matches Ok(ct)
        &&& ct@ == xchacha_sealed(key, nonce, plaintext)
        &&& ct@.len() == plaintext.len() + TAG_LEN
        &&& opened(key, nonce, ct@) == Some(plaintext)
    } else {
        r == Err::<Vec<u8>, CryptoError>(CryptoError::MessageTooLong)
    }
}

/// What opening returns: the plaintext recovered, one tag shorter than the
/// ciphertext, or `AuthenticationFailure` where nothing is recovered: where
/// the cipher rejects the ciphertext, as it does whenever the ciphertext is
/// shorter than a tag, and where the ciphertext is too long to have been
/// sealed.
pub open spec fn decrypt_outcome(
    key: Seq<u8>,
    nonce: Seq<u8>,
    ciphertext: Seq<u8>,
    r: Result<Vec<u8>, CryptoError>,
) -> bool {
    &&& match opened(key, nonce, ciphertext) {
        Some(plaintext) => r matches Ok(pt) && pt@ == plaintext,
        None => r == Err::<Vec<u8>, CryptoError>(CryptoError::AuthenticationFailure),
    }
    &&& r matches Ok(pt) ==> pt@.len() + TAG_LEN == ciphertext.len()
    &&& ciphertext.len() < TAG_LEN ==> r is Err
}

/// Calls `XChaCha20Poly1305::new` and `Aead::encrypt` with an empty associated
/// data, on a plaintext that fits under one nonce; on a longer one the cipher
/// refuses or runs out of keystream. For a plaintext that fits it returns the
/// plaintext under the keystream followed by the 16-byte tag, which
/// `Aead::decrypt` opens back to the plaintext under the same key and nonce.
#[verifier::external_body]
fn xchacha_encrypt(key: &[u8; 32], nonce: &[u8; 24], plaintext: &[u8]) -> (r: Result<
    Vec<u8>,
    chacha20poly1305::aead::Error,
>)
    requires
        sealable_len(plaintext@.len() as int),
    ensures
        r is Ok,
        r matches Ok(ct) ==> {
            &&& ct@ == xchacha_sealed(key@, nonce@, plaintext@)
            &&& ct@.len() == plaintext@.len() + TAG_LEN
            &&& xchacha_opened(key@, nonce@, ct@) == Some(plaintext@)
        },
{
    let cipher = XChaCha20Poly1305::new(key.into());
    cipher.encrypt(XNonce::from_slice(nonce), plaintext)
}

/// Calls `XChaCha20Poly1305::new` and `Aead::decrypt` with an empty associated
/// data, on a ciphertext whose body fits under one nonce; on a longer one the
/// cipher refuses or, where the tag verifies, runs out of keystream. The
/// outcome is the one named by `xchacha_opened`; the cipher rejects anything
/// shorter than a tag, and a plaintext it returns is the ciphertext without
/// its 16-byte tag, under the keystream.
#[verifier::external_body]
fn xchacha_decrypt(key: &[u8; 32], nonce: &[u8; 24], ciphertext: &[u8]) -> (r: Result<
    Vec<u8>,
    chacha20poly1305::aead::Error,
>)
    requires
        openable_len(ciphertext@.len() as int),
    ensures
        match r {
            Ok(pt) => xchacha_opened(key@, nonce@, ciphertext@) == Some(pt@) && pt@.len() + TAG_LEN
                == ciphertext@.len(),
            Err(_) => xchacha_opened(key@, nonce@, ciphertext@) is None,
        },
        ciphertext@.len() < TAG_LEN ==> r is Err,
{
    let cipher = XChaCha20Poly1305::new(key.into());
    cipher.decrypt(XNonce::from_slice(nonce), ciphertext)
}

/// Turns the cipher's sealing outcome into the codec's: the ciphertext passes
/// through, the cipher's refusal becomes `MessageTooLong`.
pub fn sealed_or_too_long(outcome: Result<Vec<u8>, chacha20poly1305::aead::Error>) -> (r: Result<
    Vec<u8>,
    CryptoError,
>)
    ensures
        match outcome {
            Ok(bytes) => r == Ok::<Vec<u8>, CryptoError>(bytes),
            Err(_) => r == Err::<Vec<u8>, CryptoError>(CryptoError::MessageTooLong),
        },
{
    match outcome {
        Ok(bytes) => Ok(bytes),
        Err(_) => Err(CryptoError::MessageTooLong),
    }
}

/// Turns the cipher's opening outcome into the codec's: the plaintext passes
/// through, the cipher's refusal becomes `AuthenticationFailure`.
pub fn opened_or_rejected(outcome: Result<Vec<u8>, chacha20poly1305::aead::Error>) -> (r: Result<
    Vec<u8>,
    CryptoError,
>)
    ensures
        match outcome {
            Ok(bytes) => r == Ok::<Vec<u8>, CryptoError>(bytes),
            Err(_) => r == Err::<Vec<u8>, CryptoError>(CryptoError::AuthenticationFailure),
        },
{
    match outcome {
        Ok(bytes) => Ok(bytes),
        Err(_) => Err(CryptoError::AuthenticationFailure),
    }
}

/// Seals `plaintext` under `key` and `nonce`; the ciphertext ends with the
/// authentication tag. A plaintext longer than one nonce protects is refused
/// before the cipher is called.
pub fn encrypt_xchacha20(key: &[u8; 32], nonce: &[u8; 24], plaintext: &[u8]) -> (r: Result<
    Vec<u8>,
    CryptoError,
>)
    ensures
        encrypt_outcome(key@, nonce@, plaintext@, r),
{
    if plaintext.len() as u64 > MAX_PLAINTEXT_LEN {
        return Err(CryptoError::MessageTooLong);
    }
    sealed_or_too_long(xchacha_encrypt(key, nonce, plaintext))
}

/// Opens `ciphertext` under `key` and `nonce`, verifying its tag first. A
/// ciphertext too long to have been sealed is refused before the cipher is
/// called.
pub fn decrypt_xchacha20(key: &[u8; 32], nonce: &[u8; 24], ciphertext: &[u8]) -> (r: Result<
    Vec<u8>,
    CryptoError,
>)
    ensures
        decrypt_outcome(key@, nonce@, ciphertext@, r),
{
    if ciphertext.len() as u64 > MAX_CIPHERTEXT_LEN {
        return Err(CryptoError::AuthenticationFailure);
    }
    opened_or_rejected(xchacha_decrypt(key, nonce, ciphertext))
}

/// Opening what sealing produced, under the same key and nonce, gives the
/// plaintext back.
pub proof fn lemma_decrypt_inverts_encrypt(
    key: Seq<u8>,
    nonce: Seq<u8>,
    plaintext: Seq<u8>,
    sealed: Vec<u8>,
    opened: Result<Vec<u8>, CryptoError>,
)
    requires
        encrypt_outcome(key, nonce, plaintext, Ok(sealed)),
        decrypt_outcome(key, nonce, sealed@, opened),
    ensures
        opened matches Ok(pt) && pt@ == plaintext,
{
}

/// Opening fails in one way only: an error it returns is
/// `AuthenticationFailure`, and it returns one exactly when nothing is
/// recovered from the ciphertext.
pub proof fn lemma_decrypt_fails_as_unauthentic(
    key: Seq<u8>,
    nonce: Seq<u8>,
    ciphertext: Seq<u8>,
    r: Result<Vec<u8>, CryptoError>,
)
    requires
        decrypt_outcome(key, nonce, ciphertext, r),
    ensures
        r is Err <==> opened(key, nonce, ciphertext) is None,
        r matches Err(e) ==> e == CryptoError::AuthenticationFailure,
{
}

} // verus!
