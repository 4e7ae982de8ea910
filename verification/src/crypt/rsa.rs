use vstd::prelude::*;
use crate::error::Error;
use openssl::pkey::{PKey, Public, Private};
use openssl::encrypt::{Encrypter, Decrypter};
use openssl::rsa::Padding;

verus! {

/// The size in bytes of the public key `key` (openssl's `EVP_PKEY_size`; for an RSA key,
/// the length of its modulus).
pub uninterp spec fn rsa_public_bytes(key: PKey<Public>) -> nat;

/// The size in bytes of the private key `key` (openssl's `EVP_PKEY_size`; for an RSA
/// key, the length of its modulus).
pub uninterp spec fn rsa_private_bytes(key: PKey<Private>) -> nat;

/// `public` and `private` are the two halves of one RSA key pair.
pub uninterp spec fn rsa_key_pair(public: PKey<Public>, private: PKey<Private>) -> bool;

/// `sealed` is a PKCS#1 v1.5 encryption of `plain` under the RSA public key `public`
/// (the padding is random, so one plain text has many).
pub uninterp spec fn rsa_pkcs1_sealed(public: PKey<Public>, plain: Seq<u8>, sealed: Seq<u8>) -> bool;

/// The stage at which RSA encryption or decryption failed: making the context, setting
/// the padding, sizing the buffer, or the encryption or decryption itself.
#[derive(Debug, PartialEq, Eq, Structural)]
pub enum CryptStage {
    Make,
    Padding,
    Length,
    Run,
}

/// `Encrypter::new` on `public`, `set_rsa_padding(Padding::PKCS1)`, `encrypt_len` and
/// `encrypt` of `data` into a buffer of that size, cut to the bytes written: the
/// encrypted bytes, or the stage whose call openssl refused. What it gives is a PKCS#1
/// encryption of `data` under `public`, as long as the key, of data at most the key's
/// size less 11 bytes.
#[verifier::external_body]
fn rsa_pkcs1_encrypt(public: &PKey<Public>, data: &Vec<u8>) -> (r: Result<Vec<u8>, CryptStage>)
    ensures
        r matches Ok(v) ==> v@.len() == rsa_public_bytes(*public) && data@.len() + 11 <= rsa_public_bytes(*public)
            && rsa_pkcs1_sealed(*public, data@, v@),
{
    let mut encrypter = match Encrypter::new(public) {
        Ok(v) => v,
        Err(_) => return Err(CryptStage::Make),
    };
    if encrypter.set_rsa_padding(Padding::PKCS1).is_err() {
        return Err(CryptStage::Padding);
    }
    let mut out = match encrypter.encrypt_len(data) {
        Ok(n) => vec![0u8; n],
        Err(_) => return Err(CryptStage::Length),
    };
    match encrypter.encrypt(data, &mut out) {
        Ok(n) => Ok(out[..n].to_vec()),
        Err(_) => Err(CryptStage::Run),
    }
}

/// `Decrypter::new` on `private`, `set_rsa_padding(Padding::PKCS1)`, `decrypt_len` and
/// `decrypt` of `data` into a buffer of that size, cut to the bytes written: the plain
/// bytes, or the stage whose call openssl refused. What it gives is at most the key's
/// size less 11 bytes; a PKCS#1 encryption of `m` under the public half of `private`
/// decrypts to `m`. (Of other bytes, OpenSSL versions give different outcomes.)
#[verifier::external_body]
fn rsa_pkcs1_decrypt(private: &PKey<Private>, data: &Vec<u8>) -> (r: Result<Vec<u8>, CryptStage>)
    ensures
        r matches Ok(p) ==> p@.len() + 11 <= rsa_private_bytes(*private),
        r is Err ==> forall|public: PKey<Public>, m: Seq<u8>|
            !(rsa_key_pair(public, *private) && #[trigger] rsa_pkcs1_sealed(public, m, data@)),
        r matches Ok(p) ==> forall|public: PKey<Public>, m: Seq<u8>|
            rsa_key_pair(public, *private) && #[trigger] rsa_pkcs1_sealed(public, m, data@) ==> p@ == m,
{
    let mut decrypter = match Decrypter::new(private) {
        Ok(v) => v,
        Err(_) => return Err(CryptStage::Make),
    };
    if decrypter.set_rsa_padding(Padding::PKCS1).is_err() {
        return Err(CryptStage::Padding);
    }
    let mut out = match decrypter.decrypt_len(data) {
        Ok(n) => vec![0u8; n],
        Err(_) => return Err(CryptStage::Length),
    };
    match decrypter.decrypt(data, &mut out) {
        Ok(n) => Ok(out[..n].to_vec()),
        Err(_) => Err(CryptStage::Run),
    }
}

/// The reasons RSA encryption gives, one per stage: making the context, setting the
/// padding, sizing the buffer, encrypting.
pub open spec fn encrypt_failure(s: Seq<char>) -> bool {
    ||| s == "make-encrypter-encrypt-rsa"@
    ||| s == "apply-padding-encrypt-rsa"@
    ||| s == "get-buffer_len-encrypt-rsa"@
    ||| s == "generate-encrypted-encrypt-rsa"@
}

/// The reasons RSA decryption gives, one per stage.
pub open spec fn decrypt_failure(s: Seq<char>) -> bool {
    ||| s == "make-decrypter-decrypt-rsa"@
    ||| s == "apply-padding-decrypt-rsa"@
    ||| s == "get-buffer_len-decrypt-rsa"@
    ||| s == "generate-decrypted-decrypt-rsa"@
}

/// Encrypts `data` with the public key `public`, PKCS#1 v1.5 padding: a PKCS#1
/// encryption of `data`, as long as the key, or the reason of the stage that failed.
pub fn encrypt(data: Vec<u8>, public: &PKey<Public>) -> (r: Result<Vec<u8>, Error>)
    ensures
        r matches Ok(v) ==> v@.len() == rsa_public_bytes(*public) && data@.len() + 11 <= rsa_public_bytes(*public)
            && rsa_pkcs1_sealed(*public, data@, v@),
        r matches Err(e) ==> encrypt_failure(e.val@),
{
    match rsa_pkcs1_encrypt(public, &data) {
        Ok(v) => Ok(v),
        Err(CryptStage::Make) => Err(Error::new("make-encrypter-encrypt-rsa")),
        Err(CryptStage::Padding) => Err(Error::new("apply-padding-encrypt-rsa")),
        Err(CryptStage::Length) => Err(Error::new("get-buffer_len-encrypt-rsa")),
        Err(CryptStage::Run) => Err(Error::new("generate-encrypted-encrypt-rsa")),
    }
}

/// Decrypts `data` with the private key `private`, PKCS#1 v1.5 padding: the plain
/// bytes, at most the key's size less 11, or the reason of the stage that failed. A
/// PKCS#1 encryption of `m` under the public half of `private` decrypts to `m`.
pub fn decrypt(data: Vec<u8>, private: &PKey<Private>) -> (r: Result<Vec<u8>, Error>)
    ensures
        r matches Ok(p) ==> p@.len() + 11 <= rsa_private_bytes(*private),
        forall|public: PKey<Public>, m: Seq<u8>|
            rsa_key_pair(public, *private) && #[trigger] rsa_pkcs1_sealed(public, m, data@) ==> (r matches Ok(p)
                && p@ == m),
        r matches Err(e) ==> decrypt_failure(e.val@),
{
    match rsa_pkcs1_decrypt(private, &data) {
        Ok(v) => Ok(v),
        Err(CryptStage::Make) => Err(Error::new("make-decrypter-decrypt-rsa")),
        Err(CryptStage::Padding) => Err(Error::new("apply-padding-decrypt-rsa")),
        Err(CryptStage::Length) => Err(Error::new("get-buffer_len-decrypt-rsa")),
        Err(CryptStage::Run) => Err(Error::new("generate-decrypted-decrypt-rsa")),
    }
}

/// What is encrypted under the public half of a key pair decrypts with its private
/// half to what was encrypted.
pub proof fn lemma_rsa_round_trip(
    public: PKey<Public>,
    private: PKey<Private>,
    m: Seq<u8>,
    c: Seq<u8>,
    r: Result<Vec<u8>, Error>,
)
    requires
        rsa_key_pair(public, private),
        rsa_pkcs1_sealed(public, m, c),
        forall|pb: PKey<Public>, x: Seq<u8>|
            rsa_key_pair(pb, private) && #[trigger] rsa_pkcs1_sealed(pb, x, c) ==> (r matches Ok(p) && p@ == x),
    ensures
        r matches Ok(p) && p@ == m,
{
}

} // verus!
