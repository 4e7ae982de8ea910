pub mod aes;
pub mod rsa;
pub mod sign;

use vstd::prelude::*;
use crate::error::Error;
use openssl::pkey::{PKey, Public, Private};
use openssl::rsa::Rsa;

verus! {

/// openssl's key pair or single key, opaque here.
#[verifier::external_type_specification]
#[verifier::external_body]
#[verifier::reject_recursive_types(T)]
pub struct ExPKey<T>(PKey<T>);

/// openssl's RSA key, opaque here.
#[verifier::external_type_specification]
#[verifier::external_body]
#[verifier::reject_recursive_types(T)]
pub struct ExRsa<T>(Rsa<T>);

/// openssl's marker for a key that has only its public half.
#[verifier::external_type_specification]
#[verifier::external_body]
pub struct ExPublic(Public);

/// openssl's marker for a key that has its private half.
#[verifier::external_type_specification]
#[verifier::external_body]
pub struct ExPrivate(Private);

/// Whether openssl reads an RSA public key (a PEM `PUBLIC KEY` block) from the text
/// `pem`.
pub uninterp spec fn rsa_public_pem_holds_key(pem: Seq<u8>) -> bool;

/// `Rsa::public_key_from_pem`: the RSA public key that the PEM text `pem` holds, or
/// the debug text of openssl's error; it succeeds exactly when openssl reads a key
/// from the text (`rsa_public_pem_holds_key`). Nothing is stated of the key or of the
/// error text.
#[verifier::external_body]
fn rsa_public_from_pem(pem: &Vec<u8>) -> (r: Result<Rsa<Public>, String>)
    requires
        pem@.len() <= i32::MAX,
    ensures
        r is Ok <==> rsa_public_pem_holds_key(pem@),
{
    match Rsa::public_key_from_pem(pem) {
        Ok(v) => Ok(v),
        Err(e) => Err(format!("{:?}", e)),
    }
}

/// `Rsa::private_key_from_pem`: the RSA private key that the PEM text `pem` holds, or
/// the debug text of openssl's error; nothing is stated of either. Whether it succeeds
/// is not a function of the text: for an encrypted key openssl's default passphrase
/// callback asks the terminal.
#[verifier::external_body]
fn rsa_private_from_pem(pem: &Vec<u8>) -> (r: Result<Rsa<Private>, String>)
    requires
        pem@.len() <= i32::MAX,
{
    match Rsa::private_key_from_pem(pem) {
        Ok(v) => Ok(v),
        Err(e) => Err(format!("{:?}", e)),
    }
}

/// `PKey::from_rsa` on an RSA public key: the key that wraps `rsa`, or the debug text
/// of openssl's error; nothing is stated of either.
#[verifier::external_body]
fn pkey_from_rsa(rsa: Rsa<Public>) -> (r: Result<PKey<Public>, String>) {
    match PKey::from_rsa(rsa) {
        Ok(v) => Ok(v),
        Err(e) => Err(format!("{:?}", e)),
    }
}

/// The private key is a plain RSA key: one that `PKey::from_rsa` made from an RSA key
/// (openssl's key type RSA, not RSA-PSS or another algorithm).
pub uninterp spec fn plain_rsa_key(key: PKey<Private>) -> bool;

/// `PKey::from_rsa` on an RSA private key: the key that wraps `rsa`, which is a plain
/// RSA key, or the debug text of openssl's error; nothing more is stated of either.
#[verifier::external_body]
fn private_pkey_from_rsa(rsa: Rsa<Private>) -> (r: Result<PKey<Private>, String>)
    ensures
        r matches Ok(k) ==> plain_rsa_key(k),
{
    match PKey::from_rsa(rsa) {
        Ok(v) => Ok(v),
        Err(e) => Err(format!("{:?}", e)),
    }
}

/// The RSA public key that the PEM text `pem` holds. `failed-load_key=>` when the
/// text holds none, `failed-parse_pkey=>` when openssl cannot wrap it, each followed
/// by openssl's account.
pub fn public_key_from_pem(pem: Vec<u8>) -> (r: Result<PKey<Public>, Error>)
    requires
        pem@.len() <= i32::MAX,
    ensures
        !rsa_public_pem_holds_key(pem@) ==> (r matches Err(e) && exists|detail: Seq<char>|
            e.val@ == "failed-load_key=>"@ + detail),
        rsa_public_pem_holds_key(pem@) ==> (r is Ok || (r matches Err(e) && exists|detail: Seq<char>|
            e.val@ == "failed-parse_pkey=>"@ + detail)),
        r matches Err(e) ==> exists|detail: Seq<char>|
            e.val@ == "failed-load_key=>"@ + detail || e.val@ == "failed-parse_pkey=>"@ + detail,
{
    match rsa_public_from_pem(&pem) {
        Ok(v) => match pkey_from_rsa(v) {
            Ok(f) => Ok(f),
            Err(e) => Err(Error::with_detail("failed-parse_pkey=>", e.as_str())),
        },
        Err(e) => Err(Error::with_detail("failed-load_key=>", e.as_str())),
    }
}

/// The RSA private key that the PEM text `pem` holds. `failed-load_key=>` when the
/// text holds none, `failed-parse_pkey=>` when openssl cannot wrap it, each followed
/// by openssl's account.
pub fn private_key_from_pem(pem: Vec<u8>) -> (r: Result<PKey<Private>, Error>)
    requires
        pem@.len() <= i32::MAX,
    ensures
        r matches Ok(k) ==> plain_rsa_key(k),
        r matches Err(e) ==> exists|detail: Seq<char>|
            e.val@ == "failed-load_key=>"@ + detail || e.val@ == "failed-parse_pkey=>"@ + detail,
{
    match rsa_private_from_pem(&pem) {
        Ok(v) => match private_pkey_from_rsa(v) {
            Ok(f) => Ok(f),
            Err(e) => Err(Error::with_detail("failed-parse_pkey=>", e.as_str())),
        },
        Err(e) => Err(Error::with_detail("failed-load_key=>", e.as_str())),
    }
}

} // verus!
