use vstd::prelude::*;
use crate::error::Error;
use crate::crypt::plain_rsa_key;
use crate::crypt::rsa::rsa_key_pair;
use openssl::pkey::{PKey, Public, Private};
use openssl::sign::{Signer, Verifier};
use openssl::hash::MessageDigest;

verus! {

/// The SHA-256 RSA signature (PKCS#1 v1.5 padding) that openssl makes of `val` with
/// the plain RSA key `key`, or `None` where openssl refuses. With such a key this
/// signing is deterministic: the same key and bytes give the same signature. (With a
/// key of another type, such as EC or RSA-PSS, openssl signs with randomness, and the
/// name says nothing.)
pub uninterp spec fn rsa_sha256_signature(key: PKey<Private>, val: Seq<u8>) -> Option<Seq<u8>>;

/// What openssl's check of the SHA-256 RSA signature `sig` of `val` under `key` finds:
/// whether it matches, or `None` where openssl refuses to check.
pub uninterp spec fn rsa_sha256_verified(key: PKey<Public>, val: Seq<u8>, sig: Seq<u8>) -> Option<bool>;

/// `sig` is the signature of `val` made with the private half of `public`, a plain
/// RSA key.
pub open spec fn signed_by_pair(public: PKey<Public>, val: Seq<u8>, sig: Seq<u8>) -> bool {
    exists|private: PKey<Private>|
        rsa_key_pair(public, private) && plain_rsa_key(private) && #[trigger] rsa_sha256_signature(private, val)
            == Some(sig)
}

/// The stage at which signing or checking a signature failed: making the context,
/// feeding it the bytes, or the signing or check itself.
#[derive(Debug, PartialEq, Eq, Structural)]
pub enum SignStage {
    Make,
    Load,
    Run,
}

/// `Signer::new` with `MessageDigest::sha256()` on `key`, `Signer::update` with `val`
/// and `Signer::sign_to_vec`: the signature, or the stage whose call openssl refused.
/// For a plain RSA key the outcome is the one named by `rsa_sha256_signature`; of
/// other keys nothing is stated.
#[verifier::external_body]
fn rsa_sha256_sign(key: &PKey<Private>, val: &Vec<u8>) -> (r: Result<Vec<u8>, SignStage>)
    ensures
        plain_rsa_key(*key) ==> (r is Ok <==> rsa_sha256_signature(*key, val@) is Some),
        plain_rsa_key(*key) ==> (r matches Ok(s) ==> rsa_sha256_signature(*key, val@) == Some(s@)),
{
    let mut signer = match Signer::new(MessageDigest::sha256(), key) {
        Ok(v) => v,
        Err(_) => return Err(SignStage::Make),
    };
    if signer.update(val).is_err() {
        return Err(SignStage::Load);
    }
    match signer.sign_to_vec() {
        Ok(v) => Ok(v),
        Err(_) => Err(SignStage::Run),
    }
}

/// `Verifier::new` with `MessageDigest::sha256()` on `key`, `Verifier::update` with
/// `val` and `Verifier::verify` of `sig`: whether the signature matches, named by
/// `rsa_sha256_verified`, or the stage whose call openssl refused. A signature of `val`
/// made with the private half of `key` matches.
#[verifier::external_body]
fn rsa_sha256_check(key: &PKey<Public>, val: &Vec<u8>, sig: &Vec<u8>) -> (r: Result<bool, SignStage>)
    ensures
        r is Err <==> rsa_sha256_verified(*key, val@, sig@) is None,
        r matches Ok(b) ==> rsa_sha256_verified(*key, val@, sig@) == Some(b),
        r is Err ==> !signed_by_pair(*key, val@, sig@),
        r matches Ok(b) ==> (signed_by_pair(*key, val@, sig@) ==> b),
{
    let mut verifier = match Verifier::new(MessageDigest::sha256(), key) {
        Ok(v) => v,
        Err(_) => return Err(SignStage::Make),
    };
    if verifier.update(val).is_err() {
        return Err(SignStage::Load);
    }
    match verifier.verify(sig) {
        Ok(b) => Ok(b),
        Err(_) => Err(SignStage::Run),
    }
}

/// The reasons signing gives, one per stage: making the signer, feeding it, signing.
pub open spec fn sign_failure(s: Seq<char>) -> bool {
    ||| s == "failed-make-signer"@
    ||| s == "failed-load-signer"@
    ||| s == "failed-run-signer"@
}

/// The reasons checking a signature gives before the check itself runs.
pub open spec fn verify_setup_failure(s: Seq<char>) -> bool {
    ||| s == "failed-make-verifier"@
    ||| s == "failed-load-verifier"@
}

/// Signs `val` with `rsa_key`, SHA-256: the signature, or the reason of the stage that
/// failed.
pub fn sign(val: Vec<u8>, rsa_key: &PKey<Private>) -> (r: Result<Vec<u8>, Error>)
    ensures
        plain_rsa_key(*rsa_key) ==> (r is Ok <==> rsa_sha256_signature(*rsa_key, val@) is Some),
        plain_rsa_key(*rsa_key) ==> (r matches Ok(s) ==> rsa_sha256_signature(*rsa_key, val@) == Some(s@)),
        r matches Err(e) ==> sign_failure(e.val@),
{
    match rsa_sha256_sign(rsa_key, &val) {
        Ok(v) => Ok(v),
        Err(SignStage::Make) => Err(Error::new("failed-make-signer")),
        Err(SignStage::Load) => Err(Error::new("failed-load-signer")),
        Err(SignStage::Run) => Err(Error::new("failed-run-signer")),
    }
}

/// What the check of a signature comes to: success when it matched, `invalid-sig`
/// when it did not, `failed-run-verifier` when the check could not run.
pub fn verify_outcome(checked: Option<bool>) -> (r: Result<(), Error>)
    ensures
        checked == Some(true) <==> r is Ok,
        checked == Some(false) ==> (r matches Err(e) && e.val@ == "invalid-sig"@),
        checked is None ==> (r matches Err(e) && e.val@ == "failed-run-verifier"@),
{
    match checked {
        Some(v) => {
            if v {
                Ok(())
            } else {
                Err(Error::new("invalid-sig"))
            }
        },
        None => Err(Error::new("failed-run-verifier")),
    }
}

/// Checks that `sig` signs `val` under `rsa_key`, SHA-256: success when it matches,
/// `invalid-sig` when it does not, or the reason of the stage that failed.
pub fn verify(val: Vec<u8>, rsa_key: &PKey<Public>, sig: Vec<u8>) -> (r: Result<(), Error>)
    ensures
        r is Ok <==> rsa_sha256_verified(*rsa_key, val@, sig@) == Some(true),
        signed_by_pair(*rsa_key, val@, sig@) ==> r is Ok,
        rsa_sha256_verified(*rsa_key, val@, sig@) == Some(false) ==> (r matches Err(e) && e.val@ == "invalid-sig"@),
        rsa_sha256_verified(*rsa_key, val@, sig@) is None ==> (r matches Err(e) && (verify_setup_failure(e.val@)
            || e.val@ == "failed-run-verifier"@)),
{
    match rsa_sha256_check(rsa_key, &val, &sig) {
        Ok(b) => verify_outcome(Some(b)),
        Err(SignStage::Make) => Err(Error::new("failed-make-verifier")),
        Err(SignStage::Load) => Err(Error::new("failed-load-verifier")),
        Err(SignStage::Run) => verify_outcome(None),
    }
}

} // verus!
