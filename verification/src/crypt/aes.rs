use vstd::prelude::*;
use crate::error::Error;
use crate::doc::{Doc, Field, field_of, find_from};
use openssl::symm::Cipher;
use rand::distributions::Uniform;
use rand::Rng;

verus! {

/// What AES-256-CBC decryption, with padding, of `cipher` under a 32-byte `key` and a
/// 16-byte `iv` gives: the plain bytes, or `None` where openssl refuses (bad padding).
pub uninterp spec fn aes_cbc_decrypted(key: Seq<u8>, iv: Seq<u8>, cipher: Seq<u8>) -> Option<Seq<u8>>;

/// What AES-256-CBC encryption, with padding, of `data` under a 32-byte `key` and a
/// 16-byte `iv` gives: the cipher bytes, or `None` where openssl refuses.
pub uninterp spec fn aes_cbc_encrypted(key: Seq<u8>, iv: Seq<u8>, data: Seq<u8>) -> Option<Seq<u8>>;

/// The key and iv lengths of AES-256-CBC: 32 and 16 bytes. For other lengths openssl
/// is asked to change the cipher's lengths, which OpenSSL versions refuse or accept
/// differently; nothing is stated of what comes out then.
pub open spec fn standard_lengths(key: Seq<u8>, iv: Seq<u8>) -> bool {
    key.len() == 32 && iv.len() == 16
}

/// The length of the cipher bytes of `n` plain bytes: CBC with padding always adds
/// one to sixteen bytes, up to the next whole block.
pub open spec fn cbc_len(n: nat) -> nat {
    16 * (n / 16 + 1)
}

/// The inputs on which openssl's one-shot cipher does not stop the program: an iv of
/// at least the cipher's 16 bytes (a shorter one trips its length assertion), and
/// lengths that fit a C `int` (it converts the key and iv lengths with `unwrap`), with
/// a block to spare for the data. A key of another length than the cipher's is
/// refused with an error before any assertion.
pub open spec fn cipher_inputs_ok(key: Seq<u8>, iv: Seq<u8>, data: Seq<u8>) -> bool {
    &&& key.len() <= i32::MAX
    &&& 16 <= iv.len() <= i32::MAX
    &&& data.len() + 32 <= i32::MAX
}

/// `openssl::symm::decrypt` with `Cipher::aes_256_cbc()`, an error becoming `None`:
/// with a 32-byte key and a 16-byte iv its result is named by `aes_cbc_decrypted`; of
/// other lengths nothing is stated.
#[verifier::external_body]
fn aes_256_cbc_decrypt(key: &Vec<u8>, iv: &Vec<u8>, cipher: &Vec<u8>) -> (r: Option<Vec<u8>>)
    requires
        cipher_inputs_ok(key@, iv@, cipher@),
    ensures
        standard_lengths(key@, iv@) ==> (r is None <==> aes_cbc_decrypted(key@, iv@, cipher@) is None),
        standard_lengths(key@, iv@) ==> (r matches Some(v) ==> aes_cbc_decrypted(key@, iv@, cipher@) == Some(v@)),
{
    match openssl::symm::decrypt(Cipher::aes_256_cbc(), key, Some(iv), cipher) {
        Ok(v) => Some(v),
        Err(_) => None,
    }
}

/// `openssl::symm::encrypt` with `Cipher::aes_256_cbc()`, an error becoming its debug
/// text (of which nothing is stated): with a 32-byte key and a 16-byte iv it succeeds
/// (openssl refuses only keys and ivs of other lengths), its result is named by
/// `aes_cbc_encrypted`, pads the data to the next whole block, and
/// decrypts with the same key and iv back to the data; of other lengths nothing is
/// stated.
#[verifier::external_body]
fn aes_256_cbc_encrypt(key: &Vec<u8>, iv: &Vec<u8>, data: &Vec<u8>) -> (r: Result<Vec<u8>, String>)
    requires
        cipher_inputs_ok(key@, iv@, data@),
    ensures
        standard_lengths(key@, iv@) ==> r is Ok,
        standard_lengths(key@, iv@) ==> (r is Err <==> aes_cbc_encrypted(key@, iv@, data@) is None),
        standard_lengths(key@, iv@) ==> (r matches Ok(v) ==> aes_cbc_encrypted(key@, iv@, data@) == Some(v@)
            && v@.len() == cbc_len(data@.len()) && aes_cbc_decrypted(key@, iv@, v@) == Some(data@)),
{
    match openssl::symm::encrypt(Cipher::aes_256_cbc(), key, Some(iv), data) {
        Ok(v) => Ok(v),
        Err(e) => Err(format!("{:?}", e)),
    }
}

/// `n` bytes drawn by `rand::thread_rng` from the uniform distribution over all byte
/// values; only their number is stated.
#[verifier::external_body]
pub(crate) fn random_bytes(n: usize) -> (b: Vec<u8>)
    ensures
        b@.len() == n,
{
    rand::thread_rng().sample_iter(&Uniform::from(0..=255u8)).take(n).collect()
}

/// Data encrypted with AES-256-CBC: the iv it was encrypted with and the cipher bytes.
pub struct Encrypted {
    pub iv: Vec<u8>,
    pub cipher: Vec<u8>,
}

impl Encrypted {
    /// The encrypted data with iv `i` and cipher bytes `c`.
    pub fn new(i: Vec<u8>, c: Vec<u8>) -> (e: Encrypted)
        ensures
            e.iv@ == i@,
            e.cipher@ == c@,
    {
        Encrypted { iv: i, cipher: c }
    }

    /// The document of the encrypted data: `iv` and `cipher`, both binary.
    pub fn g_object(self) -> (d: Doc)
        ensures
            sealed_doc(d, self.iv@, self.cipher@),
    {
        Doc { fields: vec![("iv".to_owned(), Field::Binary(self.iv)), ("cipher".to_owned(), Field::Binary(self.cipher))] }
    }

    /// The encrypted data that the document `o` holds in its binary fields `iv` and
    /// `cipher`; `invalid-schema` when either is missing or not binary.
    pub fn load_from_g_object(o: &Doc) -> (r: Result<Encrypted, Error>)
        ensures
            match (field_of(*o, "iv"@), field_of(*o, "cipher"@)) {
                (Some(Field::Binary(iv)), Some(Field::Binary(c))) => r matches Ok(e) && e.iv@ == iv@ && e.cipher@ == c@,
                _ => r matches Err(e) && e.val@ == "invalid-schema"@,
            },
    {
        let iv = match o.get("iv") {
            Some(Field::Binary(v)) => v,
            _ => {
                return Err(Error::new("invalid-schema"));
            },
        };
        let cipher = match o.get("cipher") {
            Some(Field::Binary(v)) => v,
            _ => {
                return Err(Error::new("invalid-schema"));
            },
        };
        let i = iv.clone();
        let c = cipher.clone();
        assert(i@ =~= iv@);
        assert(c@ =~= cipher@);
        Ok(Encrypted { iv: i, cipher: c })
    }

    /// The plain bytes under `key`, or `failed-decrypt`.
    pub fn decrypt(self, key: &Vec<u8>) -> (r: Result<Vec<u8>, Error>)
        requires
            key@.len() <= i32::MAX,
            self.iv@.len() <= i32::MAX,
            self.cipher@.len() + 32 <= i32::MAX,
        ensures
            aes_opened(key@, self.iv@, self.cipher@, opened_bytes(r)),
            r matches Err(e) ==> e.val@ == "failed-decrypt"@,
    {
        match decrypt(key, &self.iv, &self.cipher) {
            Ok(v) => Ok(v),
            Err(_) => Err(Error::new("failed-decrypt")),
        }
    }
}

/// `d` is the document of encrypted data with iv `iv` and cipher bytes `cipher`.
pub open spec fn sealed_doc(d: Doc, iv: Seq<u8>, cipher: Seq<u8>) -> bool {
    &&& d.fields@.len() == 2
    &&& d.fields@[0].0@ == "iv"@
    &&& d.fields@[0].1 matches Field::Binary(v) && v@ == iv
    &&& d.fields@[1].0@ == "cipher"@
    &&& d.fields@[1].1 matches Field::Binary(v) && v@ == cipher
}

/// The document of encrypted data loads back as the same iv and cipher bytes.
pub proof fn lemma_sealed_loads(d: Doc, iv: Seq<u8>, cipher: Seq<u8>)
    requires
        sealed_doc(d, iv, cipher),
    ensures
        field_of(d, "iv"@) matches Some(Field::Binary(v)) && v@ == iv,
        field_of(d, "cipher"@) matches Some(Field::Binary(v)) && v@ == cipher,
{
    reveal_strlit("iv");
    reveal_strlit("cipher");
    reveal_with_fuel(find_from, 3);
    assert(find_from(d.fields@, "iv"@, 0) == Some(0int));
    assert("iv"@.len() != "cipher"@.len());
    assert(find_from(d.fields@, "cipher"@, 0) == Some(1int));
}

/// `out` is what decrypting `cipher` under `key` and `iv` may give: nothing with an iv
/// too short for the cipher; with a 32-byte key and a 16-byte iv, what
/// `aes_cbc_decrypted` names; with other lengths, either.
pub open spec fn aes_opened(key: Seq<u8>, iv: Seq<u8>, cipher: Seq<u8>, out: Option<Seq<u8>>) -> bool {
    if iv.len() < 16 {
        out is None
    } else if standard_lengths(key, iv) {
        out == aes_cbc_decrypted(key, iv, cipher)
    } else {
        true
    }
}

/// The plain bytes of a decryption, `None` when it failed.
pub open spec fn opened_bytes(r: Result<Vec<u8>, Error>) -> Option<Seq<u8>> {
    match r {
        Ok(v) => Some(v@),
        Err(_) => None,
    }
}

/// Encrypts `data` under `key` with AES-256-CBC and a fresh random iv.
/// `failed-encrypt=>` and openssl's account of the failure when openssl refuses.
pub fn encrypt(key: &Vec<u8>, data: &Vec<u8>) -> (r: Result<Encrypted, Error>)
    requires
        key@.len() <= i32::MAX,
        data@.len() + 32 <= i32::MAX,
    ensures
        key@.len() == 32 ==> r is Ok,
        r matches Ok(e) ==> e.iv@.len() == 16,
        r matches Ok(e) ==> (key@.len() == 32 ==> aes_cbc_encrypted(key@, e.iv@, data@) == Some(e.cipher@)
            && e.cipher@.len() == cbc_len(data@.len()) && aes_cbc_decrypted(key@, e.iv@, e.cipher@) == Some(data@)),
        r matches Err(e) ==> exists|detail: Seq<char>| e.val@ == "failed-encrypt=>"@ + detail,
        r is Err && key@.len() == 32 ==> exists|iv: Seq<u8>| iv.len() == 16 && aes_cbc_encrypted(key@, iv, data@) is None,
{
    let iv = random_bytes(16);
    match aes_256_cbc_encrypt(key, &iv, data) {
        Ok(ciphertext) => Ok(Encrypted::new(iv, ciphertext)),
        Err(e) => Err(Error::with_detail("failed-encrypt=>", e.as_str())),
    }
}

/// Decrypts `cipher` under `key` and `iv` with AES-256-CBC; `failed-decrypt` when the
/// iv is too short for the cipher or openssl refuses. With a 32-byte key and a 16-byte
/// iv the outcome is the one `aes_cbc_decrypted` names.
pub fn decrypt(key: &Vec<u8>, iv: &Vec<u8>, cipher: &Vec<u8>) -> (r: Result<Vec<u8>, Error>)
    requires
        key@.len() <= i32::MAX,
        iv@.len() <= i32::MAX,
        cipher@.len() + 32 <= i32::MAX,
    ensures
        aes_opened(key@, iv@, cipher@, opened_bytes(r)),
        r matches Err(e) ==> e.val@ == "failed-decrypt"@,
{
    if iv.len() < 16 {
        return Err(Error::new("failed-decrypt"));
    }
    match aes_256_cbc_decrypt(key, iv, cipher) {
        Some(v) => Ok(v),
        None => Err(Error::new("failed-decrypt")),
    }
}

/// What `encrypt` gives under a 32-byte key decrypts with that key back to the data:
/// whatever decrypting it may give is the data.
pub proof fn lemma_aes_round_trip(key: Seq<u8>, data: Seq<u8>, iv: Seq<u8>, cipher: Seq<u8>, out: Option<Seq<u8>>)
    requires
        key.len() == 32,
        iv.len() == 16,
        aes_cbc_decrypted(key, iv, cipher) == Some(data),
        aes_opened(key, iv, cipher, out),
    ensures
        out == Some(data),
{
}

} // verus!
