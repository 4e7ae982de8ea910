use gzbdb::crypt::aes::{decrypt, encrypt, Encrypted};
use gzbdb::crypt::sign::{sign, verify, verify_outcome};
use gzbdb::crypt::{private_key_from_pem, public_key_from_pem};
use gzbdb::crypt::rsa;
use openssl::rsa::Rsa;
use openssl::symm::Cipher;

fn hex(s: &str) -> Vec<u8> {
    (0..s.len()).step_by(2).map(|i| u8::from_str_radix(&s[i..i + 2], 16).unwrap()).collect()
}

fn nist_key() -> Vec<u8> {
    hex("603deb1015ca71be2b73aef0857d77811f352c073b6108d72d9810a30914dff4")
}

fn nist_iv() -> Vec<u8> {
    hex("000102030405060708090a0b0c0d0e0f")
}

#[test]
fn aes_round_trip() {
    let key = vec![7u8; 32];
    let data = b"hello gzbdb".to_vec();
    let e = encrypt(&key, &data).unwrap();
    assert_eq!(e.iv.len(), 16);
    assert_eq!(e.cipher.len(), 16);
    assert_ne!(e.cipher, data);
    assert_eq!(e.decrypt(&key).unwrap(), data);
}

#[test]
fn aes_is_aes_256_cbc() {
    // NIST SP 800-38A, F.2.5: the first cipher block of CBC-AES256
    let plain = hex("6bc1bee22e409f96e93d7e117393172a");
    let cipher =
        openssl::symm::encrypt(Cipher::aes_256_cbc(), &nist_key(), Some(&nist_iv()), &plain).unwrap();
    assert_eq!(&cipher[..16], &hex("f58c4c04d6e5f1ba779eabfb5f7bfbd6")[..]);
    assert_eq!(decrypt(&nist_key(), &nist_iv(), &cipher).unwrap(), plain);
    let e = Encrypted::new(nist_iv(), cipher);
    assert_eq!(e.iv, nist_iv());
    assert_eq!(e.decrypt(&nist_key()).unwrap(), plain);
}

#[test]
fn aes_fresh_iv_each_time() {
    let key = vec![1u8; 32];
    let a = encrypt(&key, &vec![1, 2, 3]).unwrap();
    let b = encrypt(&key, &vec![1, 2, 3]).unwrap();
    assert!(a.iv != b.iv || a.cipher == b.cipher);
    assert_eq!(b.decrypt(&key).unwrap(), vec![1, 2, 3]);
}

#[test]
fn aes_refusals() {
    let cipher = hex("f58c4c04d6e5f1ba779eabfb5f7bfbd6");
    assert_eq!(decrypt(&vec![1u8; 16], &nist_iv(), &cipher).unwrap_err().val, "failed-decrypt");
    assert_eq!(decrypt(&nist_key(), &vec![0u8; 8], &cipher).unwrap_err().val, "failed-decrypt");
    assert_eq!(decrypt(&nist_key(), &nist_iv(), &vec![1, 2, 3]).unwrap_err().val, "failed-decrypt");
    let e = Encrypted::new(vec![0u8; 4], cipher);
    assert_eq!(e.decrypt(&nist_key()).unwrap_err().val, "failed-decrypt");
}

fn key_pair() -> (Vec<u8>, Vec<u8>) {
    let rsa = Rsa::generate(2048).unwrap();
    (rsa.public_key_to_pem().unwrap(), rsa.private_key_to_pem().unwrap())
}

#[test]
fn rsa_round_trip() {
    let (public_pem, private_pem) = key_pair();
    let public = public_key_from_pem(public_pem).unwrap();
    let private = private_key_from_pem(private_pem).unwrap();
    let sealed = rsa::encrypt(b"session key".to_vec(), &public).unwrap();
    assert_eq!(sealed.len(), 256);
    assert_eq!(rsa::decrypt(sealed, &private).unwrap(), b"session key".to_vec());
}

#[test]
fn rsa_refuses_what_it_cannot_decrypt() {
    let (_, private_pem) = key_pair();
    let private = private_key_from_pem(private_pem).unwrap();
    let e = rsa::decrypt(vec![1u8; 300], &private).unwrap_err();
    assert!(e.val == "generate-decrypted-decrypt-rsa" || e.val == "get-buffer_len-decrypt-rsa");
}

#[test]
fn rsa_refuses_data_longer_than_the_key() {
    let (public_pem, _) = key_pair();
    let public = public_key_from_pem(public_pem).unwrap();
    let e = rsa::encrypt(vec![1u8; 300], &public).unwrap_err();
    assert!(e.val == "generate-encrypted-encrypt-rsa" || e.val == "get-buffer_len-encrypt-rsa");
}

#[test]
fn signature_checks() {
    let (public_pem, private_pem) = key_pair();
    let public = public_key_from_pem(public_pem).unwrap();
    let private = private_key_from_pem(private_pem).unwrap();
    let sig = sign(b"message".to_vec(), &private).unwrap();
    assert!(verify(b"message".to_vec(), &public, sig.clone()).is_ok());
    let e = verify(b"massage".to_vec(), &public, sig).unwrap_err();
    assert_eq!(e.val, "invalid-sig");
}

#[test]
fn verify_outcomes() {
    assert!(verify_outcome(Some(true)).is_ok());
    assert_eq!(verify_outcome(Some(false)).unwrap_err().val, "invalid-sig");
    assert_eq!(verify_outcome(None).unwrap_err().val, "failed-run-verifier");
}

#[test]
fn pem_refusals() {
    let e = public_key_from_pem(b"not a key".to_vec()).err().unwrap();
    assert!(e.val.starts_with("failed-load_key=>"));
    let e = private_key_from_pem(Vec::new()).err().unwrap();
    assert!(e.val.starts_with("failed-load_key=>"));
}

#[test]
fn aes_cipher_is_padded_to_whole_blocks() {
    let key = vec![9u8; 32];
    for n in [0usize, 1, 15, 16, 17, 31, 32, 100] {
        let data = vec![7u8; n];
        let e = encrypt(&key, &data).unwrap();
        assert_eq!(e.iv.len(), 16);
        assert_eq!(e.cipher.len(), 16 * (n / 16 + 1));
        assert_eq!(decrypt(&key, &e.iv, &e.cipher).unwrap(), data);
    }
}
