use gzbdb::channels::{is_closed, visit_slot, ChannelBook};
use gzbdb::auth::{
    accept_protocol, challenge_step, offer_step, password_step, signature_step, AuthToken, ClientConfig, HandshakeAction,
    HandshakeEvent, KeyHandshake, KeyStage, Protocol, RsaKey, ServerConfig, ServerKeyHandshake, ServerStage,
};
use gzbdb::crypt::aes::{decrypt, encrypt, Encrypted};
use gzbdb::crypt::rsa;
use gzbdb::crypt::sign::verify;
use gzbdb::crypt::{private_key_from_pem, public_key_from_pem};
use gzbdb::doc::{Doc, Field};
use gzbdb::error::Error;
use gzbdb::link::{next_wait, overflow_after, read_failure_ends, read_failure_error, read_first, read_first_doc, ReadFailure};
use gzbdb::query::{build_request, parse_request, parse_request_to_struct, parse_requests, parse_response, request_doc, Request, RequestBody, Response, ResponseType};
use openssl::pkey::{PKey, Private, Public};
use openssl::rsa::Rsa;

fn doc(fields: Vec<(&str, Field)>) -> Doc {
    Doc { fields: fields.into_iter().map(|(k, v)| (k.to_string(), v)).collect() }
}

fn s(v: &str) -> Field {
    Field::Str(v.to_string())
}

fn request() -> Request {
    Request { channel_id: "ch1".to_string(), request_id: "req42".to_string(), body: doc(vec![("q", Field::I32(5))]) }
}

fn keys() -> (PKey<Public>, PKey<Private>, Vec<u8>, Vec<u8>) {
    let rsa = Rsa::generate(2048).unwrap();
    let public_pem = rsa.public_key_to_pem().unwrap();
    let private_pem = rsa.private_key_to_pem().unwrap();
    (
        public_key_from_pem(public_pem.clone()).unwrap(),
        private_key_from_pem(private_pem.clone()).unwrap(),
        public_pem,
        private_pem,
    )
}

#[test]
fn doc_lookup_takes_the_first_field_of_a_name() {
    let mut d = doc(vec![("a", Field::I32(1)), ("b", s("x")), ("a", Field::I32(2))]);
    assert_eq!(d.position("a"), Some(0));
    assert_eq!(d.position("b"), Some(1));
    assert_eq!(d.position("c"), None);
    assert_eq!(d.get("a"), Some(&Field::I32(1)));
    assert_eq!(d.take("a"), Some(Field::I32(1)));
    assert_eq!(d.fields[0], ("a".to_string(), Field::Null));
    assert_eq!(d.take("b"), Some(s("x")));
    assert_eq!(d.take("c"), None);
    assert_eq!(d.fields.len(), 3);
    assert_eq!(Doc::new().fields.len(), 0);
}

#[test]
fn error_chain_joins_reasons() {
    let e = Error::chain("outer", Error::new("inner"));
    assert_eq!(e.val, "outer => inner");
}

#[test]
fn encrypted_document_loads_back() {
    let e = Encrypted::new(vec![1, 2, 3], vec![4, 5]);
    let d = e.g_object();
    assert_eq!(d, doc(vec![("iv", Field::Binary(vec![1, 2, 3])), ("cipher", Field::Binary(vec![4, 5]))]));
    let back = Encrypted::load_from_g_object(&d).unwrap();
    assert_eq!(back.iv, vec![1, 2, 3]);
    assert_eq!(back.cipher, vec![4, 5]);
}

#[test]
fn encrypted_document_schema_is_checked() {
    let d = doc(vec![("iv", Field::Binary(vec![1])), ("cipher", s("x"))]);
    assert_eq!(Encrypted::load_from_g_object(&d).err().unwrap().val, "invalid-schema");
    let d = doc(vec![("cipher", Field::Binary(vec![1]))]);
    assert_eq!(Encrypted::load_from_g_object(&d).err().unwrap().val, "invalid-schema");
}

#[test]
fn response_constructors_copy_the_request() {
    let req = request();
    let r = Response::ok(&req);
    assert_eq!((r.channel_id.as_str(), r.request_id.as_str()), ("ch1", "req42"));
    assert_eq!(r.data, ResponseType::Done);
    assert_eq!(Response::down(&req).data, ResponseType::Down);
    assert_eq!(Response::error(&req, "bad".to_string()).data, ResponseType::Error("bad".to_string()));
    assert_eq!(Response::data(&req, doc(vec![])).data, ResponseType::Data(doc(vec![])));
    assert_eq!(Response::encrypted(&req, vec![9]).data, ResponseType::Encrypted(vec![9]));
}

#[test]
fn response_documents() {
    let key = vec![3u8; 32];
    let req = request();
    let d = Response::ok(&req).parse(&key).unwrap();
    assert_eq!(
        d,
        doc(vec![("id", s("req42")), ("response_type", Field::I32(0)), ("body", Field::Object(doc(vec![])))])
    );
    let d = Response::error(&req, "bad".to_string()).parse(&key).unwrap();
    assert_eq!(d.fields[1].1, Field::I32(2));
    assert_eq!(d.fields[2].1, Field::Object(doc(vec![("error", s("bad"))])));
    let d = Response::data(&req, doc(vec![("k", Field::Bool(true))])).parse(&key).unwrap();
    assert_eq!(d.fields[1].1, Field::I32(1));
    assert_eq!(d.fields[2].1, Field::Object(doc(vec![("data", Field::Object(doc(vec![("k", Field::Bool(true))])))])));
    let d = Response::down(&req).parse(&key).unwrap();
    assert_eq!(d.fields[1].1, Field::I32(3));
}

#[test]
fn responses_read_back() {
    let key = vec![3u8; 32];
    let cases = vec![
        ResponseType::Done,
        ResponseType::Down,
        ResponseType::Error("bad".to_string()),
        ResponseType::Data(doc(vec![("k", Field::I32(-1)), ("l", Field::Binary(vec![1, 2]))])),
    ];
    for data in cases {
        let sent = Response { channel_id: "ch".to_string(), request_id: "id7".to_string(), data };
        let expected = format!("{:?}", sent.data);
        let d = sent.parse(&key).unwrap();
        let back = parse_response(d, &key).unwrap();
        assert_eq!(back.channel_id, "");
        assert_eq!(back.request_id, "id7");
        assert_eq!(format!("{:?}", back.data), expected);
    }
}

#[test]
fn encrypted_response_reads_back_its_payload() {
    let key = vec![5u8; 32];
    let sent = Response { channel_id: String::new(), request_id: "e1".to_string(), data: ResponseType::Encrypted(b"payload".to_vec()) };
    let d = sent.parse(&key).unwrap();
    assert_eq!(d.fields[1].1, Field::I32(4));
    match &d.fields[2].1 {
        Field::Object(body) => match &body.fields[0].1 {
            Field::Object(sealed) => {
                let e = Encrypted::load_from_g_object(sealed).unwrap();
                assert_eq!(e.iv.len(), 16);
                assert_ne!(e.cipher, b"payload".to_vec());
            },
            other => panic!("{:?}", other),
        },
        other => panic!("{:?}", other),
    }
    let back = parse_response(d, &key).unwrap();
    assert_eq!(back.request_id, "e1");
    assert_eq!(back.data, ResponseType::Encrypted(b"payload".to_vec()));
}

#[test]
fn encrypted_response_under_another_key_does_not_unlock() {
    let sent = Response { channel_id: String::new(), request_id: "e2".to_string(), data: ResponseType::Encrypted(b"payload".to_vec()) };
    let d = sent.parse(&vec![5u8; 32]).unwrap();
    let e = parse_response(d, &vec![6u8; 32]).err().unwrap();
    assert_eq!(e.val, "failed-unlock_first_g_object => failed-unlock_g_object => failed-decrypt");
    let sent = Response { channel_id: String::new(), request_id: "e3".to_string(), data: ResponseType::Encrypted(vec![1]) };
    let d = sent.parse(&vec![5u8; 32]).unwrap();
    let e = parse_response(d, &vec![5u8; 8]).err().unwrap();
    assert_eq!(e.val, "failed-unlock_first_g_object => failed-unlock_g_object => failed-decrypt");
}

#[test]
fn response_reading_errors() {
    let key = vec![1u8; 32];
    let cases: Vec<(Doc, &str)> = vec![
        (doc(vec![("id", s("a")), ("body", Field::Object(doc(vec![])))]), "failed-extract-response_type"),
        (doc(vec![("response_type", s("0")), ("id", s("a"))]), "failed-extract-response_type"),
        (doc(vec![("response_type", Field::I32(0)), ("body", Field::Object(doc(vec![])))]), "failed-extract-id"),
        (doc(vec![("response_type", Field::I32(0)), ("id", s("a")), ("body", Field::Null)]), "failed-extract-data"),
        (doc(vec![("response_type", Field::I32(1)), ("id", s("a")), ("body", Field::Object(doc(vec![("data", s("x"))])))]), "invalid-body-data"),
        (doc(vec![("response_type", Field::I32(2)), ("id", s("a")), ("body", Field::Object(doc(vec![])))]), "invalid-body-data"),
        (doc(vec![("response_type", Field::I32(4)), ("id", s("a")), ("body", Field::Object(doc(vec![])))]), "invalid-body-encrypted-data"),
        (
            doc(vec![
                ("response_type", Field::I32(4)),
                ("id", s("a")),
                ("body", Field::Object(doc(vec![("encrypted", Field::Object(doc(vec![("iv", Field::Binary(vec![0; 16]))])))]))),
            ]),
            "failed-load_from_g_object => invalid-schema",
        ),
        (doc(vec![("response_type", Field::I32(5)), ("id", s("a")), ("body", Field::Object(doc(vec![])))]), "failed-invalid-response_type"),
        (doc(vec![("response_type", Field::I32(-1)), ("id", s("a")), ("body", Field::Object(doc(vec![])))]), "failed-invalid-response_type"),
    ];
    for (d, reason) in cases {
        assert_eq!(parse_response(d, &key).err().unwrap().val, reason);
    }
}

#[test]
fn response_reading_takes_fields_in_any_order() {
    let d = doc(vec![
        ("body", Field::Object(doc(vec![("error", s("late")), ("error", s("ignored"))]))),
        ("id", s("z")),
        ("response_type", Field::I32(2)),
        ("id", s("second")),
    ]);
    let r = parse_response(d, &vec![]).unwrap();
    assert_eq!(r.request_id, "z");
    assert_eq!(r.data, ResponseType::Error("late".to_string()));
}

#[test]
fn requests_read_back() {
    let body = doc(vec![("op", s("get")), ("n", Field::I32(3))]);
    let d = request_doc("rid".to_string(), RequestBody::Plain(doc(vec![("op", s("get")), ("n", Field::I32(3))])), &vec![]).unwrap();
    assert_eq!(
        d,
        doc(vec![("id", s("rid")), ("encrypted", Field::Bool(false)), ("body", Field::Object(doc(vec![("op", s("get")), ("n", Field::I32(3))])))])
    );
    let r = parse_request_to_struct("c9".to_string(), Field::Object(d)).unwrap();
    assert_eq!(r, Request { channel_id: "c9".to_string(), request_id: "rid".to_string(), body });
}

#[test]
fn sealed_request_body_decrypts() {
    let key = vec![8u8; 32];
    let d = request_doc("rid".to_string(), RequestBody::Sealed(b"encoded body".to_vec()), &key).unwrap();
    assert_eq!(d.fields[1].1, Field::Bool(true));
    match &d.fields[2].1 {
        Field::Object(sealed) => {
            let e = Encrypted::load_from_g_object(sealed).unwrap();
            assert_eq!(decrypt(&key, &e.iv, &e.cipher).unwrap(), b"encoded body".to_vec());
        },
        other => panic!("{:?}", other),
    }
}

#[test]
fn built_requests_get_fresh_ids() {
    let (id, d) = build_request(RequestBody::Plain(doc(vec![])), &vec![]).unwrap();
    assert_eq!(id.len(), 7);
    assert!(id.chars().all(|c| c.is_ascii_alphanumeric()));
    assert_eq!(d.fields[0].1, Field::Str(id.clone()));
    let (id2, _) = build_request(RequestBody::Plain(doc(vec![])), &vec![]).unwrap();
    assert_eq!(id2.len(), 7);
}

#[test]
fn request_reading_errors() {
    assert_eq!(parse_request_to_struct("c".to_string(), s("x")).err().unwrap().val, "invalid_request");
    let d = doc(vec![("id", Field::I32(1)), ("body", Field::Object(doc(vec![])))]);
    assert_eq!(parse_request_to_struct("c".to_string(), Field::Object(d)).err().unwrap().val, "invalid_request-schema");
    let d = doc(vec![("id", s("a")), ("body", Field::Binary(vec![]))]);
    assert_eq!(parse_request_to_struct("c".to_string(), Field::Object(d)).err().unwrap().val, "invalid_request-schema");
}

fn send_doc(a: HandshakeAction) -> Doc {
    match a {
        HandshakeAction::Send(d) => d,
        other => panic!("{:?}", other),
    }
}

fn fail_text(a: HandshakeAction) -> String {
    match a {
        HandshakeAction::Fail(e) => e.val,
        other => panic!("{:?}", other),
    }
}

#[test]
fn key_handshake_runs_through() {
    let (public, private, _, _) = keys();
    let (mut h, a) = KeyHandshake::new();
    assert_eq!(send_doc(a), doc(vec![("connect", Field::Bool(true)), ("protocol", s("key"))]));
    assert!(matches!(h.step(HandshakeEvent::Sent, &private), HandshakeAction::Read));
    assert_eq!(h.stage, KeyStage::ReadingConfirm);
    let a = h.step(HandshakeEvent::Received(doc(vec![("connect", Field::Bool(true))])), &private);
    assert_eq!(send_doc(a), doc(vec![("get_challenge", Field::Bool(true))]));
    assert!(matches!(h.step(HandshakeEvent::Sent, &private), HandshakeAction::Read));
    let a = h.step(HandshakeEvent::Received(doc(vec![("challenge", s("prove-it"))])), &private);
    let d = send_doc(a);
    assert_eq!(h.stage, KeyStage::SendingSignature);
    match &d.fields[0] {
        (name, Field::Binary(sig)) => {
            assert_eq!(name, "signature");
            assert!(verify(b"prove-it".to_vec(), &public, sig.clone()).is_ok());
        },
        other => panic!("{:?}", other),
    }
    assert!(matches!(h.step(HandshakeEvent::Sent, &private), HandshakeAction::Read));
    let sealed = rsa::encrypt(b"channel-password".to_vec(), &public).unwrap();
    let a = h.step(HandshakeEvent::Received(doc(vec![("password", Field::Binary(sealed))])), &private);
    assert_eq!(send_doc(a), doc(vec![("start", Field::Bool(true))]));
    assert_eq!(h.password, b"channel-password".to_vec());
    assert!(matches!(h.step(HandshakeEvent::Sent, &private), HandshakeAction::Read));
    assert_eq!(h.stage, KeyStage::ReadingReady);
    match h.step(HandshakeEvent::Received(doc(vec![("ready", Field::Bool(true))])), &private) {
        HandshakeAction::Finish(p) => assert_eq!(p, b"channel-password".to_vec()),
        other => panic!("{:?}", other),
    }
    assert_eq!(h.stage, KeyStage::Done);
}

#[test]
fn key_handshake_failures() {
    let (_, private, _, _) = keys();
    let (mut h, _) = KeyHandshake::new();
    let a = h.step(HandshakeEvent::SendFailed(Error::new("pipe")), &private);
    assert_eq!(fail_text(a), "failed-validate_key => failed-send_protocol_message => pipe");
    assert_eq!(h.stage, KeyStage::Failed);

    let mut h = KeyHandshake { stage: KeyStage::ReadingConfirm, password: vec![] };
    assert_eq!(fail_text(h.step(HandshakeEvent::ReadFailed, &private)), "failed-validate_key => failed-read-confirmation-request");
    let mut h = KeyHandshake { stage: KeyStage::ReadingConfirm, password: vec![] };
    let a = h.step(HandshakeEvent::Received(doc(vec![("connect", Field::Bool(false))])), &private);
    assert_eq!(fail_text(a), "failed-validate_key => failed-denied-confirmation-request");
    let mut h = KeyHandshake { stage: KeyStage::ReadingConfirm, password: vec![] };
    let a = h.step(HandshakeEvent::Received(doc(vec![("connect", s("yes"))])), &private);
    assert_eq!(fail_text(a), "failed-validate_key => failed-validate-confirmation-request");

    let mut h = KeyHandshake { stage: KeyStage::ReadingChallenge, password: vec![] };
    let a = h.step(HandshakeEvent::Received(doc(vec![])), &private);
    assert_eq!(fail_text(a), "failed-validate_key => failed-validate-challenge-request");
    let mut h = KeyHandshake { stage: KeyStage::SendingSignature, password: vec![] };
    let a = h.step(HandshakeEvent::SendFailed(Error::new("x")), &private);
    assert_eq!(fail_text(a), "failed-validate_key => failed-send_signature => x");

    let mut h = KeyHandshake { stage: KeyStage::ReadingPassword, password: vec![] };
    let a = h.step(HandshakeEvent::Received(doc(vec![("password", s("plain"))])), &private);
    assert_eq!(fail_text(a), "failed-validate_key => failed-validate-password_object-request");
    let mut h = KeyHandshake { stage: KeyStage::ReadingPassword, password: vec![] };
    let a = h.step(HandshakeEvent::Received(doc(vec![("password", Field::Binary(vec![1, 2, 3]))])), &private);
    assert_eq!(fail_text(a), "failed-validate_key => failed-decrypt-password-password_object-request");

    let mut h = KeyHandshake { stage: KeyStage::SendingStart, password: vec![] };
    let a = h.step(HandshakeEvent::SendFailed(Error::new("y")), &private);
    assert_eq!(fail_text(a), "failed-validate_key => failed-send_start => y");
    let mut h = KeyHandshake { stage: KeyStage::ReadingReady, password: vec![] };
    let a = h.step(HandshakeEvent::Received(doc(vec![("ready", Field::Bool(false))])), &private);
    assert_eq!(fail_text(a), "failed-validate_key => server_not_ready-ready_object-request");
    let mut h = KeyHandshake { stage: KeyStage::ReadingReady, password: vec![] };
    let a = h.step(HandshakeEvent::Received(doc(vec![("ready", Field::I32(1))])), &private);
    assert_eq!(fail_text(a), "failed-validate_key => failed-validate-ready_object-request");
    let mut h = KeyHandshake { stage: KeyStage::ReadingReady, password: vec![] };
    assert_eq!(fail_text(h.step(HandshakeEvent::ReadFailed, &private)), "failed-validate_key => failed-read-ready_object-request");
}

#[test]
fn handshake_crypto_outcomes() {
    let (stage, a) = signature_step(Ok(vec![7, 7]));
    assert_eq!(stage, KeyStage::SendingSignature);
    assert_eq!(send_doc(a), doc(vec![("signature", Field::Binary(vec![7, 7]))]));
    let (stage, a) = signature_step(Err(Error::new("failed-run-signer")));
    assert_eq!(stage, KeyStage::Failed);
    assert_eq!(fail_text(a), "failed-validate_key => failed-generate-sign-request");
    let (stage, pw, a) = password_step(Ok(vec![4, 2]));
    assert_eq!((stage, pw), (KeyStage::SendingStart, vec![4, 2]));
    assert_eq!(send_doc(a), doc(vec![("start", Field::Bool(true))]));
    let (stage, pw, a) = password_step(Err(Error::new("x")));
    assert_eq!((stage, pw.len()), (KeyStage::Failed, 0));
    assert_eq!(fail_text(a), "failed-validate_key => failed-decrypt-password-password_object-request");
}

#[test]
fn auth_tokens() {
    let t = AuthToken::session("me".to_string(), "pw".to_string());
    match &t {
        AuthToken::Session(s) => assert_eq!((s.id.as_str(), s.password.as_str()), ("me", "pw")),
        _ => panic!("not a session"),
    }
    assert_eq!(t.validate().err().unwrap().val, "failed-validate_session => no_error");
    let (_, _, public_pem, private_pem) = keys();
    let t = AuthToken::key(public_pem.clone(), private_pem.clone()).unwrap();
    let (h, a) = t.validate().unwrap();
    assert_eq!(h.stage, KeyStage::SendingConnect);
    assert_eq!(send_doc(a), doc(vec![("connect", Field::Bool(true)), ("protocol", s("key"))]));
    let e = AuthToken::key(b"junk".to_vec(), private_pem.clone()).err().unwrap();
    assert!(e.val.starts_with("failed-load_public_key => failed-load_key=>"));
    let e = AuthToken::key(public_pem.clone(), b"junk".to_vec()).err().unwrap();
    assert!(e.val.starts_with("failed-load_private_key => failed-load_key=>"));
    let c = ClientConfig::new(t, "127.0.0.1:1200".to_string(), 128);
    assert_eq!((c.channels, c.addr.as_str()), (128, "127.0.0.1:1200"));
}

#[test]
fn server_configs() {
    let c = ServerConfig::empty();
    assert_eq!(c.socket, 1200);
    assert!(matches!(c.public_key, RsaKey::none) && matches!(c.private_key, RsaKey::none));
    let (_, _, public_pem, private_pem) = keys();
    let c = ServerConfig::new(1300, private_pem.clone(), public_pem.clone()).unwrap();
    assert_eq!(c.socket, 1300);
    assert!(matches!(c.public_key, RsaKey::public(_)) && matches!(c.private_key, RsaKey::private(_)));
    let e = ServerConfig::new(1300, b"x".to_vec(), public_pem).err().unwrap();
    assert!(e.val.starts_with("failed-load_private_key => "));
}

#[test]
fn read_failures() {
    assert_eq!(read_failure_error(ReadFailure::WouldBlock).unwrap().val, "blocking");
    for k in [
        ReadFailure::ConnectionAborted,
        ReadFailure::Interrupted,
        ReadFailure::PermissionDenied,
        ReadFailure::BrokenPipe,
        ReadFailure::ConnectionReset,
        ReadFailure::NotConnected,
    ] {
        assert_eq!(read_failure_error(k).unwrap().val, "closed");
        assert!(read_failure_ends(k));
    }
    assert!(read_failure_error(ReadFailure::Other).is_none());
    assert!(read_failure_ends(ReadFailure::WouldBlock));
    assert!(!read_failure_ends(ReadFailure::Other));
}

#[test]
fn read_waits_back_off() {
    assert_eq!(next_wait(0, 0), 10);
    assert_eq!(next_wait(90, 0), 100);
    assert_eq!(next_wait(100, 0), 100);
    assert_eq!(next_wait(70, 5), 0);
    let mut w = 0;
    for _ in 0..20 {
        w = next_wait(w, 0);
    }
    assert_eq!(w, 100);
}

#[test]
fn overflow_keeps_bytes_after_the_message() {
    let base = vec![1, 2, 3, 4, 5];
    assert_eq!(overflow_after(&base, 1), vec![3, 4, 5]);
    assert_eq!(overflow_after(&base, 4), Vec::<u8>::new());
    assert_eq!(overflow_after(&base, 9), Vec::<u8>::new());
    assert_eq!(overflow_after(&base, 0), vec![2, 3, 4, 5]);
}

#[test]
fn first_values_read() {
    assert_eq!(read_first(Ok(vec![Field::I32(1), Field::I32(2)])).unwrap(), Field::I32(1));
    assert_eq!(read_first(Ok(vec![])).err().unwrap().val, "failed-not_found");
    assert_eq!(read_first(Err(Error::new("closed"))).err().unwrap().val, "failed-read_from_socket => closed");
    assert_eq!(read_first_doc(Ok(Field::Object(doc(vec![("a", Field::Null)])))).unwrap(), doc(vec![("a", Field::Null)]));
    assert_eq!(read_first_doc(Ok(Field::I32(1))).err().unwrap().val, "not_found-gObject");
    assert_eq!(read_first_doc(Err(Error::new("x"))).err().unwrap().val, "failed-read_first => x");
}

#[test]
fn encrypt_helper_used_by_bodies_matches_aes() {
    let key = vec![2u8; 32];
    let e = encrypt(&key, &b"abc".to_vec()).unwrap();
    let d = e.g_object();
    let back = Encrypted::load_from_g_object(&d).unwrap();
    assert_eq!(back.decrypt(&key).unwrap(), b"abc".to_vec());
}

#[test]
fn protocols_accepted() {
    let d = doc(vec![("connect", Field::Bool(true)), ("protocol", s("key"))]);
    assert_eq!(accept_protocol(&d), Some(Protocol::Key));
    let d = doc(vec![("protocol", s("session")), ("connect", Field::Bool(false))]);
    assert_eq!(accept_protocol(&d), Some(Protocol::Session));
    let d = doc(vec![("connect", Field::Bool(true)), ("protocol", s("other"))]);
    assert_eq!(accept_protocol(&d), Some(Protocol::Unknown));
    assert_eq!(accept_protocol(&doc(vec![("protocol", s("key"))])), None);
    assert_eq!(accept_protocol(&doc(vec![("connect", Field::Bool(true)), ("protocol", Field::I32(1))])), None);
}

#[test]
fn client_and_server_handshakes_meet() {
    let rsa = Rsa::generate(2048).unwrap();
    let public = public_key_from_pem(rsa.public_key_to_pem().unwrap()).unwrap();
    let private = private_key_from_pem(rsa.private_key_to_pem().unwrap()).unwrap();
    let server_key = RsaKey::public(public);
    let (mut client, mut to_server) = KeyHandshake::new();
    let first = send_doc(to_server);
    assert_eq!(accept_protocol(&first), Some(Protocol::Key));
    let (mut server, mut to_client) = ServerKeyHandshake::new();
    // the client sent its connect request; the server answers it
    to_server = client.step(HandshakeEvent::Sent, &private);
    assert!(matches!(to_server, HandshakeAction::Read));
    for _ in 0..3 {
        let d = send_doc(to_client);
        assert!(matches!(server.step(HandshakeEvent::Sent, &server_key), HandshakeAction::Read));
        let reply = client.step(HandshakeEvent::Received(d), &private);
        let d = send_doc(reply);
        assert!(matches!(client.step(HandshakeEvent::Sent, &private), HandshakeAction::Read));
        to_client = server.step(HandshakeEvent::Received(d), &server_key);
        to_server = HandshakeAction::Read;
        if server.stage == ServerStage::Done {
            break;
        }
    }
    assert!(matches!(to_server, HandshakeAction::Read));
    let server_password = match to_client {
        HandshakeAction::Finish(p) => p,
        other => panic!("{:?}", other),
    };
    assert_eq!(server_password.len(), 32);
    assert_eq!(client.password, server_password);
    assert_eq!(client.stage, KeyStage::ReadingReady);
    assert_eq!(server.challenge.len(), 7);
}

#[test]
fn server_handshake_failures() {
    let rsa = Rsa::generate(2048).unwrap();
    let public = RsaKey::public(public_key_from_pem(rsa.public_key_to_pem().unwrap()).unwrap());
    let (mut h, a) = ServerKeyHandshake::new();
    assert_eq!(send_doc(a), doc(vec![("connect", Field::Bool(true))]));
    assert_eq!(fail_text(h.step(HandshakeEvent::SendFailed(Error::new("x")), &public)), "failed-validate_key => failed-request-connect");
    let mut h = ServerKeyHandshake { stage: ServerStage::ReadingChallengeRequest, challenge: String::new(), password: vec![] };
    let a = h.step(HandshakeEvent::Received(doc(vec![("get_challenge", Field::Bool(false))])), &public);
    assert_eq!(fail_text(a), "failed-validate_key => failed-request-send_challenge");
    let mut h = ServerKeyHandshake { stage: ServerStage::ReadingChallengeRequest, challenge: String::new(), password: vec![] };
    let a = h.step(HandshakeEvent::Received(doc(vec![("get_challenge", Field::Bool(true))])), &public);
    assert_eq!(h.stage, ServerStage::SendingChallenge);
    assert_eq!(send_doc(a), doc(vec![("challenge", Field::Str(h.challenge.clone()))]));
    assert!(h.challenge.chars().all(|c| c.is_ascii_alphanumeric()));
    let mut h = ServerKeyHandshake { stage: ServerStage::SendingChallenge, challenge: "abc".to_string(), password: vec![] };
    assert_eq!(fail_text(h.step(HandshakeEvent::SendFailed(Error::new("x")), &public)), "failed-validate_key => failed-request-challenge");
    let mut h = ServerKeyHandshake { stage: ServerStage::ReadingSignature, challenge: "abc".to_string(), password: vec![] };
    assert_eq!(fail_text(h.step(HandshakeEvent::ReadFailed, &public)), "failed-validate_key => failed-request-signature");
    let mut h = ServerKeyHandshake { stage: ServerStage::ReadingSignature, challenge: "abc".to_string(), password: vec![] };
    let a = h.step(HandshakeEvent::Received(doc(vec![("signature", s("no"))])), &public);
    assert_eq!(fail_text(a), "failed-validate_key => failed-validate-signature");
    let mut h = ServerKeyHandshake { stage: ServerStage::ReadingSignature, challenge: "abc".to_string(), password: vec![] };
    let a = h.step(HandshakeEvent::Received(doc(vec![("signature", Field::Binary(vec![1; 256]))])), &RsaKey::none);
    assert_eq!(fail_text(a), "failed-validate_key => failed-extract-public_key");
    let mut h = ServerKeyHandshake { stage: ServerStage::ReadingSignature, challenge: "abc".to_string(), password: vec![] };
    let a = h.step(HandshakeEvent::Received(doc(vec![("signature", Field::Binary(vec![1; 256]))])), &public);
    assert_eq!(fail_text(a), "failed-validate_key => failed-verify-sig");
    let mut h = ServerKeyHandshake { stage: ServerStage::SendingPassword, challenge: "abc".to_string(), password: vec![1] };
    assert_eq!(fail_text(h.step(HandshakeEvent::SendFailed(Error::new("x")), &public)), "failed-validate_key => failed-request-password");
    let mut h = ServerKeyHandshake { stage: ServerStage::ReadingStart, challenge: "abc".to_string(), password: vec![1] };
    assert_eq!(fail_text(h.step(HandshakeEvent::ReadFailed, &public)), "failed-validate_key => failed-request-start");
    let mut h = ServerKeyHandshake { stage: ServerStage::ReadingStart, challenge: "abc".to_string(), password: vec![1] };
    let a = h.step(HandshakeEvent::Received(doc(vec![("start", Field::Bool(false))])), &public);
    assert_eq!(fail_text(a), "failed-validate_key => failed-denied-start");
    let mut h = ServerKeyHandshake { stage: ServerStage::ReadingStart, challenge: "abc".to_string(), password: vec![1] };
    let a = h.step(HandshakeEvent::Received(doc(vec![("start", s("yes"))])), &public);
    assert_eq!(fail_text(a), "failed-validate_key => failed-validate-start");
    let mut h = ServerKeyHandshake { stage: ServerStage::ReadingStart, challenge: "abc".to_string(), password: vec![1, 2] };
    match h.step(HandshakeEvent::Received(doc(vec![("start", Field::Bool(true))])), &public) {
        HandshakeAction::Finish(p) => assert_eq!(p, vec![1, 2]),
        other => panic!("{:?}", other),
    }
}

#[test]
fn server_handshake_random_outcomes() {
    let (stage, c, a) = challenge_step("Ab3dE9z".to_string());
    assert_eq!((stage, c.as_str()), (ServerStage::SendingChallenge, "Ab3dE9z"));
    assert_eq!(send_doc(a), doc(vec![("challenge", s("Ab3dE9z"))]));
    let (stage, p, a) = offer_step(vec![9; 32], Ok(vec![1, 2, 3]));
    assert_eq!((stage, p), (ServerStage::SendingPassword, vec![9; 32]));
    assert_eq!(send_doc(a), doc(vec![("password", Field::Binary(vec![1, 2, 3]))]));
    let (stage, _, a) = offer_step(vec![9; 32], Err(Error::new("x")));
    assert_eq!(stage, ServerStage::Failed);
    assert_eq!(fail_text(a), "failed-validate_key => failed-encypt-password");
}

#[test]
fn signing_is_deterministic_and_checked() {
    let (public, private, _, _) = keys();
    let a = gzbdb::crypt::sign::sign(b"data".to_vec(), &private).unwrap();
    let b = gzbdb::crypt::sign::sign(b"data".to_vec(), &private).unwrap();
    assert_eq!(a, b);
    assert_eq!(a.len(), 256);
    assert!(verify(b"data".to_vec(), &public, a.clone()).is_ok());
    assert_eq!(verify(b"other".to_vec(), &public, a).err().unwrap().val, "invalid-sig");
}

#[test]
fn rsa_decrypts_what_it_encrypted() {
    let (public, private, _, _) = keys();
    let c = rsa::encrypt(b"secret".to_vec(), &public).unwrap();
    assert_eq!(c.len(), 256);
    assert_eq!(rsa::decrypt(c.clone(), &private).unwrap(), b"secret".to_vec());
    assert_eq!(rsa::decrypt(c, &private).unwrap(), b"secret".to_vec());
    assert!(rsa::decrypt(vec![1, 2, 3], &private).is_err());
}

#[test]
fn short_aes_keys_are_refused_not_fatal() {
    let e = encrypt(&vec![1u8; 8], &b"abc".to_vec()).err().unwrap();
    assert!(e.val.starts_with("failed-encrypt=>"));
    let sent = Response { channel_id: String::new(), request_id: "s".to_string(), data: ResponseType::Encrypted(vec![1]) };
    let e = sent.parse(&vec![1u8; 8]).err().unwrap();
    assert!(e.val.starts_with("failed-encypt-response => failed-encrypt=>"));
    let e = request_doc("r".to_string(), RequestBody::Sealed(vec![1]), &vec![]).err().unwrap();
    assert!(e.val.starts_with("failed-ecnrypt-request => failed-encrypt=>"));
}

#[test]
fn server_keeps_well_formed_requests_last_first() {
    let key = vec![4u8; 32];
    let plain = doc(vec![("id", s("p1")), ("encrypted", Field::Bool(false)), ("body", Field::Object(doc(vec![("q", Field::I32(1))])))]);
    let sealed = request_doc("p2".to_string(), RequestBody::Sealed(b"encoded".to_vec()), &key).unwrap();
    let broken = doc(vec![("id", s("p3")), ("body", Field::Object(doc(vec![])))]);
    let wrong_key = request_doc("p4".to_string(), RequestBody::Sealed(b"x".to_vec()), &vec![5u8; 32]).unwrap();
    let unsealed_body = doc(vec![("id", s("p5")), ("encrypted", Field::Bool(true)), ("body", Field::Object(doc(vec![])))]);
    let pool = vec![
        Field::Object(plain),
        Field::Object(sealed),
        Field::Object(broken),
        Field::I32(7),
        Field::Object(wrong_key),
        Field::Object(unsealed_body),
    ];
    let kept = parse_requests(pool, &key).unwrap();
    assert_eq!(kept.len(), 2);
    assert_eq!(
        kept[0],
        Field::Object(doc(vec![("id", s("p2")), ("encrypted", Field::Bool(true)), ("body", Field::Binary(b"encoded".to_vec()))]))
    );
    assert_eq!(
        kept[1],
        Field::Object(doc(vec![("id", s("p1")), ("encrypted", Field::Bool(false)), ("body", Field::Object(doc(vec![("q", Field::I32(1))])))]))
    );
    assert!(parse_requests(vec![], &key).unwrap().is_empty());
}

#[test]
fn channel_book_registers_visits_and_drops() {
    assert_eq!((visit_slot(0), visit_slot(1), visit_slot(2), visit_slot(5)), (0, 0, 1, 4));
    let mut b = ChannelBook::new();
    assert_eq!(b.pass_len(), 1);
    assert_eq!(b.visit(0), None);
    b.register("a".to_string());
    b.register("b".to_string());
    b.register("c".to_string());
    assert_eq!(b.pass_len(), 4);
    let seen: Vec<Option<&String>> = (0..b.pass_len()).map(|i| b.visit(i)).collect();
    assert_eq!(seen, vec![Some(&"a".to_string()), Some(&"a".to_string()), Some(&"b".to_string()), Some(&"c".to_string())]);
    assert_eq!(b.route(&"b".to_string()), Some(1));
    assert_eq!(b.route(&"z".to_string()), None);
    assert!(!b.read_failed(&"b".to_string(), &Error::new("blocking")));
    assert_eq!(b.keys.len(), 3);
    assert!(is_closed(&Error::new("closed")));
    assert!(b.read_failed(&"b".to_string(), &Error::new("closed")));
    assert_eq!(b.keys, vec!["a".to_string(), "c".to_string()]);
    assert!(b.read_failed(&"z".to_string(), &Error::new("closed")));
    assert_eq!(b.keys.len(), 2);
}

#[test]
fn single_request_reasons() {
    let key = vec![4u8; 32];
    assert_eq!(parse_request("c", Field::I32(1), &key).err().unwrap().val, "invalid_schema");
    let d = doc(vec![("id", s("a")), ("encrypted", Field::Bool(true))]);
    assert_eq!(parse_request("c", Field::Object(d), &key).err().unwrap().val, "invalid_schema");
    let d = doc(vec![("id", s("a")), ("encrypted", Field::Bool(true)), ("body", Field::Object(doc(vec![])))]);
    assert_eq!(parse_request("c", Field::Object(d), &key).err().unwrap().val, "invalid_schema-item-body");
    let d = request_doc("a".to_string(), RequestBody::Sealed(b"x".to_vec()), &vec![5u8; 32]).unwrap();
    assert_eq!(parse_request("c", Field::Object(d), &key).err().unwrap().val, "not_found-unlock-encrypted");
    let d = request_doc("a".to_string(), RequestBody::Sealed(b"x".to_vec()), &key).unwrap();
    assert_eq!(
        parse_request("c", Field::Object(d), &key).unwrap(),
        Field::Object(doc(vec![("id", s("a")), ("encrypted", Field::Bool(true)), ("body", Field::Binary(b"x".to_vec()))]))
    );
    let plain = doc(vec![("id", s("a")), ("encrypted", Field::Bool(false)), ("body", Field::Object(doc(vec![])))]);
    let copy = doc(vec![("id", s("a")), ("encrypted", Field::Bool(false)), ("body", Field::Object(doc(vec![])))]);
    assert_eq!(parse_request("c", Field::Object(plain), &key).unwrap(), Field::Object(copy));
}

#[test]
fn rsa_cipher_is_as_long_as_the_key() {
    let (public, private, _, _) = keys();
    for n in [0usize, 1, 100, 245] {
        let m = vec![3u8; n];
        let c = rsa::encrypt(m.clone(), &public).unwrap();
        assert_eq!(c.len(), 256);
        assert_eq!(rsa::decrypt(c, &private).unwrap(), m);
    }
    assert!(rsa::encrypt(vec![3u8; 246], &public).is_err());
}

#[test]
fn client_keeps_readable_responses_in_order() {
    let key = vec![1u8; 32];
    let good = |id: &str| Response { channel_id: String::new(), request_id: id.to_string(), data: ResponseType::Down }.parse(&key).unwrap();
    let bad_kind = doc(vec![("id", s("x")), ("response_type", Field::I32(9)), ("body", Field::Object(doc(vec![])))]);
    let no_body = doc(vec![("id", s("y")), ("response_type", Field::I32(0))]);
    let v = vec![
        Field::Object(good("a")),
        Field::Object(bad_kind),
        Field::I32(3),
        Field::Object(no_body),
        Field::Object(good("b")),
    ];
    let out = gzbdb::query::parse_responses(v, &key).unwrap();
    assert_eq!(out.len(), 2);
    assert_eq!((out[0].request_id.as_str(), out[1].request_id.as_str()), ("a", "b"));
    assert_eq!(out[0].data, ResponseType::Down);
}
