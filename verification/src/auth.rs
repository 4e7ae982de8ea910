use vstd::prelude::*;
use openssl::pkey::{PKey, Public, Private};
use crate::error::{Error, chained};
use crate::doc::{Doc, Field, field_of, lemma_field_at};
use crate::ipc::SessionAuth;
use crate::crypt::{public_key_from_pem, private_key_from_pem, rsa_public_pem_holds_key, plain_rsa_key};
use crate::crypt::rsa;
use crate::crypt::rsa::{rsa_private_bytes, rsa_key_pair, rsa_pkcs1_sealed};
use crate::crypt::sign::{sign, verify, rsa_sha256_signature, rsa_sha256_verified};
use vstd::utf8::encode_utf8;
use crate::query::{random_id, is_alphanumeric};
use crate::crypt::aes::random_bytes;

verus! {

/// The keys of a client that proves who it is by signing.
pub struct KeyAuth {
    pub public: PKey<Public>,
    pub private: PKey<Private>,
}

/// How a client proves who it is to the server.
pub enum AuthToken {
    Session(SessionAuth),
    Key(KeyAuth),
}

/// Where the key handshake stands: what it sent or waits to read.
#[derive(Debug, PartialEq, Eq, Structural)]
pub enum KeyStage {
    SendingConnect,
    ReadingConfirm,
    SendingChallengeRequest,
    ReadingChallenge,
    SendingSignature,
    ReadingPassword,
    SendingStart,
    ReadingReady,
    Done,
    Failed,
}

/// What the connection reports back to the handshake.
pub enum HandshakeEvent {
    /// The document was sent.
    Sent,
    /// Sending the document failed.
    SendFailed(Error),
    /// The first document that arrived within ten seconds.
    Received(Doc),
    /// No document arrived.
    ReadFailed,
}

/// What the handshake asks of the connection next.
#[derive(Debug)]
pub enum HandshakeAction {
    /// Send this document.
    Send(Doc),
    /// Read the next document, waiting up to ten seconds.
    Read,
    /// The handshake is over; this is the channel's password.
    Finish(Vec<u8>),
    /// The handshake failed.
    Fail(Error),
}

/// The key handshake of a client: where it stands, and the channel's password once
/// the server has sent it.
pub struct KeyHandshake {
    pub stage: KeyStage,
    pub password: Vec<u8>,
}

/// `d` holds just the field `name`, set to true.
pub open spec fn flag_doc(d: Doc, name: Seq<char>) -> bool {
    d.fields@.len() == 1 && d.fields@[0].0@ == name && d.fields@[0].1 == Field::Bool(true)
}

/// `d` asks the server to connect with the key protocol.
pub open spec fn connect_doc(d: Doc) -> bool {
    &&& d.fields@.len() == 2
    &&& d.fields@[0].0@ == "connect"@
    &&& d.fields@[0].1 == Field::Bool(true)
    &&& d.fields@[1].0@ == "protocol"@
    &&& d.fields@[1].1 matches Field::Str(p) && p@ == "key"@
}

/// `d` holds just the binary field `signature`, set to `sig`.
pub open spec fn signature_doc(d: Doc, sig: Seq<u8>) -> bool {
    d.fields@.len() == 1 && d.fields@[0].0@ == "signature"@ && (d.fields@[0].1 matches Field::Binary(s) && s@ == sig)
}

/// `a` fails the key handshake for the reason `reason`.
pub open spec fn fails_for(a: HandshakeAction, reason: Seq<char>) -> bool {
    a matches HandshakeAction::Fail(e) && e.val@ == chained("failed-validate_key"@, reason)
}

/// The stages that wait for a document to be sent.
pub open spec fn is_sending(s: KeyStage) -> bool {
    ||| s == KeyStage::SendingConnect
    ||| s == KeyStage::SendingChallengeRequest
    ||| s == KeyStage::SendingSignature
    ||| s == KeyStage::SendingStart
}

/// The stages that wait for a document to be read.
pub open spec fn is_reading(s: KeyStage) -> bool {
    ||| s == KeyStage::ReadingConfirm
    ||| s == KeyStage::ReadingChallenge
    ||| s == KeyStage::ReadingPassword
    ||| s == KeyStage::ReadingReady
}

/// `e` answers what the stage `s` waits for.
pub open spec fn answers(s: KeyStage, e: HandshakeEvent) -> bool {
    ||| is_sending(s) && (e is Sent || e is SendFailed)
    ||| is_reading(s) && (e is Received || e is ReadFailed)
}

/// The reason given when sending fails at the stage `s`.
pub open spec fn send_reason(s: KeyStage) -> Seq<char> {
    if s == KeyStage::SendingSignature {
        "failed-send_signature"@
    } else if s == KeyStage::SendingStart {
        "failed-send_start"@
    } else {
        "failed-send_protocol_message"@
    }
}

/// The stage that reads the answer to what the sending stage `s` sent.
pub open spec fn reading_after(s: KeyStage) -> KeyStage {
    if s == KeyStage::SendingConnect {
        KeyStage::ReadingConfirm
    } else if s == KeyStage::SendingChallengeRequest {
        KeyStage::ReadingChallenge
    } else if s == KeyStage::SendingSignature {
        KeyStage::ReadingPassword
    } else {
        KeyStage::ReadingReady
    }
}

/// The reason given when nothing can be read at the stage `s`.
pub open spec fn read_reason(s: KeyStage) -> Seq<char> {
    if s == KeyStage::ReadingConfirm {
        "failed-read-confirmation-request"@
    } else if s == KeyStage::ReadingChallenge {
        "failed-read-challenge-request"@
    } else if s == KeyStage::ReadingPassword {
        "failed-read-password_object-request"@
    } else {
        "failed-read-ready_object-request"@
    }
}

/// What one step of the handshake does, with the client's key `private`: from `h` on
/// the event `e`, to `h2`, asking `a`. The challenge is signed with `private`: with a
/// plain RSA key (the keys this library loads) the signature sent is the one named by
/// `rsa_sha256_signature`. The password is decrypted with `private`: a PKCS#1
/// encryption of `m` under the public half of `private` gives `m`, and whatever is
/// kept is at most the key's size less 11 bytes (of other bytes, OpenSSL versions give
/// different outcomes).
pub open spec fn step_done(h: KeyHandshake, e: HandshakeEvent, private: PKey<Private>, h2: KeyHandshake, a: HandshakeAction) -> bool {
    let s = h.stage;
    match e {
        HandshakeEvent::Sent => h2.stage == reading_after(s) && a is Read && h2.password == h.password,
        HandshakeEvent::SendFailed(er) => h2.stage == KeyStage::Failed && (a matches HandshakeAction::Fail(x)
            && x.val@ == chained("failed-validate_key"@, chained(send_reason(s), er.val@))),
        HandshakeEvent::ReadFailed => h2.stage == KeyStage::Failed && fails_for(a, read_reason(s)),
        HandshakeEvent::Received(d) => if s == KeyStage::ReadingConfirm {
            match field_of(d, "connect"@) {
                Some(Field::Bool(true)) => h2.stage == KeyStage::SendingChallengeRequest && (a matches HandshakeAction::Send(m)
                    && flag_doc(m, "get_challenge"@)) && h2.password == h.password,
                Some(Field::Bool(false)) => h2.stage == KeyStage::Failed && fails_for(a, "failed-denied-confirmation-request"@),
                _ => h2.stage == KeyStage::Failed && fails_for(a, "failed-validate-confirmation-request"@),
            }
        } else if s == KeyStage::ReadingChallenge {
            match field_of(d, "challenge"@) {
                Some(Field::Str(c)) => if plain_rsa_key(private) {
                    match rsa_sha256_signature(private, encode_utf8(c@)) {
                        Some(sig) => h2.stage == KeyStage::SendingSignature && (a matches HandshakeAction::Send(m)
                            && signature_doc(m, sig)) && h2.password == h.password,
                        None => h2.stage == KeyStage::Failed && fails_for(a, "failed-generate-sign-request"@),
                    }
                } else {
                    ||| h2.stage == KeyStage::SendingSignature && (a matches HandshakeAction::Send(m) && exists|sig: Seq<u8>|
                        signature_doc(m, sig)) && h2.password == h.password
                    ||| h2.stage == KeyStage::Failed && fails_for(a, "failed-generate-sign-request"@)
                },
                _ => h2.stage == KeyStage::Failed && fails_for(a, "failed-validate-challenge-request"@),
            }
        } else if s == KeyStage::ReadingPassword {
            match field_of(d, "password"@) {
                Some(Field::Binary(p)) => {
                    &&& {
                        ||| h2.stage == KeyStage::SendingStart && (a matches HandshakeAction::Send(m) && flag_doc(m, "start"@))
                            && h2.password@.len() + 11 <= rsa_private_bytes(private)
                        ||| h2.stage == KeyStage::Failed && fails_for(a, "failed-decrypt-password-password_object-request"@)
                    }
                    &&& forall|public: PKey<Public>, m: Seq<u8>|
                        rsa_key_pair(public, private) && #[trigger] rsa_pkcs1_sealed(public, m, p@) ==> h2.stage
                            == KeyStage::SendingStart && h2.password@ == m
                },
                _ => h2.stage == KeyStage::Failed && fails_for(a, "failed-validate-password_object-request"@),
            }
        } else {
            match field_of(d, "ready"@) {
                Some(Field::Bool(true)) => h2.stage == KeyStage::Done && (a matches HandshakeAction::Finish(p) && p@
                    == h.password@),
                Some(Field::Bool(false)) => h2.stage == KeyStage::Failed && fails_for(a, "server_not_ready-ready_object-request"@),
                _ => h2.stage == KeyStage::Failed && fails_for(a, "failed-validate-ready_object-request"@),
            }
        },
    }
}

/// A document of one field `name` set to true.
fn flag(name: &str) -> (d: Doc)
    ensures
        flag_doc(d, name@),
{
    Doc { fields: vec![(name.to_owned(), Field::Bool(true))] }
}

/// The handshake once the signature of the challenge is `sig`: it sends the
/// signature, or fails when signing failed.
pub fn signature_step(sig: Result<Vec<u8>, Error>) -> (r: (KeyStage, HandshakeAction))
    ensures
        sig matches Ok(s) ==> r.0 == KeyStage::SendingSignature && (r.1 matches HandshakeAction::Send(m)
            && signature_doc(m, s@)),
        sig is Err ==> r.0 == KeyStage::Failed && fails_for(r.1, "failed-generate-sign-request"@),
{
    match sig {
        Ok(s) => (
            KeyStage::SendingSignature,
            HandshakeAction::Send(Doc { fields: vec![("signature".to_owned(), Field::Binary(s))] }),
        ),
        Err(_) => (
            KeyStage::Failed,
            HandshakeAction::Fail(Error::chain("failed-validate_key", Error::new("failed-generate-sign-request"))),
        ),
    }
}

/// The handshake once the channel's password has been decrypted to `pw`: it keeps the
/// password and asks the server to start, or fails when decryption failed.
pub fn password_step(pw: Result<Vec<u8>, Error>) -> (r: (KeyStage, Vec<u8>, HandshakeAction))
    ensures
        pw matches Ok(p) ==> r.0 == KeyStage::SendingStart && r.1@ == p@ && (r.2 matches HandshakeAction::Send(m)
            && flag_doc(m, "start"@)),
        pw is Err ==> r.0 == KeyStage::Failed && r.1@.len() == 0 && fails_for(r.2, "failed-decrypt-password-password_object-request"@),
{
    match pw {
        Ok(p) => (KeyStage::SendingStart, p, HandshakeAction::Send(flag("start"))),
        Err(_) => (
            KeyStage::Failed,
            Vec::new(),
            HandshakeAction::Fail(Error::chain("failed-validate_key", Error::new("failed-decrypt-password-password_object-request"))),
        ),
    }
}

/// The action that fails the handshake for `reason`.
fn fail(reason: &str) -> (a: HandshakeAction)
    ensures
        fails_for(a, reason@),
{
    HandshakeAction::Fail(Error::chain("failed-validate_key", Error::new(reason)))
}

impl KeyHandshake {
    /// A new handshake, and its first action: asking to connect with the key protocol.
    pub fn new() -> (r: (KeyHandshake, HandshakeAction))
        ensures
            r.0.stage == KeyStage::SendingConnect,
            r.0.password@.len() == 0,
            r.1 matches HandshakeAction::Send(d) && connect_doc(d),
    {
        let d = Doc {
            fields: vec![("connect".to_owned(), Field::Bool(true)), ("protocol".to_owned(), Field::Str("key".to_owned()))],
        };
        (KeyHandshake { stage: KeyStage::SendingConnect, password: Vec::new() }, HandshakeAction::Send(d))
    }

    /// One step: takes what the connection reports and says what to do next, signing
    /// the server's challenge and decrypting the channel's password with `private`.
    pub fn step(&mut self, event: HandshakeEvent, private: &PKey<Private>) -> (a: HandshakeAction)
        requires
            answers(old(self).stage, event),
        ensures
            step_done(*old(self), event, *private, *final(self), a),
    {
        match event {
            HandshakeEvent::Sent => {
                self.stage = match self.stage {
                    KeyStage::SendingConnect => KeyStage::ReadingConfirm,
                    KeyStage::SendingChallengeRequest => KeyStage::ReadingChallenge,
                    KeyStage::SendingSignature => KeyStage::ReadingPassword,
                    _ => KeyStage::ReadingReady,
                };
                HandshakeAction::Read
            },
            HandshakeEvent::SendFailed(er) => {
                let reason = match self.stage {
                    KeyStage::SendingSignature => "failed-send_signature",
                    KeyStage::SendingStart => "failed-send_start",
                    _ => "failed-send_protocol_message",
                };
                self.stage = KeyStage::Failed;
                HandshakeAction::Fail(Error::chain("failed-validate_key", Error::chain(reason, er)))
            },
            HandshakeEvent::ReadFailed => {
                let reason = match self.stage {
                    KeyStage::ReadingConfirm => "failed-read-confirmation-request",
                    KeyStage::ReadingChallenge => "failed-read-challenge-request",
                    KeyStage::ReadingPassword => "failed-read-password_object-request",
                    _ => "failed-read-ready_object-request",
                };
                self.stage = KeyStage::Failed;
                fail(reason)
            },
            HandshakeEvent::Received(d) => match self.stage {
                KeyStage::ReadingConfirm => match d.get("connect") {
                    Some(Field::Bool(true)) => {
                        self.stage = KeyStage::SendingChallengeRequest;
                        HandshakeAction::Send(flag("get_challenge"))
                    },
                    Some(Field::Bool(false)) => {
                        self.stage = KeyStage::Failed;
                        fail("failed-denied-confirmation-request")
                    },
                    _ => {
                        self.stage = KeyStage::Failed;
                        fail("failed-validate-confirmation-request")
                    },
                },
                KeyStage::ReadingChallenge => match d.get("challenge") {
                    Some(Field::Str(c)) => {
                        let bytes = vstd::slice::slice_to_vec(c.as_str().as_bytes());
                        let (stage, a) = signature_step(sign(bytes, private));
                        self.stage = stage;
                        a
                    },
                    _ => {
                        self.stage = KeyStage::Failed;
                        fail("failed-validate-challenge-request")
                    },
                },
                KeyStage::ReadingPassword => match d.get("password") {
                    Some(Field::Binary(p)) => {
                        let sealed = p.clone();
                        assert(sealed@ =~= p@);
                        let (stage, pw, a) = password_step(rsa::decrypt(sealed, private));
                        self.stage = stage;
                        self.password = pw;
                        a
                    },
                    _ => {
                        self.stage = KeyStage::Failed;
                        fail("failed-validate-password_object-request")
                    },
                },
                _ => match d.get("ready") {
                    Some(Field::Bool(true)) => {
                        self.stage = KeyStage::Done;
                        let mut p = Vec::new();
                        std::mem::swap(&mut p, &mut self.password);
                        HandshakeAction::Finish(p)
                    },
                    Some(Field::Bool(false)) => {
                        self.stage = KeyStage::Failed;
                        fail("server_not_ready-ready_object-request")
                    },
                    _ => {
                        self.stage = KeyStage::Failed;
                        fail("failed-validate-ready_object-request")
                    },
                },
            },
        }
    }
}

/// The reasons loading a key from PEM text gives: openssl finds no key, or cannot wrap
/// the one it found.
pub open spec fn pem_failure(s: Seq<char>) -> bool {
    exists|detail: Seq<char>| s == "failed-load_key=>"@ + detail || s == "failed-parse_pkey=>"@ + detail
}

impl AuthToken {
    /// The token of the session `id` with the password `password`.
    pub fn session(id: String, password: String) -> (t: AuthToken)
        ensures
            t matches AuthToken::Session(s) && s.id == id && s.password == password,
    {
        AuthToken::Session(SessionAuth { id, password })
    }

    /// The token of the key pair whose PEM texts are `public_pem` and `private_pem`.
    pub fn key(public_pem: Vec<u8>, private_pem: Vec<u8>) -> (r: Result<AuthToken, Error>)
        requires
            public_pem@.len() <= i32::MAX,
            private_pem@.len() <= i32::MAX,
        ensures
            r is Ok ==> (r matches Ok(AuthToken::Key(k)) && plain_rsa_key(k.private)),
            r matches Err(e) ==> exists|inner: Seq<char>|
                pem_failure(inner) && (e.val@ == chained("failed-load_public_key"@, inner) || e.val@ == chained(
                    "failed-load_private_key"@,
                    inner,
                )),
            !rsa_public_pem_holds_key(public_pem@) ==> (r matches Err(e) && exists|detail: Seq<char>|
                e.val@ == chained("failed-load_public_key"@, "failed-load_key=>"@ + detail)),
    {
        let public = match public_key_from_pem(public_pem) {
            Ok(v) => v,
            Err(e) => {
                let ghost inner = e.val@;
                let r = Error::chain("failed-load_public_key", e);
                assert(pem_failure(inner) && r.val@ == chained("failed-load_public_key"@, inner));
                proof {
                    if !rsa_public_pem_holds_key(public_pem@) {
                        let detail = choose|detail: Seq<char>| inner == "failed-load_key=>"@ + detail;
                        assert(r.val@ == chained("failed-load_public_key"@, "failed-load_key=>"@ + detail));
                    }
                }
                return Err(r);
            },
        };
        let private = match private_key_from_pem(private_pem) {
            Ok(v) => v,
            Err(e) => {
                let ghost inner = e.val@;
                let r = Error::chain("failed-load_private_key", e);
                assert(pem_failure(inner) && r.val@ == chained("failed-load_private_key"@, inner));
                return Err(r);
            },
        };
        Ok(AuthToken::Key(KeyAuth { public, private }))
    }

    /// Starts proving who the client is on a new connection: a key token starts the key
    /// handshake; a session token is refused, as sessions are not served.
    pub fn validate(&self) -> (r: Result<(KeyHandshake, HandshakeAction), Error>)
        ensures
            self is Key <==> r is Ok,
            r matches Ok((h, a)) ==> h.stage == KeyStage::SendingConnect && h.password@.len() == 0 && (a matches HandshakeAction::Send(d)
                && connect_doc(d)),
            r matches Err(e) ==> e.val@ == chained("failed-validate_session"@, "no_error"@),
    {
        match self {
            AuthToken::Session(_) => Err(Error::chain("failed-validate_session", Error::new("no_error"))),
            AuthToken::Key(_) => Ok(KeyHandshake::new()),
        }
    }
}

/// What a client connects with: its token, the server's address and how many
/// channels it opens.
pub struct ClientConfig {
    pub channels: u32,
    pub addr: String,
    pub auth_token: AuthToken,
}

impl ClientConfig {
    /// The configuration of `channels` channels to `addr`, proven by `auth`.
    pub fn new(auth: AuthToken, addr: String, channels: u32) -> (c: ClientConfig)
        ensures
            c.channels == channels,
            c.addr == addr,
            c.auth_token == auth,
    {
        ClientConfig { channels, addr, auth_token: auth }
    }
}

/// A key of the server, or none.
#[allow(non_camel_case_types)]
pub enum RsaKey {
    public(PKey<Public>),
    private(PKey<Private>),
    none,
}

/// What the server listens with: its port and its key pair.
pub struct ServerConfig {
    pub socket: i32,
    pub public_key: RsaKey,
    pub private_key: RsaKey,
}

impl ServerConfig {
    /// The configuration on port 1200 with no keys.
    pub fn empty() -> (c: ServerConfig)
        ensures
            c.socket == 1200,
            c.public_key is none,
            c.private_key is none,
    {
        ServerConfig { socket: 1200, public_key: RsaKey::none, private_key: RsaKey::none }
    }

    /// The configuration on `port` with the key pair whose PEM texts are `private_pem`
    /// and `public_pem`.
    pub fn new(port: i32, private_pem: Vec<u8>, public_pem: Vec<u8>) -> (r: Result<ServerConfig, Error>)
        requires
            public_pem@.len() <= i32::MAX,
            private_pem@.len() <= i32::MAX,
        ensures
            r matches Ok(c) ==> c.socket == port && c.public_key is public && (c.private_key matches RsaKey::private(k)
                && plain_rsa_key(k)),
            r matches Err(e) ==> exists|inner: Seq<char>|
                pem_failure(inner) && (e.val@ == chained("failed-load_public_key"@, inner) || e.val@ == chained(
                    "failed-load_private_key"@,
                    inner,
                )),
            !rsa_public_pem_holds_key(public_pem@) ==> (r matches Err(e) && exists|detail: Seq<char>|
                e.val@ == chained("failed-load_public_key"@, "failed-load_key=>"@ + detail)),
    {
        let public = match public_key_from_pem(public_pem) {
            Ok(v) => v,
            Err(e) => {
                let ghost inner = e.val@;
                let r = Error::chain("failed-load_public_key", e);
                assert(pem_failure(inner) && r.val@ == chained("failed-load_public_key"@, inner));
                proof {
                    if !rsa_public_pem_holds_key(public_pem@) {
                        let detail = choose|detail: Seq<char>| inner == "failed-load_key=>"@ + detail;
                        assert(r.val@ == chained("failed-load_public_key"@, "failed-load_key=>"@ + detail));
                    }
                }
                return Err(r);
            },
        };
        let private = match private_key_from_pem(private_pem) {
            Ok(v) => v,
            Err(e) => {
                let ghost inner = e.val@;
                let r = Error::chain("failed-load_private_key", e);
                assert(pem_failure(inner) && r.val@ == chained("failed-load_private_key"@, inner));
                return Err(r);
            },
        };
        Ok(ServerConfig { socket: port, public_key: RsaKey::public(public), private_key: RsaKey::private(private) })
    }
}

/// The protocol a client asks for when it connects.
#[derive(Debug, PartialEq, Eq, Structural)]
pub enum Protocol {
    Key,
    Session,
    Unknown,
}

/// The protocol that the first document of a connection asks for: `None` unless it
/// holds the boolean `connect` and the string `protocol`.
pub fn accept_protocol(d: &Doc) -> (r: Option<Protocol>)
    ensures
        match (field_of(*d, "connect"@), field_of(*d, "protocol"@)) {
            (Some(Field::Bool(_)), Some(Field::Str(p))) => r == Some(
                if p@ == "key"@ {
                    Protocol::Key
                } else if p@ == "session"@ {
                    Protocol::Session
                } else {
                    Protocol::Unknown
                },
            ),
            _ => r is None,
        },
{
    match d.get("connect") {
        Some(Field::Bool(_)) => {},
        _ => {
            return None;
        },
    }
    match d.get("protocol") {
        Some(Field::Str(p)) => {
            let key = "key".to_owned();
            let session = "session".to_owned();
            if *p == key {
                Some(Protocol::Key)
            } else if *p == session {
                Some(Protocol::Session)
            } else {
                Some(Protocol::Unknown)
            }
        },
        _ => None,
    }
}

/// Where the server's side of the key handshake stands.
#[derive(Debug, PartialEq, Eq, Structural)]
pub enum ServerStage {
    SendingConnect,
    ReadingChallengeRequest,
    SendingChallenge,
    ReadingSignature,
    SendingPassword,
    ReadingStart,
    Done,
    Failed,
}

/// The server's side of the key handshake: where it stands, the challenge it sent,
/// and the channel's password it offered.
pub struct ServerKeyHandshake {
    pub stage: ServerStage,
    pub challenge: String,
    pub password: Vec<u8>,
}

/// The stages of the server that wait for a document to be sent.
pub open spec fn server_sending(s: ServerStage) -> bool {
    ||| s == ServerStage::SendingConnect
    ||| s == ServerStage::SendingChallenge
    ||| s == ServerStage::SendingPassword
}

/// The stages of the server that wait for a document to be read.
pub open spec fn server_reading(s: ServerStage) -> bool {
    ||| s == ServerStage::ReadingChallengeRequest
    ||| s == ServerStage::ReadingSignature
    ||| s == ServerStage::ReadingStart
}

/// `e` answers what the server's stage `s` waits for.
pub open spec fn server_answers(s: ServerStage, e: HandshakeEvent) -> bool {
    ||| server_sending(s) && (e is Sent || e is SendFailed)
    ||| server_reading(s) && (e is Received || e is ReadFailed)
}

/// The reason the server gives when sending fails at `s`.
pub open spec fn server_send_reason(s: ServerStage) -> Seq<char> {
    if s == ServerStage::SendingConnect {
        "failed-request-connect"@
    } else if s == ServerStage::SendingChallenge {
        "failed-request-challenge"@
    } else {
        "failed-request-password"@
    }
}

/// The reason the server gives when nothing can be read at `s`.
pub open spec fn server_read_reason(s: ServerStage) -> Seq<char> {
    if s == ServerStage::ReadingChallengeRequest {
        "failed-request-send_challenge"@
    } else if s == ServerStage::ReadingSignature {
        "failed-request-signature"@
    } else {
        "failed-request-start"@
    }
}

/// The stage of the server that reads the answer to what `s` sent.
pub open spec fn server_reading_after(s: ServerStage) -> ServerStage {
    if s == ServerStage::SendingConnect {
        ServerStage::ReadingChallengeRequest
    } else if s == ServerStage::SendingChallenge {
        ServerStage::ReadingSignature
    } else {
        ServerStage::ReadingStart
    }
}

/// `d` holds just the string field `challenge`, set to `c`.
pub open spec fn challenge_doc(d: Doc, c: Seq<char>) -> bool {
    d.fields@.len() == 1 && d.fields@[0].0@ == "challenge"@ && (d.fields@[0].1 matches Field::Str(x) && x@ == c)
}

/// `d` holds just the binary field `password`, set to `p`.
pub open spec fn password_doc(d: Doc, p: Seq<u8>) -> bool {
    d.fields@.len() == 1 && d.fields@[0].0@ == "password"@ && (d.fields@[0].1 matches Field::Binary(x) && x@ == p)
}

/// `c` is a fresh challenge: seven ASCII letters and digits.
pub open spec fn challenge_ok(c: Seq<char>) -> bool {
    c.len() == 7 && forall|i: int| 0 <= i < 7 ==> is_alphanumeric(#[trigger] c[i])
}

/// What one step of the server's handshake does: from `h` on the event `e`, to `h2`,
/// asking `a`, with the public key `public` that signatures are checked against: the
/// password is offered only to
/// a signature of the challenge that `public` checks. The challenge and the password
/// are drawn at random and the password's encryption is randomly padded; of those only
/// what holds of every outcome is stated: the password sent is a PKCS#1 encryption,
/// under `public`, of the password kept.
pub open spec fn server_step_done(h: ServerKeyHandshake, e: HandshakeEvent, public: RsaKey, h2: ServerKeyHandshake, a: HandshakeAction) -> bool {
    let s = h.stage;
    match e {
        HandshakeEvent::Sent => h2.stage == server_reading_after(s) && a is Read && h2.challenge == h.challenge
            && h2.password == h.password,
        HandshakeEvent::SendFailed(_) => h2.stage == ServerStage::Failed && fails_for(a, server_send_reason(s)),
        HandshakeEvent::ReadFailed => h2.stage == ServerStage::Failed && fails_for(a, server_read_reason(s)),
        HandshakeEvent::Received(d) => if s == ServerStage::ReadingChallengeRequest {
            if field_of(d, "get_challenge"@) == Some(Field::Bool(true)) {
                h2.stage == ServerStage::SendingChallenge && challenge_ok(h2.challenge@) && (a matches HandshakeAction::Send(m)
                    && challenge_doc(m, h2.challenge@))
            } else {
                h2.stage == ServerStage::Failed && fails_for(a, "failed-request-send_challenge"@)
            }
        } else if s == ServerStage::ReadingSignature {
            match field_of(d, "signature"@) {
                Some(Field::Binary(sig)) => if let RsaKey::public(key) = public {
                    if rsa_sha256_verified(key, encode_utf8(h.challenge@), sig@) == Some(true) {
                        ||| h2.stage == ServerStage::SendingPassword && h2.password@.len() == 32 && h2.challenge == h.challenge
                            && (a matches HandshakeAction::Send(m) && exists|sealed: Seq<u8>| password_doc(m, sealed)
                            && rsa_pkcs1_sealed(key, h2.password@, sealed))
                        ||| h2.stage == ServerStage::Failed && fails_for(a, "failed-encypt-password"@)
                    } else {
                        h2.stage == ServerStage::Failed && fails_for(a, "failed-verify-sig"@)
                    }
                } else {
                    h2.stage == ServerStage::Failed && fails_for(a, "failed-extract-public_key"@)
                },
                _ => h2.stage == ServerStage::Failed && fails_for(a, "failed-validate-signature"@),
            }
        } else {
            match field_of(d, "start"@) {
                Some(Field::Bool(true)) => h2.stage == ServerStage::Done && (a matches HandshakeAction::Finish(p) && p@
                    == h.password@),
                Some(Field::Bool(false)) => h2.stage == ServerStage::Failed && fails_for(a, "failed-denied-start"@),
                _ => h2.stage == ServerStage::Failed && fails_for(a, "failed-validate-start"@),
            }
        },
    }
}

/// The server's handshake once the challenge `challenge` is drawn: it sends it.
pub fn challenge_step(challenge: String) -> (r: (ServerStage, String, HandshakeAction))
    ensures
        r.0 == ServerStage::SendingChallenge,
        r.1 == challenge,
        r.2 matches HandshakeAction::Send(m) && challenge_doc(m, challenge@),
{
    let copy = challenge.clone();
    (ServerStage::SendingChallenge, challenge, HandshakeAction::Send(Doc { fields: vec![("challenge".to_owned(), Field::Str(copy))] }))
}

/// The server's handshake once the password `password` has been encrypted for the
/// client (`sealed`): it offers the password, or fails when encryption failed.
pub fn offer_step(password: Vec<u8>, sealed: Result<Vec<u8>, Error>) -> (r: (ServerStage, Vec<u8>, HandshakeAction))
    ensures
        r.1@ == password@,
        sealed is Err ==> r.0 == ServerStage::Failed && fails_for(r.2, "failed-encypt-password"@),
        sealed matches Ok(c) ==> r.0 == ServerStage::SendingPassword && (r.2 matches HandshakeAction::Send(m)
            && password_doc(m, c@)),
{
    match sealed {
        Ok(c) => (
            ServerStage::SendingPassword,
            password,
            HandshakeAction::Send(Doc { fields: vec![("password".to_owned(), Field::Binary(c))] }),
        ),
        Err(_) => (ServerStage::Failed, password, fail("failed-encypt-password")),
    }
}

impl ServerKeyHandshake {
    /// A new handshake of the server, and its first action: confirming the connection.
    pub fn new() -> (r: (ServerKeyHandshake, HandshakeAction))
        ensures
            r.0.stage == ServerStage::SendingConnect,
            r.0.password@.len() == 0,
            r.1 matches HandshakeAction::Send(d) && flag_doc(d, "connect"@),
    {
        (ServerKeyHandshake { stage: ServerStage::SendingConnect, challenge: String::new(), password: Vec::new() }, HandshakeAction::Send(flag("connect")))
    }

    /// One step: takes what the connection reports and says what to do next, checking
    /// the client's signature and encrypting the password with `public`.
    pub fn step(&mut self, event: HandshakeEvent, public: &RsaKey) -> (a: HandshakeAction)
        requires
            server_answers(old(self).stage, event),
        ensures
            server_step_done(*old(self), event, *public, *final(self), a),
    {
        match event {
            HandshakeEvent::Sent => {
                self.stage = match self.stage {
                    ServerStage::SendingConnect => ServerStage::ReadingChallengeRequest,
                    ServerStage::SendingChallenge => ServerStage::ReadingSignature,
                    _ => ServerStage::ReadingStart,
                };
                HandshakeAction::Read
            },
            HandshakeEvent::SendFailed(_) => {
                let reason = match self.stage {
                    ServerStage::SendingConnect => "failed-request-connect",
                    ServerStage::SendingChallenge => "failed-request-challenge",
                    _ => "failed-request-password",
                };
                self.stage = ServerStage::Failed;
                fail(reason)
            },
            HandshakeEvent::ReadFailed => {
                let reason = match self.stage {
                    ServerStage::ReadingChallengeRequest => "failed-request-send_challenge",
                    ServerStage::ReadingSignature => "failed-request-signature",
                    _ => "failed-request-start",
                };
                self.stage = ServerStage::Failed;
                fail(reason)
            },
            HandshakeEvent::Received(d) => match self.stage {
                ServerStage::ReadingChallengeRequest => match d.get("get_challenge") {
                    Some(Field::Bool(true)) => {
                        let (stage, challenge, a) = challenge_step(random_id(7));
                        self.stage = stage;
                        self.challenge = challenge;
                        a
                    },
                    _ => {
                        self.stage = ServerStage::Failed;
                        fail("failed-request-send_challenge")
                    },
                },
                ServerStage::ReadingSignature => match d.get("signature") {
                    Some(Field::Binary(sig)) => match public {
                        RsaKey::public(key) => {
                            let bytes = vstd::slice::slice_to_vec(self.challenge.as_str().as_bytes());
                            if verify(bytes, key, sig.clone()).is_err() {
                                self.stage = ServerStage::Failed;
                                return fail("failed-verify-sig");
                            }
                            let password = random_bytes(32);
                            let copy = password.clone();
                            assert(copy@ =~= password@);
                            let sealed = rsa::encrypt(copy, key);
                            let (stage, password, a) = offer_step(password, sealed);
                            self.stage = stage;
                            self.password = password;
                            a
                        },
                        _ => {
                            self.stage = ServerStage::Failed;
                            fail("failed-extract-public_key")
                        },
                    },
                    _ => {
                        self.stage = ServerStage::Failed;
                        fail("failed-validate-signature")
                    },
                },
                _ => match d.get("start") {
                    Some(Field::Bool(true)) => {
                        self.stage = ServerStage::Done;
                        let mut p = Vec::new();
                        std::mem::swap(&mut p, &mut self.password);
                        HandshakeAction::Finish(p)
                    },
                    Some(Field::Bool(false)) => {
                        self.stage = ServerStage::Failed;
                        fail("failed-denied-start")
                    },
                    _ => {
                        self.stage = ServerStage::Failed;
                        fail("failed-validate-start")
                    },
                },
            },
        }
    }
}

/// How far the client's handshake has come.
pub open spec fn stage_rank(s: KeyStage) -> int {
    match s {
        KeyStage::SendingConnect => 0,
        KeyStage::ReadingConfirm => 1,
        KeyStage::SendingChallengeRequest => 2,
        KeyStage::ReadingChallenge => 3,
        KeyStage::SendingSignature => 4,
        KeyStage::ReadingPassword => 5,
        KeyStage::SendingStart => 6,
        KeyStage::ReadingReady => 7,
        KeyStage::Done => 8,
        KeyStage::Failed => 8,
    }
}

/// Every step of the client's handshake moves it forward, so that it ends within
/// eight steps; it finishes exactly when it is done, fails exactly when it has failed,
/// and otherwise waits for the answer to what it asks.
pub proof fn lemma_handshake_advances(h: KeyHandshake, e: HandshakeEvent, private: PKey<Private>, h2: KeyHandshake, a: HandshakeAction)
    requires
        answers(h.stage, e),
        step_done(h, e, private, h2, a),
    ensures
        stage_rank(h2.stage) > stage_rank(h.stage),
        a is Finish <==> h2.stage == KeyStage::Done,
        a is Fail <==> h2.stage == KeyStage::Failed,
        a is Send ==> is_sending(h2.stage),
        a is Read ==> is_reading(h2.stage),
{
}

/// How far the server's handshake has come.
pub open spec fn server_stage_rank(s: ServerStage) -> int {
    match s {
        ServerStage::SendingConnect => 0,
        ServerStage::ReadingChallengeRequest => 1,
        ServerStage::SendingChallenge => 2,
        ServerStage::ReadingSignature => 3,
        ServerStage::SendingPassword => 4,
        ServerStage::ReadingStart => 5,
        ServerStage::Done => 6,
        ServerStage::Failed => 6,
    }
}

/// Every step of the server's handshake moves it forward, so that it ends within six
/// steps; it finishes exactly when it is done, fails exactly when it has failed, and
/// otherwise waits for the answer to what it asks.
pub proof fn lemma_server_handshake_advances(
    h: ServerKeyHandshake,
    e: HandshakeEvent,
    public: RsaKey,
    h2: ServerKeyHandshake,
    a: HandshakeAction,
)
    requires
        server_answers(h.stage, e),
        server_step_done(h, e, public, h2, a),
    ensures
        server_stage_rank(h2.stage) > server_stage_rank(h.stage),
        a is Finish <==> h2.stage == ServerStage::Done,
        a is Fail <==> h2.stage == ServerStage::Failed,
        a is Send ==> server_sending(h2.stage),
        a is Read ==> server_reading(h2.stage),
{
}

/// Each message one side of the key handshake sends is read by the other side as the
/// answer it waits for: the connect request as the key protocol, each flag as set, the
/// challenge, the signature and the password as sent.
pub proof fn lemma_handshake_messages_read(d: Doc, name: Seq<char>, c: Seq<char>, b: Seq<u8>)
    ensures
        connect_doc(d) ==> field_of(d, "connect"@) == Some(Field::Bool(true)) && (field_of(d, "protocol"@) matches Some(
            Field::Str(p),
        ) && p@ == "key"@),
        flag_doc(d, name) ==> field_of(d, name) == Some(Field::Bool(true)),
        challenge_doc(d, c) ==> (field_of(d, "challenge"@) matches Some(Field::Str(x)) && x@ == c),
        signature_doc(d, b) ==> (field_of(d, "signature"@) matches Some(Field::Binary(x)) && x@ == b),
        password_doc(d, b) ==> (field_of(d, "password"@) matches Some(Field::Binary(x)) && x@ == b),
{
    if connect_doc(d) {
        reveal_strlit("connect");
        reveal_strlit("protocol");
        assert("connect"@.len() != "protocol"@.len());
        lemma_field_at(d, 0, "connect"@);
        lemma_field_at(d, 1, "protocol"@);
    }
    if d.fields@.len() > 0 {
        lemma_field_at(d, 0, d.fields@[0].0@);
    }
}

} // verus!
