use vstd::prelude::*;
use crate::error::{Error, chained};
use crate::doc::{Doc, Field, field_of, lemma_take_keeps, lemma_field_at};
use rand::distributions::Alphanumeric;
use rand::Rng;
use crate::crypt::aes::{Encrypted, encrypt, sealed_doc, lemma_sealed_loads, aes_cbc_encrypted, aes_cbc_decrypted, aes_opened, cbc_len};

verus! {

/// A request on a channel: the channel, the request's id and its body.
#[derive(Debug, PartialEq)]
pub struct Request {
    pub channel_id: String,
    pub request_id: String,
    pub body: Doc,
}

/// What a response says. An encrypted response holds the encoding of its body
/// document, which travels encrypted; encoding documents is not part of this library.
#[derive(Debug, PartialEq)]
pub enum ResponseType {
    Done,
    Data(Doc),
    Error(String),
    Down,
    Encrypted(Vec<u8>),
}

/// The response to the request `request_id` of the channel `channel_id`.
#[derive(Debug, PartialEq)]
pub struct Response {
    pub channel_id: String,
    pub request_id: String,
    pub data: ResponseType,
}

/// The number by which a response's kind travels.
pub open spec fn response_code(t: ResponseType) -> i32 {
    match t {
        ResponseType::Done => 0,
        ResponseType::Data(_) => 1,
        ResponseType::Error(_) => 2,
        ResponseType::Down => 3,
        ResponseType::Encrypted(_) => 4,
    }
}

/// `s` is the document of `plain` encrypted under `key` with a sixteen-byte iv: under a
/// 32-byte key, the named cipher bytes, a whole number of blocks that decrypts back.
pub open spec fn sealed_under(s: Doc, key: Seq<u8>, plain: Seq<u8>) -> bool {
    &&& s.fields@.len() == 2
    &&& s.fields@[0].1 matches Field::Binary(iv) && s.fields@[1].1 matches Field::Binary(c) && sealed_doc(s, iv@, c@)
        && iv@.len() == 16 && (key.len() == 32 ==> aes_cbc_encrypted(key, iv@, plain) == Some(c@) && c@.len()
        == cbc_len(plain.len()) && aes_cbc_decrypted(key, iv@, c@) == Some(plain))
}

/// `b` is the body that carries `data`, an encrypted one sealed under `key`.
pub open spec fn body_carries(b: Field, data: ResponseType, key: Seq<u8>) -> bool {
    b matches Field::Object(o) && match data {
        ResponseType::Done => o.fields@.len() == 0,
        ResponseType::Down => o.fields@.len() == 0,
        ResponseType::Data(v) => o.fields@.len() == 1 && o.fields@[0].0@ == "data"@ && o.fields@[0].1
            == Field::Object(v),
        ResponseType::Error(e) => o.fields@.len() == 1 && o.fields@[0].0@ == "error"@ && o.fields@[0].1
            == Field::Str(e),
        ResponseType::Encrypted(p) => o.fields@.len() == 1 && o.fields@[0].0@ == "encrypted"@
            && (o.fields@[0].1 matches Field::Object(s) && sealed_under(s, key, p@)),
    }
}

/// `d` is the document of the response `resp`: its id, the number of its kind, and
/// the body that carries it.
pub open spec fn response_doc(d: Doc, resp: Response, key: Seq<u8>) -> bool {
    &&& d.fields@.len() == 3
    &&& d.fields@[0].0@ == "id"@
    &&& d.fields@[0].1 == Field::Str(resp.request_id)
    &&& d.fields@[1].0@ == "response_type"@
    &&& d.fields@[1].1 == Field::I32(response_code(resp.data))
    &&& d.fields@[2].0@ == "body"@
    &&& body_carries(d.fields@[2].1, resp.data, key)
}

/// `r` failed with the reason `s`.
pub open spec fn fails_with<T>(r: Result<T, Error>, s: Seq<char>) -> bool {
    r matches Err(e) && e.val@ == s
}

/// `r` is the response `id` saying `data`, on no channel.
pub open spec fn reads_as(r: Result<Response, Error>, id: String, data: ResponseType) -> bool {
    r matches Ok(x) && x.channel_id@ == Seq::<char>::empty() && x.request_id == id && x.data == data
}

/// The reason given when an encrypted body does not decrypt.
pub open spec fn unlock_failure() -> Seq<char> {
    chained("failed-unlock_first_g_object"@, chained("failed-unlock_g_object"@, "failed-decrypt"@))
}

/// `out` is what unlocking the cipher bytes `c` under `key` and `iv` may give: nothing
/// when the lengths are beyond what openssl takes, else what decryption may give.
pub open spec fn unlock_result(key: Seq<u8>, iv: Seq<u8>, c: Seq<u8>, out: Option<Seq<u8>>) -> bool {
    if iv.len() > i32::MAX || c.len() + 32 > i32::MAX {
        out is None
    } else {
        aes_opened(key, iv, c, out)
    }
}

/// What reading the body `body` of a response of kind number `n` and id `id` gives.
pub open spec fn body_read(n: i32, id: String, body: Doc, key: Seq<u8>, r: Result<Response, Error>) -> bool {
    if n == 0 {
        reads_as(r, id, ResponseType::Done)
    } else if n == 1 {
        match field_of(body, "data"@) {
            Some(Field::Object(v)) => reads_as(r, id, ResponseType::Data(v)),
            _ => fails_with(r, "invalid-body-data"@),
        }
    } else if n == 2 {
        match field_of(body, "error"@) {
            Some(Field::Str(e)) => reads_as(r, id, ResponseType::Error(e)),
            _ => fails_with(r, "invalid-body-data"@),
        }
    } else if n == 3 {
        reads_as(r, id, ResponseType::Down)
    } else if n == 4 {
        match field_of(body, "encrypted"@) {
            Some(Field::Object(s)) => match (field_of(s, "iv"@), field_of(s, "cipher"@)) {
                (Some(Field::Binary(iv)), Some(Field::Binary(c))) => {
                    ||| r matches Ok(x) && x.channel_id@ == Seq::<char>::empty() && x.request_id == id
                        && (x.data matches ResponseType::Encrypted(p) && unlock_result(key, iv@, c@, Some(p@)))
                    ||| fails_with(r, unlock_failure()) && unlock_result(key, iv@, c@, None)
                },
                _ => fails_with(r, chained("failed-load_from_g_object"@, "invalid-schema"@)),
            },
            _ => fails_with(r, "invalid-body-encrypted-data"@),
        }
    } else {
        fails_with(r, "failed-invalid-response_type"@)
    }
}

/// What reading the response document `obj` with the channel password `key` gives.
pub open spec fn response_read(obj: Doc, key: Seq<u8>, r: Result<Response, Error>) -> bool {
    match field_of(obj, "response_type"@) {
        Some(Field::I32(n)) => match field_of(obj, "id"@) {
            Some(Field::Str(id)) => match field_of(obj, "body"@) {
                Some(Field::Object(body)) => body_read(n, id, body, key, r),
                _ => fails_with(r, "failed-extract-data"@),
            },
            _ => fails_with(r, "failed-extract-id"@),
        },
        _ => fails_with(r, "failed-extract-response_type"@),
    }
}

impl Response {
    /// The response "done" to `req`.
    pub fn ok(req: &Request) -> (r: Response)
        ensures
            r.channel_id == req.channel_id,
            r.request_id == req.request_id,
            r.data == ResponseType::Done,
    {
        Response { channel_id: req.channel_id.clone(), request_id: req.request_id.clone(), data: ResponseType::Done }
    }

    /// The response to `req` carrying the document `d`.
    pub fn data(req: &Request, d: Doc) -> (r: Response)
        ensures
            r.channel_id == req.channel_id,
            r.request_id == req.request_id,
            r.data == ResponseType::Data(d),
    {
        Response { channel_id: req.channel_id.clone(), request_id: req.request_id.clone(), data: ResponseType::Data(d) }
    }

    /// The response to `req` reporting the error `e`.
    pub fn error(req: &Request, e: String) -> (r: Response)
        ensures
            r.channel_id == req.channel_id,
            r.request_id == req.request_id,
            r.data == ResponseType::Error(e),
    {
        Response { channel_id: req.channel_id.clone(), request_id: req.request_id.clone(), data: ResponseType::Error(e) }
    }

    /// The response to `req` saying that the service is down.
    pub fn down(req: &Request) -> (r: Response)
        ensures
            r.channel_id == req.channel_id,
            r.request_id == req.request_id,
            r.data == ResponseType::Down,
    {
        Response { channel_id: req.channel_id.clone(), request_id: req.request_id.clone(), data: ResponseType::Down }
    }

    /// The response to `req` carrying the document whose encoding is `d`, to travel
    /// encrypted.
    pub fn encrypted(req: &Request, d: Vec<u8>) -> (r: Response)
        ensures
            r.channel_id == req.channel_id,
            r.request_id == req.request_id,
            r.data == ResponseType::Encrypted(d),
    {
        Response { channel_id: req.channel_id.clone(), request_id: req.request_id.clone(), data: ResponseType::Encrypted(d) }
    }

    /// The document that sends this response: its id, the number of its kind, and a
    /// body carrying what it says, an encrypted one sealed under `password` with a
    /// fresh iv. Fails only where encryption does.
    pub fn parse(self, password: &Vec<u8>) -> (r: Result<Doc, Error>)
        requires
            self.data matches ResponseType::Encrypted(p) ==> password@.len() <= i32::MAX && p@.len() + 32
                <= i32::MAX,
        ensures
            r matches Ok(d) ==> response_doc(d, self, password@),
            !(self.data is Encrypted) ==> r is Ok,
            password@.len() == 32 ==> r is Ok,
            r matches Err(e) ==> self.data matches ResponseType::Encrypted(p) && (exists|detail: Seq<char>|
                e.val@ == chained("failed-encypt-response"@, "failed-encrypt=>"@ + detail)) && (password@.len() == 32
                ==> exists|iv: Seq<u8>| iv.len() == 16 && aes_cbc_encrypted(password@, iv, p@) is None),
    {
        let Response { channel_id: _, request_id, data } = self;
        let (code, body): (i32, Doc) = match data {
            ResponseType::Done => (0, Doc::new()),
            ResponseType::Data(v) => (1, Doc { fields: vec![("data".to_owned(), Field::Object(v))] }),
            ResponseType::Error(e) => (2, Doc { fields: vec![("error".to_owned(), Field::Str(e))] }),
            ResponseType::Down => (3, Doc::new()),
            ResponseType::Encrypted(p) => match encrypt(password, &p) {
                Ok(e) => (4, Doc { fields: vec![("encrypted".to_owned(), Field::Object(e.g_object()))] }),
                Err(e) => {
                    return Err(Error::chain("failed-encypt-response", e));
                },
            },
        };
        Ok(
            Doc {
                fields: vec![
                    ("id".to_owned(), Field::Str(request_id)),
                    ("response_type".to_owned(), Field::I32(code)),
                    ("body".to_owned(), Field::Object(body)),
                ],
            },
        )
    }
}

/// The names of a response's fields differ.
proof fn lemma_response_names()
    ensures
        "response_type"@ != "id"@,
        "response_type"@ != "body"@,
        "id"@ != "body"@,
{
    reveal_strlit("response_type");
    reveal_strlit("id");
    reveal_strlit("body");
    assert("response_type"@.len() != "id"@.len());
    assert("response_type"@.len() != "body"@.len());
    assert("id"@.len() != "body"@.len());
}

/// Reads the response document `obj` of a channel whose password is `password`: its
/// kind, id and body, and what the body carries; an encrypted body is decrypted to the
/// encoding of the document it holds. The reason of the first check that fails
/// otherwise.
pub fn parse_response(obj: Doc, password: &Vec<u8>) -> (r: Result<Response, Error>)
    requires
        password@.len() <= i32::MAX,
    ensures
        response_read(obj, password@, r),
{
    proof {
        lemma_response_names();
    }
    let mut obj = obj;
    let ghost o0 = obj;
    let response_type: i32 = match obj.take("response_type") {
        Some(Field::I32(v)) => v,
        _ => {
            return Err(Error::new("failed-extract-response_type"));
        },
    };
    let ghost o1 = obj;
    proof {
        lemma_take_keeps(o0, o1, "response_type"@, "id"@);
        lemma_take_keeps(o0, o1, "response_type"@, "body"@);
    }
    let id = match obj.take("id") {
        Some(Field::Str(v)) => v,
        _ => {
            return Err(Error::new("failed-extract-id"));
        },
    };
    let ghost o2 = obj;
    proof {
        lemma_take_keeps(o1, o2, "id"@, "body"@);
    }
    let mut body = match obj.take("body") {
        Some(Field::Object(v)) => v,
        _ => {
            return Err(Error::new("failed-extract-data"));
        },
    };
    if response_type == 0 {
        Ok(Response { channel_id: String::new(), request_id: id, data: ResponseType::Done })
    } else if response_type == 1 {
        match body.take("data") {
            Some(Field::Object(v)) => Ok(Response { channel_id: String::new(), request_id: id, data: ResponseType::Data(v) }),
            _ => Err(Error::new("invalid-body-data")),
        }
    } else if response_type == 2 {
        match body.take("error") {
            Some(Field::Str(e)) => Ok(Response { channel_id: String::new(), request_id: id, data: ResponseType::Error(e) }),
            _ => Err(Error::new("invalid-body-data")),
        }
    } else if response_type == 3 {
        Ok(Response { channel_id: String::new(), request_id: id, data: ResponseType::Down })
    } else if response_type == 4 {
        let sealed = match body.take("encrypted") {
            Some(Field::Object(v)) => v,
            _ => {
                return Err(Error::new("invalid-body-encrypted-data"));
            },
        };
        let e = match Encrypted::load_from_g_object(&sealed) {
            Ok(e) => e,
            Err(er) => {
                return Err(Error::chain("failed-load_from_g_object", er));
            },
        };
        if e.iv.len() > 0x7fff_ffff || e.cipher.len() > 0x7fff_ffdf {
            return Err(Error::chain("failed-unlock_first_g_object", Error::chain("failed-unlock_g_object", Error::new("failed-decrypt"))));
        }
        match e.decrypt(password) {
            Ok(p) => Ok(Response { channel_id: String::new(), request_id: id, data: ResponseType::Encrypted(p) }),
            Err(er) => Err(Error::chain("failed-unlock_first_g_object", Error::chain("failed-unlock_g_object", er))),
        }
    } else {
        Err(Error::new("failed-invalid-response_type"))
    }
}

/// Padding adds at most a block.
proof fn lemma_cbc_len(n: nat)
    ensures
        cbc_len(n) <= n + 16,
{
    assert(16 * (n / 16) <= n) by (nonlinear_arith);
}

/// A response written as a document reads back as itself, on no channel: the same id
/// and the same contents. An encrypted one does so under a 32-byte key, its contents
/// short enough for openssl to take once padded.
pub proof fn lemma_response_reads_back(resp: Response, d: Doc, key: Seq<u8>, r: Result<Response, Error>)
    requires
        response_doc(d, resp, key),
        response_read(d, key, r),
        resp.data matches ResponseType::Encrypted(p) ==> key.len() == 32 && p@.len() + 48 <= i32::MAX,
    ensures
        !(resp.data is Encrypted) ==> reads_as(r, resp.request_id, resp.data),
        resp.data matches ResponseType::Encrypted(p) ==> (r matches Ok(x) && x.request_id == resp.request_id
            && x.channel_id@ == Seq::<char>::empty() && (x.data matches ResponseType::Encrypted(q) && q@ == p@)),
{
    lemma_response_names();
    lemma_field_at(d, 0, "id"@);
    lemma_field_at(d, 1, "response_type"@);
    lemma_field_at(d, 2, "body"@);
    let o = match d.fields@[2].1 {
        Field::Object(o) => o,
        _ => d,
    };
    match resp.data {
        ResponseType::Data(v) => {
            lemma_field_at(o, 0, "data"@);
        },
        ResponseType::Error(e) => {
            lemma_field_at(o, 0, "error"@);
        },
        ResponseType::Encrypted(p) => {
            lemma_field_at(o, 0, "encrypted"@);
            if let Field::Object(sd) = o.fields@[0].1 {
                if let Field::Binary(iv) = sd.fields@[0].1 {
                    if let Field::Binary(c) = sd.fields@[1].1 {
                        lemma_sealed_loads(sd, iv@, c@);
                        lemma_cbc_len(p@.len());
                    }
                }
            }
        },
        _ => {},
    }
}

/// The body of a request to send: a document, or the encoding of a document that is
/// to travel encrypted.
#[derive(Debug, PartialEq)]
pub enum RequestBody {
    Plain(Doc),
    Sealed(Vec<u8>),
}

/// `d` is the document of the request `id` with the body `body`, a sealed one
/// encrypted under `key`.
pub open spec fn request_doc_of(d: Doc, id: String, body: RequestBody, key: Seq<u8>) -> bool {
    &&& d.fields@.len() == 3
    &&& d.fields@[0].0@ == "id"@
    &&& d.fields@[0].1 == Field::Str(id)
    &&& d.fields@[1].0@ == "encrypted"@
    &&& d.fields@[1].1 == Field::Bool(body is Sealed)
    &&& d.fields@[2].0@ == "body"@
    &&& match body {
        RequestBody::Plain(b) => d.fields@[2].1 == Field::Object(b),
        RequestBody::Sealed(p) => d.fields@[2].1 matches Field::Object(s) && sealed_under(s, key, p@),
    }
}

/// The document that sends the request `id` with the body `body`, a sealed body
/// encrypted under `password` with a fresh iv. Fails only where encryption does.
pub fn request_doc(id: String, body: RequestBody, password: &Vec<u8>) -> (r: Result<Doc, Error>)
    requires
        body matches RequestBody::Sealed(p) ==> password@.len() <= i32::MAX && p@.len() + 32 <= i32::MAX,
    ensures
        r matches Ok(d) ==> request_doc_of(d, id, body, password@),
        body is Plain ==> r is Ok,
        password@.len() == 32 ==> r is Ok,
        r matches Err(e) ==> body matches RequestBody::Sealed(p) && (exists|detail: Seq<char>|
            e.val@ == chained("failed-ecnrypt-request"@, "failed-encrypt=>"@ + detail)) && (password@.len() == 32
            ==> exists|iv: Seq<u8>| iv.len() == 16 && aes_cbc_encrypted(password@, iv, p@) is None),
{
    let (sealed, inner) = match body {
        RequestBody::Plain(b) => (false, b),
        RequestBody::Sealed(p) => match encrypt(password, &p) {
            Ok(e) => (true, e.g_object()),
            Err(e) => {
                return Err(Error::chain("failed-ecnrypt-request", e));
            },
        },
    };
    Ok(
        Doc {
            fields: vec![
                ("id".to_owned(), Field::Str(id)),
                ("encrypted".to_owned(), Field::Bool(sealed)),
                ("body".to_owned(), Field::Object(inner)),
            ],
        },
    )
}

/// `c` is an ASCII letter or digit.
pub open spec fn is_alphanumeric(c: char) -> bool {
    ||| 'A' <= c <= 'Z'
    ||| 'a' <= c <= 'z'
    ||| '0' <= c <= '9'
}

/// `n` characters drawn by `rand::thread_rng` from `rand`'s `Alphanumeric`, which
/// samples the ASCII letters and digits; only that is stated of them.
#[verifier::external_body]
pub(crate) fn random_id(n: usize) -> (id: String)
    ensures
        id@.len() == n,
        forall|i: int| 0 <= i < n ==> is_alphanumeric(#[trigger] id@[i]),
{
    rand::thread_rng().sample_iter(&Alphanumeric).take(n).map(char::from).collect()
}

/// A new request: a fresh id of seven random letters and digits, and the document
/// that sends it with the body `body`.
pub fn build_request(body: RequestBody, password: &Vec<u8>) -> (r: Result<(String, Doc), Error>)
    requires
        body matches RequestBody::Sealed(p) ==> password@.len() <= i32::MAX && p@.len() + 32 <= i32::MAX,
    ensures
        r matches Ok((id, d)) ==> id@.len() == 7 && (forall|i: int| 0 <= i < 7 ==> is_alphanumeric(#[trigger] id@[i]))
            && request_doc_of(d, id, body, password@),
        body is Plain ==> r is Ok,
        password@.len() == 32 ==> r is Ok,
        r matches Err(e) ==> body is Sealed && exists|detail: Seq<char>|
            e.val@ == chained("failed-ecnrypt-request"@, "failed-encrypt=>"@ + detail),
{
    let id = random_id(7);
    let copy = id.clone();
    match request_doc(copy, body, password) {
        Ok(d) => Ok((id, d)),
        Err(e) => Err(e),
    }
}

/// What reading the request value `o` on the channel `channel_id` gives.
pub open spec fn request_read(channel_id: String, o: Field, r: Result<Request, Error>) -> bool {
    match o {
        Field::Object(h) => match (field_of(h, "id"@), field_of(h, "body"@)) {
            (Some(Field::Str(id)), Some(Field::Object(b))) => r matches Ok(q) && q.channel_id == channel_id
                && q.request_id == id && q.body == b,
            _ => fails_with(r, "invalid_request-schema"@),
        },
        _ => fails_with(r, "invalid_request"@),
    }
}

/// The request that the value `o` received on the channel `channel_id` holds: a
/// document with the string `id` and the document `body`.
pub fn parse_request_to_struct(channel_id: String, o: Field) -> (r: Result<Request, Error>)
    ensures
        request_read(channel_id, o, r),
{
    let mut hold = match o {
        Field::Object(v) => v,
        _ => {
            return Err(Error::new("invalid_request"));
        },
    };
    let ghost h0 = hold;
    proof {
        lemma_response_names();
    }
    let id = match hold.take("id") {
        Some(Field::Str(v)) => v,
        _ => {
            return Err(Error::new("invalid_request-schema"));
        },
    };
    let ghost h1 = hold;
    proof {
        lemma_take_keeps(h0, h1, "id"@, "body"@);
    }
    let body = match hold.take("body") {
        Some(Field::Object(v)) => v,
        _ => {
            return Err(Error::new("invalid_request-schema"));
        },
    };
    Ok(Request { channel_id, request_id: id, body })
}

/// A plain request written as a document reads back as the same request on the
/// channel that receives it.
pub proof fn lemma_request_reads_back(channel_id: String, id: String, b: Doc, d: Doc, key: Seq<u8>, r: Result<Request, Error>)
    requires
        request_doc_of(d, id, RequestBody::Plain(b), key),
        request_read(channel_id, Field::Object(d), r),
    ensures
        r matches Ok(q) && q.channel_id == channel_id && q.request_id == id && q.body == b,
{
    lemma_response_names();
    reveal_strlit("encrypted");
    reveal_strlit("body");
    assert("encrypted"@.len() != "body"@.len());
    lemma_field_at(d, 0, "id"@);
    lemma_field_at(d, 2, "body"@);
}

/// The server's schema of a request: a string `id`, a boolean `encrypted` and a
/// document `body`.
pub open spec fn request_shaped(h: Doc) -> bool {
    &&& field_of(h, "id"@) matches Some(Field::Str(_))
    &&& field_of(h, "encrypted"@) matches Some(Field::Bool(_))
    &&& field_of(h, "body"@) matches Some(Field::Object(_))
}

/// `out` is what the server keeps of the request value `f` received on a channel whose
/// password is `key` (`None`: dropped). A request of the schema that is not encrypted
/// is kept as it is; an encrypted one whose body holds encrypted data that decrypts is
/// kept as its id, the flag, and the decrypted bytes (the encoding of its body
/// document) as its body; every other value is dropped.
pub open spec fn request_opened(f: Field, key: Seq<u8>, out: Option<Field>) -> bool {
    match f {
        Field::Object(h) => if !request_shaped(h) {
            out is None
        } else if field_of(h, "encrypted"@) == Some(Field::Bool(false)) {
            out == Some(f)
        } else {
            match field_of(h, "body"@) {
                Some(Field::Object(b)) => match (field_of(b, "iv"@), field_of(b, "cipher"@)) {
                    (Some(Field::Binary(iv)), Some(Field::Binary(c))) => {
                        ||| out matches Some(Field::Object(o)) && o.fields@.len() == 3 && o.fields@[0].0@ == "id"@
                            && field_of(h, "id"@) == Some(o.fields@[0].1) && o.fields@[1].0@ == "encrypted"@
                            && o.fields@[1].1 == Field::Bool(true) && o.fields@[2].0@ == "body"@ && (o.fields@[2].1 matches Field::Binary(pl)
                            && unlock_result(key, iv@, c@, Some(pl@)))
                        ||| out is None && unlock_result(key, iv@, c@, None)
                    },
                    _ => out is None,
                },
                _ => out is None,
            }
        },
        _ => out is None,
    }
}

/// `out` is what the server keeps of the received requests `pool` under `key`, taken
/// from the last to the first.
pub open spec fn requests_parsed(pool: Seq<Field>, key: Seq<u8>, out: Seq<Field>) -> bool
    decreases pool.len(),
{
    if pool.len() == 0 {
        out.len() == 0
    } else {
        ||| request_opened(pool.last(), key, None) && requests_parsed(pool.drop_last(), key, out)
        ||| out.len() > 0 && request_opened(pool.last(), key, Some(out[0])) && requests_parsed(
            pool.drop_last(),
            key,
            out.drop_first(),
        )
    }
}

/// Why the server drops the request value `f` received under `key`: it is not a
/// document of the schema, its encrypted body is not encrypted data, or that data does
/// not decrypt.
pub open spec fn request_failure(f: Field, key: Seq<u8>) -> Seq<char> {
    match f {
        Field::Object(h) => if !request_shaped(h) {
            "invalid_schema"@
        } else {
            match field_of(h, "body"@) {
                Some(Field::Object(b)) => match (field_of(b, "iv"@), field_of(b, "cipher"@)) {
                    (Some(Field::Binary(_)), Some(Field::Binary(_))) => "not_found-unlock-encrypted"@,
                    _ => "invalid_schema-item-body"@,
                },
                _ => "invalid_schema-item-body"@,
            }
        },
        _ => "invalid_schema"@,
    }
}

/// The request that the value `request` received on the channel `_id` holds, as the
/// server keeps it under the channel's password `password`: as it is when not
/// encrypted, with its body decrypted when encrypted; why it is dropped otherwise.
pub fn parse_request(_id: &str, request: Field, password: &Vec<u8>) -> (r: Result<Field, Error>)
    requires
        password@.len() <= i32::MAX,
    ensures
        r matches Ok(g) ==> request_opened(request, password@, Some(g)),
        r matches Err(e) ==> request_opened(request, password@, None) && e.val@ == request_failure(request, password@),
{
    let mut h = match request {
        Field::Object(h) => h,
        _ => {
            return Err(Error::new("invalid_schema"));
        },
    };
    let shaped = match (h.get("id"), h.get("encrypted"), h.get("body")) {
        (Some(Field::Str(_)), Some(Field::Bool(_)), Some(Field::Object(_))) => true,
        _ => false,
    };
    if !shaped {
        return Err(Error::new("invalid_schema"));
    }
    let sealed = match h.get("encrypted") {
        Some(Field::Bool(b)) => *b,
        _ => false,
    };
    if !sealed {
        return Ok(Field::Object(h));
    }
    let e = match h.get("body") {
        Some(Field::Object(b)) => match Encrypted::load_from_g_object(b) {
            Ok(e) => e,
            Err(_) => {
                return Err(Error::new("invalid_schema-item-body"));
            },
        },
        _ => {
            return Err(Error::new("invalid_schema-item-body"));
        },
    };
    if e.iv.len() > 0x7fff_ffff || e.cipher.len() > 0x7fff_ffdf {
        return Err(Error::new("not_found-unlock-encrypted"));
    }
    let plain = match e.decrypt(password) {
        Ok(p) => p,
        Err(_) => {
            return Err(Error::new("not_found-unlock-encrypted"));
        },
    };
    let id = match h.take("id") {
        Some(v) => v,
        None => {
            return Err(Error::new("invalid_schema"));
        },
    };
    Ok(
        Field::Object(
            Doc {
                fields: vec![
                    ("id".to_owned(), id),
                    ("encrypted".to_owned(), Field::Bool(true)),
                    ("body".to_owned(), Field::Binary(plain)),
                ],
            },
        ),
    )
}

/// What the server keeps of the request value `f` received on a channel whose
/// password is `password`.
fn open_request(f: Field, password: &Vec<u8>) -> (r: Option<Field>)
    requires
        password@.len() <= i32::MAX,
    ensures
        request_opened(f, password@, r),
{
    match parse_request("", f, password) {
        Ok(g) => Some(g),
        Err(_) => None,
    }
}

/// The requests the server keeps of those received, `pool_h`, on a channel whose
/// password is `password`, taken from the last to the first: those of the schema,
/// with encrypted bodies decrypted; the others are dropped.
pub fn parse_requests(pool_h: Vec<Field>, password: &Vec<u8>) -> (r: Result<Vec<Field>, Error>)
    requires
        password@.len() <= i32::MAX,
    ensures
        r matches Ok(v) && requests_parsed(pool_h@, password@, v@),
{
    let ghost orig = pool_h@;
    let mut pool = pool_h;
    let mut collect: Vec<Field> = Vec::new();
    assert(pool@ =~= orig.take(pool@.len() as int));
    assert forall|o: Seq<Field>| #[trigger] requests_parsed(pool@, password@, o) implies requests_parsed(
        orig,
        password@,
        collect@ + o,
    ) by {
        assert(collect@ + o =~= o);
    }
    while pool.len() > 0
        invariant
            password@.len() <= i32::MAX,
            pool@.len() <= orig.len(),
            forall|o: Seq<Field>| #[trigger] requests_parsed(pool@, password@, o) ==> requests_parsed(
                orig,
                password@,
                collect@ + o,
            ),
        decreases pool@.len(),
    {
        let ghost before = pool@;
        let ghost old_collect = collect@;
        let f = pool.pop().unwrap();
        assert(pool@ == before.drop_last());
        assert(f == before.last());
        let kept = open_request(f, password);
        match kept {
            Some(g) => {
                collect.push(g);
                assert forall|o: Seq<Field>| #[trigger] requests_parsed(pool@, password@, o) implies requests_parsed(
                    orig,
                    password@,
                    collect@ + o,
                ) by {
                    let o2 = seq![g] + o;
                    assert(o2.drop_first() =~= o);
                    assert(o2[0] == g);
                    assert(requests_parsed(before, password@, o2));
                    assert(old_collect + o2 =~= collect@ + o);
                }
            },
            None => {
                assert forall|o: Seq<Field>| #[trigger] requests_parsed(pool@, password@, o) implies requests_parsed(
                    orig,
                    password@,
                    collect@ + o,
                ) by {
                    assert(requests_parsed(before, password@, o));
                }
            },
        }
    }
    assert(requests_parsed(pool@, password@, Seq::<Field>::empty()));
    assert(collect@ + Seq::<Field>::empty() =~= collect@);
    Ok(collect)
}

/// A request written as a document is kept by the server as it was written: a plain
/// one as it is, an encrypted one (under a 32-byte key, its body's encoding short
/// enough for openssl to take once padded) with its id and the encoding of its body
/// decrypted back.
pub proof fn lemma_request_opens(id: String, body: RequestBody, d: Doc, key: Seq<u8>, out: Option<Field>)
    requires
        request_doc_of(d, id, body, key),
        request_opened(Field::Object(d), key, out),
        body matches RequestBody::Sealed(p) ==> key.len() == 32 && p@.len() + 48 <= i32::MAX,
    ensures
        body is Plain ==> out == Some(Field::Object(d)),
        body matches RequestBody::Sealed(p) ==> (out matches Some(Field::Object(o)) && o.fields@[0].1 == Field::Str(id)
            && (o.fields@[2].1 matches Field::Binary(pl) && pl@ == p@)),
{
    lemma_response_names();
    reveal_strlit("encrypted");
    reveal_strlit("id");
    reveal_strlit("body");
    assert("encrypted"@.len() != "id"@.len());
    assert("encrypted"@.len() != "body"@.len());
    lemma_field_at(d, 0, "id"@);
    lemma_field_at(d, 1, "encrypted"@);
    lemma_field_at(d, 2, "body"@);
    if let RequestBody::Sealed(p) = body {
        if let Field::Object(sd) = d.fields@[2].1 {
            if let Field::Binary(iv) = sd.fields@[0].1 {
                if let Field::Binary(c) = sd.fields@[1].1 {
                    lemma_sealed_loads(sd, iv@, c@);
                    lemma_cbc_len(p@.len());
                }
            }
        }
    }
}

/// The client's schema of a response: a string `id`, a number `response_type` and a
/// document `body`.
pub open spec fn response_shaped(o: Doc) -> bool {
    &&& field_of(o, "id"@) matches Some(Field::Str(_))
    &&& field_of(o, "response_type"@) matches Some(Field::I32(_))
    &&& field_of(o, "body"@) matches Some(Field::Object(_))
}

/// The client keeps the response value `f` received under `key` as `x`.
pub open spec fn response_kept(f: Field, key: Seq<u8>, x: Response) -> bool {
    f matches Field::Object(o) && response_shaped(o) && response_read(o, key, Ok(x))
}

/// The client drops the response value `f` received under `key`: it is not a document
/// of the schema, or reading it fails.
pub open spec fn response_dropped(f: Field, key: Seq<u8>) -> bool {
    match f {
        Field::Object(o) => !response_shaped(o) || exists|e: Error| #[trigger] response_read(o, key, Err(e)),
        _ => true,
    }
}

/// `out` is what the client keeps of the received responses `v` under `key`, in order.
pub open spec fn responses_parsed(v: Seq<Field>, key: Seq<u8>, out: Seq<Response>) -> bool
    decreases v.len(),
{
    if v.len() == 0 {
        out.len() == 0
    } else {
        ||| response_dropped(v[0], key) && responses_parsed(v.drop_first(), key, out)
        ||| out.len() > 0 && response_kept(v[0], key, out[0]) && responses_parsed(
            v.drop_first(),
            key,
            out.drop_first(),
        )
    }
}

/// The responses the client keeps of those received, `v`, on a channel whose password
/// is `password`, in order: the documents of the schema that read as responses; the
/// others are dropped.
pub fn parse_responses(v: Vec<Field>, password: &Vec<u8>) -> (r: Result<Vec<Response>, Error>)
    requires
        password@.len() <= i32::MAX,
    ensures
        r matches Ok(out) && responses_parsed(v@, password@, out@),
{
    let ghost orig = v@;
    let mut rest = v;
    let mut collect: Vec<Response> = Vec::new();
    assert forall|o: Seq<Response>| #[trigger] responses_parsed(rest@, password@, o) implies responses_parsed(
        orig,
        password@,
        collect@ + o,
    ) by {
        assert(collect@ + o =~= o);
    }
    while rest.len() > 0
        invariant
            password@.len() <= i32::MAX,
            forall|o: Seq<Response>| #[trigger] responses_parsed(rest@, password@, o) ==> responses_parsed(
                orig,
                password@,
                collect@ + o,
            ),
        decreases rest@.len(),
    {
        let ghost before = rest@;
        let ghost old_collect = collect@;
        let f = rest.remove(0);
        assert(rest@ =~= before.drop_first());
        assert(f == before[0]);
        let kept = match f {
            Field::Object(o) => {
                let shaped = match (o.get("id"), o.get("response_type"), o.get("body")) {
                    (Some(Field::Str(_)), Some(Field::I32(_)), Some(Field::Object(_))) => true,
                    _ => false,
                };
                if shaped {
                    let ghost od = o;
                    let r = parse_response(o, password);
                    match r {
                        Ok(x) => Some(x),
                        Err(e) => {
                            assert(response_read(od, password@, Err(e)));
                            None
                        },
                    }
                } else {
                    None
                }
            },
            _ => None,
        };
        match kept {
            Some(x) => {
                collect.push(x);
                assert forall|o: Seq<Response>| #[trigger] responses_parsed(rest@, password@, o) implies responses_parsed(
                    orig,
                    password@,
                    collect@ + o,
                ) by {
                    let o2 = seq![x] + o;
                    assert(o2.drop_first() =~= o);
                    assert(o2[0] == x);
                    assert(responses_parsed(before, password@, o2));
                    assert(old_collect + o2 =~= collect@ + o);
                }
            },
            None => {
                assert forall|o: Seq<Response>| #[trigger] responses_parsed(rest@, password@, o) implies responses_parsed(
                    orig,
                    password@,
                    collect@ + o,
                ) by {
                    assert(responses_parsed(before, password@, o));
                }
            },
        }
    }
    assert(responses_parsed(rest@, password@, Seq::<Response>::empty()));
    assert(collect@ + Seq::<Response>::empty() =~= collect@);
    Ok(collect)
}

} // verus!
