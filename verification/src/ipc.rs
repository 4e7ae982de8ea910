use vstd::prelude::*;
use crate::error::Error;

verus! {

/// State shared between the server's tasks; it holds nothing yet.
#[derive(Debug, Clone)]
pub struct SharedData {}

impl SharedData {
    /// The empty shared state.
    pub fn new() -> (s: SharedData)
        ensures
            s == (SharedData {}),
    {
        SharedData {}
    }
}

/// A request that failed, with why.
#[derive(Debug)]
pub struct RequestError {
    pub error: Error,
}

/// The body of the response to the request `id`.
pub struct ResponseResult {
    pub id: String,
    pub body: Vec<u8>,
}

/// A session's credentials.
pub struct SessionAuth {
    pub id: String,
    pub password: String,
}

/// Removes the waiting request `id` from the book of requests.
#[derive(Debug)]
pub struct BookDelete {
    pub id: String,
}

/// Bytes for the writer to send for the request `id`.
#[derive(Debug)]
pub struct WriterSend {
    pub id: u32,
    pub data: Vec<u8>,
}

/// Bytes for the writer to send back as a response.
pub struct WriterResponseMessage {
    pub data: Vec<u8>,
}

} // verus!
