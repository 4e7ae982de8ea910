use vstd::prelude::*;
use crate::error::{Error, chained};
use crate::doc::{Doc, Field};

verus! {

/// Why a read from a connection failed, as the reading logic tells failures apart.
#[derive(Debug, Clone, Copy, PartialEq, Eq, Structural)]
pub enum ReadFailure {
    WouldBlock,
    ConnectionAborted,
    Interrupted,
    PermissionDenied,
    BrokenPipe,
    ConnectionReset,
    NotConnected,
    Other,
}

/// The failures that mean the connection is gone.
pub open spec fn gone(k: ReadFailure) -> bool {
    k != ReadFailure::WouldBlock && k != ReadFailure::Other
}

/// What reading a message makes of a failed read: `blocking` when the read would
/// block, `closed` when the connection is gone, and nothing (read again) otherwise.
pub fn read_failure_error(k: ReadFailure) -> (r: Option<Error>)
    ensures
        k == ReadFailure::WouldBlock ==> (r matches Some(e) && e.val@ == "blocking"@),
        gone(k) ==> (r matches Some(e) && e.val@ == "closed"@),
        k == ReadFailure::Other ==> r is None,
{
    match k {
        ReadFailure::WouldBlock => Some(Error::new("blocking")),
        ReadFailure::Other => None,
        _ => Some(Error::new("closed")),
    }
}

/// Whether the server stops reading a connection after a failed read: on every
/// failure but an unrecognised one.
pub fn read_failure_ends(k: ReadFailure) -> (r: bool)
    ensures
        r <==> k != ReadFailure::Other,
{
    match k {
        ReadFailure::Other => false,
        _ => true,
    }
}

/// The wait, in milliseconds, before reading again after a read that brought `got`
/// bytes: none after bytes came, otherwise ten more than before, up to a hundred.
pub fn next_wait(wait: u64, got: usize) -> (w: u64)
    ensures
        got > 0 ==> w == 0,
        got == 0 && wait < 100 ==> w == wait + 10,
        got == 0 && wait >= 100 ==> w == wait,
{
    if got > 0 {
        0
    } else if wait < 100 {
        wait + 10
    } else {
        wait
    }
}

/// The bytes of `base` after the message that ends at the index `end`, kept for the
/// next read; none when the message ends at or past the last byte.
pub fn overflow_after(base: &Vec<u8>, end: usize) -> (r: Vec<u8>)
    ensures
        end < base@.len() ==> r@ == base@.subrange(end + 1, base@.len() as int),
        end >= base@.len() ==> r@.len() == 0,
{
    let mut collect: Vec<u8> = Vec::new();
    if end < base.len() {
        let mut i = end + 1;
        while i < base.len()
            invariant
                end < i <= base@.len(),
                collect@ == base@.subrange(end + 1, i as int),
            decreases base@.len() - i,
        {
            collect.push(base[i]);
            i = i + 1;
        }
    }
    collect
}

/// The first of the values a read gave: `failed-not_found` when it gave none, and the
/// read's own error explained as `failed-read_from_socket`.
pub fn read_first(read: Result<Vec<Field>, Error>) -> (r: Result<Field, Error>)
    ensures
        match read {
            Ok(v) => if v@.len() > 0 {
                r == Ok::<Field, Error>(v@[0])
            } else {
                r matches Err(e) && e.val@ == "failed-not_found"@
            },
            Err(x) => r matches Err(e) && e.val@ == chained("failed-read_from_socket"@, x.val@),
        },
{
    match read {
        Ok(v) => {
            let mut v = v;
            if v.len() == 0 {
                Err(Error::new("failed-not_found"))
            } else {
                Ok(v.remove(0))
            }
        },
        Err(e) => Err(Error::chain("failed-read_from_socket", e)),
    }
}

/// The document that the first value read holds: `not_found-gObject` when that value
/// is not a document, and the read's own error explained as `failed-read_first`.
pub fn read_first_doc(first: Result<Field, Error>) -> (r: Result<Doc, Error>)
    ensures
        match first {
            Ok(Field::Object(d)) => r == Ok::<Doc, Error>(d),
            Ok(_) => r matches Err(e) && e.val@ == "not_found-gObject"@,
            Err(x) => r matches Err(e) && e.val@ == chained("failed-read_first"@, x.val@),
        },
{
    match first {
        Ok(Field::Object(d)) => Ok(d),
        Ok(_) => Err(Error::new("not_found-gObject")),
        Err(e) => Err(Error::chain("failed-read_first", e)),
    }
}

} // verus!
