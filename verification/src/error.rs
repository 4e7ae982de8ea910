use vstd::prelude::*;
use vstd::string::StringExecFns;

verus! {

/// The error carried through the library: a chain of short reasons.
#[derive(Debug)]
pub struct Error {
    pub val: String,
}

impl Error {
    /// An error whose reason is `val`.
    pub fn new(val: &str) -> (e: Error)
        ensures
            e.val@ == val@,
    {
        Error { val: val.to_owned() }
    }

    /// An error whose reason is `reason` followed by the detail `detail`.
    pub fn with_detail(reason: &str, detail: &str) -> (e: Error)
        ensures
            e.val@ == reason@ + detail@,
    {
        Error { val: reason.to_owned().concat(detail) }
    }

    /// The error `inner` explained by `reason`: the reason, ` => `, then the inner
    /// error's text.
    pub fn chain(reason: &str, inner: Error) -> (e: Error)
        ensures
            e.val@ == chained(reason@, inner.val@),
    {
        let head = reason.to_owned().concat(" => ");
        Error { val: head.concat(inner.val.as_str()) }
    }
}

/// The text of an error `inner` explained by `reason`.
pub open spec fn chained(reason: Seq<char>, inner: Seq<char>) -> Seq<char> {
    reason + " => "@ + inner
}

} // verus!
