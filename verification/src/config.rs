use vstd::prelude::*;

verus! {

/// Where the store works from.
#[derive(Debug)]
pub struct Config {
    pub cwd: String,
}

impl Config {
    /// The configuration of a store that works from the directory `cwd` (the caller's
    /// current directory).
    pub fn new(cwd: String) -> (c: Config)
        ensures
            c.cwd@ == cwd@,
    {
        Config { cwd }
    }
}

} // verus!
