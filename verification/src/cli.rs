//! The command line of the compiler: the path of the source to read.

use vstd::prelude::*;

verus! {

/// The arguments the compiler was started with.
#[derive(Debug)]
pub struct Cli {
    source: String,
}

impl Cli {
    /// The arguments naming the source at path `source`.
    pub fn new(source: String) -> (r: Cli)
        ensures
            r.spec_source() == source@,
    {
        Cli { source }
    }

    /// The path of the source, as given.
    pub closed spec fn spec_source(&self) -> Seq<char> {
        self.source@
    }

    /// The path of the source to read.
    pub fn source(&self) -> (r: &str)
        ensures
            r@ == self.spec_source(),
    {
        self.source.as_str()
    }
}

} // verus!
