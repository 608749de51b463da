use vstd::prelude::*;

verus! {

/// Why a source text could not be turned into a tree.
#[derive(PartialEq, Eq, Structural, Clone, Copy, Debug)]
pub enum ParserError {
    /// A bracket without its partner. The field is the nesting depth at
    /// which this was found: 0 for a `]` that closes nothing, otherwise the
    /// number of loops still open at the end of the source.
    IncompleteLoop(usize),
}

impl ParserError {
    /// A short description for people.
    pub fn message(&self) -> (r: &'static str)
        ensures
            r@ == "loop bracket missing"@,
    {
        match self {
            ParserError::IncompleteLoop(_) => "loop bracket missing",
        }
    }
}

} // verus!
