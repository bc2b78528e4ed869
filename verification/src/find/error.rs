//! Why a list of patterns was turned down.

use vstd::prelude::*;

verus! {

/// A pattern list that cannot be used. Discovery never starts on one.
#[derive(Debug)]
pub enum PatternError {
    /// One pattern is no regular expression. `pattern` is the first such
    /// pattern of the list, `reason` what the compiler said of it.
    Invalid { pattern: String, reason: String },
    /// Each pattern compiles alone, but the list as a whole does not (it
    /// grows past the compiler's size limit). `reason` is what the compiler
    /// said of the whole list.
    Unbuildable { reason: String },
}

impl PatternError {
    /// What the compiler said.
    pub open spec fn reason_text(self) -> Seq<char> {
        match self {
            PatternError::Invalid { reason, .. } => reason@,
            PatternError::Unbuildable { reason } => reason@,
        }
    }

    /// What the compiler said.
    pub fn reason(&self) -> (r: &String)
        ensures
            r@ == self.reason_text(),
    {
        match self {
            PatternError::Invalid { reason, .. } => reason,
            PatternError::Unbuildable { reason } => reason,
        }
    }
}

} // verus!
