use vstd::prelude::*;

verus! {

/// The error the backend answers with where Steam's files or services did not
/// give a usable answer.
#[derive(Debug, Clone, Copy, PartialEq, Eq, Structural)]
pub enum SamError {
    UnknownError,
}

} // verus!
