//! What a failed exchange reports: a message, and whether trying again can
//! help.

use vstd::prelude::*;

verus! {

/// A failure of the transport.
#[derive(Clone, Debug, PartialEq, Eq)]
pub struct TransportError {
    /// What went wrong.
    pub message: String,
    /// Whether the same exchange may succeed later.
    pub retryable: bool,
}

/// What a [`TransportError`] says.
pub struct Fault {
    pub message: Seq<char>,
    pub retryable: bool,
}

impl View for TransportError {
    type V = Fault;

    open spec fn view(&self) -> Fault {
        Fault { message: self.message@, retryable: self.retryable }
    }
}

/// A failure that trying again does not mend.
pub open spec fn permanent(message: Seq<char>) -> Fault {
    Fault { message, retryable: false }
}

/// What a fallible call gave, by the views of both sides.
pub open spec fn outcome<T: View>(result: Result<T, TransportError>) -> Result<T::V, Fault> {
    match result {
        Ok(value) => Ok(value@),
        Err(error) => Err(error@),
    }
}

impl TransportError {
    /// A failure that trying again does not mend.
    pub fn permanent(message: String) -> (error: Self)
        ensures
            error@ == permanent(message@),
    {
        TransportError { message, retryable: false }
    }
}

/// A peer that did not keep to the protocol, which trying again does not
/// mend.
pub fn protocol_error(message: &str) -> (error: TransportError)
    ensures
        error@ == permanent(message@),
{
    TransportError::permanent(message.to_string())
}

} // verus!
