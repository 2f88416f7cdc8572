//! What goes wrong on a connection: a message, and whether a later attempt
//! might fare better.

use vstd::prelude::*;
use vstd::string::*;

verus! {

/// What a [`TransportError`] says, as contracts speak of it.
pub struct Fault {
    pub message: Seq<char>,
    pub retryable: bool,
}

impl Fault {
    /// A failure that a later attempt meets again.
    pub open spec fn permanent(message: Seq<char>) -> Fault {
        Fault { message, retryable: false }
    }

    /// A failure that a later attempt might not meet.
    pub open spec fn retry(message: Seq<char>) -> Fault {
        Fault { message, retryable: true }
    }

    /// A peer that does not speak the protocol: it will not on the next
    /// attempt either.
    pub open spec fn protocol(message: Seq<char>) -> Fault {
        Fault::permanent(message)
    }

    /// A connection that ended in the middle of a packet, while `doing`.
    pub open spec fn broken(doing: Seq<char>) -> Fault {
        Fault::retry(doing + ": the connection broke"@)
    }
}

/// An error of this transport.
#[derive(Clone, Debug, PartialEq, Eq)]
pub struct TransportError {
    pub message: String,
    pub retryable: bool,
}

impl View for TransportError {
    type V = Fault;

    open spec fn view(&self) -> Fault {
        Fault { message: self.message@, retryable: self.retryable }
    }
}

impl TransportError {
    /// An error that a later attempt meets again.
    pub fn permanent(message: String) -> (error: Self)
        ensures
            error@ == Fault::permanent(message@),
            error.message@ == message@,
            !error.retryable,
    {
        TransportError { message, retryable: false }
    }

    /// An error that a later attempt might not meet.
    pub fn retryable(message: String) -> (error: Self)
        ensures
            error@ == Fault::retry(message@),
            error.message@ == message@,
            error.retryable,
    {
        TransportError { message, retryable: true }
    }
}

/// The error a peer that does not speak the protocol is.
pub fn protocol_error(message: String) -> (error: TransportError)
    ensures
        error@ == Fault::protocol(message@),
        error.message@ == message@,
        !error.retryable,
{
    TransportError::permanent(message)
}

/// The error a connection that ended in the middle of a packet is.
pub fn broken_error(doing: &str) -> (error: TransportError)
    ensures
        error@ == Fault::broken(doing@),
        error.message@ == doing@ + ": the connection broke"@,
        error.retryable,
{
    let mut message = doing.to_owned();
    message.append(": the connection broke");
    TransportError::retryable(message)
}

/// A fault says what it was told, and only a connection that broke and what
/// is told to be tried again may be.
pub proof fn law_faults(message: Seq<char>, error: TransportError)
    ensures
        Fault::permanent(message).message == message,
        !Fault::permanent(message).retryable,
        Fault::retry(message).message == message,
        Fault::retry(message).retryable,
        Fault::protocol(message).message == message,
        !Fault::protocol(message).retryable,
        Fault::broken(message).message == message + ": the connection broke"@,
        Fault::broken(message).retryable,
        error@.message == error.message@,
        error@.retryable == error.retryable,
{
}

} // verus!
