use vstd::prelude::*;

verus! {

/// Why a request was refused.
#[derive(Debug, Clone, Copy, PartialEq, Eq, Structural)]
pub enum BleError {
    /// The bytes received are not one well-formed envelope.
    InvalidEnvelope,
    /// The transport budget does not leave room for the envelope itself.
    BudgetTooSmall,
    /// The value to send for a query is neither cached nor supplied.
    MissingSource,
    /// Nobody ever subscribed to the topic.
    TopicNotFound,
    /// A fragment would be longer than one envelope can describe.
    MessageTooLarge,
}

} // verus!
