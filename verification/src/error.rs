use vstd::prelude::*;

verus! {

/// Error returned when a subscriber tries to receive after its channel was
/// closed and every message sent before the close has been received.
#[derive(PartialEq, Eq, Clone, Copy, Debug, Structural)]
pub struct PubsubError;

impl PubsubError {
    /// The text of the error, as shown to users.
    pub fn message(&self) -> (text: String)
        ensures
            text@ == "pubsub closed"@,
    {
        String::from_str("pubsub closed")
    }
}

} // verus!
