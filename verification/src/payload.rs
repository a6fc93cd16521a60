use vstd::prelude::*;

verus! {

/// A message in flight: the topic it was published to and its content.
pub struct Payload<T, P> {
    pub topic: T,
    pub payload: P,
}

impl<T, P> Payload<T, P> {
    /// Pairs a topic with the content published to it.
    pub fn new(topic: T, payload: P) -> (p: Self)
        ensures
            p.topic == topic,
            p.payload == payload,
    {
        Self { topic, payload }
    }
}

} // verus!
