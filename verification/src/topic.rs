use vstd::prelude::*;

verus! {

/// What a topic type must offer: it can be cloned, hashed and compared.
/// Every type with these traits is a topic. The registry itself keys topics
/// by their text (`String`); a front end that accepts topic values of its
/// own bounds them by this trait and hands the registry their text.
pub trait PubsubTopic: Clone + core::hash::Hash + Eq {}

impl<T: Clone + core::hash::Hash + Eq> PubsubTopic for T {}

} // verus!
