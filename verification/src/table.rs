//! The topic table: a `dashmap::DashMap` from topic to the ids of its
//! subscribers, in subscription order. Every method of the map that the
//! library calls has a wrapper here, specified over `topic_lists`.
use vstd::prelude::*;
use dashmap::DashMap;

verus! {

#[verifier::external_type_specification]
#[verifier::external_body]
#[verifier::reject_recursive_types(K)]
#[verifier::reject_recursive_types(V)]
#[verifier::reject_recursive_types(S)]
pub struct ExDashMap<K, V, S>(DashMap<K, V, S>);

/// The topic table's type: topic to subscriber ids.
pub type TopicTable = DashMap<String, Vec<u64>>;

/// What a topic table holds, as a mathematical map.
pub type TopicLists = Map<Seq<char>, Seq<u64>>;

/// What a topic table holds: for each topic present, the ids stored for it.
pub uninterp spec fn topic_lists(m: TopicTable) -> TopicLists;

/// `DashMap::new`: a map with no entries.
#[verifier::external_body]
pub(crate) fn table_new() -> (table: TopicTable)
    ensures
        topic_lists(table) == TopicLists::empty(),
{
    DashMap::new()
}

/// `DashMap::get`, the value cloned out of the guard it returns: `None` when
/// the topic has no entry, otherwise a copy of the ids stored for it.
#[verifier::external_body]
pub(crate) fn table_get(m: &TopicTable, topic: &String) -> (r: Option<Vec<u64>>)
    ensures
        r is Some <==> topic_lists(*m).contains_key(topic@),
        r matches Some(ids) ==> ids@ == topic_lists(*m)[topic@],
{
    m.get(topic).map(|entry| entry.value().clone())
}

/// `DashMap::insert`: the topic's entry becomes `ids`, replacing any earlier
/// one; the other entries stay as they were.
#[verifier::external_body]
pub(crate) fn table_insert(m: &mut TopicTable, topic: String, ids: Vec<u64>)
    ensures
        topic_lists(*final(m)) == topic_lists(*old(m)).insert(topic@, ids@),
{
    m.insert(topic, ids);
}

} // verus!
