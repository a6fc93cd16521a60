//! Laws of the topic table: what subscribing and leaving do, stated over the
//! model that the registry's own contracts use.
use vstd::prelude::*;
use crate::table::TopicLists;
use crate::model::{entry_of, count_of, repeat, without, absent, subscribed, unsubscribed,
    lemma_count_contains, lemma_without_concat, lemma_without_repeat, lemma_without_absent,
    lemma_without_removes};

verus! {

/// A subscriber that leaves undoes its subscription: when its id was in no
/// list before it subscribed to `ts`, leaving `ts` gives back the table it
/// found, except that each topic of `ts` that had no entry keeps an empty
/// one.
pub proof fn law_leave_undoes_subscribe(m: TopicLists, ts: Seq<Seq<char>>, id: u64)
    requires
        absent(m, id),
    ensures
        unsubscribed(subscribed(m, ts, id), ts, id) == Map::new(
            |t: Seq<char>| m.contains_key(t) || ts.contains(t),
            |t: Seq<char>| entry_of(m, t),
        ),
{
    let s = subscribed(m, ts, id);
    let lhs = unsubscribed(s, ts, id);
    let rhs = Map::new(|t: Seq<char>| m.contains_key(t) || ts.contains(t), |t: Seq<char>| entry_of(m, t));
    assert forall|t: Seq<char>| lhs.contains_key(t) implies #[trigger] lhs[t] == rhs[t] by {
        lemma_count_contains(ts, t);
        if ts.contains(t) {
            lemma_without_concat(entry_of(m, t), repeat(id, count_of(ts, t)), id);
            lemma_without_repeat(id, count_of(ts, t));
            if m.contains_key(t) {
                assert(!m[t].contains(id));
            }
            lemma_without_absent(entry_of(m, t), id);
            assert(without(entry_of(m, t), id) + Seq::<u64>::empty() =~= entry_of(m, t));
        } else {
            assert(entry_of(m, t) + repeat(id, 0) =~= entry_of(m, t));
        }
    }
    assert(lhs =~= rhs);
}

/// When every topic it names already has an entry, subscribing and then
/// leaving gives back exactly the table it found.
pub proof fn law_leave_restores_table(m: TopicLists, ts: Seq<Seq<char>>, id: u64)
    requires
        absent(m, id),
        forall|i: int| 0 <= i < ts.len() ==> m.contains_key(#[trigger] ts[i]),
    ensures
        unsubscribed(subscribed(m, ts, id), ts, id) == m,
{
    law_leave_undoes_subscribe(m, ts, id);
    let r = Map::new(|t: Seq<char>| m.contains_key(t) || ts.contains(t), |t: Seq<char>| entry_of(m, t));
    assert forall|t: Seq<char>| #[trigger] r.contains_key(t) <==> m.contains_key(t) by {
        if ts.contains(t) {
            let i = choose|i: int| 0 <= i < ts.len() && ts[i] == t;
            assert(m.contains_key(ts[i]));
        }
    }
    assert(r =~= m);
}

/// Subscribing keeps everyone else in place: every existing entry keeps its
/// ids in their order and the new id comes after them, once per time the
/// topic is named; topics that are not named are untouched.
pub proof fn law_subscribe_appends(m: TopicLists, ts: Seq<Seq<char>>, id: u64)
    ensures
        forall|t: Seq<char>| #[trigger] m.contains_key(t) ==> subscribed(m, ts, id)[t].subrange(0, m[t].len() as int) == m[t],
        forall|t: Seq<char>| #[trigger] m.contains_key(t) && !ts.contains(t) ==> subscribed(m, ts, id)[t] == m[t],
        forall|t: Seq<char>, j: int|
            ts.contains(t) && entry_of(m, t).len() <= j < subscribed(m, ts, id)[t].len() ==> #[trigger] subscribed(m, ts, id)[t][j] == id,
        forall|t: Seq<char>| #[trigger] ts.contains(t) ==> subscribed(m, ts, id)[t].len() == entry_of(m, t).len() + count_of(ts, t),
{
    assert forall|t: Seq<char>| #[trigger] m.contains_key(t) && !ts.contains(t) implies subscribed(m, ts, id)[t] == m[t] by {
        lemma_count_contains(ts, t);
        assert(entry_of(m, t) + repeat(id, 0) =~= m[t]);
    }
    assert forall|t: Seq<char>| #[trigger] m.contains_key(t) implies subscribed(m, ts, id)[t].subrange(0, m[t].len() as int) == m[t] by {
        assert(subscribed(m, ts, id)[t].subrange(0, m[t].len() as int) =~= m[t]);
    }
}

/// Leaving takes out only the leaving id: in every entry each other id is
/// present exactly when it was before, no entry of a topic left keeps the
/// leaving id, and no entry is added or taken away.
pub proof fn law_leave_keeps_others(m: TopicLists, ts: Seq<Seq<char>>, id: u64)
    ensures
        unsubscribed(m, ts, id).dom() == m.dom(),
        forall|t: Seq<char>, x: u64|
            m.contains_key(t) && x != id ==> (#[trigger] unsubscribed(m, ts, id)[t].contains(x) <==> m[t].contains(x)),
        forall|t: Seq<char>| m.contains_key(t) && #[trigger] ts.contains(t) ==> !unsubscribed(m, ts, id)[t].contains(id),
{
    assert(unsubscribed(m, ts, id).dom() =~= m.dom());
    assert forall|t: Seq<char>, x: u64|
        m.contains_key(t) && x != id implies (#[trigger] unsubscribed(m, ts, id)[t].contains(x) <==> m[t].contains(x)) by {
        lemma_without_removes(m[t], id);
    }
    assert forall|t: Seq<char>| m.contains_key(t) && #[trigger] ts.contains(t) implies !unsubscribed(m, ts, id)[t].contains(id) by {
        lemma_without_removes(m[t], id);
    }
}

} // verus!
