//! The mathematical model of the topic table and of what subscribing and
//! unsubscribing do to it, with the lemmas that the executable code and the
//! laws rest on.
use vstd::prelude::*;
use crate::table::TopicLists;

verus! {

/// The topics of a list of topic strings, as character sequences.
pub open spec fn topic_views(ts: Seq<String>) -> Seq<Seq<char>> {
    ts.map_values(|s: String| s@)
}

/// The ids stored for topic `t`, the empty sequence when `t` has no entry.
pub open spec fn entry_of(m: TopicLists, t: Seq<char>) -> Seq<u64> {
    if m.contains_key(t) {
        m[t]
    } else {
        Seq::empty()
    }
}

/// How many times `t` occurs in `ts`.
pub open spec fn count_of(ts: Seq<Seq<char>>, t: Seq<char>) -> nat
    decreases ts.len(),
{
    if ts.len() == 0 {
        0
    } else {
        count_of(ts.drop_last(), t) + (if ts.last() == t { 1nat } else { 0nat })
    }
}

/// `n` copies of `id`.
pub open spec fn repeat(id: u64, n: nat) -> Seq<u64> {
    Seq::new(n, |_i: int| id)
}

/// `s` with every occurrence of `id` taken out, the rest in order.
pub open spec fn without(s: Seq<u64>, id: u64) -> Seq<u64>
    decreases s.len(),
{
    if s.len() == 0 {
        s
    } else if s.last() == id {
        without(s.drop_last(), id)
    } else {
        without(s.drop_last(), id).push(s.last())
    }
}

/// `id` occurs in no list of `m`.
pub open spec fn absent(m: TopicLists, id: u64) -> bool {
    forall|t: Seq<char>| #[trigger] m.contains_key(t) ==> !m[t].contains(id)
}

/// The table after subscriber `id` subscribed to the topics `ts`: every topic
/// of `ts` has an entry, and `id` follows the ids already stored for it, once
/// for each time the topic occurs in `ts`.
pub open spec fn subscribed(m: TopicLists, ts: Seq<Seq<char>>, id: u64) -> TopicLists {
    Map::new(
        |t: Seq<char>| m.contains_key(t) || ts.contains(t),
        |t: Seq<char>| entry_of(m, t) + repeat(id, count_of(ts, t)),
    )
}

/// The table after subscriber `id`, subscribed to the topics `ts`, left: the
/// entries of those topics lose every occurrence of `id`, the rest in order;
/// no entry is added or taken away.
pub open spec fn unsubscribed(m: TopicLists, ts: Seq<Seq<char>>, id: u64) -> TopicLists {
    Map::new(
        |t: Seq<char>| m.contains_key(t),
        |t: Seq<char>| if ts.contains(t) { without(m[t], id) } else { m[t] },
    )
}

/// One step of subscribing: `id` appended to the entry of `t`.
pub open spec fn add_one(m: TopicLists, t: Seq<char>, id: u64) -> TopicLists {
    m.insert(t, entry_of(m, t).push(id))
}

/// One step of unsubscribing: `id` taken out of the entry of `t`, if any.
pub open spec fn remove_one(m: TopicLists, t: Seq<char>, id: u64) -> TopicLists {
    if m.contains_key(t) {
        m.insert(t, without(m[t], id))
    } else {
        m
    }
}

pub proof fn lemma_count_contains(ts: Seq<Seq<char>>, t: Seq<char>)
    ensures
        count_of(ts, t) > 0 <==> ts.contains(t),
    decreases ts.len(),
{
    if ts.len() > 0 {
        lemma_count_contains(ts.drop_last(), t);
        if ts.last() == t {
            assert(ts[ts.len() - 1] == t);
        }
        if ts.drop_last().contains(t) {
            let i = choose|i: int| 0 <= i < ts.drop_last().len() && ts.drop_last()[i] == t;
            assert(ts[i] == t);
        }
        if ts.contains(t) && ts.last() != t {
            let i = choose|i: int| 0 <= i < ts.len() && ts[i] == t;
            assert(ts.drop_last()[i] == t);
        }
    }
}

pub proof fn lemma_without_concat(a: Seq<u64>, b: Seq<u64>, id: u64)
    ensures
        without(a + b, id) == without(a, id) + without(b, id),
    decreases b.len(),
{
    if b.len() == 0 {
        assert(a + b =~= a);
        assert(without(a, id) + without(b, id) =~= without(a, id));
    } else {
        lemma_without_concat(a, b.drop_last(), id);
        assert((a + b).drop_last() =~= a + b.drop_last());
        assert((a + b).last() == b.last());
        if b.last() != id {
            assert(without(a, id) + without(b.drop_last(), id).push(b.last()) =~= (without(a, id)
                + without(b.drop_last(), id)).push(b.last()));
        }
    }
}

pub proof fn lemma_without_repeat(id: u64, n: nat)
    ensures
        without(repeat(id, n), id) == Seq::<u64>::empty(),
    decreases n,
{
    if n > 0 {
        lemma_without_repeat(id, (n - 1) as nat);
        assert(repeat(id, n).drop_last() =~= repeat(id, (n - 1) as nat));
    }
}

pub proof fn lemma_without_absent(s: Seq<u64>, id: u64)
    requires
        !s.contains(id),
    ensures
        without(s, id) == s,
    decreases s.len(),
{
    if s.len() > 0 {
        assert(s.last() == s[s.len() - 1]);
        assert forall|i: int| 0 <= i < s.drop_last().len() implies s.drop_last()[i] != id by {
            assert(s.drop_last()[i] == s[i]);
        }
        lemma_without_absent(s.drop_last(), id);
        assert(s.drop_last().push(s.last()) =~= s);
    }
}

pub proof fn lemma_without_removes(s: Seq<u64>, id: u64)
    ensures
        !without(s, id).contains(id),
        forall|x: u64| x != id ==> (s.contains(x) <==> #[trigger] without(s, id).contains(x)),
    decreases s.len(),
{
    if s.len() > 0 {
        let d = s.drop_last();
        lemma_without_removes(d, id);
        let r = without(d, id);
        assert forall|x: u64| x != id implies (s.contains(x) <==> #[trigger] without(s, id).contains(x)) by {
            assert(r.contains(x) <==> d.contains(x));
            if s.contains(x) {
                let i = choose|i: int| 0 <= i < s.len() && s[i] == x;
                if i < s.len() - 1 {
                    assert(d[i] == x);
                    assert(d.contains(x));
                    let j = choose|j: int| 0 <= j < r.len() && r[j] == x;
                    if s.last() != id {
                        assert(r.push(s.last())[j] == x);
                    }
                } else {
                    assert(r.push(s.last())[r.len() as int] == x);
                }
            }
            if without(s, id).contains(x) {
                let w = without(s, id);
                let j = choose|j: int| 0 <= j < w.len() && w[j] == x;
                if s.last() == id || j < r.len() {
                    if s.last() != id {
                        assert(r[j] == x);
                    }
                    assert(r.contains(x));
                    let i = choose|i: int| 0 <= i < d.len() && d[i] == x;
                    assert(s[i] == x);
                } else {
                    assert(s[s.len() - 1] == x);
                }
            }
        }
        if s.last() != id {
            assert forall|j: int| 0 <= j < r.push(s.last()).len() implies r.push(s.last())[j] != id by {
                if j < r.len() {
                    assert(r.push(s.last())[j] == r[j]);
                }
            }
        }
    }
}

pub proof fn lemma_without_idempotent(s: Seq<u64>, id: u64)
    ensures
        without(without(s, id), id) == without(s, id),
{
    lemma_without_removes(s, id);
    lemma_without_absent(without(s, id), id);
}

/// Subscribing to no topic leaves the table as it was.
pub proof fn lemma_subscribed_none(m: TopicLists, id: u64)
    ensures
        subscribed(m, Seq::empty(), id) == m,
{
    assert forall|t: Seq<char>| m.contains_key(t) implies subscribed(m, Seq::empty(), id)[t] == m[t] by {
        assert(entry_of(m, t) + repeat(id, 0) =~= m[t]);
    }
    assert(subscribed(m, Seq::empty(), id) =~= m);
}

/// Subscribing to one more topic is one more step of `add_one`.
pub proof fn lemma_subscribed_push(m: TopicLists, ts: Seq<Seq<char>>, t0: Seq<char>, id: u64)
    ensures
        subscribed(m, ts.push(t0), id) == add_one(subscribed(m, ts, id), t0, id),
{
    let lhs = subscribed(m, ts.push(t0), id);
    let prev = subscribed(m, ts, id);
    let rhs = add_one(prev, t0, id);
    assert(ts.push(t0).drop_last() =~= ts);
    assert(ts.push(t0).last() == t0);
    assert forall|t: Seq<char>| #[trigger] lhs.contains_key(t) <==> rhs.contains_key(t) by {
        if ts.push(t0).contains(t) && t != t0 {
            let i = choose|i: int| 0 <= i < ts.push(t0).len() && ts.push(t0)[i] == t;
            assert(ts[i] == t);
        }
        if ts.contains(t) {
            let i = choose|i: int| 0 <= i < ts.len() && ts[i] == t;
            assert(ts.push(t0)[i] == t);
        }
        assert(ts.push(t0)[ts.len() as int] == t0);
    }
    assert forall|t: Seq<char>| lhs.contains_key(t) implies #[trigger] lhs[t] == rhs[t] by {
        if t == t0 {
            assert(repeat(id, count_of(ts, t)).push(id) =~= repeat(id, count_of(ts, t) + 1));
            assert(entry_of(m, t) + repeat(id, count_of(ts, t) + 1) =~= (entry_of(m, t) + repeat(
                id,
                count_of(ts, t),
            )).push(id));
            lemma_count_contains(ts, t);
            if !prev.contains_key(t) {
                assert(entry_of(m, t) + repeat(id, count_of(ts, t)) =~= Seq::<u64>::empty());
            }
            assert(entry_of(prev, t) == entry_of(m, t) + repeat(id, count_of(ts, t)));
        }
    }
    assert(lhs =~= rhs);
}

/// Leaving no topic leaves the table as it was.
pub proof fn lemma_unsubscribed_none(m: TopicLists, id: u64)
    ensures
        unsubscribed(m, Seq::empty(), id) == m,
{
    assert(unsubscribed(m, Seq::empty(), id) =~= m);
}

/// Leaving one more topic is one more step of `remove_one`.
pub proof fn lemma_unsubscribed_push(m: TopicLists, ts: Seq<Seq<char>>, t0: Seq<char>, id: u64)
    ensures
        unsubscribed(m, ts.push(t0), id) == remove_one(unsubscribed(m, ts, id), t0, id),
{
    let lhs = unsubscribed(m, ts.push(t0), id);
    let prev = unsubscribed(m, ts, id);
    let rhs = remove_one(prev, t0, id);
    assert forall|t: Seq<char>| #[trigger] ts.push(t0).contains(t) <==> (ts.contains(t) || t == t0) by {
        if ts.push(t0).contains(t) && t != t0 {
            let i = choose|i: int| 0 <= i < ts.push(t0).len() && ts.push(t0)[i] == t;
            assert(ts[i] == t);
        }
        if ts.contains(t) {
            let i = choose|i: int| 0 <= i < ts.len() && ts[i] == t;
            assert(ts.push(t0)[i] == t);
        }
        assert(ts.push(t0)[ts.len() as int] == t0);
    }
    assert forall|t: Seq<char>| lhs.contains_key(t) implies #[trigger] lhs[t] == rhs[t] by {
        if t == t0 && ts.contains(t) {
            lemma_without_idempotent(m[t], id);
        }
    }
    assert(lhs =~= rhs);
}

/// How many times `id` occurs in `s`.
pub open spec fn occurrences(s: Seq<u64>, id: u64) -> nat
    decreases s.len(),
{
    if s.len() == 0 {
        0
    } else {
        occurrences(s.drop_last(), id) + (if s.last() == id { 1nat } else { 0nat })
    }
}

pub proof fn lemma_occurrences_concat(a: Seq<u64>, b: Seq<u64>, id: u64)
    ensures
        occurrences(a + b, id) == occurrences(a, id) + occurrences(b, id),
    decreases b.len(),
{
    if b.len() == 0 {
        assert(a + b =~= a);
    } else {
        lemma_occurrences_concat(a, b.drop_last(), id);
        assert((a + b).drop_last() =~= a + b.drop_last());
        assert((a + b).last() == b.last());
    }
}

pub proof fn lemma_occurrences_repeat(x: u64, n: nat, id: u64)
    ensures
        occurrences(repeat(x, n), id) == (if x == id { n } else { 0 }),
    decreases n,
{
    if n > 0 {
        lemma_occurrences_repeat(x, (n - 1) as nat, id);
        assert(repeat(x, n).drop_last() =~= repeat(x, (n - 1) as nat));
    }
}

pub proof fn lemma_occurrences_contains(s: Seq<u64>, id: u64)
    ensures
        occurrences(s, id) > 0 <==> s.contains(id),
    decreases s.len(),
{
    if s.len() > 0 {
        let d = s.drop_last();
        lemma_occurrences_contains(d, id);
        if s.last() == id {
            assert(s[s.len() - 1] == id);
        }
        if d.contains(id) {
            let i = choose|i: int| 0 <= i < d.len() && d[i] == id;
            assert(s[i] == id);
        }
        if s.contains(id) && s.last() != id {
            let i = choose|i: int| 0 <= i < s.len() && s[i] == id;
            assert(d[i] == id);
        }
    }
}

pub proof fn lemma_occurrences_without(s: Seq<u64>, id: u64, k: u64)
    ensures
        occurrences(without(s, id), k) == (if k == id { 0 } else { occurrences(s, k) }),
    decreases s.len(),
{
    if s.len() > 0 {
        lemma_occurrences_without(s.drop_last(), id, k);
        if s.last() != id {
            let r = without(s.drop_last(), id);
            assert(r.push(s.last()).drop_last() =~= r);
        }
    }
}

/// The entry of a topic after subscribing, whether or not it had one.
pub proof fn lemma_entry_of_subscribed(m: TopicLists, ts: Seq<Seq<char>>, id: u64, t: Seq<char>)
    ensures
        entry_of(subscribed(m, ts, id), t) == entry_of(m, t) + repeat(id, count_of(ts, t)),
{
    lemma_count_contains(ts, t);
    if !subscribed(m, ts, id).contains_key(t) {
        assert(entry_of(m, t) + repeat(id, count_of(ts, t)) =~= Seq::<u64>::empty());
    }
}

/// The entry of a topic after leaving, whether or not it had one.
pub proof fn lemma_entry_of_unsubscribed(m: TopicLists, ts: Seq<Seq<char>>, id: u64, t: Seq<char>)
    ensures
        entry_of(unsubscribed(m, ts, id), t) == (if ts.contains(t) { without(entry_of(m, t), id) } else { entry_of(m, t) }),
{
    if !m.contains_key(t) && ts.contains(t) {
        assert(without(Seq::<u64>::empty(), id) == Seq::<u64>::empty());
    }
}

} // verus!
