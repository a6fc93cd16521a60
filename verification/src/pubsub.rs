//! The publish-subscribe registry and its subscribers.
use vstd::prelude::*;
use std::collections::HashMap;
use async_channel::{Receiver, Sender};
use crate::channel::{Received, ChannelCall, ChannelLog, Outbox, Inbox, open_channel};
use crate::model::{topic_views, entry_of, absent, subscribed, unsubscribed, lemma_subscribed_none,
    lemma_subscribed_push, lemma_unsubscribed_none, lemma_unsubscribed_push, lemma_without_removes, without,
    count_of, occurrences, lemma_occurrences_concat, lemma_occurrences_repeat, lemma_occurrences_contains,
    lemma_occurrences_without, lemma_entry_of_subscribed, lemma_entry_of_unsubscribed};
use crate::table::{TopicTable, TopicLists, topic_lists, table_new, table_get, table_insert};
use crate::error::PubsubError;
use crate::payload::Payload;

verus! {

broadcast use vstd::std_specs::hash::group_hash_axioms;

/// Who is subscribed to what: subscriber id to the topics it subscribed to.
pub type Subscriptions = Map<u64, Seq<Seq<char>>>;

/// A registered subscriber as the registry keeps it: the topics it
/// subscribed to and a sending end of its channel.
#[verifier::reject_recursive_types(P)]
struct Member<P> {
    topics: Vec<String>,
    outbox: Outbox<Payload<String, P>>,
}

/// A call the registry made on a subscriber's channel.
pub type Handout<P> = ChannelCall<Payload<String, P>>;

/// The handout is the message `topic` with a copy of `payload`, offered to
/// the channel of `tx`.
pub open spec fn sent_to<P: Clone>(h: Handout<P>, tx: Sender<Payload<String, P>>, topic: Seq<char>, payload: P) -> bool {
    match h {
        ChannelCall::Sent(to, msg) => to == tx && msg.topic@ == topic && vstd::pervasive::cloned(payload, msg.payload),
        _ => false,
    }
}

/// A publish-subscribe registry. Each topic maps to the ids of its
/// subscribers in the order in which they subscribed; a subscriber that
/// named a topic twice is listed twice. Publishing to a topic hands the
/// topic and a copy of the payload to the channel of each listed subscriber.
#[verifier::reject_recursive_types(P)]
pub struct Pubsub<P> {
    table: TopicTable,
    members: HashMap<u64, Member<P>>,
    next_id: u64,
    log: ChannelLog<Payload<String, P>>,
}

/// The receiving side of one subscription: its id in the registry and its
/// own channel. It keeps a sending end too, so its channel stays open after
/// it leaves the registry, until the registry closes it.
#[verifier::reject_recursive_types(P)]
pub struct Subscriber<P> {
    id: u64,
    inbox: Inbox<Payload<String, P>>,
}

impl<P> Subscriber<P> {
    /// The subscriber's id in its registry.
    pub closed spec fn key(&self) -> u64 {
        self.id
    }

    /// A subscriber with its own fresh channel, and the registry's end of
    /// that channel: the outbox sends to the subscriber's receiving end and
    /// holds the same sending handle; nothing has been sent or polled yet.
    fn new(id: u64) -> (made: (Self, Outbox<Payload<String, P>>))
        ensures
            made.0.key() == id,
            made.1.receiving_end() == made.0.receiving_end(),
            made.1.sending_end() == made.0.sending_end(),
            made.1.calls() == Seq::<Handout<P>>::empty(),
            made.0.polls() == Seq::<Handout<P>>::empty(),
    {
        let (outbox, inbox) = open_channel();
        (Subscriber { id, inbox }, outbox)
    }

    /// The subscriber's id in its registry.
    pub fn id(&self) -> (id: u64)
        ensures
            id == self.key(),
    {
        self.id
    }

    /// The sending end the subscriber keeps of its own channel.
    pub closed spec fn sending_end(&self) -> Sender<Payload<String, P>> {
        self.inbox.sending_end()
    }

    /// The receiving end of the subscriber's own channel, made with it.
    pub closed spec fn receiving_end(&self) -> Receiver<Payload<String, P>> {
        self.inbox.receiving_end()
    }

    /// The receiving end of the subscriber's channel, for waiting on it: the
    /// one made with the subscriber, the same on every call.
    pub fn receiver(&self) -> (rx: &Receiver<Payload<String, P>>)
        ensures
            *rx == self.receiving_end(),
    {
        self.inbox.receiver()
    }

    /// What a look into the channel means to the subscriber: a message as
    /// its topic and payload; nothing yet while the channel is open and
    /// empty; `PubsubError` once it is closed and empty.
    pub open spec fn outcome(received: Received<Payload<String, P>>) -> Result<Option<(String, P)>, PubsubError> {
        match received {
            Received::Message(p) => Ok(Some((p.topic, p.payload))),
            Received::Empty => Ok(None),
            Received::Closed => Err(PubsubError),
        }
    }

    /// A received message is returned whole: its topic and payload, as they
    /// were sent; an empty open channel gives nothing yet; a closed empty one
    /// gives `PubsubError`. No message is ever turned into `Ok(None)` or an
    /// error.
    pub proof fn law_received_message_returned_whole(m: Payload<String, P>)
        ensures
            Self::outcome(Received::Message(m)) == Ok::<Option<(String, P)>, PubsubError>(Some((m.topic, m.payload))),
            Self::outcome(Received::Empty) == Ok::<Option<(String, P)>, PubsubError>(None),
            Self::outcome(Received::Closed) == Err::<Option<(String, P)>, PubsubError>(PubsubError),
    {
    }

    /// What a look into the channel gives the subscriber (see `outcome`).
    pub fn recv_outcome(received: Received<Payload<String, P>>) -> (r: Result<Option<(String, P)>, PubsubError>)
        ensures
            r == Self::outcome(received),
            received matches Received::Message(m) ==> r == Ok::<Option<(String, P)>, PubsubError>(
                Some((m.topic, m.payload)),
            ),
            received is Empty ==> r == Ok::<Option<(String, P)>, PubsubError>(None),
            received is Closed ==> r == Err::<Option<(String, P)>, PubsubError>(PubsubError),
    {
        match received {
            Received::Message(p) => Ok(Some((p.topic, p.payload))),
            Received::Empty => Ok(None),
            Received::Closed => Err(PubsubError),
        }
    }

    /// The looks the subscriber has taken into its channel, oldest first.
    pub closed spec fn polls(&self) -> Seq<ChannelCall<Payload<String, P>>> {
        self.inbox.polls()
    }

    /// Takes the oldest waiting message without waiting: `Ok(Some(..))` with
    /// its topic and payload, `Ok(None)` when none is waiting yet, and
    /// `Err(PubsubError)` when none is waiting and none will come. It polls
    /// the subscriber's own receiving end once, and the result is what that
    /// poll found, read as in `outcome`.
    pub fn try_recv(&mut self) -> (r: Result<Option<(String, P)>, PubsubError>)
        ensures
            final(self).key() == old(self).key(),
            final(self).sending_end() == old(self).sending_end(),
            final(self).receiving_end() == old(self).receiving_end(),
            final(self).polls().len() == old(self).polls().len() + 1,
            final(self).polls().drop_last() == old(self).polls(),
            final(self).polls().last() matches ChannelCall::Polled(polled, got) && polled == old(self).receiving_end()
                && r == Self::outcome(got),
            final(self).polls().last() matches ChannelCall::Polled(_, Received::Message(m)) ==> r == Ok::<
                Option<(String, P)>,
                PubsubError,
            >(Some((m.topic, m.payload))),
            final(self).polls().last() matches ChannelCall::Polled(_, Received::Empty) ==> r == Ok::<
                Option<(String, P)>,
                PubsubError,
            >(None),
            final(self).polls().last() matches ChannelCall::Polled(_, Received::Closed) ==> r == Err::<
                Option<(String, P)>,
                PubsubError,
            >(PubsubError),
    {
        let got = self.inbox.poll();
        proof {
            assert(self.polls().drop_last() =~= old(self).polls());
        }
        Self::recv_outcome(got)
    }
}

/// The ids of `ids` other than `id`, in their order.
fn retain_others(ids: &Vec<u64>, id: u64) -> (kept: Vec<u64>)
    ensures
        kept@ == without(ids@, id),
{
    let mut kept: Vec<u64> = Vec::new();
    let mut i: usize = 0;
    while i < ids.len()
        invariant
            i <= ids.len(),
            kept@ == without(ids@.take(i as int), id),
        decreases ids.len() - i,
    {
        proof {
            assert(ids@.take(i + 1).drop_last() =~= ids@.take(i as int));
        }
        if ids[i] != id {
            kept.push(ids[i]);
        }
        i = i + 1;
    }
    proof {
        assert(ids@.take(ids@.len() as int) =~= ids@);
    }
    kept
}

impl<P> Pubsub<P> {
    /// The topic table: topic to subscriber ids, in subscription order.
    pub closed spec fn topics(&self) -> TopicLists {
        topic_lists(self.table)
    }

    /// Subscriber id to the topics it subscribed to, for every subscriber
    /// still registered.
    pub closed spec fn subscriptions(&self) -> Subscriptions {
        Map::new(
            |k: u64| self.members@.contains_key(k),
            |k: u64| topic_views(self.members@[k].topics@),
        )
    }

    /// The id the next subscriber gets.
    pub closed spec fn next_id(&self) -> u64 {
        self.next_id
    }

    /// The sending end through which the registry reaches subscriber `k`.
    pub closed spec fn sender_of(&self, k: u64) -> Sender<Payload<String, P>> {
        self.members@[k].outbox.sending_end()
    }

    /// The receiving end of the channel through which the registry reaches
    /// subscriber `k`.
    pub closed spec fn reaches(&self, k: u64) -> Receiver<Payload<String, P>> {
        self.members@[k].outbox.receiving_end()
    }

    /// Every call the registry made on subscriber `k`'s channel, oldest
    /// first: the only way the registry acts on that channel.
    pub closed spec fn channel_calls(&self, k: u64) -> Seq<Handout<P>> {
        self.members@[k].outbox.calls()
    }

    /// Since `before`, subscriber `k`'s channel was handed exactly `n` more
    /// calls, each the message `topic` with a copy of `payload`, and nothing
    /// else.
    pub open spec fn got_copies(&self, before: &Self, k: u64, n: nat, topic: Seq<char>, payload: P) -> bool
        where
            P: Clone,
    {
        &&& self.channel_calls(k).len() == before.channel_calls(k).len() + n
        &&& self.channel_calls(k).subrange(0, before.channel_calls(k).len() as int) == before.channel_calls(k)
        &&& forall|j: int|
            before.channel_calls(k).len() <= j < self.channel_calls(k).len() ==> sent_to(
                #[trigger] self.channel_calls(k)[j],
                before.sender_of(k),
                topic,
                payload,
            )
    }

    /// The same members, with the same topics and channel ends, as `before`
    /// and the same table and next id; only what was handed to channels may
    /// differ.
    closed spec fn same_shape(&self, before: &Self) -> bool {
        &&& self.table == before.table
        &&& self.next_id == before.next_id
        &&& self.members@.dom() == before.members@.dom()
        &&& forall|k: u64|
            {
                &&& (#[trigger] self.members@[k]).topics == before.members@[k].topics
                &&& self.members@[k].outbox.sending_end() == before.members@[k].outbox.sending_end()
                &&& self.members@[k].outbox.receiving_end() == before.members@[k].outbox.receiving_end()
            }
    }

    proof fn lemma_same_shape(a: &Self, b: &Self)
        requires
            a.wf(),
            b.same_shape(a),
        ensures
            b.wf(),
            b.same_registry(a),
            forall|k: u64| #[trigger] b.reaches(k) == a.reaches(k),
    {
        assert(b.topics() == a.topics());
        assert(b.subscriptions() =~= a.subscriptions()) by {
            assert forall|k: u64| #[trigger] b.subscriptions().contains_key(k) implies b.subscriptions()[k] == a.subscriptions()[k] by {
                assert(b.members@[k].topics == a.members@[k].topics);
            }
        }
        assert forall|k: u64| #[trigger] b.sender_of(k) == a.sender_of(k) by {
            assert(b.members@[k].topics == a.members@[k].topics);
        }
        assert forall|k: u64| #[trigger] b.reaches(k) == a.reaches(k) by {
            assert(b.members@[k].topics == a.members@[k].topics);
        }
    }

    /// Everything the registry has handed to subscribers' channels, oldest
    /// first.
    pub closed spec fn handouts(&self) -> Seq<Handout<P>> {
        self.log.calls()
    }

    /// The same topics, subscribers, sending ends and next id as `other`.
    pub open spec fn same_registry(&self, other: &Self) -> bool {
        &&& self.topics() == other.topics()
        &&& self.subscriptions() == other.subscriptions()
        &&& self.next_id() == other.next_id()
        &&& forall|k: u64| #[trigger] self.sender_of(k) == other.sender_of(k)
    }

    /// The handouts are those of `before` followed by `n` new ones.
    pub open spec fn handed_more(&self, before: &Self, n: nat) -> bool {
        &&& self.handouts().len() == before.handouts().len() + n
        &&& self.handouts().subrange(0, before.handouts().len() as int) == before.handouts()
    }

    /// The `i`-th handout made since `before`.
    pub open spec fn new_handout(&self, before: &Self, i: int) -> Handout<P> {
        self.handouts()[before.handouts().len() + i]
    }

    /// Every listed id belongs to a registered subscriber that subscribed to
    /// that topic; each registered subscriber is listed under each topic as
    /// many times as it named the topic; every registered id is below the
    /// next one.
    pub closed spec fn wf(&self) -> bool {
        &&& forall|t: Seq<char>, j: int|
            #![trigger self.topics()[t][j]]
            self.topics().contains_key(t) && 0 <= j < self.topics()[t].len() ==> {
                &&& self.subscriptions().contains_key(self.topics()[t][j])
                &&& self.subscriptions()[self.topics()[t][j]].contains(t)
            }
        &&& forall|k: u64, t: Seq<char>|
            #![trigger occurrences(entry_of(self.topics(), t), k)]
            self.subscriptions().contains_key(k) ==> occurrences(entry_of(self.topics(), t), k) == count_of(
                self.subscriptions()[k],
                t,
            )
        &&& forall|k: u64| #[trigger] self.subscriptions().contains_key(k) ==> k < self.next_id
    }

    /// A registry with no topic and no subscriber.
    pub fn new() -> (p: Self)
        ensures
            p.wf(),
            p.topics() == TopicLists::empty(),
            p.subscriptions() == Subscriptions::empty(),
            p.next_id() == 0,
            p.handouts() == Seq::<Handout<P>>::empty(),
    {
        let p = Pubsub { table: table_new(), members: HashMap::new(), next_id: 0, log: ChannelLog::new() };
        assert(p.subscriptions() =~= Subscriptions::empty());
        p
    }

    /// Appends `id` to the entry of every topic in `topics`, in order,
    /// creating the entries that do not exist yet.
    fn add_subscriber(&mut self, id: u64, topics: &Vec<String>)
        ensures
            final(self).topics() == subscribed(old(self).topics(), topic_views(topics@), id),
            final(self).members == old(self).members,
            final(self).next_id == old(self).next_id,
            final(self).log == old(self).log,
    {
        let ghost views = topic_views(topics@);
        proof {
            lemma_subscribed_none(old(self).topics(), id);
            assert(views.take(0) =~= Seq::<Seq<char>>::empty());
        }
        let mut i: usize = 0;
        while i < topics.len()
            invariant
                i <= topics.len(),
                views == topic_views(topics@),
                self.topics() == subscribed(old(self).topics(), views.take(i as int), id),
                self.members == old(self).members,
                self.next_id == old(self).next_id,
                self.log == old(self).log,
            decreases topics.len() - i,
        {
            let topic = &topics[i];
            let mut ids = match table_get(&self.table, topic) {
                Some(ids) => ids,
                None => Vec::new(),
            };
            ids.push(id);
            proof {
                lemma_subscribed_push(old(self).topics(), views.take(i as int), views[i as int], id);
                assert(views.take(i + 1) =~= views.take(i as int).push(views[i as int]));
            }
            table_insert(&mut self.table, topic.clone(), ids);
            i = i + 1;
        }
        proof {
            assert(views.take(topics@.len() as int) =~= views);
        }
    }

    /// Registers a subscriber for `topics` under the next id and returns it.
    /// Its id is new: no registered subscriber and no list holds it. The
    /// registry reaches it through the sending end the subscriber keeps, and
    /// nothing is handed to any channel.
    pub fn subscribe(&mut self, topics: Vec<String>) -> (sub: Subscriber<P>)
        requires
            old(self).wf(),
            old(self).next_id() < u64::MAX,
        ensures
            final(self).wf(),
            sub.key() == old(self).next_id(),
            final(self).next_id() == old(self).next_id() + 1,
            !old(self).subscriptions().contains_key(sub.key()),
            absent(old(self).topics(), sub.key()),
            final(self).topics() == subscribed(old(self).topics(), topic_views(topics@), sub.key()),
            final(self).subscriptions() == old(self).subscriptions().insert(sub.key(), topic_views(topics@)),
            final(self).sender_of(sub.key()) == sub.sending_end(),
            forall|k: u64| old(self).subscriptions().contains_key(k) ==> #[trigger] final(self).sender_of(k) == old(self).sender_of(k),
            final(self).handouts() == old(self).handouts(),
            final(self).reaches(sub.key()) == sub.receiving_end(),
            final(self).channel_calls(sub.key()) == Seq::<Handout<P>>::empty(),
            forall|k: u64|
                old(self).subscriptions().contains_key(k) ==> {
                    &&& #[trigger] final(self).channel_calls(k) == old(self).channel_calls(k)
                    &&& final(self).reaches(k) == old(self).reaches(k)
                },
    {
        let id = self.next_id;
        proof {
            assert forall|t: Seq<char>| #[trigger] old(self).topics().contains_key(t) implies !old(self).topics()[t].contains(id) by {
                if old(self).topics()[t].contains(id) {
                    let j = choose|j: int| 0 <= j < old(self).topics()[t].len() && old(self).topics()[t][j] == id;
                    assert(old(self).subscriptions().contains_key(old(self).topics()[t][j]));
                }
            }
        }
        let (sub, outbox) = Subscriber::new(id);
        self.add_subscriber(id, &topics);
        let member = Member { topics, outbox };
        self.members.insert(id, member);
        self.next_id = id + 1;
        proof {
            let views = topic_views(topics@);
            let old_t = old(self).topics();
            let new_t = self.topics();
            assert(self.subscriptions() =~= old(self).subscriptions().insert(id, views));
            assert forall|t: Seq<char>, j: int|
                #![trigger new_t[t][j]]
                new_t.contains_key(t) && 0 <= j < new_t[t].len() implies {
                    &&& self.subscriptions().contains_key(new_t[t][j])
                    &&& self.subscriptions()[new_t[t][j]].contains(t)
                } by {
                crate::model::lemma_count_contains(views, t);
                let e = entry_of(old_t, t);
                if j < e.len() {
                    assert(new_t[t][j] == old_t[t][j]);
                    assert(old(self).subscriptions().contains_key(old_t[t][j]));
                } else {
                    assert(new_t[t][j] == id);
                }
            }
            assert forall|k: u64, t: Seq<char>|
                #![trigger occurrences(entry_of(new_t, t), k)]
                self.subscriptions().contains_key(k) implies occurrences(entry_of(new_t, t), k) == count_of(
                    self.subscriptions()[k],
                    t,
                ) by {
                lemma_entry_of_subscribed(old_t, views, id, t);
                lemma_occurrences_concat(entry_of(old_t, t), crate::model::repeat(id, count_of(views, t)), k);
                lemma_occurrences_repeat(id, count_of(views, t), k);
                if k == id {
                    lemma_occurrences_contains(entry_of(old_t, t), id);
                } else {
                    assert(occurrences(entry_of(old_t, t), k) == count_of(old(self).subscriptions()[k], t));
                }
            }
        }
        sub
    }

    /// Takes every occurrence of `id` out of the entries of `topics`; a
    /// topic without an entry is passed over.
    fn remove_from_topics(&mut self, id: u64, topics: &Vec<String>)
        ensures
            final(self).topics() == unsubscribed(old(self).topics(), topic_views(topics@), id),
            final(self).members == old(self).members,
            final(self).next_id == old(self).next_id,
            final(self).log == old(self).log,
    {
        let ghost views = topic_views(topics@);
        proof {
            lemma_unsubscribed_none(old(self).topics(), id);
            assert(views.take(0) =~= Seq::<Seq<char>>::empty());
        }
        let mut i: usize = 0;
        while i < topics.len()
            invariant
                i <= topics.len(),
                views == topic_views(topics@),
                self.topics() == unsubscribed(old(self).topics(), views.take(i as int), id),
                self.members == old(self).members,
                self.next_id == old(self).next_id,
                self.log == old(self).log,
            decreases topics.len() - i,
        {
            let topic = &topics[i];
            proof {
                lemma_unsubscribed_push(old(self).topics(), views.take(i as int), views[i as int], id);
                assert(views.take(i + 1) =~= views.take(i as int).push(views[i as int]));
            }
            match table_get(&self.table, topic) {
                Some(ids) => {
                    let kept = retain_others(&ids, id);
                    table_insert(&mut self.table, topic.clone(), kept);
                },
                None => {},
            }
            i = i + 1;
        }
        proof {
            assert(views.take(topics@.len() as int) =~= views);
        }
    }

    /// The registry after subscriber `id` left `before`: its id is taken out
    /// of the entries of the topics it subscribed to and it is no longer
    /// registered.
    pub open spec fn left(&self, before: &Self, id: u64) -> bool {
        &&& self.topics() == unsubscribed(before.topics(), before.subscriptions()[id], id)
        &&& self.subscriptions() == before.subscriptions().remove(id)
    }

    /// The registry has the topics and subscribers of `before`.
    pub open spec fn kept(&self, before: &Self) -> bool {
        &&& self.topics() == before.topics()
        &&& self.subscriptions() == before.subscriptions()
    }

    /// Takes the subscriber out of the registry: its id leaves the entry of
    /// every topic it subscribed to, the other ids keep their order, and the
    /// entries stay even when they become empty. The subscriber is recognised
    /// by its id together with its channel: a subscriber that is not
    /// registered, or that carries a registered id with another channel (one
    /// of another registry), leaves the registry as it was. Nothing is handed
    /// to any channel.
    pub fn remove_subscriber(&mut self, sub: &Subscriber<P>)
        requires
            old(self).wf(),
        ensures
            final(self).wf(),
            final(self).next_id() == old(self).next_id(),
            final(self).handouts() == old(self).handouts(),
            forall|k: u64| final(self).subscriptions().contains_key(k) ==> #[trigger] final(self).sender_of(k) == old(self).sender_of(k),
            old(self).subscriptions().contains_key(sub.key()) && old(self).sender_of(sub.key()) == sub.sending_end()
                ==> final(self).left(&*old(self), sub.key()),
            !(old(self).subscriptions().contains_key(sub.key()) && old(self).sender_of(sub.key()) == sub.sending_end())
                ==> final(self).kept(&*old(self)),
            forall|k: u64|
                final(self).subscriptions().contains_key(k) ==> {
                    &&& #[trigger] final(self).channel_calls(k) == old(self).channel_calls(k)
                    &&& final(self).reaches(k) == old(self).reaches(k)
                },
    {
        let id = sub.id;
        let same = match self.members.get(&id) {
            Some(member) => member.outbox.pairs_with(&sub.inbox),
            None => false,
        };
        if !same {
            proof {
                assert(self.subscriptions() =~= old(self).subscriptions());
            }
            return;
        }
        match self.members.remove(&id) {
            Some(member) => {
                self.remove_from_topics(id, &member.topics);
                proof {
                    let old_t = old(self).topics();
                    let new_t = self.topics();
                    let ts = topic_views(member.topics@);
                    assert(self.subscriptions() =~= old(self).subscriptions().remove(id));
                    assert(old(self).subscriptions()[id] == ts);
                    assert forall|t: Seq<char>, j: int|
                        #![trigger new_t[t][j]]
                        new_t.contains_key(t) && 0 <= j < new_t[t].len() implies {
                            &&& self.subscriptions().contains_key(new_t[t][j])
                            &&& self.subscriptions()[new_t[t][j]].contains(t)
                        } by {
                        let k = new_t[t][j];
                        assert(new_t[t].contains(k));
                        if ts.contains(t) {
                            lemma_without_removes(old_t[t], id);
                            assert(k != id);
                            assert(old_t[t].contains(k));
                        } else {
                            assert(old_t[t][j] == k);
                        }
                        let j2 = choose|j2: int| 0 <= j2 < old_t[t].len() && old_t[t][j2] == k;
                        assert(old(self).subscriptions().contains_key(old_t[t][j2]));
                        assert(old(self).subscriptions()[k].contains(t));
                    }
                    assert forall|k: u64, t: Seq<char>|
                        #![trigger occurrences(entry_of(new_t, t), k)]
                        self.subscriptions().contains_key(k) implies occurrences(entry_of(new_t, t), k) == count_of(
                            self.subscriptions()[k],
                            t,
                        ) by {
                        lemma_entry_of_unsubscribed(old_t, ts, id, t);
                        lemma_occurrences_without(entry_of(old_t, t), id, k);
                        assert(occurrences(entry_of(old_t, t), k) == count_of(old(self).subscriptions()[k], t));
                    }
                    assert(forall|k: u64| #[trigger] self.subscriptions().contains_key(k) ==> k < self.next_id);
                }
            },
            None => {
                proof {
                    assert(self.subscriptions() =~= old(self).subscriptions());
                }
            },
        }
    }

    /// Offers `msg` through the outbox of registered subscriber `id`,
    /// recording the call there and in the registry's log; nothing else
    /// changes.
    fn send_to_member(&mut self, id: u64, msg: Payload<String, P>)
        requires
            old(self).members@.contains_key(id),
        ensures
            final(self).same_shape(&*old(self)),
            forall|k: u64| k != id ==> #[trigger] final(self).members@[k] == old(self).members@[k],
            final(self).channel_calls(id) == old(self).channel_calls(id).push(ChannelCall::Sent(old(self).sender_of(id), msg)),
            final(self).log.calls() == old(self).log.calls().push(ChannelCall::Sent(old(self).sender_of(id), msg)),
    {
        let mut member = self.members.remove(&id).unwrap();
        member.outbox.send(&mut self.log, msg);
        self.members.insert(id, member);
        proof {
            assert(self.members@.dom() =~= old(self).members@.dom());
            assert forall|k: u64| k != id implies #[trigger] self.members@[k] == old(self).members@[k] by {
                assert(self.members@[k] == old(self).members@.remove(id)[k]);
            }
        }
    }

    /// Closes the channel of registered subscriber `id` through its outbox,
    /// recording the call there and in the registry's log; nothing else
    /// changes.
    fn close_member(&mut self, id: u64)
        requires
            old(self).members@.contains_key(id),
        ensures
            final(self).same_shape(&*old(self)),
            forall|k: u64| k != id ==> #[trigger] final(self).members@[k] == old(self).members@[k],
            final(self).channel_calls(id) == old(self).channel_calls(id).push(ChannelCall::Closed(old(self).sender_of(id))),
            final(self).log.calls() == old(self).log.calls().push(ChannelCall::Closed(old(self).sender_of(id))),
    {
        let mut member = self.members.remove(&id).unwrap();
        member.outbox.close(&mut self.log);
        self.members.insert(id, member);
        proof {
            assert(self.members@.dom() =~= old(self).members@.dom());
            assert forall|k: u64| k != id implies #[trigger] self.members@[k] == old(self).members@[k] by {
                assert(self.members@[k] == old(self).members@.remove(id)[k]);
            }
        }
    }

    /// Hands `topic` and a copy of `payload` to the channel of every
    /// subscriber listed for `topic`, in the order of the list, and returns
    /// the ids it handed them to: exactly that list, empty when the topic has
    /// no entry. Each registered subscriber's channel is handed one copy per
    /// time the subscriber named the topic, and nothing else. The registry
    /// itself is unchanged. A closed channel refuses the message; the others
    /// are still offered theirs.
    pub fn deliver(&mut self, topic: &String, payload: P) -> (reached: Vec<u64>)
        where
            P: Clone,
        requires
            old(self).wf(),
        ensures
            final(self).wf(),
            final(self).same_registry(&*old(self)),
            reached@ == entry_of(old(self).topics(), topic@),
            final(self).handed_more(&*old(self), reached@.len()),
            forall|i: int|
                0 <= i < reached@.len() ==> sent_to(
                    #[trigger] final(self).new_handout(&*old(self), i),
                    old(self).sender_of(reached@[i]),
                    topic@,
                    payload,
                ),
            forall|k: u64|
                old(self).subscriptions().contains_key(k) ==> #[trigger] final(self).got_copies(
                    &*old(self),
                    k,
                    count_of(old(self).subscriptions()[k], topic@),
                    topic@,
                    payload,
                ),
            forall|k: u64| #[trigger] final(self).reaches(k) == old(self).reaches(k),
    {
        let mut reached: Vec<u64> = Vec::new();
        let ghost start = self.log.calls();
        let ids = match table_get(&self.table, topic) {
            Some(ids) => ids,
            None => Vec::new(),
        };
        proof {
            assert(ids@ == entry_of(old(self).topics(), topic@));
            assert(ids@.take(0) =~= Seq::<u64>::empty());
            assert forall|k: u64| #[trigger] self.got_copies(&*old(self), k, occurrences(ids@.take(0), k), topic@, payload) by {
                assert(self.channel_calls(k).subrange(0, old(self).channel_calls(k).len() as int) =~= old(self).channel_calls(k));
            }
        }
        let mut i: usize = 0;
        while i < ids.len()
            invariant
                i <= ids.len(),
                old(self).wf(),
                self.same_shape(&*old(self)),
                start == old(self).log.calls(),
                ids@ == entry_of(old(self).topics(), topic@),
                reached@ == ids@.take(i as int),
                self.log.calls().len() == start.len() + i,
                self.log.calls().subrange(0, start.len() as int) == start,
                forall|n: int|
                    0 <= n < i ==> sent_to(
                        #[trigger] self.log.calls()[start.len() + n],
                        old(self).sender_of(ids@[n]),
                        topic@,
                        payload,
                    ),
                forall|k: u64| #[trigger] self.got_copies(&*old(self), k, occurrences(ids@.take(i as int), k), topic@, payload),
            decreases ids.len() - i,
        {
            let id = ids[i];
            proof {
                assert(old(self).topics()[topic@][i as int] == id);
                assert(old(self).subscriptions().contains_key(id));
                assert(ids@.take(i + 1) =~= ids@.take(i as int).push(id));
                assert(ids@.take(i + 1).drop_last() =~= ids@.take(i as int));
            }
            let copy = payload.clone();
            let ghost before = *self;
            self.send_to_member(id, Payload::new(topic.clone(), copy));
            proof {
                assert(self.log.calls().subrange(0, start.len() as int) =~= start);
                assert forall|k: u64| #[trigger] self.got_copies(&*old(self), k, occurrences(ids@.take(i + 1), k), topic@, payload) by {
                    assert(before.got_copies(&*old(self), k, occurrences(ids@.take(i as int), k), topic@, payload));
                    let o = old(self).channel_calls(k);
                    if k == id {
                        assert(self.channel_calls(k).subrange(0, o.len() as int) =~= before.channel_calls(k).subrange(0, o.len() as int));
                        assert(old(self).sender_of(id) == before.sender_of(id));
                    } else {
                        assert(self.members@[k] == before.members@[k]);
                    }
                }
            }
            reached.push(id);
            i = i + 1;
        }
        proof {
            assert(ids@.take(ids@.len() as int) =~= ids@);
            Self::lemma_same_shape(old(self), self);
            assert forall|k: u64| old(self).subscriptions().contains_key(k) implies #[trigger] self.got_copies(
                &*old(self),
                k,
                count_of(old(self).subscriptions()[k], topic@),
                topic@,
                payload,
            ) by {
                assert(occurrences(entry_of(old(self).topics(), topic@), k) == count_of(old(self).subscriptions()[k], topic@));
            }
        }
        reached
    }

    /// Publishes `payload` to `topic`: every subscriber listed for the topic
    /// is handed the topic and its own copy of the payload, in list order,
    /// one copy per time it named the topic; no other call is made on any
    /// channel and the registry is unchanged.
    pub fn publish(&mut self, topic: String, payload: P)
        where
            P: Clone,
        requires
            old(self).wf(),
        ensures
            final(self).wf(),
            final(self).same_registry(&*old(self)),
            final(self).handed_more(&*old(self), entry_of(old(self).topics(), topic@).len()),
            forall|i: int|
                0 <= i < entry_of(old(self).topics(), topic@).len() ==> sent_to(
                    #[trigger] final(self).new_handout(&*old(self), i),
                    old(self).sender_of(entry_of(old(self).topics(), topic@)[i]),
                    topic@,
                    payload,
                ),
            forall|k: u64|
                old(self).subscriptions().contains_key(k) ==> #[trigger] final(self).got_copies(
                    &*old(self),
                    k,
                    count_of(old(self).subscriptions()[k], topic@),
                    topic@,
                    payload,
                ),
            forall|k: u64| #[trigger] final(self).reaches(k) == old(self).reaches(k),
    {
        let _reached = self.deliver(&topic, payload);
    }

    /// Closes the channel of every registered subscriber, so that each of
    /// them, once it has taken the messages already sent, receives
    /// `PubsubError`. Returns the ids whose channels it closed: each
    /// registered id once, in the order the subscriber map yields them. Each
    /// registered subscriber's channel is handed exactly that one close and
    /// nothing else. The registry itself is unchanged.
    pub fn close_all(&mut self) -> (closed: Vec<u64>)
        requires
            old(self).wf(),
        ensures
            final(self).wf(),
            final(self).same_registry(&*old(self)),
            closed@.no_duplicates(),
            forall|k: u64| closed@.contains(k) <==> old(self).subscriptions().contains_key(k),
            final(self).handed_more(&*old(self), closed@.len()),
            forall|i: int|
                0 <= i < closed@.len() ==> #[trigger] final(self).new_handout(&*old(self), i) == ChannelCall::Closed(
                    old(self).sender_of(closed@[i]),
                ),
            forall|k: u64|
                old(self).subscriptions().contains_key(k) ==> #[trigger] final(self).channel_calls(k)
                    == old(self).channel_calls(k).push(ChannelCall::Closed(old(self).sender_of(k))),
            forall|k: u64| #[trigger] final(self).reaches(k) == old(self).reaches(k),
    {
        let ids = self.registered_ids();
        let ghost start = self.log.calls();
        let mut closed: Vec<u64> = Vec::new();
        let mut i: usize = 0;
        while i < ids.len()
            invariant
                i <= ids.len(),
                old(self).wf(),
                self.same_shape(&*old(self)),
                start == old(self).log.calls(),
                ids@.no_duplicates(),
                forall|k: u64| ids@.contains(k) <==> old(self).members@.contains_key(k),
                closed@ == ids@.take(i as int),
                self.log.calls().len() == start.len() + i,
                self.log.calls().subrange(0, start.len() as int) == start,
                forall|n: int|
                    0 <= n < i ==> #[trigger] self.log.calls()[start.len() + n] == ChannelCall::Closed(
                        old(self).sender_of(ids@[n]),
                    ),
                forall|k: u64|
                    #[trigger] self.channel_calls(k) == if ids@.take(i as int).contains(k) {
                        old(self).channel_calls(k).push(ChannelCall::Closed(old(self).sender_of(k)))
                    } else {
                        old(self).channel_calls(k)
                    },
            decreases ids.len() - i,
        {
            let id = ids[i];
            proof {
                assert(ids@.contains(id));
                assert(!ids@.take(i as int).contains(id)) by {
                    if ids@.take(i as int).contains(id) {
                        let n = choose|n: int| 0 <= n < i && ids@.take(i as int)[n] == id;
                        assert(ids@[n] == ids@[i as int]);
                    }
                }
                assert(ids@.take(i + 1) =~= ids@.take(i as int).push(id));
            }
            let ghost before = *self;
            self.close_member(id);
            proof {
                assert(self.log.calls().subrange(0, start.len() as int) =~= start);
                assert forall|k: u64|
                    #[trigger] self.channel_calls(k) == if ids@.take(i + 1).contains(k) {
                        old(self).channel_calls(k).push(ChannelCall::Closed(old(self).sender_of(k)))
                    } else {
                        old(self).channel_calls(k)
                    } by {
                    let cur = ids@.take(i as int);
                    let next = ids@.take(i + 1);
                    assert(next.contains(k) <==> (cur.contains(k) || k == id)) by {
                        if next.contains(k) && k != id {
                            let n = choose|n: int| 0 <= n < next.len() && next[n] == k;
                            assert(cur[n] == k);
                        }
                        if cur.contains(k) {
                            let n = choose|n: int| 0 <= n < cur.len() && cur[n] == k;
                            assert(next[n] == k);
                        }
                        assert(next[i as int] == id);
                    }
                    if k != id {
                        assert(self.members@[k] == before.members@[k]);
                        assert(self.channel_calls(k) == before.channel_calls(k));
                    } else {
                        assert(old(self).sender_of(id) == before.sender_of(id));
                        assert(before.channel_calls(id) == old(self).channel_calls(id));
                    }
                }
            }
            closed.push(id);
            i = i + 1;
        }
        proof {
            assert(ids@.take(ids@.len() as int) =~= ids@);
            Self::lemma_same_shape(old(self), self);
        }
        closed
    }

    /// A subscriber gets what is published to the topics it named: after it
    /// subscribes to `ts`, a publish of `x` to `t` hands its channel (the one
    /// whose receiving end it polls) exactly one copy of `(t, x)` per time
    /// `t` occurs in `ts`, and nothing else; at least one when it named `t`.
    pub proof fn law_subscriber_gets_published_messages(
        p0: &Self,
        p1: &Self,
        sub: &Subscriber<P>,
        ts: Seq<Seq<char>>,
        p2: &Self,
        t: Seq<char>,
        x: P,
    )
        where
            P: Clone,
        requires
            p1.wf(),
            p1.subscriptions() == p0.subscriptions().insert(sub.key(), ts),
            p1.reaches(sub.key()) == sub.receiving_end(),
            p1.channel_calls(sub.key()) == Seq::<Handout<P>>::empty(),
            p2.got_copies(p1, sub.key(), count_of(p1.subscriptions()[sub.key()], t), t, x),
            p2.reaches(sub.key()) == p1.reaches(sub.key()),
        ensures
            p2.reaches(sub.key()) == sub.receiving_end(),
            p2.channel_calls(sub.key()).len() == count_of(ts, t),
            forall|j: int|
                0 <= j < p2.channel_calls(sub.key()).len() ==> sent_to(
                    #[trigger] p2.channel_calls(sub.key())[j],
                    p1.sender_of(sub.key()),
                    t,
                    x,
                ),
            ts.contains(t) ==> p2.channel_calls(sub.key()).len() >= 1,
    {
        crate::model::lemma_count_contains(ts, t);
    }

    /// A subscriber leaving spares the others: every subscriber still
    /// registered keeps its channel, nothing is done to that channel, and a
    /// later publish to `t` hands it one copy per time it named `t`, as if
    /// the other had never left.
    pub proof fn law_leaving_spares_others(p0: &Self, id: u64, p1: &Self, k: u64, p2: &Self, t: Seq<char>, x: P)
        where
            P: Clone,
        requires
            p0.wf(),
            p1.left(p0, id) || p1.kept(p0),
            forall|j: u64| p1.subscriptions().contains_key(j) ==> #[trigger] p1.sender_of(j) == p0.sender_of(j),
            forall|j: u64|
                p1.subscriptions().contains_key(j) ==> {
                    &&& #[trigger] p1.channel_calls(j) == p0.channel_calls(j)
                    &&& p1.reaches(j) == p0.reaches(j)
                },
            p1.subscriptions().contains_key(k),
            p2.got_copies(p1, k, count_of(p1.subscriptions()[k], t), t, x),
            p2.reaches(k) == p1.reaches(k),
        ensures
            p0.subscriptions().contains_key(k),
            p2.reaches(k) == p0.reaches(k),
            p2.got_copies(p0, k, count_of(p0.subscriptions()[k], t), t, x),
    {
        assert(p1.subscriptions()[k] == p0.subscriptions()[k]);
        assert(p1.sender_of(k) == p0.sender_of(k));
        assert(p1.channel_calls(k) == p0.channel_calls(k));
    }

    /// A publish to a topic that no one is listed under does nothing to any
    /// channel: every registered subscriber's channel is handed nothing and
    /// the registry's record of handouts does not grow.
    pub proof fn law_publish_to_empty_topic_does_nothing(p0: &Self, p1: &Self, t: Seq<char>, x: P)
        where
            P: Clone,
        requires
            p0.wf(),
            entry_of(p0.topics(), t).len() == 0,
            p1.handed_more(p0, entry_of(p0.topics(), t).len()),
            forall|k: u64|
                p0.subscriptions().contains_key(k) ==> #[trigger] p1.got_copies(
                    p0,
                    k,
                    count_of(p0.subscriptions()[k], t),
                    t,
                    x,
                ),
        ensures
            p1.handouts() == p0.handouts(),
            forall|k: u64| p0.subscriptions().contains_key(k) ==> #[trigger] p1.channel_calls(k) == p0.channel_calls(k),
    {
        p0.law_listed_once_per_naming();
        assert(p1.handouts() =~= p1.handouts().subrange(0, p0.handouts().len() as int));
        assert forall|k: u64| p0.subscriptions().contains_key(k) implies #[trigger] p1.channel_calls(k) == p0.channel_calls(k) by {
            assert(occurrences(entry_of(p0.topics(), t), k) == count_of(p0.subscriptions()[k], t));
            assert(entry_of(p0.topics(), t) =~= Seq::<u64>::empty());
            assert(p1.got_copies(p0, k, count_of(p0.subscriptions()[k], t), t, x));
            assert(p1.channel_calls(k) =~= p1.channel_calls(k).subrange(0, p0.channel_calls(k).len() as int));
        }
    }

    /// Each registered subscriber is handed, by one publish, exactly as many
    /// copies as the number of times it is listed under the topic, which is
    /// the number of times it named the topic: a subscriber that named it
    /// once gets one copy, never two.
    pub proof fn law_one_copy_per_naming(p0: &Self, p1: &Self, t: Seq<char>, x: P, k: u64)
        where
            P: Clone,
        requires
            p0.wf(),
            p0.subscriptions().contains_key(k),
            p1.got_copies(p0, k, count_of(p0.subscriptions()[k], t), t, x),
        ensures
            p1.channel_calls(k).len() == p0.channel_calls(k).len() + occurrences(entry_of(p0.topics(), t), k),
            count_of(p0.subscriptions()[k], t) == 1 ==> p1.channel_calls(k).len() == p0.channel_calls(k).len() + 1,
    {
        p0.law_listed_once_per_naming();
        assert(occurrences(entry_of(p0.topics(), t), k) == count_of(p0.subscriptions()[k], t));
    }

    /// In every state the registry reaches, each registered subscriber is
    /// listed under each topic exactly as many times as it named the topic
    /// when it subscribed (not at all under topics it did not name).
    pub proof fn law_listed_once_per_naming(&self)
        requires
            self.wf(),
        ensures
            forall|k: u64, t: Seq<char>|
                #![trigger occurrences(entry_of(self.topics(), t), k)]
                self.subscriptions().contains_key(k) ==> occurrences(entry_of(self.topics(), t), k)
                    == count_of(self.subscriptions()[k], t),
    {
    }

    /// In every state the registry reaches, every id listed under a topic
    /// belongs to a registered subscriber that named that topic when it
    /// subscribed, and every registered id is below the next id to be given.
    pub proof fn law_listed_are_registered(&self)
        requires
            self.wf(),
        ensures
            forall|t: Seq<char>, j: int|
                #![trigger self.topics()[t][j]]
                self.topics().contains_key(t) && 0 <= j < self.topics()[t].len() ==> {
                    &&& self.subscriptions().contains_key(self.topics()[t][j])
                    &&& self.subscriptions()[self.topics()[t][j]].contains(t)
                },
            forall|k: u64| #[trigger] self.subscriptions().contains_key(k) ==> k < self.next_id(),
    {
    }

    /// Handouts keep the order of the calls that made them: after two
    /// calls in a row, the first call's handouts come first, then the
    /// second's; so a subscriber reached by two publishes is handed the
    /// first message before the second.
    pub proof fn law_handouts_in_call_order(p0: &Self, p1: &Self, p2: &Self, n1: nat, n2: nat)
        requires
            p1.handed_more(p0, n1),
            p2.handed_more(p1, n2),
        ensures
            p2.handed_more(p0, n1 + n2),
            forall|i: int| 0 <= i < n1 ==> #[trigger] p2.new_handout(p0, i) == p1.new_handout(p0, i),
            forall|j: int| 0 <= j < n2 ==> #[trigger] p2.new_handout(p0, n1 + j) == p2.new_handout(p1, j),
    {
        let h0 = p0.handouts();
        let h1 = p1.handouts();
        let h2 = p2.handouts();
        assert(h2.subrange(0, h0.len() as int) =~= h0) by {
            assert forall|i: int| 0 <= i < h0.len() implies h2[i] == h0[i] by {
                assert(h2[i] == h2.subrange(0, h1.len() as int)[i]);
                assert(h1[i] == h1.subrange(0, h0.len() as int)[i]);
            }
        }
        assert forall|i: int| 0 <= i < n1 implies #[trigger] p2.new_handout(p0, i) == p1.new_handout(p0, i) by {
            assert(h2[h0.len() + i] == h2.subrange(0, h1.len() as int)[h0.len() + i]);
        }
    }

    /// What a subscriber gets of a publish: a publish to `topic` that hands
    /// out what `publish` promises offers registered subscriber `k` the
    /// message exactly as many times as `k` named the topic, each time
    /// through `k`'s sending end.
    pub proof fn law_publish_reaches_subscriber(before: &Self, after: &Self, topic: Seq<char>, payload: P, k: u64)
        where
            P: Clone,
        requires
            before.wf(),
            before.subscriptions().contains_key(k),
            after.handed_more(before, entry_of(before.topics(), topic).len()),
            forall|i: int|
                0 <= i < entry_of(before.topics(), topic).len() ==> sent_to(
                    #[trigger] after.new_handout(before, i),
                    before.sender_of(entry_of(before.topics(), topic)[i]),
                    topic,
                    payload,
                ),
        ensures
            occurrences(entry_of(before.topics(), topic), k) == count_of(before.subscriptions()[k], topic),
            forall|i: int|
                0 <= i < entry_of(before.topics(), topic).len() && entry_of(before.topics(), topic)[i] == k
                    ==> sent_to(#[trigger] after.new_handout(before, i), before.sender_of(k), topic, payload),
    {
        before.law_listed_once_per_naming();
    }

    /// Well-formedness depends on the table, the members and the next id
    /// alone.
    proof fn lemma_wf_frame(a: &Self, b: &Self)
        requires
            a.wf(),
            a.table == b.table,
            a.members == b.members,
            a.next_id == b.next_id,
        ensures
            b.wf(),
    {
        assert(a.topics() == b.topics());
        assert(a.subscriptions() =~= b.subscriptions());
    }

    /// The ids of all registered subscribers, each once.
    fn registered_ids(&self) -> (ids: Vec<u64>)
        ensures
            ids@.no_duplicates(),
            forall|k: u64| ids@.contains(k) <==> self.members@.contains_key(k),
    {
        let mut ids: Vec<u64> = Vec::new();
        let ghost r = vstd::std_specs::iter::IteratorSpec::remaining(&vstd::std_specs::hash::spec_keys_iter(&self.members));
        for k in it: self.members.keys()
            invariant
                it.seq() == r,
                ids@.len() == it.index(),
                forall|i: int| 0 <= i < it.index() ==> ids@[i] == *r[i],
        {
            ids.push(*k);
        }
        proof {
            assert(ids@.len() == r.len());
            assert(ids@ =~= r.unref());
        }
        ids
    }

    /// Whether another subscriber can still get an id of its own.
    pub fn can_subscribe(&self) -> (ok: bool)
        ensures
            ok == (self.next_id() < u64::MAX),
    {
        self.next_id < u64::MAX
    }

    /// The number of subscribers listed for `topic`, a subscriber once per
    /// time it named the topic; `None` when no one ever subscribed to it.
    pub fn subscriber_count(&self, topic: &String) -> (n: Option<usize>)
        ensures
            n is Some <==> self.topics().contains_key(topic@),
            n matches Some(c) ==> c == self.topics()[topic@].len(),
    {
        match table_get(&self.table, topic) {
            Some(ids) => Some(ids.len()),
            None => None,
        }
    }
}

} // verus!
