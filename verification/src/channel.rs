//! The subscribers' mailboxes: unbounded `async_channel` channels. The state
//! of a channel is shared between its senders and receivers and changes
//! behind shared references, so no wrapper here names it: each says only what
//! holds of every outcome, and the library's own functions decide what each
//! outcome means. What the library does to channels is stated: the wrappers
//! are private to this module, and channels are reached only through an
//! `Outbox` (the registry's end, which sends and closes) and an `Inbox` (the
//! subscriber's end, which polls). Each records every call made through it,
//! and an outbox knows the receiving end of its own channel.
use vstd::prelude::*;
use async_channel::{Receiver, Sender, TryRecvError};

verus! {

#[verifier::external_type_specification]
#[verifier::external_body]
#[verifier::reject_recursive_types(T)]
pub struct ExSender<T>(Sender<T>);

#[verifier::external_type_specification]
#[verifier::external_body]
#[verifier::reject_recursive_types(T)]
pub struct ExReceiver<T>(Receiver<T>);

/// What a non-blocking look into a channel found.
pub enum Received<M> {
    /// The oldest message not yet taken.
    Message(M),
    /// No message is waiting and the channel is still open.
    Empty,
    /// No message is waiting and the channel is closed: none will come.
    Closed,
}

/// A sending handle together with the receiving end of its channel, as
/// one `unbounded()` call made them.
#[verifier::reject_recursive_types(T)]
pub struct SendEnd<T> {
    tx: Sender<T>,
    partner: Ghost<Receiver<T>>,
}

impl<T> SendEnd<T> {
    /// The sending handle.
    pub closed spec fn sending_end(&self) -> Sender<T> {
        self.tx
    }

    /// The receiving end of the same channel.
    pub closed spec fn receiving_end(&self) -> Receiver<T> {
        self.partner@
    }
}

/// `async_channel::unbounded`: a fresh channel with no message and no
/// capacity limit. It returns the sending end paired with (a record of) the
/// receiving end of the same channel, and that receiving end.
#[verifier::external_body]
fn channel_unbounded<T>() -> (ends: (SendEnd<T>, Receiver<T>))
    ensures
        ends.0.receiving_end() == ends.1,
{
    let (tx, rx) = async_channel::unbounded();
    (SendEnd { tx, partner: Ghost(rx) }, rx)
}

/// `Clone` of `async_channel::Sender`: another sending end of the same
/// channel. A `Sender` is a shared handle on its channel, so the clone is
/// the same handle value.
#[verifier::external_body]
fn sender_clone<T>(tx: &Sender<T>) -> (r: Sender<T>)
    ensures
        r == *tx,
{
    tx.clone()
}

/// `Sender::same_channel`: whether two sending ends belong to one channel.
/// A sending end is a shared handle on its channel (clones are the same
/// handle value), so this is whether the two handles are the same.
#[verifier::external_body]
fn senders_share_channel<T>(a: &Sender<T>, b: &Sender<T>) -> (r: bool)
    ensures
        r == (*a == *b),
{
    a.same_channel(b)
}

/// A call the library made on a channel.
#[verifier::reject_recursive_types(T)]
pub enum ChannelCall<T> {
    /// The message was offered to the channel of this sending end.
    Sent(Sender<T>, T),
    /// The channel of this sending end was closed.
    Closed(Sender<T>),
    /// The channel of this receiving end was polled, and this was found.
    Polled(Receiver<T>, Received<T>),
}

/// The record of the calls made on channels through the wrappers of this
/// module, oldest first. Only those wrappers extend it.
#[verifier::reject_recursive_types(T)]
pub struct ChannelLog<T> {
    calls: Ghost<Seq<ChannelCall<T>>>,
}

impl<T> ChannelLog<T> {
    /// The calls recorded so far, oldest first.
    pub closed spec fn calls(&self) -> Seq<ChannelCall<T>> {
        self.calls@
    }

    /// A record with no call in it.
    pub fn new() -> (log: Self)
        ensures
            log.calls() == Seq::<ChannelCall<T>>::empty(),
    {
        ChannelLog { calls: Ghost(Seq::empty()) }
    }
}

/// `Sender::try_send`: offers `msg` to the channel of `tx`, which queues it
/// unless the channel is closed; an unbounded channel is never full. Whether
/// it was closed depends on the channel's shared state, so that is not
/// stated. The call is recorded in `log`.
#[verifier::external_body]
fn channel_send<T>(log: &mut ChannelLog<T>, tx: &Sender<T>, msg: T)
    ensures
        final(log).calls() == old(log).calls().push(ChannelCall::Sent(*tx, msg)),
{
    let _accepted = tx.try_send(msg).is_ok();
}

/// `Sender::close`: closes the channel of `tx`; messages already queued can
/// still be received, and once they are, every receive reports the channel
/// closed. Whether this call was the one that closed it depends on the
/// channel's shared state and is not returned. The call is recorded in `log`.
#[verifier::external_body]
fn channel_close<T>(log: &mut ChannelLog<T>, tx: &Sender<T>)
    ensures
        final(log).calls() == old(log).calls().push(ChannelCall::Closed(*tx)),
{
    let _closed_now = tx.close();
}

/// `Receiver::try_recv`, its outcome told apart: the oldest queued message,
/// or that none is queued and whether the channel is closed. Which outcome
/// comes depends on the channel's shared state and is not stated. The call
/// and its outcome are recorded in `log`.
#[verifier::external_body]
fn channel_poll<T>(log: &mut ChannelLog<T>, rx: &Receiver<T>) -> (got: Received<T>)
    ensures
        final(log).calls() == old(log).calls().push(ChannelCall::Polled(*rx, got)),
{
    match rx.try_recv() {
        Ok(msg) => Received::Message(msg),
        Err(TryRecvError::Empty) => Received::Empty,
        Err(TryRecvError::Closed) => Received::Closed,
    }
}

/// The registry's end of one subscriber's channel: the only handle through
/// which anything is sent on that channel or the channel closed. It records
/// every such call, and it knows the receiving end of its channel.
#[verifier::reject_recursive_types(T)]
pub struct Outbox<T> {
    end: SendEnd<T>,
    calls: ChannelLog<T>,
}

/// A subscriber's end of its channel: the receiving end, and a sending end
/// kept only so that the channel stays open while the subscriber lives. It
/// records every poll.
#[verifier::reject_recursive_types(T)]
pub struct Inbox<T> {
    tx: Sender<T>,
    rx: Receiver<T>,
    polls: ChannelLog<T>,
}

/// A fresh channel, split into the registry's end and the subscriber's end.
/// Both come from one `unbounded()` call: the outbox sends to the inbox's
/// receiving end, and both hold the same sending handle. Neither end has
/// any call recorded yet.
pub(crate) fn open_channel<T>() -> (ends: (Outbox<T>, Inbox<T>))
    ensures
        ends.0.receiving_end() == ends.1.receiving_end(),
        ends.0.sending_end() == ends.1.sending_end(),
        ends.0.calls() == Seq::<ChannelCall<T>>::empty(),
        ends.1.polls() == Seq::<ChannelCall<T>>::empty(),
{
    let (end, rx) = channel_unbounded();
    let kept = sender_clone(&end.tx);
    let outbox = Outbox { end, calls: ChannelLog::new() };
    let inbox = Inbox { tx: kept, rx, polls: ChannelLog::new() };
    (outbox, inbox)
}

impl<T> Outbox<T> {
    /// The sending handle of the channel.
    pub closed spec fn sending_end(&self) -> Sender<T> {
        self.end.sending_end()
    }

    /// The receiving end of the channel this outbox sends to.
    pub closed spec fn receiving_end(&self) -> Receiver<T> {
        self.end.receiving_end()
    }

    /// Every call made through this outbox, oldest first.
    pub closed spec fn calls(&self) -> Seq<ChannelCall<T>> {
        self.calls.calls()
    }

    /// Offers `msg` to the channel (see `channel_send`); the call is
    /// recorded both here and in `all`.
    pub(crate) fn send(&mut self, all: &mut ChannelLog<T>, msg: T)
        ensures
            final(self).sending_end() == old(self).sending_end(),
            final(self).receiving_end() == old(self).receiving_end(),
            final(self).calls() == old(self).calls().push(ChannelCall::Sent(old(self).sending_end(), msg)),
            final(all).calls() == old(all).calls().push(ChannelCall::Sent(old(self).sending_end(), msg)),
    {
        let ghost m = msg;
        channel_send(&mut self.calls, &self.end.tx, msg);
        proof {
            all.calls@ = all.calls@.push(ChannelCall::Sent(self.end.tx, m));
        }
    }

    /// Closes the channel (see `channel_close`); the call is recorded both
    /// here and in `all`.
    pub(crate) fn close(&mut self, all: &mut ChannelLog<T>)
        ensures
            final(self).sending_end() == old(self).sending_end(),
            final(self).receiving_end() == old(self).receiving_end(),
            final(self).calls() == old(self).calls().push(ChannelCall::Closed(old(self).sending_end())),
            final(all).calls() == old(all).calls().push(ChannelCall::Closed(old(self).sending_end())),
    {
        channel_close(&mut self.calls, &self.end.tx);
        proof {
            all.calls@ = all.calls@.push(ChannelCall::Closed(self.end.tx));
        }
    }

    /// Whether this outbox and `inbox` hold the same sending handle, that
    /// is, belong to one channel.
    pub(crate) fn pairs_with(&self, inbox: &Inbox<T>) -> (r: bool)
        ensures
            r == (self.sending_end() == inbox.sending_end()),
    {
        senders_share_channel(&self.end.tx, &inbox.tx)
    }
}

impl<T> Inbox<T> {
    /// The sending handle the inbox keeps.
    pub closed spec fn sending_end(&self) -> Sender<T> {
        self.tx
    }

    /// The receiving end of the channel.
    pub closed spec fn receiving_end(&self) -> Receiver<T> {
        self.rx
    }

    /// Every poll made through this inbox, oldest first.
    pub closed spec fn polls(&self) -> Seq<ChannelCall<T>> {
        self.polls.calls()
    }

    /// The receiving end, for waiting on it.
    pub fn receiver(&self) -> (rx: &Receiver<T>)
        ensures
            *rx == self.receiving_end(),
    {
        &self.rx
    }

    /// Polls the channel once (see `channel_poll`) and records the poll.
    pub(crate) fn poll(&mut self) -> (got: Received<T>)
        ensures
            final(self).sending_end() == old(self).sending_end(),
            final(self).receiving_end() == old(self).receiving_end(),
            final(self).polls() == old(self).polls().push(ChannelCall::Polled(old(self).receiving_end(), got)),
    {
        channel_poll(&mut self.polls, &self.rx)
    }
}

} // verus!
