//! The channels on which requests reach a driver and answers reach a caller. What the types here
//! record of a channel is written by the functions that make the calls, and by nothing else.

use crate::request::Response;
use futures::channel::mpsc::{UnboundedReceiver, UnboundedSender};
use futures::channel::oneshot::{Receiver, Sender};
use vstd::prelude::*;

verus! {

/// The two are the ends of one channel: what `sender` sends, `receiver` receives.
pub uninterp spec fn connected(sender: Sender<Response>, receiver: Receiver<Response>) -> bool;

/// Calls `futures::channel::oneshot::channel`, which makes the two ends of a channel for one
/// response: `futures::channel::oneshot::Sender::is_connected_to` holds of them.
#[verifier::external_body]
pub(crate) fn once() -> (result: (Sender<Response>, Receiver<Response>))
    ensures
        connected(result.0, result.1),
{
    futures::channel::oneshot::channel()
}

/// What was handed to a channel: the end that it was sent from, the value, and what came back
/// because nobody waits for it.
#[verifier::ext_equal]
#[verifier::reject_recursive_types(T)]
pub struct HandedView<T> {
    pub sender: Sender<T>,
    pub value: T,
    pub returned: Option<T>,
}

/// The record of a value that was handed to a channel.
#[verifier::reject_recursive_types(T)]
pub struct Handed<T> {
    handed: Ghost<(Sender<T>, T)>,
    returned: Option<T>,
}

impl<T> View for Handed<T> {
    type V = HandedView<T>;

    closed spec fn view(&self) -> HandedView<T> {
        HandedView { sender: self.handed@.0, value: self.handed@.1, returned: self.returned }
    }
}

impl<T> Handed<T> {
    /// What came back, if nobody waits for it.
    pub fn returned(self) -> (result: Option<T>)
        ensures
            result == self@.returned,
    {
        self.returned
    }
}

/// Calls `futures::channel::oneshot::Sender::send`, which either enqueues the value for the
/// receiver or, where the receiver is gone, hands it back. The record says what was handed over on
/// either outcome. Whether the receiver is gone is not said. The call wakes the task that waits
/// for the value; that waking a task does not unwind is taken for granted.
#[verifier::external_body]
pub(crate) fn deliver<T>(sender: Sender<T>, value: T) -> (result: Handed<T>)
    ensures
        result@.sender == sender,
        result@.value == value,
        result@.returned matches Some(returned) ==> returned == value,
    opens_invariants none
    no_unwind
{
    let handed = Ghost((sender, value));
    Handed { handed, returned: sender.send(value).err() }
}

/// The end of a channel that sends, the messages that went down it, and those that came back
/// because nobody received.
#[verifier::ext_equal]
#[verifier::reject_recursive_types(M)]
pub struct ChannelView<M> {
    pub sender: UnboundedSender<M>,
    pub sent: Seq<M>,
    pub returned: Seq<M>,
}

/// The way to a driver.
#[verifier::reject_recursive_types(M)]
pub struct RequestChannel<M> {
    sender: UnboundedSender<M>,
    sent: Ghost<Seq<M>>,
    returned: Ghost<Seq<M>>,
}

impl<M> View for RequestChannel<M> {
    type V = ChannelView<M>;

    closed spec fn view(&self) -> ChannelView<M> {
        ChannelView { sender: self.sender, sent: self.sent@, returned: self.returned@ }
    }
}

/// The end of a channel that receives, and the end that it receives from.
#[verifier::ext_equal]
#[verifier::reject_recursive_types(M)]
pub struct ReceiverView<M> {
    pub receiver: UnboundedReceiver<M>,
    pub source: UnboundedSender<M>,
}

/// The driver's end of the way to it.
#[verifier::reject_recursive_types(M)]
pub struct RequestReceiver<M> {
    receiver: UnboundedReceiver<M>,
    source: Ghost<UnboundedSender<M>>,
}

impl<M> View for RequestReceiver<M> {
    type V = ReceiverView<M>;

    closed spec fn view(&self) -> ReceiverView<M> {
        ReceiverView { receiver: self.receiver, source: self.source@ }
    }
}

impl<M> RequestReceiver<M> {
    /// The end that receives.
    pub fn into_receiver(self) -> (result: UnboundedReceiver<M>)
        ensures
            result == self@.receiver,
    {
        self.receiver
    }
}

/// Calls `futures::channel::mpsc::unbounded`, which makes the two ends of a channel for any number
/// of messages. Nothing has been sent on it, and what its sender sends its receiver receives.
#[verifier::external_body]
pub(crate) fn unbounded<M>() -> (result: (RequestChannel<M>, RequestReceiver<M>))
    ensures
        result.0@.sent.len() == 0,
        result.0@.returned.len() == 0,
        result.1@.source == result.0@.sender,
{
    let (sender, receiver) = futures::channel::mpsc::unbounded();
    let source = Ghost(sender);
    let channel = RequestChannel { sender, sent: Ghost(Seq::empty()), returned: Ghost(Seq::empty()) };
    (channel, RequestReceiver { receiver, source })
}

/// Calls `futures::channel::mpsc::UnboundedSender::unbounded_send`, which either enqueues the
/// message behind all earlier ones or, where the receiver is gone, hands it back. The channel
/// records which. Whether the receiver is gone is not said. The call panics on a channel that
/// holds half as many messages as there are addresses, which no memory can hold.
#[verifier::external_body]
pub(crate) fn unbounded_send<M>(channel: &mut RequestChannel<M>, message: M) -> (result: Result<
    (),
    M,
>)
    ensures
        match result {
            Ok(_) => final(channel)@ == (ChannelView {
                sent: old(channel)@.sent.push(message),
                ..old(channel)@
            }),
            Err(returned) => returned == message && final(channel)@ == (ChannelView {
                returned: old(channel)@.returned.push(message),
                ..old(channel)@
            }),
        },
{
    channel.sender.unbounded_send(message).map_err(|error| error.into_inner())
}

} // verus!
