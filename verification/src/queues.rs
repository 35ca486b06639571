//! The message queues of the async runtime through which subscribers get their
//! messages, and the record of what was handed to them.
use tokio::sync::mpsc::{Receiver, Sender, UnboundedReceiver, UnboundedSender};
use vstd::prelude::*;

use crate::pubsub::PubSubMessage;

verus! {

/// `tokio::sync::mpsc::Sender`, the sending end of a bounded queue.
#[verifier::external_type_specification]
#[verifier::external_body]
#[verifier::reject_recursive_types(T)]
pub struct ExSender<T>(Sender<T>);

/// `tokio::sync::mpsc::Receiver`, the receiving end of a bounded queue.
#[verifier::external_type_specification]
#[verifier::external_body]
#[verifier::reject_recursive_types(T)]
pub struct ExReceiver<T>(Receiver<T>);

/// `tokio::sync::mpsc::UnboundedSender`, the sending end of an unbounded queue.
#[verifier::external_type_specification]
#[verifier::external_body]
#[verifier::reject_recursive_types(T)]
pub struct ExUnboundedSender<T>(UnboundedSender<T>);

/// `tokio::sync::mpsc::UnboundedReceiver`, the receiving end of an unbounded queue.
#[verifier::external_type_specification]
#[verifier::external_body]
#[verifier::reject_recursive_types(T)]
pub struct ExUnboundedReceiver<T>(UnboundedReceiver<T>);

/// The number of messages that the queue behind a sender holds at most: the bound
/// that the queue was made with.
pub uninterp spec fn queue_capacity(s: Sender<PubSubMessage>) -> nat;

/// `tokio::sync::mpsc::channel`: a queue that holds at most `buffer` messages (its
/// semaphore gets `buffer` permits, and `Sender::max_capacity` gives that bound back).
/// The call panics on a zero buffer, and on a buffer above `usize::MAX >> 3` (the
/// most permits its semaphore takes).
#[verifier::external_body]
pub(crate) fn message_channel(buffer: usize) -> (r: (Sender<PubSubMessage>, Receiver<PubSubMessage>))
    requires
        0 < buffer <= usize::MAX >> 3,
    ensures
        queue_capacity(r.0) == buffer,
{
    tokio::sync::mpsc::channel(buffer)
}

/// `tokio::sync::mpsc::unbounded_channel`: a queue without a limit.
#[verifier::external_body]
pub(crate) fn signal_channel() -> (UnboundedSender<()>, UnboundedReceiver<()>) {
    tokio::sync::mpsc::unbounded_channel()
}

/// `Sender::clone`: another handle on the same queue (it clones the `Arc` of the
/// queue), which the contract takes as the same sender.
#[verifier::external_body]
pub(crate) fn clone_sender(s: &Sender<PubSubMessage>) -> (r: Sender<PubSubMessage>)
    ensures
        r == *s,
{
    s.clone()
}

/// `UnboundedSender::clone`: another handle on the same queue (it clones the `Arc`
/// of the queue), which the contract takes as the same sender.
#[verifier::external_body]
pub(crate) fn clone_signal(s: &UnboundedSender<()>) -> (r: UnboundedSender<()>)
    ensures
        r == *s,
{
    s.clone()
}

/// What became of a message handed to a subscriber's queue.
#[derive(Debug, PartialEq, Eq, Structural, Clone, Copy)]
pub enum SendOutcome {
    /// The message waits in the queue.
    Delivered,
    /// The queue is full: the subscriber is too slow.
    Full,
    /// The subscriber has gone.
    Closed,
}

/// A message handed to a queue: the queue, the message (channel, text), and what
/// the queue answered.
pub type Delivery = (Sender<PubSubMessage>, (Seq<char>, Seq<char>), SendOutcome);

pub struct QueueLogView {
    /// Every message handed to a queue, in order.
    pub sent: Seq<Delivery>,
    /// Every queue on which a signal was sent, in order.
    pub signalled: Seq<UnboundedSender<()>>,
}

/// The record of what was handed to the queues. Its fields are ghost and private to
/// this module, and only the calls that hand something to a queue (`try_send`,
/// `send_signal`) add to them, so the record holds exactly the calls made. Being
/// ghost, it costs nothing at run time: those calls have nothing to write.
pub struct QueueLog {
    sent: Ghost<Seq<Delivery>>,
    signalled: Ghost<Seq<UnboundedSender<()>>>,
}

impl View for QueueLog {
    type V = QueueLogView;

    closed spec fn view(&self) -> QueueLogView {
        QueueLogView { sent: self.sent@, signalled: self.signalled@ }
    }
}

impl QueueLog {
    /// A record of no calls.
    pub fn new() -> (l: QueueLog)
        ensures
            l@.sent == Seq::<Delivery>::empty(),
            l@.signalled == Seq::<UnboundedSender<()>>::empty(),
    {
        QueueLog { sent: Ghost(Seq::empty()), signalled: Ghost(Seq::empty()) }
    }
}

/// `Sender::try_send`: queues the message without waiting, and says whether the
/// queue took it, was full, or has no receiver any more. Which of the three comes
/// back depends on the state of the queue, which nothing here sees; what the
/// contract states is that this call, on this queue with this message, gave that
/// answer, and it is recorded as such.
#[verifier::external_body]
#[allow(unused_variables)]
pub(crate) fn try_send(s: &Sender<PubSubMessage>, msg: PubSubMessage, log: &mut QueueLog) -> (r: SendOutcome)
    ensures
        final(log)@.sent == old(log)@.sent.push((*s, msg@, r)),
        final(log)@.signalled == old(log)@.signalled,
{
    match s.try_send(msg) {
        Ok(()) => SendOutcome::Delivered,
        Err(tokio::sync::mpsc::error::TrySendError::Full(_)) => SendOutcome::Full,
        Err(tokio::sync::mpsc::error::TrySendError::Closed(_)) => SendOutcome::Closed,
    }
}

/// `UnboundedSender::send` of a signal on the queue `s`; a receiver that has gone is
/// ignored. The call is recorded.
#[verifier::external_body]
#[allow(unused_variables)]
pub(crate) fn send_signal(s: &UnboundedSender<()>, log: &mut QueueLog)
    ensures
        final(log)@.signalled == old(log)@.signalled.push(*s),
        final(log)@.sent == old(log)@.sent,
{
    let _ = s.send(());
}

} // verus!
