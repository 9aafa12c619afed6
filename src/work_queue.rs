//! First-in first-out queue of state numbers, held in an unbounded crossbeam
//! channel whose two ends it owns.

use crossbeam::channel::{unbounded, Receiver, Sender};
use vstd::prelude::*;

verus! {

#[verifier::external_type_specification]
#[verifier::external_body]
#[verifier::reject_recursive_types(T)]
pub struct ExSender<T>(Sender<T>);

#[verifier::external_type_specification]
#[verifier::external_body]
#[verifier::reject_recursive_types(T)]
pub struct ExReceiver<T>(Receiver<T>);

/// Both ends of one unbounded channel. Nothing else holds an end, so every
/// message sent stays in the channel until this queue receives it.
pub struct WorkQueue {
    sender: Sender<u64>,
    receiver: Receiver<u64>,
}

/// The messages waiting in the channel, oldest first.
pub uninterp spec fn queued(q: WorkQueue) -> Seq<u64>;

/// Relies on `crossbeam::channel::unbounded`: a new channel holds no message.
#[verifier::external_body]
pub(crate) fn new_queue() -> (q: WorkQueue)
    ensures
        queued(q) == Seq::<u64>::empty(),
{
    let (sender, receiver) = unbounded();
    WorkQueue { sender, receiver }
}

/// Relies on `Sender::send` of an unbounded channel: with the receiver alive
/// the message is stored after all earlier ones.
#[verifier::external_body]
pub(crate) fn push_back(q: &mut WorkQueue, n: u64)
    ensures
        queued(*final(q)) == queued(*old(q)).push(n),
{
    let _ = q.sender.send(n);
}

/// Relies on `Receiver::try_recv`: it takes the oldest message, or reports the
/// channel empty (never disconnected, the sender being alive).
#[verifier::external_body]
pub(crate) fn pop_front(q: &mut WorkQueue) -> (r: Option<u64>)
    ensures
        queued(*old(q)).len() == 0 ==> r is None && queued(*final(q)) == queued(*old(q)),
        queued(*old(q)).len() > 0 ==> r == Some(queued(*old(q))[0]) && queued(*final(q))
            == queued(*old(q)).drop_first(),
{
    q.receiver.try_recv().ok()
}

} // verus!
