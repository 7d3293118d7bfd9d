//! One-shot result handles: each waiting client holds the receiving half of
//! a one-shot channel, and the queue holds the sending half.  Sending
//! consumes the sender, so a handle can be fulfilled at most once; dropping
//! either half is safe cancellation.

use vstd::prelude::*;
use crate::queue::QueueResult;

verus! {

#[verifier::external_type_specification]
#[verifier::external_body]
#[verifier::reject_recursive_types(T)]
pub struct ExSender<T>(tokio::sync::oneshot::Sender<T>);

#[verifier::external_type_specification]
#[verifier::external_body]
#[verifier::reject_recursive_types(T)]
pub struct ExReceiver<T>(tokio::sync::oneshot::Receiver<T>);

#[verifier::external_type_specification]
#[verifier::external_body]
pub struct ExRecvError(tokio::sync::oneshot::error::RecvError);

/// What a handle delivers: the match result, or the error that ended the
/// wait.
pub type Delivery = Result<QueueResult, String>;

/// The sending half a queue keeps for one waiting entry.
pub type ResultSender = tokio::sync::oneshot::Sender<Delivery>;

/// The receiving half handed back to the transport on a join.
pub type ResultReceiver = tokio::sync::oneshot::Receiver<Delivery>;

/// Relies on tokio::sync::oneshot::channel: a fresh, unused one-shot channel
/// pair.
#[verifier::external_body]
pub(crate) fn result_channel() -> (ResultSender, ResultReceiver) {
    tokio::sync::oneshot::channel()
}

/// Relies on tokio::sync::oneshot::Sender::send: hands the value to the
/// receiving half unless that half was dropped.  The sender is consumed
/// either way, so no handle delivers twice.
#[verifier::external_body]
pub(crate) fn send_result(sender: ResultSender, value: Delivery) {
    let _ = sender.send(value);
}

/// Relies on tokio::sync::oneshot::Receiver::try_recv: the value already
/// sent on this channel, if any.  Nothing is assumed of the outcome.
#[verifier::external_body]
pub(crate) fn recv_ready(receiver: &mut ResultReceiver) -> Option<Delivery> {
    receiver.try_recv().ok()
}

} // verus!
