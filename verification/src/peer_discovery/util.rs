//! Channels whose receiving end can be told to stop.

use std::sync::mpsc::{Iter, Receiver, RecvError, Sender};
use vstd::prelude::*;

verus! {

#[verifier::external_type_specification]
#[verifier::external_body]
#[verifier::reject_recursive_types(T)]
pub struct ExSender<T>(Sender<T>);

#[verifier::external_type_specification]
#[verifier::external_body]
#[verifier::reject_recursive_types(T)]
pub struct ExReceiver<T>(Receiver<T>);

#[verifier::external_type_specification]
#[verifier::external_body]
pub struct ExRecvError(RecvError);

#[verifier::external_type_specification]
#[verifier::external_body]
#[verifier::reject_recursive_types(T)]
pub struct ExIter<'a, T: 'a>(Iter<'a, T>);

/// Calls `std::sync::mpsc::Sender::send` and unwraps the `SendError` it may
/// return. Trusted: on failure the error holds the value that was sent, as the
/// documentation of `send` says. Whether it fails (the receiving end is gone)
/// depends on another thread, so that is not stated.
#[verifier::external_body]
fn sender_send<T>(sender: &Sender<T>, value: T) -> (sent: Result<(), T>)
    ensures
        sent matches Err(v) ==> v == value,
{
    match sender.send(value) {
        Ok(()) => Ok(()),
        Err(e) => Err(e.0),
    }
}

/// Calls `Clone::clone` on a `std::sync::mpsc::Sender`: another handle on the
/// same channel. Nothing about the channel is modelled, so nothing is promised.
#[verifier::external_body]
fn sender_clone<T>(sender: &Sender<T>) -> Sender<T> {
    sender.clone()
}

/// Calls `std::sync::mpsc::Receiver::recv`: the next value, or an error once
/// every sender is gone. What arrives depends on other threads, so nothing is promised.
#[verifier::external_body]
fn receiver_recv<T>(receiver: &Receiver<T>) -> Result<T, RecvError> {
    receiver.recv()
}

/// Calls `std::sync::mpsc::Receiver::iter`: a blocking iterator over the values
/// that arrive. Nothing is promised of them.
#[verifier::external_body]
fn receiver_iter<'a, T>(receiver: &'a Receiver<T>) -> Iter<'a, T> {
    receiver.iter()
}

/// Calls `std::sync::mpsc::channel`: the two ends of a new channel.
#[verifier::external_body]
fn mpsc_channel<T>() -> (Sender<T>, Receiver<T>) {
    std::sync::mpsc::channel()
}

/// A value sent on a channel, or the request that the receiving side stop.
#[derive(Debug)]
pub enum ChanMessage<T> {
    Message(T),
    Terminate,
}

/// The sending end of a channel of `ChanMessage`s.
#[verifier::reject_recursive_types(T)]
pub struct MessageSender<T>(Sender<ChanMessage<T>>);

impl<T> MessageSender<T> {
    /// Sends `t`, wrapped as a `Message`; when the receiving end is gone, the
    /// message comes back as the error.
    pub fn send(&self, t: T) -> (sent: Result<(), ChanMessage<T>>)
        ensures
            sent matches Err(m) ==> m == ChanMessage::Message(t),
    {
        sender_send(&self.0, ChanMessage::Message(t))
    }

    /// Sends `Terminate`, which asks the receiving side to stop; when the
    /// receiving end is gone, `Terminate` comes back as the error.
    pub fn send_terminate(&self) -> (sent: Result<(), ChanMessage<T>>)
        ensures
            sent matches Err(m) ==> m == ChanMessage::<T>::Terminate,
    {
        sender_send(&self.0, ChanMessage::Terminate)
    }

    /// Another sender on the same channel.
    pub fn clone(&self) -> Self {
        MessageSender(sender_clone(&self.0))
    }

    /// Another sender on the same channel.
    pub fn to_owned(&self) -> Self {
        self.clone()
    }
}

/// The receiving end of a channel of `ChanMessage`s.
#[verifier::reject_recursive_types(T)]
pub struct MessageReceiver<T>(Receiver<ChanMessage<T>>);

impl<T> MessageReceiver<T> {
    /// Waits for the next message.
    pub fn recv(&self) -> Result<ChanMessage<T>, RecvError> {
        receiver_recv(&self.0)
    }

    /// The messages as they arrive.
    pub fn iter(&self) -> Iter<'_, ChanMessage<T>> {
        receiver_iter(&self.0)
    }
}

/// The two ends of a new channel.
pub fn channel<T>() -> (MessageSender<T>, MessageReceiver<T>) {
    let (tx, rx) = mpsc_channel();
    (MessageSender(tx), MessageReceiver(rx))
}

} // verus!
