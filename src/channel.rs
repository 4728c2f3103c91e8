use vstd::prelude::*;
use std::sync::mpsc::{Receiver, Sender};

verus! {

#[verifier::external_type_specification]
#[verifier::external_body]
#[verifier::reject_recursive_types(T)]
pub struct ExSender<T>(Sender<T>);

#[verifier::external_type_specification]
#[verifier::external_body]
#[verifier::reject_recursive_types(T)]
pub struct ExReceiver<T>(Receiver<T>);

/// Relies on std::sync::mpsc::channel: an unbounded channel whose receiver
/// gets what the sender sends, in order.
#[verifier::external_body]
fn open_channel<T>() -> (Sender<T>, Receiver<T>) {
    std::sync::mpsc::channel()
}

/// Relies on std::sync::mpsc::Sender::send, which does not block and fails
/// only when the receiver is gone; such a failure is ignored here.
#[verifier::external_body]
fn send_best_effort<T>(sender: &Sender<T>, message: T) {
    let _ = sender.send(message);
}

/// The sending end of a registered listener, with the log of every message
/// handed to it, in order. Its receiver gets these messages, in this order,
/// for as long as it exists.
#[verifier::reject_recursive_types(T)]
pub struct Listener<T> {
    sender: Sender<T>,
    handed: Ghost<Seq<T>>,
}

impl<T> Listener<T> {
    /// Every message handed to this listener so far, oldest first.
    pub closed spec fn handed(&self) -> Seq<T> {
        self.handed@
    }

    /// A new channel: the listener, which has been handed nothing yet, and
    /// the receiver that gets what it is handed.
    pub fn open() -> (r: (Self, Receiver<T>))
        ensures
            r.0.handed() == Seq::<T>::empty(),
    {
        let (sender, receiver) = open_channel();
        (Listener { sender, handed: Ghost(Seq::empty()) }, receiver)
    }

    /// Hands `message` to the receiver; where the receiver is gone, the
    /// message is dropped and nothing fails.
    pub fn send(&mut self, message: T)
        ensures
            final(self).handed() == old(self).handed().push(message),
    {
        let ghost m = message;
        send_best_effort(&self.sender, message);
        self.handed = Ghost(self.handed@.push(m));
    }
}

} // verus!
