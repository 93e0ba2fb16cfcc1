//! A point-to-point, two-way message queue between two threads.

use vstd::prelude::*;

verus! {

#[verifier::external_type_specification]
#[verifier::external_body]
#[verifier::reject_recursive_types(T)]
pub struct ExSender<T>(std::sync::mpsc::Sender<T>);

#[verifier::external_type_specification]
#[verifier::external_body]
#[verifier::reject_recursive_types(T)]
pub struct ExReceiver<T>(std::sync::mpsc::Receiver<T>);

#[verifier::external_type_specification]
#[verifier::reject_recursive_types(T)]
pub struct ExSendError<T>(std::sync::mpsc::SendError<T>);

#[verifier::external_type_specification]
#[verifier::external_body]
pub struct ExRecvError(std::sync::mpsc::RecvError);

#[verifier::external_type_specification]
#[verifier::external_body]
pub struct ExTryRecvError(std::sync::mpsc::TryRecvError);

/// Relies on `std::sync::mpsc::channel`: a connected sender and receiver.
pub assume_specification<T>[ std::sync::mpsc::channel::<T> ]() -> (std::sync::mpsc::Sender<T>, std::sync::mpsc::Receiver<T>);

/// Relies on `Sender::send`: when the receiving half is gone the message
/// comes back inside the error.
pub assume_specification<T>[ std::sync::mpsc::Sender::<T>::send ](s: &std::sync::mpsc::Sender<T>, t: T) -> (r: Result<(), std::sync::mpsc::SendError<T>>)
    ensures
        r matches Err(e) ==> e.0 == t,
;

/// Relies on `Receiver::recv`: blocks for the next message, or fails once
/// the sending half is gone.
pub assume_specification<T>[ std::sync::mpsc::Receiver::<T>::recv ](r: &std::sync::mpsc::Receiver<T>) -> Result<T, std::sync::mpsc::RecvError>;

/// Relies on `Receiver::try_recv`: the next message if one is waiting.
pub assume_specification<T>[ std::sync::mpsc::Receiver::<T>::try_recv ](r: &std::sync::mpsc::Receiver<T>) -> Result<T, std::sync::mpsc::TryRecvError>;

/// One end of a two-way channel: sends `X`, receives `Y`.
#[verifier::reject_recursive_types(X)]
#[verifier::reject_recursive_types(Y)]
pub struct Chan<X, Y>(std::sync::mpsc::Sender<X>, std::sync::mpsc::Receiver<Y>);

impl<X, Y> Chan<X, Y> {
    /// Sends `msg` to the other end. Fails, handing `msg` back, when the
    /// other end has been dropped.
    pub fn send(&self, msg: X) -> (r: Result<(), std::sync::mpsc::SendError<X>>)
        ensures
            r matches Err(e) ==> e.0 == msg,
    {
        self.0.send(msg)
    }

    /// Waits for the next message from the other end.
    pub fn recv(&self) -> Result<Y, std::sync::mpsc::RecvError> {
        self.1.recv()
    }

    /// The next message from the other end, if one is already waiting.
    pub fn try_recv(&self) -> Result<Y, std::sync::mpsc::TryRecvError> {
        self.1.try_recv()
    }
}

/// Two connected ends: what the first sends the second receives, and the
/// other way round.
pub fn channel<X, Y>() -> (Chan<X, Y>, Chan<Y, X>) {
    let (t0, r0) = std::sync::mpsc::channel::<X>();
    let (t1, r1) = std::sync::mpsc::channel::<Y>();
    (Chan(t0, r1), Chan(t1, r0))
}

} // verus!
