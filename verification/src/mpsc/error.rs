//! What can go wrong on a channel.

use vstd::prelude::*;

verus! {

/// A send or capacity reservation failed because the receiver has been dropped.
///
/// A failed send retains the unsent message. A failed reservation carries `()` because no
/// message has been provided yet. Access the value with [`as_inner`](Self::as_inner) or
/// [`into_inner`](Self::into_inner).
#[derive(Debug, PartialEq, Eq)]
pub struct SendError<T> {
    inner: T,
}

impl<T> View for SendError<T> {
    type V = T;

    closed spec fn view(&self) -> T {
        self.inner
    }
}

impl<T> SendError<T> {
    /// Gets a reference to the unsent message, or `()` for a failed reservation.
    pub fn as_inner(&self) -> (inner: &T)
        ensures
            *inner == self@,
    {
        &self.inner
    }

    /// Consumes the error and returns the unsent message, or `()` for a failed reservation.
    pub fn into_inner(self) -> (inner: T)
        ensures
            inner == self@,
    {
        self.inner
    }

    /// Creates a new `SendError` with the given message.
    pub fn new(msg: T) -> (error: SendError<T>)
        ensures
            error@ == msg,
    {
        SendError { inner: msg }
    }

    /// Says what went wrong.
    pub fn message(&self) -> (message: &'static str)
        ensures
            message@ == "sending on a disconnected channel"@,
    {
        "sending on a disconnected channel"
    }
}

/// An attempt to send or reserve capacity failed.
///
/// A failed send retains the unsent message; a failed reservation carries `()` because no message
/// has been provided yet.
#[derive(Debug, PartialEq, Eq)]
pub enum TrySendError<T> {
    /// No capacity is available for sending or reserving a message.
    Full(T),
    /// The receiver has been dropped.
    Disconnected(T),
}

impl<T> View for TrySendError<T> {
    type V = T;

    open spec fn view(&self) -> T {
        match self {
            TrySendError::Full(msg) => *msg,
            TrySendError::Disconnected(msg) => *msg,
        }
    }
}

impl<T> TrySendError<T> {
    /// Gets a reference to the unsent message, or `()` for a failed reservation.
    pub fn as_inner(&self) -> (inner: &T)
        ensures
            *inner == self@,
    {
        match self {
            TrySendError::Full(msg) => msg,
            TrySendError::Disconnected(msg) => msg,
        }
    }

    /// Consumes the error and returns the unsent message, or `()` for a failed reservation.
    pub fn into_inner(self) -> (inner: T)
        ensures
            inner == self@,
    {
        match self {
            TrySendError::Full(msg) => msg,
            TrySendError::Disconnected(msg) => msg,
        }
    }

    /// Says what went wrong.
    pub fn message(&self) -> (message: &'static str)
        ensures
            message@ == (match self {
                TrySendError::Full(_) => "sending on a full channel"@,
                TrySendError::Disconnected(_) => "sending on a disconnected channel"@,
            }),
    {
        match self {
            TrySendError::Full(_) => "sending on a full channel",
            TrySendError::Disconnected(_) => "sending on a disconnected channel",
        }
    }
}

/// A receive operation cannot produce another value.
#[derive(Debug, Clone, Copy, PartialEq, Eq, Structural)]
pub enum RecvError {
    /// All senders have been dropped, and no buffered messages remain.
    Disconnected,
}

impl RecvError {
    /// Says what went wrong.
    pub fn message(&self) -> (message: &'static str)
        ensures
            message@ == "receiving on a disconnected channel"@,
    {
        "receiving on a disconnected channel"
    }
}

/// A non-blocking receive did not produce a value.
#[derive(Debug, Clone, Copy, PartialEq, Eq, Structural)]
pub enum TryRecvError {
    /// No message is currently available, but at least one sender remains.
    Empty,
    /// All senders have been dropped, and no buffered messages remain.
    Disconnected,
}

impl TryRecvError {
    /// Says what went wrong.
    pub fn message(&self) -> (message: &'static str)
        ensures
            message@ == (match self {
                TryRecvError::Empty => "receiving on an empty channel"@,
                TryRecvError::Disconnected => "receiving on a disconnected channel"@,
            }),
    {
        match self {
            TryRecvError::Empty => "receiving on an empty channel",
            TryRecvError::Disconnected => "receiving on a disconnected channel",
        }
    }
}

} // verus!
