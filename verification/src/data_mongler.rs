//! When a peer's thread goes on and when it stops.

use vstd::prelude::*;

verus! {

/// What waiting for a message came to.
#[derive(Copy, Clone, Debug, PartialEq, Eq, Structural)]
pub enum Incoming {
    /// A message arrived.
    Message,
    /// No message arrived in time.
    Timeout,
    /// The sender is gone: we can never receive more messages.
    Disconnected,
}

/// What looking at the quit channel came to.
#[derive(Copy, Clone, Debug, PartialEq, Eq, Structural)]
pub enum QuitSignal {
    /// We are told to stop.
    Quit,
    /// Nobody has said anything.
    Empty,
    /// Nobody can ever say anything.
    Disconnected,
}

/// How long to wait for a message before the quit channel is looked at, in
/// seconds.
pub const INCOMING_TIMEOUT_SECS: u64 = 1;

/// Whether the loop goes on to look at the quit channel.
pub fn goes_on_after_waiting(incoming: Incoming) -> (r: bool)
    ensures
        r == (incoming != Incoming::Disconnected),
{
    match incoming {
        Incoming::Message => true,
        Incoming::Timeout => true,
        Incoming::Disconnected => false,
    }
}

/// Whether the loop goes on to wait for the next message.
pub fn goes_on_after_quit_signal(signal: QuitSignal) -> (r: bool)
    ensures
        r == (signal == QuitSignal::Empty),
{
    match signal {
        QuitSignal::Quit => false,
        QuitSignal::Disconnected => false,
        QuitSignal::Empty => true,
    }
}

/// The thread stops when nobody is left to send messages, and not for want of
/// them.
pub proof fn law_thread_waits_on(incoming: Incoming, r: bool)
    requires
        call_ensures(goes_on_after_waiting, (incoming,), r),
    ensures
        incoming is Disconnected ==> !r,
        incoming is Message || incoming is Timeout ==> r,
{
}

/// The thread stops when it is told to, or when nobody is left to tell it.
pub proof fn law_thread_stops_when_told(signal: QuitSignal, r: bool)
    requires
        call_ensures(goes_on_after_quit_signal, (signal,), r),
    ensures
        signal is Empty ==> r,
        signal is Quit || signal is Disconnected ==> !r,
{
}

} // verus!
