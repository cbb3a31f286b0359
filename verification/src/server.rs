//! The server dispatch layer, as decisions on plain values.
//!
//! The running server is a loop around a queue: acceptor threads push
//! connections and lifecycle tokens, and a dispatcher consumes them.  What
//! the dispatcher decides for each message — the next state and the action
//! to perform — is the function here; the surrounding process owns the
//! sockets, the queue and the worker pool, performs the action, and feeds
//! the next message back.

use crate::errors::KvsError;
use vstd::prelude::*;

verus! {

/// The server lifecycle:
/// `Starting ─(all listeners bound)→ Ready ─(shutdown requested)→ Shutdown`.
#[derive(Clone, Copy, Debug, PartialEq, Eq, Structural)]
pub enum State {
    Starting,
    Ready,
    Shutdown,
}

/// The lifecycle of one spawned TCP listener.
#[derive(Clone, Copy, Debug, PartialEq, Eq, Structural)]
pub enum ListenerState {
    Initialized,
    Shutdown,
}

/// What arrived on the dispatcher's queue, with any connection payload
/// held by the caller: a connection, or a lifecycle token.
#[derive(Clone, Copy, Debug, PartialEq, Eq, Structural)]
pub enum MessageKind {
    Stream,
    Ready,
    ShuttingDown,
    Shutdown,
}

/// What the dispatcher asks its caller to do for one message.
#[derive(Clone, Copy, Debug, PartialEq, Eq, Structural)]
pub enum DispatcherAction {
    /// Hand the connection to a worker: decode one command, run it on the
    /// engine, encode the reply.
    ServeConnection,
    /// Stop the acceptor pool, then enqueue the final `Shutdown` token.
    StopAcceptors,
    /// Leave the dispatch loop.
    Exit,
    /// Take the next message.
    Proceed,
}

/// One step of the dispatcher: for the current state and the message just
/// taken from the queue, the state to adopt and the action to perform.
pub fn process_message(state: State, message: MessageKind) -> (r: (State, DispatcherAction))
    ensures
        r == match message {
            MessageKind::Stream => (state, DispatcherAction::ServeConnection),
            MessageKind::Ready => (State::Ready, DispatcherAction::Proceed),
            MessageKind::ShuttingDown => (state, DispatcherAction::StopAcceptors),
            MessageKind::Shutdown => (State::Shutdown, DispatcherAction::Exit),
        },
{
    match message {
        MessageKind::Stream => (state, DispatcherAction::ServeConnection),
        MessageKind::Ready => (State::Ready, DispatcherAction::Proceed),
        MessageKind::ShuttingDown => (state, DispatcherAction::StopAcceptors),
        MessageKind::Shutdown => (State::Shutdown, DispatcherAction::Exit),
    }
}

/// The engine-sentinel check made at server start: given what the sentinel
/// file holds — or that it is absent — and this engine's name, what to
/// write, or the refusal.  `Ok(Some(name))` asks the caller to create the
/// sentinel with `name`; `Ok(None)` means the directory already belongs to
/// this engine; `WrongEngine` means it belongs to another.
pub fn check_or_save_engine(detected: Option<String>, engine: &String) -> (r: Result<
    Option<String>,
    KvsError,
>)
    ensures
        match detected {
            Some(d) => if d@ == engine@ {
                r == Ok::<Option<String>, KvsError>(None)
            } else {
                r == Err::<Option<String>, KvsError>(KvsError::WrongEngine)
            },
            None => (r matches Ok(Some(w)) && w@ == engine@),
        },
{
    match detected {
        Some(d) => {
            if d == *engine {
                Ok(None)
            } else {
                Err(KvsError::WrongEngine)
            }
        },
        None => Ok(Some(engine.clone())),
    }
}

} // verus!
