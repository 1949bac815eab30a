//! Room/session coordinator for a card-matching game.
//!
//! The coordinator processes one command at a time (join, configure, start,
//! verify), reconciles it against a loaded room record, and reports the event
//! that must be fanned out to the room's roster. Reading and writing the
//! shared store, and delivering events to connected clients, are left to the
//! caller; this crate holds the decisions and proves them.
use vstd::prelude::*;

pub mod codec;
pub mod engine;
pub mod messages;
pub mod registry;
pub mod room;
pub mod server;
pub mod tokens;

verus! {

/// Why a command was rejected. Store- and wire-level failures reject only the
/// command in flight; the coordinator itself survives them.
#[derive(Clone, Copy, Debug, PartialEq, Eq, Structural)]
pub enum ServerError {
    /// The shared store could not be reached.
    StoreUnavailable,
    /// A stored room record could not be decoded.
    DeserializationFailure,
    /// A room record could not be encoded for the store.
    SerializationFailure,
    /// The command named a room that has no record.
    RoomNotFound,
    /// The command was attributed to a user that is not in the roster.
    UserNotFound,
    /// The command needs a game state, but the room has not started a game.
    GameNotStarted,
}

} // verus!
