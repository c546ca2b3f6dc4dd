//! An engine that builds the causal graph of a room's events, fed with batches
//! delivered out of order, and renders it for a graph view.
use vstd::prelude::*;

pub mod cs_backend;
pub mod model;
pub mod mv_backend;
pub mod pg_backend;

verus! {

/// The position of a view among the views of the application.
pub type ViewIndex = usize;

/// Where the events of the observed room come from.
#[derive(Clone, Copy, Debug, PartialEq, Eq, Structural)]
pub enum BackendChoice {
    /// A homeserver, through the client-server API.
    CS,
    /// An indexed store of the events.
    Postgres,
}

/// Commands from the user interface to itself.
#[derive(Clone, Copy, Debug, PartialEq, Eq, Structural)]
pub enum UICommand {
    DisplayEventBody,
}

/// Commands from the user interface to a backend.
#[derive(Clone, Copy, Debug, PartialEq, Eq, Structural)]
pub enum BkCommand {
    Connect(ViewIndex),
    ListRooms(ViewIndex),
    JoinRoom(ViewIndex),
    Sync(ViewIndex),
    MoreMsg,
    FetchState,
    LeaveRoom(ViewIndex),
    Disconnect(ViewIndex),
}

} // verus!
