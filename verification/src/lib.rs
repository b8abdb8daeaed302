//! Core logic of a lobby server for a team-based game: identifiers, the
//! client/server protocol types, message framing, lobbies with their teams,
//! username allocation and the server's state machine.

pub mod ids;
pub mod protocol;
pub mod lobby;
pub mod username;
pub mod state;
pub mod framing;
