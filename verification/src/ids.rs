//! Identifiers of players, lobbies, games and champions, each a random UUID.

use vstd::prelude::*;

verus! {

/// A 128-bit value carries the version (4) and variant (RFC 4122) bits of a
/// randomly generated UUID.
pub open spec fn is_random_uuid(v: u128) -> bool {
    v & 0xF000_C000_0000_0000_0000u128 == 0x4000_8000_0000_0000_0000u128
}

/// Calls `uuid::Uuid::new_v4` and returns the UUID as a big-endian `u128`
/// (`Uuid::as_u128`). The value is random: the contract states only that the
/// version nibble is 4 and the two variant bits are `10`, which `new_v4` sets
/// on every value it returns.
#[verifier::external_body]
fn random_uuid() -> (v: u128)
    ensures
        is_random_uuid(v),
{
    uuid::Uuid::new_v4().as_u128()
}

/// Identifies a connected player.
#[derive(Clone, Copy, PartialEq, Eq, Structural, Hash, Debug)]
pub struct PlayerId {
    pub uuid: u128,
}

/// Identifies a lobby.
#[derive(Clone, Copy, PartialEq, Eq, Structural, Hash, Debug)]
pub struct LobbyId {
    pub uuid: u128,
}

/// Identifies a running game.
#[derive(Clone, Copy, PartialEq, Eq, Structural, Hash, Debug)]
pub struct GameId {
    pub uuid: u128,
}

/// Identifies a champion a player can select.
#[derive(Clone, Copy, PartialEq, Eq, Structural, Hash, Debug)]
pub struct ChampionId {
    pub uuid: u128,
}

impl PlayerId {
    /// A fresh random identifier.
    pub fn new() -> (id: Self)
        ensures
            is_random_uuid(id.uuid),
    {
        PlayerId { uuid: random_uuid() }
    }
}

impl LobbyId {
    /// A fresh random identifier.
    pub fn new() -> (id: Self)
        ensures
            is_random_uuid(id.uuid),
    {
        LobbyId { uuid: random_uuid() }
    }
}

impl GameId {
    /// A fresh random identifier.
    pub fn new() -> (id: Self)
        ensures
            is_random_uuid(id.uuid),
    {
        GameId { uuid: random_uuid() }
    }
}

impl ChampionId {
    /// A fresh random identifier.
    pub fn new() -> (id: Self)
        ensures
            is_random_uuid(id.uuid),
    {
        ChampionId { uuid: random_uuid() }
    }
}

} // verus!
