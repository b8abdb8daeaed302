//! The messages exchanged between clients and the lobby server, and the data
//! they carry.

use vstd::prelude::*;
use crate::ids::{ChampionId, LobbyId, PlayerId};

verus! {

/// Index of a team inside a lobby.
#[derive(Clone, Copy, PartialEq, Eq, Structural, Debug)]
pub struct Team(pub usize);

/// Public information about a player.
#[derive(Clone, Debug)]
pub struct PlayerInfo {
    pub id: PlayerId,
    pub name: String,
}

/// Summary of a lobby as shown in the lobby list.
#[derive(Clone, Debug)]
pub struct ShortLobbyInfo {
    pub id: LobbyId,
    pub name: String,
    pub players: usize,
    pub max_player_count: usize,
}

/// Full description of a lobby.
#[derive(Clone, Debug)]
pub struct LobbyInfo {
    pub id: LobbyId,
    pub settings: LobbySettings,
    pub players: Vec<Vec<PlayerInLobby>>,
    pub leader: PlayerId,
    pub lobby_state: LobbyState,
}

/// Phase a lobby is in.
#[derive(Clone, Copy, PartialEq, Eq, Structural, Hash, Debug)]
pub enum LobbyState {
    Normal,
    ChampSelect,
    InGame,
}

/// A lobby member as clients see it.
#[derive(Clone, Copy, PartialEq, Eq, Structural, Debug)]
pub struct PlayerInLobby {
    pub id: PlayerId,
    pub selected_champion: Option<ChampionId>,
    pub locked: bool,
}

/// Settings a lobby leader can choose.
#[derive(Debug)]
pub struct LobbySettings {
    pub name: String,
    pub team_count: usize,
    pub players_per_team: usize,
    pub locked: bool,
    pub allows_team_switching: bool,
}

impl Clone for LobbySettings {
    fn clone(&self) -> (copy: Self)
        ensures
            copy == *self,
    {
        LobbySettings {
            name: self.name.clone(),
            team_count: self.team_count,
            players_per_team: self.players_per_team,
            locked: self.locked,
            allows_team_switching: self.allows_team_switching,
        }
    }
}

impl LobbySettings {
    /// Settings are valid when the name is not empty and there is at least
    /// one team with at least one slot.
    pub open spec fn is_valid(&self) -> bool {
        &&& self.name@.len() > 0
        &&& self.team_count > 0
        &&& self.players_per_team > 0
    }

    /// Settings are valid exactly when the name has at least one character,
    /// there is at least one team, and each team has at least one slot (so
    /// one player per team is accepted).
    pub proof fn valid_settings_are_exactly(s: LobbySettings)
        ensures
            s.is_valid() <==> (s.name@.len() >= 1 && s.team_count >= 1 && s.players_per_team >= 1),
    {
    }

    pub fn validate(&self) -> (ok: bool)
        ensures
            ok == self.is_valid(),
    {
        !self.name.as_str().is_empty() && self.team_count > 0 && self.players_per_team > 0
    }
}

/// Requests a client sends to the lobby server.
#[derive(Clone, Debug)]
pub enum ClientToLobby {
    Handshake { username: String },
    GetLobbyList,
    GetLobbyInfo { id: LobbyId },
    GetPlayerInfo { player: PlayerId },
    CreateLobby,
    JoinLobby { id: LobbyId },
    LeaveLobby,
    KickPlayer { id: PlayerId },
    SwitchPlayerTeam { id: PlayerId, team: Team },
    GetLobbySettings,
    SetLobbySettings { settings: LobbySettings },
    SetReady { ready: bool },
    ForceLobbyReady,
    SelectChampion { champion: ChampionId },
    SetChampionLocked { locked: bool },
}

/// Why a settings field was refused.
#[derive(Clone, Debug)]
pub struct InvalidLobbyReason {
    pub field: LobbySettingsField,
    pub message: String,
}

/// A field of the lobby settings.
#[derive(Clone, Copy, PartialEq, Eq, Structural, Debug)]
pub enum LobbySettingsField {
    Name,
    TeamCount,
    PlayersPerTeam,
}

/// Messages the lobby server sends to a client.
#[derive(Clone, Debug)]
pub enum LobbyToClient {
    Handshake { id: PlayerId, username: String },
    LobbyList { lobbies: Vec<ShortLobbyInfo> },
    LobbyInfo { info: LobbyInfo },
    PlayerInfo { info: PlayerInfo },
    JoinedLobby { id: LobbyId },
    LeftLobby { reason: LeaveReason },
    PlayerJoinedLobby { player: PlayerId },
    PlayerLeftLobby { player: PlayerId },
    PlayerSwitchedTeam { player: PlayerId, team: Team },
    PlayerBecameLeader { player: PlayerId },
    LobbySettings { settings: LobbySettings },
    InvalidLobbySettings { reasons: Vec<InvalidLobbyReason> },
    PlayerSetReady { player: PlayerId, ready: bool },
    LobbyStateChanged { new_state: LobbyState },
    PlayerSelectedChampion { player: PlayerId, champion: ChampionId },
    PlayerSetChampionLocked { player: PlayerId, locked: bool },
    SettingUpGameServer,
    GameServerReady { connection: String },
}

/// Why a player left a lobby.
#[derive(Clone, Copy, PartialEq, Eq, Structural, Debug)]
pub enum LeaveReason {
    Leave,
    Kicked,
}

} // verus!
