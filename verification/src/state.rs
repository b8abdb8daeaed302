//! The lobby server's state and how it reacts to connections and requests.
//! Every reaction is computed here; it returns the messages to send, and
//! the caller delivers them.

use std::collections::HashMap;
use vstd::prelude::*;
use vstd::hash_map::StringHashMap;
use vstd::utf8::*;
use vstd::std_specs::iter::IteratorSpec;
use crate::ids::{is_random_uuid, LobbyId, PlayerId};
use crate::lobby::{
    first_member, fresh_member, lemma_flatten_take_step, lemma_without_player_len, lemma_without_selections_len,
    without_player, without_selections, Lobby, PlayerInLobby,
};
use crate::protocol::{ClientToLobby, LobbySettings, LobbyState, LobbyToClient, PlayerInfo, ShortLobbyInfo};
use crate::username::{
    advance_candidate, allocated_name, allocated_name_is_free_unless_requested_is_taken, candidate_name, lemma_candidate_names_distinct, lemma_candidate_valid,
    candidates_count_up, nth_candidate, str_from_utf8, string_from_utf8, ASCII_NINE, ASCII_ONE, ASCII_ZERO,
};

verus! {

broadcast use vstd::std_specs::hash::group_hash_axioms;

/// A connected player.
pub struct Player {
    pub id: PlayerId,
    pub username: String,
    pub in_lobby: Option<LobbyId>,
}

impl Player {
    /// Public information about the player.
    pub fn get_info(&self) -> (info: PlayerInfo)
        ensures
            info.id == self.id,
            info.name == self.username,
    {
        PlayerInfo { id: self.id, name: self.username.clone() }
    }
}

/// A message and the players it goes to.
pub struct Delivery {
    pub recipients: Vec<PlayerId>,
    pub message: LobbyToClient,
}

/// What happens to the server.
pub enum Event {
    /// A client completed its handshake asking for a username.
    NewConnection { id: PlayerId, requested_username: String },
    /// A client went away.
    LostConnection { id: PlayerId },
    /// A client sent a request.
    Message { from: PlayerId, message: ClientToLobby },
}

/// The server's state: connected players (by the value of their id), the
/// usernames in use, and the lobbies (by the value of their id).
pub struct State {
    pub players: HashMap<u128, Player>,
    pub player_names: StringHashMap<PlayerId>,
    pub lobbies: HashMap<u128, Lobby>,
}

/// The single recipient `to`, if that player is connected.
pub open spec fn recipient(players: Map<u128, Player>, to: PlayerId) -> Seq<PlayerId> {
    if players.contains_key(to.uuid) {
        seq![to]
    } else {
        seq![]
    }
}

/// Ids of the given members that are connected players, in order.
pub open spec fn present_ids(members: Seq<PlayerInLobby>, players: Map<u128, Player>) -> Seq<PlayerId>
    decreases members.len(),
{
    if members.len() == 0 {
        seq![]
    } else {
        let rest = present_ids(members.drop_last(), players);
        if players.contains_key(members.last().id.uuid) {
            rest.push(members.last().id)
        } else {
            rest
        }
    }
}

/// Recipients of a message to lobby `to`: its members that are connected,
/// team by team; nobody if there is no such lobby.
pub open spec fn lobby_recipients(players: Map<u128, Player>, lobbies: Map<u128, Lobby>, to: LobbyId) -> Seq<PlayerId> {
    if lobbies.contains_key(to.uuid) {
        present_ids(lobbies[to.uuid].teams().flatten(), players)
    } else {
        seq![]
    }
}

/// `order` lists every key of `m` exactly once.
pub open spec fn is_key_order<V>(order: Seq<u128>, m: Map<u128, V>) -> bool {
    &&& order.no_duplicates()
    &&& order.to_set() == m.dom()
}

/// `list` summarizes every lobby once, in some order.
pub open spec fn lists_lobbies(list: Seq<ShortLobbyInfo>, lobbies: Map<u128, Lobby>) -> bool {
    exists|order: Seq<u128>|
        {
            &&& #[trigger] is_key_order(order, lobbies)
            &&& order.len() == list.len()
            &&& forall|i: int| 0 <= i < list.len() ==> lobbies[order[i]].is_summarized_by(&#[trigger] list[i])
        }
}

/// `l` is the lobby `leader` opens with id `id`: named "New Lobby", two
/// teams of five, unlocked, no team switching, with the leader alone on the
/// first team, in the normal phase.
pub open spec fn is_new_lobby(l: Lobby, leader: PlayerId, id: LobbyId) -> bool {
    &&& l.id == id
    &&& l.settings.name@ == "New Lobby"@
    &&& l.settings.team_count == 2
    &&& l.settings.players_per_team == 5
    &&& !l.settings.locked
    &&& !l.settings.allows_team_switching
    &&& l.teams() == seq![seq![fresh_member(leader)], Seq::<PlayerInLobby>::empty()]
    &&& l.leader == leader
    &&& l.lobby_state == LobbyState::Normal
}

/// The lobby a player is leaving: the player is connected, is in a lobby,
/// and that lobby exists.
pub open spec fn leaving_lobby(players: Map<u128, Player>, lobbies: Map<u128, Lobby>, from: PlayerId) -> Option<LobbyId> {
    if players.contains_key(from.uuid) {
        match players[from.uuid].in_lobby {
            Some(lid) => if lobbies.contains_key(lid.uuid) {
                Some(lid)
            } else {
                None
            },
            None => None,
        }
    } else {
        None
    }
}

/// The leader of lobby `l` after `from` left it.
pub open spec fn leader_after_leave(l: Lobby, from: PlayerId) -> PlayerId {
    let teams = without_player(l.teams(), from);
    if l.leader == from && first_member(teams) is Some {
        first_member(teams)->0.id
    } else {
        l.leader
    }
}

/// `after` is lobby `l` once `from` left it (and, had champion selection
/// begun, with every selection cleared).
pub open spec fn is_lobby_after_leave(l: Lobby, after: Lobby, from: PlayerId) -> bool {
    let teams = without_player(l.teams(), from);
    &&& after.teams() == if l.lobby_state == LobbyState::ChampSelect {
        without_selections(teams)
    } else {
        teams
    }
    &&& after.leader == leader_after_leave(l, from)
    &&& after.id == l.id
    &&& after.settings == l.settings
    &&& after.lobby_state == l.lobby_state
}

/// The notices sent to the rest of lobby `l` when `from` leaves it: the
/// phase went back to normal (if champion selection had begun), who leads
/// now (if that changed), and who left.
pub open spec fn leave_notices(l: Lobby, from: PlayerId) -> Seq<LobbyToClient> {
    let new_leader = leader_after_leave(l, from);
    (if l.lobby_state == LobbyState::ChampSelect {
        seq![LobbyToClient::LobbyStateChanged { new_state: LobbyState::Normal }]
    } else {
        Seq::<LobbyToClient>::empty()
    }) + (if new_leader != l.leader {
        seq![LobbyToClient::PlayerBecameLeader { player: new_leader }]
    } else {
        Seq::<LobbyToClient>::empty()
    }) + seq![LobbyToClient::PlayerLeftLobby { player: from }]
}

/// Each delivery sends the matching message to `to`.
pub open spec fn delivers(out: Seq<Delivery>, messages: Seq<LobbyToClient>, to: Seq<PlayerId>) -> bool {
    &&& out.len() == messages.len()
    &&& forall|i: int| 0 <= i < out.len() ==> (#[trigger] out[i]).recipients@ == to && out[i].message == messages[i]
}

/// A request the server answers; the others it does not handle (yet), and
/// a kick needs both players to be connected.
pub open spec fn is_handled(players: Map<u128, Player>, from: PlayerId, message: ClientToLobby) -> bool {
    match message {
        ClientToLobby::KickPlayer { id } => players.contains_key(from.uuid) && players.contains_key(id.uuid),
        ClientToLobby::SwitchPlayerTeam { .. } => false,
        ClientToLobby::GetLobbySettings => false,
        ClientToLobby::SetLobbySettings { .. } => false,
        ClientToLobby::SetReady { .. } => false,
        ClientToLobby::ForceLobbyReady => false,
        ClientToLobby::SelectChampion { .. } => false,
        ClientToLobby::SetChampionLocked { .. } => false,
        _ => true,
    }
}

/// A player who connects asking for a name nobody has gets a name nobody
/// had, and that name is then recorded as the player's.
pub proof fn new_connection_gets_free_name(pre: State, post: State, id: PlayerId, wanted: Seq<char>, out: Seq<Delivery>)
    requires
        pre.connects(&post, id, wanted, out),
        !pre.player_names@.dom().contains(wanted),
    ensures
        !pre.player_names@.dom().contains(post.players@[id.uuid].username@),
        post.player_names@[post.players@[id.uuid].username@] == id,
{
    allocated_name_is_free_unless_requested_is_taken(
        pre.player_names@.dom(),
        wanted,
        post.players@[id.uuid].username@,
    );
}

/// A lobby opened by `CreateLobby` is unlocked, in the normal phase, led by
/// its creator, who is its only player, and has ten slots: others can join
/// it while it has room.
pub proof fn opened_lobby_is_joinable(pre: State, post: State, from: PlayerId, id: LobbyId, out: Seq<Delivery>)
    requires
        pre.opens_lobby(&post, from, id, out),
    ensures
        post.lobbies@.contains_key(id.uuid),
        !post.lobbies@[id.uuid].settings.locked,
        post.lobbies@[id.uuid].lobby_state == LobbyState::Normal,
        post.lobbies@[id.uuid].leader == from,
        post.lobbies@[id.uuid].spec_player_count() == 1,
        post.lobbies@[id.uuid].spec_max_player_count() == 10,
{
    let l = post.lobbies@[id.uuid];
    assert(post.lobbies@.dom().contains(id.uuid));
    let teams = l.teams();
    reveal_with_fuel(Seq::flatten, 3);
    assert(teams.drop_first().drop_first() =~= Seq::<Seq<PlayerInLobby>>::empty());
}

/// Leaving a lobby resets champion selections, and announces that the phase
/// is normal again, exactly when champion selection had begun. In the normal
/// phase or during a game the remaining members keep their selections and
/// locks and no phase change is announced. Either way the last notice says
/// who left.
pub proof fn leaving_resets_only_champion_select(pre: State, post: State, from: PlayerId, out: Seq<Delivery>, lid: LobbyId)
    requires
        pre.leaves_lobby(&post, from, out),
        leaving_lobby(pre.players@, pre.lobbies@, from) == Some(lid),
        without_player(pre.lobbies@[lid.uuid].teams(), from).flatten().len() > 0,
    ensures
        ({
            let l = pre.lobbies@[lid.uuid];
            let rest = without_player(l.teams(), from);
            &&& post.lobbies@.contains_key(lid.uuid)
            &&& l.lobby_state != LobbyState::ChampSelect ==> {
                &&& post.lobbies@[lid.uuid].teams() == rest
                &&& forall|i: int| 0 <= i < out.len() ==> !((#[trigger] out[i]).message is LobbyStateChanged)
            }
            &&& l.lobby_state == LobbyState::ChampSelect ==> {
                &&& post.lobbies@[lid.uuid].teams() == without_selections(rest)
                &&& out.len() >= 2
                &&& out[0].message == LobbyToClient::LobbyStateChanged { new_state: LobbyState::Normal }
            }
            &&& out.len() >= 1
            &&& out[out.len() - 1].message == LobbyToClient::PlayerLeftLobby { player: from }
        }),
{
    let l = pre.lobbies@[lid.uuid];
    let notices = leave_notices(l, from);
    assert(post.lobbies@.dom().contains(lid.uuid));
    assert(out.len() == notices.len());
    assert forall|i: int| 0 <= i < out.len() implies out[i].message == notices[i] by {
        assert(out[i].recipients@ == lobby_recipients(post.players@, post.lobbies@, lid) && out[i].message == notices[i]);
    }
    if l.lobby_state != LobbyState::ChampSelect {
        assert forall|i: int| 0 <= i < out.len() implies !((#[trigger] out[i]).message is LobbyStateChanged) by {
            assert(out[i].message == notices[i]);
        }
    }
}

impl State {
    /// The state is consistent: finitely many names are in use, and every
    /// lobby's counts fit in a `usize`.
    pub open spec fn wf(&self) -> bool {
        &&& self.player_names@.dom().finite()
        &&& forall|k: u128| #[trigger] self.lobbies@.contains_key(k) ==> self.lobbies@[k].counts_fit()
    }

    /// Nothing changed.
    pub open spec fn same_as(&self, other: &State) -> bool {
        &&& self.players@ == other.players@
        &&& self.player_names@ == other.player_names@
        &&& self.lobbies@ == other.lobbies@
    }

    /// `post` and `out` are what opening lobby `id` for `from` leads to.
    pub open spec fn opens_lobby(&self, post: &State, from: PlayerId, id: LobbyId, out: Seq<Delivery>) -> bool {
        &&& post.players@ == self.players@
        &&& post.player_names@ == self.player_names@
        &&& post.lobbies@ == self.lobbies@.insert(id.uuid, post.lobbies@[id.uuid])
        &&& is_new_lobby(post.lobbies@[id.uuid], from, id)
        &&& delivers(out, seq![LobbyToClient::JoinedLobby { id }], recipient(self.players@, from))
    }

    /// `post` and `out` are what `from` leaving its lobby leads to.
    pub open spec fn leaves_lobby(&self, post: &State, from: PlayerId, out: Seq<Delivery>) -> bool {
        match leaving_lobby(self.players@, self.lobbies@, from) {
            None => post.same_as(self) && out.len() == 0,
            Some(lid) => {
                let l = self.lobbies@[lid.uuid];
                &&& post.players@ == self.players@
                &&& post.player_names@ == self.player_names@
                &&& if without_player(l.teams(), from).flatten().len() == 0 {
                    &&& post.lobbies@ == self.lobbies@.remove(lid.uuid)
                    &&& out.len() == 0
                } else {
                    &&& post.lobbies@ == self.lobbies@.insert(lid.uuid, post.lobbies@[lid.uuid])
                    &&& is_lobby_after_leave(l, post.lobbies@[lid.uuid], from)
                    &&& delivers(out, leave_notices(l, from), lobby_recipients(post.players@, post.lobbies@, lid))
                }
            },
        }
    }

    /// `post` and `out` are the server's answer to `message` from `from`.
    pub open spec fn answers(&self, post: &State, from: PlayerId, message: ClientToLobby, out: Seq<Delivery>) -> bool {
        match message {
            ClientToLobby::GetLobbyList => {
                &&& post.same_as(self)
                &&& out.len() == 1
                &&& out[0].recipients@ == recipient(self.players@, from)
                &&& out[0].message matches LobbyToClient::LobbyList { lobbies } && lists_lobbies(lobbies@, self.lobbies@)
            },
            ClientToLobby::GetLobbyInfo { id } => {
                &&& post.same_as(self)
                &&& if self.lobbies@.contains_key(id.uuid) {
                    &&& out.len() == 1
                    &&& out[0].recipients@ == recipient(self.players@, from)
                    &&& out[0].message matches LobbyToClient::LobbyInfo { info } && self.lobbies@[id.uuid].is_described_by(&info)
                } else {
                    out.len() == 0
                }
            },
            ClientToLobby::GetPlayerInfo { player } => {
                &&& post.same_as(self)
                &&& if self.players@.contains_key(player.uuid) {
                    &&& out.len() == 1
                    &&& out[0].recipients@ == recipient(self.players@, from)
                    &&& out[0].message matches LobbyToClient::PlayerInfo { info }
                        && info.id == self.players@[player.uuid].id && info.name == self.players@[player.uuid].username
                } else {
                    out.len() == 0
                }
            },
            ClientToLobby::CreateLobby => {
                if self.players@.contains_key(from.uuid) && self.players@[from.uuid].in_lobby is None {
                    exists|id: LobbyId| is_random_uuid(id.uuid) && #[trigger] self.opens_lobby(post, from, id, out)
                } else {
                    post.same_as(self) && out.len() == 0
                }
            },
            ClientToLobby::LeaveLobby => self.leaves_lobby(post, from, out),
            _ => post.same_as(self) && out.len() == 0,
        }
    }

    /// `post` and `out` are what a new connection of player `id` asking
    /// for the name `wanted` leads to: the player gets the allocated name,
    /// which is recorded as in use, and is greeted with it.
    pub open spec fn connects(&self, post: &State, id: PlayerId, wanted: Seq<char>, out: Seq<Delivery>) -> bool {
        let name = post.players@[id.uuid].username@;
        &&& allocated_name(self.player_names@.dom(), wanted, name)
        &&& post.player_names@ == self.player_names@.insert(name, id)
        &&& post.players@ == self.players@.insert(id.uuid, post.players@[id.uuid])
        &&& post.players@[id.uuid].id == id
        &&& post.players@[id.uuid].in_lobby is None
        &&& post.lobbies@ == self.lobbies@
        &&& out.len() == 1
        &&& out[0].recipients@ == seq![id]
        &&& out[0].message matches LobbyToClient::Handshake { id: hid, username } && hid == id && username@ == name
    }

    /// A server with no players and no lobbies.
    pub fn new() -> (state: Self)
        ensures
            state.wf(),
            state.players@ == Map::<u128, Player>::empty(),
            state.player_names@ == Map::<Seq<char>, PlayerId>::empty(),
            state.lobbies@ == Map::<u128, Lobby>::empty(),
    {
        State { players: HashMap::new(), player_names: StringHashMap::new(), lobbies: HashMap::new() }
    }

    /// Picks the username for a player who asked for `wanted`: `wanted`
    /// itself when that name is already in use; otherwise the first free name
    /// among `wanted` (when it ends in a number, else `wanted` followed by 1)
    /// and the names with the trailing number counted up from there.
    pub fn find_username(&self, wanted: &str) -> (name: String)
        requires
            self.player_names@.dom().finite(),
        ensures
            allocated_name(self.player_names@.dom(), wanted@, name@),
    {
        if self.player_names.contains_key(wanted) {
            return wanted.to_string();
        }
        let mut bytes = vstd::slice::slice_to_vec(wanted.as_bytes());
        let len: usize = bytes.len();
        if len == 0 || !(ASCII_ZERO <= bytes[len - 1] && bytes[len - 1] <= ASCII_NINE) {
            bytes.push(ASCII_ONE);
        }
        let ghost taken = self.player_names@.dom();
        let ghost mut n: nat = 0;
        let ghost mut visited: Set<Seq<char>> = Set::empty();
        proof {
            lemma_candidate_valid(wanted@, 0);
            assert(bytes@ =~= nth_candidate(wanted@, 0));
        }
        while self.player_names.contains_key(str_from_utf8(bytes.as_slice()).unwrap())
            invariant
                taken == self.player_names@.dom(),
                taken.finite(),
                !taken.contains(wanted@),
                bytes@ == nth_candidate(wanted@, n),
                valid_utf8(bytes@),
                visited.finite(),
                visited.subset_of(taken),
                visited.len() == n,
                forall|s: Seq<char>| #[trigger] visited.contains(s) ==> exists|m: nat| m < n && s == #[trigger] candidate_name(wanted@, m),
                forall|m: nat| m < n ==> taken.contains(#[trigger] candidate_name(wanted@, m)),
            decreases taken.len() - visited.len(),
        {
            proof {
                let cur = candidate_name(wanted@, n);
                decode_utf8_encode_utf8(bytes@);
                assert(taken.contains(cur));
                if visited.contains(cur) {
                    let m = choose|m: nat| m < n && cur == #[trigger] candidate_name(wanted@, m);
                    lemma_candidate_names_distinct(wanted@, m, n);
                }
                visited = visited.insert(cur);
                n = n + 1;
                vstd::set_lib::lemma_len_subset(visited, taken);
                candidates_count_up(wanted@, (n - 1) as nat);
                lemma_candidate_valid(wanted@, n);
            }
            advance_candidate(&mut bytes);
        }
        let name = string_from_utf8(bytes).unwrap();
        proof {
            decode_utf8_encode_utf8(nth_candidate(wanted@, n));
            assert(name@ == candidate_name(wanted@, n));
        }
        name
    }

    /// Summaries of all lobbies, in the order the map is walked.
    fn lobby_summaries(&self) -> (list: Vec<ShortLobbyInfo>)
        requires
            self.wf(),
        ensures
            lists_lobbies(list@, self.lobbies@),
    {
        let mut list: Vec<ShortLobbyInfo> = Vec::new();
        let entries = self.lobbies.iter();
        let ghost all = entries.remaining();
        assert(all.no_duplicates());
        for entry in it: entries
            invariant
                self.wf(),
                all == vstd::std_specs::hash::spec_hash_map_iter(&self.lobbies).remaining(),
                all.no_duplicates(),
                list.len() == it.index(),
                it.seq() == vstd::std_specs::hash::spec_hash_map_iter(&self.lobbies).remaining(),
                forall|i: int| 0 <= i < it.index() ==> self.lobbies@[*it.seq()[i].0].is_summarized_by(&#[trigger] list@[i]),
        {
            let (key, lobby) = entry;
            proof {
                let v = it.seq();
                assert(self.lobbies@.contains_key(*v[it.index()].0));
            }
            list.push(lobby.get_short_info());
        }
        proof {
            let v = vstd::std_specs::hash::spec_hash_map_iter(&self.lobbies).remaining();
            let order = v.map_values(|e: (&u128, &Lobby)| *e.0);
            assert forall|i: int, j: int| 0 <= i < order.len() && 0 <= j < order.len() && i != j implies order[i] != order[j] by {
                if order[i] == order[j] {
                    assert(self.lobbies@.contains_key(*v[i].0));
                    assert(self.lobbies@.contains_key(*v[j].0));
                    assert(v[i] == v[j]);
                }
            }
            assert forall|k: u128| #[trigger] order.to_set().contains(k) <==> self.lobbies@.dom().contains(k) by {
                if self.lobbies@.dom().contains(k) {
                    assert(v.contains((&k, &self.lobbies@[k])));
                    let i = choose|i: int| 0 <= i < v.len() && v[i] == (&k, &self.lobbies@[k]);
                    assert(order[i] == k);
                }
                if order.to_set().contains(k) {
                    let i = choose|i: int| 0 <= i < order.len() && order[i] == k;
                    assert(self.lobbies@.contains_key(*v[i].0));
                }
            }
            assert(order.to_set() =~= self.lobbies@.dom());
            assert(is_key_order(order, self.lobbies@));
        }
        list
    }

    /// Opens a new lobby led by `from` under the id `id`, and tells `from`
    /// it joined it.
    pub fn open_lobby(&mut self, from: PlayerId, id: LobbyId) -> (out: Vec<Delivery>)
        requires
            old(self).wf(),
        ensures
            final(self).wf(),
            old(self).opens_lobby(&*final(self), from, id, out@),
    {
        let mut first_team: Vec<PlayerInLobby> = Vec::new();
        first_team.push(PlayerInLobby { id: from, ready: false, selected_champion: None, locked: false });
        let mut teams: Vec<Vec<PlayerInLobby>> = Vec::new();
        teams.push(first_team);
        teams.push(Vec::new());
        let lobby = Lobby {
            id,
            settings: LobbySettings {
                name: "New Lobby".to_string(),
                team_count: 2,
                players_per_team: 5,
                locked: false,
                allows_team_switching: false,
            },
            players: teams,
            leader: from,
            lobby_state: LobbyState::Normal,
        };
        proof {
            let teams = lobby.teams();
            assert(teams =~= seq![seq![fresh_member(from)], Seq::<PlayerInLobby>::empty()]);
            reveal_with_fuel(Seq::flatten, 3);
            assert(teams.drop_first().drop_first() =~= Seq::<Seq<PlayerInLobby>>::empty());
            assert(teams.flatten().len() == 1);
        }
        self.lobbies.insert(id.uuid, lobby);
        let out = vec![self.send_message(from, LobbyToClient::JoinedLobby { id })];
        proof {
            assert(self.lobbies@ =~= old(self).lobbies@.insert(id.uuid, self.lobbies@[id.uuid]));
        }
        out
    }

    /// A connected player who is not in a lobby opens one with a fresh id.
    fn create_lobby(&mut self, from: PlayerId) -> (out: Vec<Delivery>)
        requires
            old(self).wf(),
        ensures
            final(self).wf(),
            old(self).answers(&*final(self), from, ClientToLobby::CreateLobby, out@),
    {
        match self.players.get(&from.uuid) {
            None => {
                return Vec::new();
            },
            Some(player) => {
                if player.in_lobby.is_some() {
                    return Vec::new();
                }
            },
        }
        let id = LobbyId::new();
        let out = self.open_lobby(from, id);
        proof {
            assert(old(self).opens_lobby(&*self, from, id, out@));
        }
        out
    }

    /// `from` leaves its lobby. An emptied lobby is closed; otherwise the
    /// rest of the lobby is told that the phase went back to normal (when
    /// champion selection had begun), who leads now (when that changed), and
    /// who left.
    fn leave_lobby(&mut self, from: PlayerId) -> (out: Vec<Delivery>)
        requires
            old(self).wf(),
        ensures
            final(self).wf(),
            old(self).leaves_lobby(&*final(self), from, out@),
    {
        let lobby_id = match self.players.get(&from.uuid) {
            None => {
                return Vec::new();
            },
            Some(player) => match player.in_lobby {
                None => {
                    return Vec::new();
                },
                Some(lobby_id) => lobby_id,
            },
        };
        let mut lobby = match self.lobbies.remove(&lobby_id.uuid) {
            None => {
                assert(self.lobbies@ =~= old(self).lobbies@);
                return Vec::new();
            },
            Some(lobby) => lobby,
        };
        let ghost l = lobby;
        assert(old(self).lobbies@.contains_key(lobby_id.uuid));
        assert(l.counts_fit());
        let old_leader = lobby.leader;
        lobby.remove_player(from);
        let new_leader = lobby.leader;
        proof {
            lemma_without_player_len(l.teams(), from);
        }
        if lobby.player_count() == 0 {
            return Vec::new();
        }
        let champ_select = lobby.lobby_state == LobbyState::ChampSelect;
        if champ_select {
            lobby.set_lobby_state(LobbyState::Normal);
        }
        proof {
            lemma_without_selections_len(without_player(l.teams(), from));
        }
        self.lobbies.insert(lobby_id.uuid, lobby);
        proof {
            assert(self.lobbies@ =~= old(self).lobbies@.insert(lobby_id.uuid, self.lobbies@[lobby_id.uuid]));
        }
        let mut out: Vec<Delivery> = Vec::new();
        if champ_select {
            out.push(self.send_message_to_lobby(lobby_id, LobbyToClient::LobbyStateChanged { new_state: LobbyState::Normal }));
        }
        if old_leader != new_leader {
            out.push(self.send_message_to_lobby(lobby_id, LobbyToClient::PlayerBecameLeader { player: new_leader }));
        }
        out.push(self.send_message_to_lobby(lobby_id, LobbyToClient::PlayerLeftLobby { player: from }));
        proof {
            let notices = leave_notices(l, from);
            assert(notices.len() == out@.len());
            assert(delivers(out@, notices, lobby_recipients(self.players@, self.lobbies@, lobby_id)));
        }
        out
    }

    /// Answers a request from player `from`.
    pub fn handle_message(&mut self, from: PlayerId, message: ClientToLobby) -> (out: Vec<Delivery>)
        requires
            old(self).wf(),
            is_handled(old(self).players@, from, message),
        ensures
            final(self).wf(),
            old(self).answers(&*final(self), from, message, out@),
    {
        match message {
            ClientToLobby::Handshake { username: _ } => Vec::new(),
            ClientToLobby::GetLobbyList => {
                let lobbies = self.lobby_summaries();
                vec![self.send_message(from, LobbyToClient::LobbyList { lobbies })]
            },
            ClientToLobby::GetLobbyInfo { id } => match self.lobbies.get(&id.uuid) {
                None => Vec::new(),
                Some(lobby) => {
                    let info = lobby.get_info();
                    vec![self.send_message(from, LobbyToClient::LobbyInfo { info })]
                },
            },
            ClientToLobby::GetPlayerInfo { player } => match self.players.get(&player.uuid) {
                None => Vec::new(),
                Some(player) => {
                    let info = player.get_info();
                    vec![self.send_message(from, LobbyToClient::PlayerInfo { info })]
                },
            },
            ClientToLobby::CreateLobby => self.create_lobby(from),
            ClientToLobby::JoinLobby { id } => {
                if let Some(player) = self.players.get(&from.uuid) {
                    if player.in_lobby.is_none() {
                        if let Some(lobby) = self.lobbies.get(&id.uuid) {
                            let _joinable = lobby.can_join();
                        }
                    }
                }
                Vec::new()
            },
            ClientToLobby::LeaveLobby => self.leave_lobby(from),
            ClientToLobby::KickPlayer { id } => {
                let _kicker = self.players.get(&from.uuid).unwrap();
                let _kickee = self.players.get(&id.uuid).unwrap();
                Vec::new()
            },
            _ => Vec::new(),
        }
    }

    /// Reacts to an event: greets a new connection with its username, or
    /// answers a request.
    pub fn handle_event(&mut self, event: Event) -> (out: Vec<Delivery>)
        requires
            old(self).wf(),
            !(event is LostConnection),
            event matches Event::Message { from, message } ==> is_handled(old(self).players@, from, message),
        ensures
            final(self).wf(),
            match event {
                Event::NewConnection { id, requested_username } => old(self).connects(
                    &*final(self),
                    id,
                    requested_username@,
                    out@,
                ),
                Event::Message { from, message } => old(self).answers(&*final(self), from, message, out@),
                Event::LostConnection { .. } => true,
            },
    {
        match event {
            Event::NewConnection { id, requested_username } => {
                let username = self.find_username(requested_username.as_str());
                self.player_names.insert(username.clone(), id);
                let mut recipients: Vec<PlayerId> = Vec::new();
                recipients.push(id);
                let mut out: Vec<Delivery> = Vec::new();
                out.push(Delivery { recipients, message: LobbyToClient::Handshake { id, username: username.clone() } });
                self.players.insert(id.uuid, Player { id, username, in_lobby: None });
                proof {
                    assert(self.players@ =~= old(self).players@.insert(id.uuid, self.players@[id.uuid]));
                }
                out
            },
            Event::LostConnection { id: _ } => Vec::new(),
            Event::Message { from, message } => self.handle_message(from, message),
        }
    }

    /// The delivery that sends `message` to every connected player.
    pub fn broadcast_message(&self, message: LobbyToClient) -> (d: Delivery)
        ensures
            d.message == message,
            exists|order: Seq<u128>|
                {
                    &&& #[trigger] is_key_order(order, self.players@)
                    &&& order.len() == d.recipients@.len()
                    &&& forall|i: int| 0 <= i < order.len() ==> d.recipients@[i] == self.players@[#[trigger] order[i]].id
                },
    {
        let mut recipients: Vec<PlayerId> = Vec::new();
        let entries = self.players.iter();
        let ghost all = entries.remaining();
        assert(all.no_duplicates());
        for entry in it: entries
            invariant
                all == vstd::std_specs::hash::spec_hash_map_iter(&self.players).remaining(),
                all.no_duplicates(),
                recipients.len() == it.index(),
                it.seq() == all,
                forall|i: int| 0 <= i < it.index() ==> #[trigger] recipients@[i] == it.seq()[i].1.id,
        {
            let (_key, player) = entry;
            recipients.push(player.id);
        }
        proof {
            let v = all;
            let order = v.map_values(|e: (&u128, &Player)| *e.0);
            assert forall|i: int, j: int| 0 <= i < order.len() && 0 <= j < order.len() && i != j implies order[i] != order[j] by {
                if order[i] == order[j] {
                    assert(self.players@.contains_key(*v[i].0));
                    assert(self.players@.contains_key(*v[j].0));
                    assert(v[i] == v[j]);
                }
            }
            assert forall|k: u128| #[trigger] order.to_set().contains(k) <==> self.players@.dom().contains(k) by {
                if self.players@.dom().contains(k) {
                    assert(v.contains((&k, &self.players@[k])));
                    let i = choose|i: int| 0 <= i < v.len() && v[i] == (&k, &self.players@[k]);
                    assert(order[i] == k);
                }
                if order.to_set().contains(k) {
                    let i = choose|i: int| 0 <= i < order.len() && order[i] == k;
                    assert(self.players@.contains_key(*v[i].0));
                }
            }
            assert(order.to_set() =~= self.players@.dom());
            assert(is_key_order(order, self.players@));
            assert forall|i: int| 0 <= i < order.len() implies recipients@[i] == self.players@[#[trigger] order[i]].id by {
                assert(self.players@.contains_key(*v[i].0));
            }
        }
        Delivery { recipients, message }
    }

    /// The deliveries that send `message` to player `to`: to that player if
    /// connected, to nobody otherwise.
    pub fn send_message(&self, to: PlayerId, message: LobbyToClient) -> (d: Delivery)
        ensures
            d.recipients@ == recipient(self.players@, to),
            d.message == message,
    {
        let mut recipients: Vec<PlayerId> = Vec::new();
        if self.players.contains_key(&to.uuid) {
            recipients.push(to);
        }
        proof {
            assert(recipients@ =~= recipient(self.players@, to));
        }
        Delivery { recipients, message }
    }

    /// The delivery that sends `message` to every connected member of
    /// lobby `to`, team by team.
    pub fn send_message_to_lobby(&self, to: LobbyId, message: LobbyToClient) -> (d: Delivery)
        ensures
            d.recipients@ == lobby_recipients(self.players@, self.lobbies@, to),
            d.message == message,
    {
        let mut recipients: Vec<PlayerId> = Vec::new();
        match self.lobbies.get(&to.uuid) {
            None => {
                proof {
                    assert(recipients@ =~= lobby_recipients(self.players@, self.lobbies@, to));
                }
            },
            Some(lobby) => {
                let ghost teams = lobby.teams();
                assert(teams.take(0).flatten() =~= Seq::<PlayerInLobby>::empty());
                let mut t: usize = 0;
                while t < lobby.players.len()
                    invariant
                        teams == lobby.teams(),
                        t <= teams.len(),
                        recipients@ == present_ids(teams.take(t as int).flatten(), self.players@),
                    decreases teams.len() - t,
                {
                    let ghost prefix = teams.take(t as int).flatten();
                    let ghost team = teams[t as int];
                    assert(team == lobby.players@[t as int]@);
                    assert(prefix + team.take(0) =~= prefix);
                    let mut k: usize = 0;
                    while k < lobby.players[t].len()
                        invariant
                            teams == lobby.teams(),
                            t < teams.len(),
                            team == lobby.players@[t as int]@,
                            k <= team.len(),
                            recipients@ == present_ids(prefix + team.take(k as int), self.players@),
                        decreases team.len() - k,
                    {
                        let id = lobby.players[t][k].id;
                        let ghost before = prefix + team.take(k as int);
                        assert((prefix + team.take(k + 1)).drop_last() =~= before);
                        if self.players.contains_key(&id.uuid) {
                            recipients.push(id);
                        }
                        k += 1;
                    }
                    proof {
                        assert(team.take(k as int) =~= team);
                        lemma_flatten_take_step(teams, t as int);
                    }
                    t += 1;
                }
                proof {
                    assert(teams.take(t as int) =~= teams);
                }
            },
        }
        Delivery { recipients, message }
    }
}

} // verus!
