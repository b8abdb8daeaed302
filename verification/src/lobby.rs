//! Lobbies: teams of players, how players are placed on teams, and what a
//! lobby reports about itself.

use vstd::prelude::*;
use crate::ids::{ChampionId, LobbyId, PlayerId};
use crate::protocol::{self, LobbyInfo, LobbySettings, LobbyState, ShortLobbyInfo, Team};

verus! {

broadcast use vstd::seq_lib::group_seq_properties;

/// A member of a lobby as the server tracks it.
#[derive(Clone, Copy, PartialEq, Eq, Structural, Debug)]
pub struct PlayerInLobby {
    pub id: PlayerId,
    pub ready: bool,
    pub selected_champion: Option<ChampionId>,
    pub locked: bool,
}

/// A lobby: its settings and its players, grouped into teams.
pub struct Lobby {
    pub id: LobbyId,
    pub settings: LobbySettings,
    pub players: Vec<Vec<PlayerInLobby>>,
    pub leader: PlayerId,
    pub lobby_state: LobbyState,
}

/// A player that has just joined: not ready, no champion, not locked.
pub open spec fn fresh_member(id: PlayerId) -> PlayerInLobby {
    PlayerInLobby { id, ready: false, selected_champion: None, locked: false }
}

/// `i` is the first of the smallest teams.
pub open spec fn is_first_smallest(teams: Seq<Seq<PlayerInLobby>>, i: int) -> bool {
    &&& 0 <= i < teams.len()
    &&& forall|k: int| 0 <= k < teams.len() ==> teams[i].len() <= #[trigger] teams[k].len()
    &&& forall|k: int| 0 <= k < i ==> teams[i].len() < #[trigger] teams[k].len()
}

/// Index of the first of the smallest teams (0 when there is no team).
pub open spec fn smallest_team(teams: Seq<Seq<PlayerInLobby>>) -> int
    decreases teams.len(),
{
    if teams.len() <= 1 {
        0
    } else {
        let j = smallest_team(teams.drop_last());
        if teams.last().len() < teams[j].len() {
            teams.len() - 1
        } else {
            j
        }
    }
}

/// `p` joins the first of the smallest teams.
pub open spec fn add_to_smallest(teams: Seq<Seq<PlayerInLobby>>, p: PlayerInLobby) -> Seq<Seq<PlayerInLobby>> {
    let i = smallest_team(teams);
    teams.update(i, teams[i].push(p))
}

/// The players of `extra`, in order, each join the then smallest team.
pub open spec fn distribute(teams: Seq<Seq<PlayerInLobby>>, extra: Seq<PlayerInLobby>) -> Seq<Seq<PlayerInLobby>>
    decreases extra.len(),
{
    if extra.len() == 0 {
        teams
    } else {
        add_to_smallest(distribute(teams, extra.drop_last()), extra.last())
    }
}

/// The teams after the number of teams is set to `count`: new teams start
/// empty; the players of removed teams join the remaining teams one by one.
pub open spec fn with_team_count(teams: Seq<Seq<PlayerInLobby>>, count: nat) -> Seq<Seq<PlayerInLobby>> {
    if count >= teams.len() {
        teams + Seq::new((count - teams.len()) as nat, |i: int| Seq::<PlayerInLobby>::empty())
    } else {
        distribute(teams.take(count as int), teams.skip(count as int).flatten())
    }
}

/// The last player of team `from` moves to team `to`.
pub open spec fn move_last(teams: Seq<Seq<PlayerInLobby>>, from: int, to: int) -> Seq<Seq<PlayerInLobby>> {
    teams.update(to, teams[to].push(teams[from].last())).update(from, teams[from].drop_last())
}

/// Teams from index `from` on are brought down to `cap` players, moving
/// their last players to the smallest team while it has room; once the
/// smallest team is full, nothing more moves.
pub open spec fn rebalance(teams: Seq<Seq<PlayerInLobby>>, cap: nat, from: nat) -> Seq<Seq<PlayerInLobby>>
    decreases teams.len() - from, teams[from as int].len(),
{
    if from >= teams.len() {
        teams
    } else if teams[from as int].len() <= cap {
        rebalance(teams, cap, from + 1)
    } else {
        let to = smallest_team(teams);
        if teams[to].len() < cap {
            proof {
                lemma_smallest_team(teams);
                assert(move_last(teams, from as int, to)[from as int] == teams[from as int].drop_last());
            }
            rebalance(move_last(teams, from as int, to), cap, from)
        } else {
            teams
        }
    }
}


/// Index of the first member of `team` with the given id, or -1.
pub open spec fn position_in(team: Seq<PlayerInLobby>, id: PlayerId) -> int
    decreases team.len(),
{
    if team.len() == 0 {
        -1
    } else {
        let p = position_in(team.drop_last(), id);
        if p >= 0 {
            p
        } else if team.last().id == id {
            team.len() - 1
        } else {
            -1
        }
    }
}

/// Index of the first team with a member of the given id, or -1.
pub open spec fn team_with(teams: Seq<Seq<PlayerInLobby>>, id: PlayerId) -> int
    decreases teams.len(),
{
    if teams.len() == 0 {
        -1
    } else {
        let t = team_with(teams.drop_last(), id);
        if t >= 0 {
            t
        } else if position_in(teams.last(), id) >= 0 {
            teams.len() - 1
        } else {
            -1
        }
    }
}

/// The teams after the first member with the given id leaves its team.
pub open spec fn without_player(teams: Seq<Seq<PlayerInLobby>>, id: PlayerId) -> Seq<Seq<PlayerInLobby>> {
    let t = team_with(teams, id);
    if t < 0 {
        teams
    } else {
        teams.update(t, teams[t].remove(position_in(teams[t], id)))
    }
}

/// The first member of the first team that has one.
pub open spec fn first_member(teams: Seq<Seq<PlayerInLobby>>) -> Option<PlayerInLobby>
    decreases teams.len(),
{
    if teams.len() == 0 {
        None
    } else if teams[0].len() > 0 {
        Some(teams[0][0])
    } else {
        first_member(teams.drop_first())
    }
}

/// Team `j` of `orig`; names the teams a loop has not touched.
pub open spec fn old_team(orig: Seq<Seq<PlayerInLobby>>, j: int, current: int) -> Seq<PlayerInLobby> {
    if j < current {
        orig[j].map_values(|p: PlayerInLobby| cleared(p))
    } else {
        orig[j]
    }
}

/// A member with no champion selected and not locked in.
pub open spec fn cleared(p: PlayerInLobby) -> PlayerInLobby {
    PlayerInLobby { id: p.id, ready: p.ready, selected_champion: None, locked: false }
}

/// Every member's champion selection is cleared.
pub open spec fn without_selections(teams: Seq<Seq<PlayerInLobby>>) -> Seq<Seq<PlayerInLobby>> {
    teams.map_values(|t: Seq<PlayerInLobby>| t.map_values(|p: PlayerInLobby| cleared(p)))
}

/// How clients see a member.
pub open spec fn public_member(p: PlayerInLobby) -> protocol::PlayerInLobby {
    protocol::PlayerInLobby { id: p.id, selected_champion: p.selected_champion, locked: p.locked }
}

impl Lobby {
    /// The teams, each a sequence of members.
    pub open spec fn teams(&self) -> Seq<Seq<PlayerInLobby>> {
        self.players@.map_values(|t: Vec<PlayerInLobby>| t@)
    }

    /// Number of players in the lobby, over all teams.
    pub open spec fn spec_player_count(&self) -> nat {
        self.teams().flatten().len()
    }

    /// Number of player slots the settings provide.
    pub open spec fn spec_max_player_count(&self) -> int {
        self.settings.players_per_team * self.settings.team_count
    }

    /// Everything but the teams is the same in both lobbies.
    pub open spec fn same_but_teams(&self, other: &Lobby) -> bool {
        &&& self.id == other.id
        &&& self.settings == other.settings
        &&& self.leader == other.leader
        &&& self.lobby_state == other.lobby_state
    }

    /// `info` describes this lobby as clients see it.
    pub open spec fn is_described_by(&self, info: &LobbyInfo) -> bool {
        &&& info.id == self.id
        &&& info.settings == self.settings
        &&& info.leader == self.leader
        &&& info.lobby_state == self.lobby_state
        &&& info.players@.map_values(|v: Vec<protocol::PlayerInLobby>| v@) == self.teams().map_values(
            |team: Seq<PlayerInLobby>| team.map_values(|p: PlayerInLobby| public_member(p)),
        )
    }

    /// `short` summarizes this lobby.
    pub open spec fn is_summarized_by(&self, short: &ShortLobbyInfo) -> bool {
        &&& short.id == self.id
        &&& short.name == self.settings.name
        &&& short.players == self.spec_player_count()
        &&& short.max_player_count == self.spec_max_player_count()
    }

    /// The counts a lobby reports fit in a `usize`.
    pub open spec fn counts_fit(&self) -> bool {
        &&& self.spec_player_count() <= usize::MAX
        &&& self.spec_max_player_count() <= usize::MAX
    }
}

/// The first of the smallest teams is the one `smallest_team` names.
pub proof fn lemma_smallest_team(teams: Seq<Seq<PlayerInLobby>>)
    requires
        teams.len() > 0,
    ensures
        is_first_smallest(teams, smallest_team(teams)),
    decreases teams.len(),
{
    if teams.len() > 1 {
        let d = teams.drop_last();
        lemma_smallest_team(d);
        let j = smallest_team(d);
        assert(forall|k: int| 0 <= k < d.len() ==> d[k] == teams[k]);
        if teams.last().len() < teams[j].len() {
            assert forall|k: int| 0 <= k < teams.len() implies teams[teams.len() - 1].len() <= #[trigger] teams[k].len() by {
                if k < d.len() {
                    assert(d[j].len() <= d[k].len());
                }
            }
        } else {
            assert forall|k: int| 0 <= k < teams.len() implies teams[j].len() <= #[trigger] teams[k].len() by {
                if k < d.len() {
                    assert(d[j].len() <= d[k].len());
                }
            }
        }
    }
}

/// Only one team is the first of the smallest.
pub proof fn lemma_first_smallest_unique(teams: Seq<Seq<PlayerInLobby>>, i: int)
    requires
        is_first_smallest(teams, i),
    ensures
        i == smallest_team(teams),
{
    lemma_smallest_team(teams);
    let j = smallest_team(teams);
    if i < j {
        assert(teams[j].len() < teams[i].len());
    } else if j < i {
        assert(teams[i].len() < teams[j].len());
    }
}

/// Replacing team `i` by `t` changes the players of the lobby by exactly
/// the players of the old and the new team.
pub proof fn lemma_flatten_update(s: Seq<Seq<PlayerInLobby>>, i: int, t: Seq<PlayerInLobby>)
    requires
        0 <= i < s.len(),
    ensures
        s.update(i, t).flatten().len() + s[i].len() == s.flatten().len() + t.len(),
        s.update(i, t).flatten().to_multiset().add(s[i].to_multiset())
            =~= s.flatten().to_multiset().add(t.to_multiset()),
{
    broadcast use vstd::seq_lib::lemma_multiset_commutative;
    broadcast use vstd::multiset::group_multiset_axioms;

    let a = s.take(i);
    let b = s.skip(i + 1);
    assert(s =~= a + seq![s[i]] + b);
    assert(s.update(i, t) =~= a + seq![t] + b);
    vstd::seq_lib::lemma_flatten_concat(a + seq![s[i]], b);
    vstd::seq_lib::lemma_flatten_concat(a, seq![s[i]]);
    vstd::seq_lib::lemma_flatten_concat(a + seq![t], b);
    vstd::seq_lib::lemma_flatten_concat(a, seq![t]);
    seq![s[i]].lemma_flatten_one_element();
    seq![t].lemma_flatten_one_element();
    let fa = a.flatten();
    let fb = b.flatten();
    assert(s.flatten() =~= fa + s[i] + fb);
    assert(s.update(i, t).flatten() =~= fa + t + fb);
}

/// The players of the first `k + 1` teams are those of the first `k` teams
/// followed by team `k`.
pub proof fn lemma_flatten_take_step(s: Seq<Seq<PlayerInLobby>>, k: int)
    requires
        0 <= k < s.len(),
    ensures
        s.take(k + 1).flatten() =~= s.take(k).flatten() + s[k],
{
    assert(s.take(k + 1) =~= s.take(k).push(s[k]));
    s.take(k).lemma_flatten_push(s[k]);
}

/// The players of a prefix of the teams are no more than all players.
pub proof fn lemma_flatten_prefix_len(s: Seq<Seq<PlayerInLobby>>, k: int)
    requires
        0 <= k <= s.len(),
    ensures
        s.take(k).flatten().len() <= s.flatten().len(),
{
    assert(s =~= s.take(k) + s.skip(k));
    vstd::seq_lib::lemma_flatten_concat(s.take(k), s.skip(k));
}


/// `position_in` names the first member with the id.
pub proof fn lemma_position_in(team: Seq<PlayerInLobby>, id: PlayerId, k: int)
    requires
        0 <= k <= team.len(),
        forall|j: int| 0 <= j < k ==> #[trigger] team[j].id != id,
        k < team.len() ==> team[k].id == id,
    ensures
        position_in(team, id) == if k < team.len() { k } else { -1 },
    decreases team.len(),
{
    if team.len() > 0 {
        let d = team.drop_last();
        if k < d.len() {
            lemma_position_in(d, id, k);
        } else {
            lemma_position_in(d, id, d.len() as int);
        }
    }
}

/// `team_with` names the first team holding the id.
pub proof fn lemma_team_with(teams: Seq<Seq<PlayerInLobby>>, id: PlayerId, k: int)
    requires
        0 <= k <= teams.len(),
        forall|j: int| 0 <= j < k ==> position_in(#[trigger] teams[j], id) < 0,
        k < teams.len() ==> position_in(teams[k], id) >= 0,
    ensures
        team_with(teams, id) == if k < teams.len() { k } else { -1 },
    decreases teams.len(),
{
    if teams.len() > 0 {
        let d = teams.drop_last();
        assert(forall|j: int| 0 <= j < d.len() ==> d[j] == teams[j]);
        if k < d.len() {
            lemma_team_with(d, id, k);
        } else {
            lemma_team_with(d, id, d.len() as int);
        }
    }
}

/// A position found by `position_in` is in range and holds the id.
pub proof fn lemma_position_in_found(team: Seq<PlayerInLobby>, id: PlayerId)
    ensures
        position_in(team, id) >= 0 ==> position_in(team, id) < team.len() && team[position_in(team, id)].id == id,
        position_in(team, id) < 0 ==> forall|j: int| 0 <= j < team.len() ==> #[trigger] team[j].id != id,
    decreases team.len(),
{
    if team.len() > 0 {
        lemma_position_in_found(team.drop_last(), id);
        assert(forall|j: int| 0 <= j < team.len() - 1 ==> team.drop_last()[j] == team[j]);
    }
}

/// A team found by `team_with` is in range and holds the id.
pub proof fn lemma_team_with_found(teams: Seq<Seq<PlayerInLobby>>, id: PlayerId)
    ensures
        team_with(teams, id) >= 0 ==> team_with(teams, id) < teams.len() && position_in(teams[team_with(teams, id)], id) >= 0,
        team_with(teams, id) < 0 ==> forall|j: int| 0 <= j < teams.len() ==> position_in(#[trigger] teams[j], id) < 0,
    decreases teams.len(),
{
    if teams.len() > 0 {
        lemma_team_with_found(teams.drop_last(), id);
        assert(forall|j: int| 0 <= j < teams.len() - 1 ==> teams.drop_last()[j] == teams[j]);
    }
}

/// `first_member` is the first member of the first non-empty team.
pub proof fn lemma_first_member(teams: Seq<Seq<PlayerInLobby>>, k: int)
    requires
        0 <= k <= teams.len(),
        forall|j: int| 0 <= j < k ==> (#[trigger] teams[j]).len() == 0,
        k < teams.len() ==> teams[k].len() > 0,
    ensures
        first_member(teams) == if k < teams.len() { Some(teams[k][0]) } else { None::<PlayerInLobby> },
    decreases k,
{
    if k > 0 {
        let d = teams.drop_first();
        assert(forall|j: int| 0 <= j < d.len() ==> d[j] == teams[j + 1]);
        assert(teams[0].len() == 0);
        lemma_first_member(d, k - 1);
    }
}

/// Removing a player never adds players.
pub proof fn lemma_without_player_len(teams: Seq<Seq<PlayerInLobby>>, id: PlayerId)
    ensures
        without_player(teams, id).flatten().len() <= teams.flatten().len(),
        without_player(teams, id).len() == teams.len(),
{
    lemma_team_with_found(teams, id);
    let t = team_with(teams, id);
    if t >= 0 {
        lemma_position_in_found(teams[t], id);
        lemma_flatten_update(teams, t, teams[t].remove(position_in(teams[t], id)));
    }
}

/// Clearing selections keeps every team's members and their number.
pub proof fn lemma_without_selections_len(teams: Seq<Seq<PlayerInLobby>>)
    ensures
        without_selections(teams).flatten().len() == teams.flatten().len(),
        without_selections(teams).len() == teams.len(),
    decreases teams.len(),
{
    if teams.len() > 0 {
        lemma_without_selections_len(teams.drop_first());
        assert(without_selections(teams).drop_first() =~= without_selections(teams.drop_first()));
    }
}

impl Lobby {
    pub fn find_smallest_team(&self) -> (team: Team)
        requires
            self.players.len() > 0,
        ensures
            team.0 == smallest_team(self.teams()),
            is_first_smallest(self.teams(), team.0 as int),
    {
        let ghost teams = self.teams();
        let mut best: usize = 0;
        let mut i: usize = 1;
        while i < self.players.len()
            invariant
                teams == self.teams(),
                1 <= i <= self.players.len(),
                best < i,
                forall|k: int| 0 <= k < i ==> teams[best as int].len() <= #[trigger] teams[k].len(),
                forall|k: int| 0 <= k < best ==> teams[best as int].len() < #[trigger] teams[k].len(),
            decreases self.players.len() - i,
        {
            assert(teams[i as int] == self.players@[i as int]@);
            assert(teams[best as int] == self.players@[best as int]@);
            if self.players[i].len() < self.players[best].len() {
                best = i;
            }
            i += 1;
        }
        proof {
            lemma_first_smallest_unique(teams, best as int);
        }
        Team(best)
    }

    /// Adds a fresh member to the first of the smallest teams.
    pub fn add_player(&mut self, player: PlayerId)
        requires
            old(self).players.len() > 0,
        ensures
            final(self).teams() == add_to_smallest(old(self).teams(), fresh_member(player)),
            final(self).same_but_teams(&*old(self)),
    {
        let team = self.find_smallest_team();
        let member = PlayerInLobby { id: player, ready: false, selected_champion: None, locked: false };
        self.players[team.0].push(member);
        proof {
            assert(self.teams() =~= add_to_smallest(old(self).teams(), fresh_member(player)));
        }
    }

    /// Position of the first member of team `t` with the given id.
    fn position_of(&self, t: usize, player: PlayerId) -> (pos: Option<usize>)
        requires
            t < self.players.len(),
        ensures
            match pos {
                Some(k) => k == position_in(self.teams()[t as int], player),
                None => position_in(self.teams()[t as int], player) == -1,
            },
    {
        let ghost team = self.teams()[t as int];
        assert(team == self.players@[t as int]@);
        let mut k: usize = 0;
        while k < self.players[t].len()
            invariant
                t < self.players.len(),
                team == self.players@[t as int]@,
                k <= team.len(),
                forall|j: int| 0 <= j < k ==> #[trigger] team[j].id != player,
            decreases team.len() - k,
        {
            if self.players[t][k].id == player {
                proof {
                    lemma_position_in(team, player, k as int);
                }
                return Some(k);
            }
            k += 1;
        }
        proof {
            lemma_position_in(team, player, k as int);
        }
        None
    }

    /// Removes the first member with the given id from the first team that
    /// has one.
    fn remove_from_team(&mut self, player: PlayerId)
        ensures
            final(self).teams() == without_player(old(self).teams(), player),
            final(self).same_but_teams(&*old(self)),
    {
        let ghost teams = self.teams();
        let mut t: usize = 0;
        while t < self.players.len()
            invariant
                teams == self.teams(),
                self.same_but_teams(&*old(self)),
                teams == old(self).teams(),
                t <= self.players.len(),
                forall|j: int| 0 <= j < t ==> position_in(#[trigger] teams[j], player) < 0,
            decreases self.players.len() - t,
        {
            match self.position_of(t, player) {
                Some(k) => {
                    proof {
                        lemma_team_with(teams, player, t as int);
                        lemma_position_in_found(teams[t as int], player);
                        assert(teams[t as int] == self.players@[t as int]@);
                    }
                    self.players[t].remove(k);
                    proof {
                        assert(self.teams() =~= without_player(teams, player));
                    }
                    return;
                },
                None => {},
            }
            t += 1;
        }
        proof {
            lemma_team_with(teams, player, t as int);
        }
    }

    /// The first member of the first team that has one.
    fn first_player(&self) -> (first: Option<PlayerInLobby>)
        ensures
            first == first_member(self.teams()),
    {
        let ghost teams = self.teams();
        let mut t: usize = 0;
        while t < self.players.len()
            invariant
                teams == self.teams(),
                t <= self.players.len(),
                forall|j: int| 0 <= j < t ==> (#[trigger] teams[j]).len() == 0,
            decreases self.players.len() - t,
        {
            assert(teams[t as int] == self.players@[t as int]@);
            if self.players[t].len() > 0 {
                proof {
                    lemma_first_member(teams, t as int);
                }
                return Some(self.players[t][0]);
            }
            t += 1;
        }
        proof {
            lemma_first_member(teams, t as int);
        }
        None
    }

    /// Removes a player from its team; when the player led the lobby, the
    /// first remaining player becomes the leader.
    pub fn remove_player(&mut self, player: PlayerId)
        ensures
            final(self).teams() == without_player(old(self).teams(), player),
            final(self).leader == if old(self).leader == player && first_member(final(self).teams()) is Some {
                first_member(final(self).teams())->0.id
            } else {
                old(self).leader
            },
            final(self).id == old(self).id,
            final(self).settings == old(self).settings,
            final(self).lobby_state == old(self).lobby_state,
    {
        self.remove_from_team(player);
        if self.leader == player {
            match self.first_player() {
                Some(first) => {
                    self.leader = first.id;
                },
                None => {},
            }
        }
    }

    /// Sets the number of teams. New teams start empty; the players of
    /// removed teams, in order, each join the then smallest remaining team.
    pub fn set_team_count(&mut self, count: usize)
        requires
            count > 0,
        ensures
            final(self).teams() == with_team_count(old(self).teams(), count as nat),
            final(self).same_but_teams(&*old(self)),
    {
        if count >= self.players.len() {
            let ghost teams = self.teams();
            let empty: Vec<PlayerInLobby> = Vec::new();
            let ghost e = empty;
            self.players.resize(count, empty);
            proof {
                assert forall|i: int| teams.len() <= i < count implies (#[trigger] self.players@[i])@.len() == 0 by {
                    assert(vstd::pervasive::cloned::<Vec<PlayerInLobby>>(e, self.players@[i]));
                }
                assert(self.teams() =~= with_team_count(teams, count as nat));
            }
        } else {
            let ghost teams = self.teams();
            let rest = self.players.split_off(count);
            let ghost base = self.teams();
            let ghost moved = rest@.map_values(|t: Vec<PlayerInLobby>| t@);
            assert(base =~= teams.take(count as int));
            assert(moved =~= teams.skip(count as int));
            assert(base =~= distribute(base, moved.take(0).flatten()));
            let mut a: usize = 0;
            while a < rest.len()
                invariant
                    count > 0,
                    base.len() == count,
                    moved == rest@.map_values(|t: Vec<PlayerInLobby>| t@),
                    a <= rest.len(),
                    self.players.len() == count,
                    self.teams() == distribute(base, moved.take(a as int).flatten()),
                    self.same_but_teams(&*old(self)),
                decreases rest.len() - a,
            {
                let ghost prefix = moved.take(a as int).flatten();
                let ghost team = moved[a as int];
                assert(team == rest@[a as int]@);
                assert(prefix =~= prefix + team.take(0));
                let mut b: usize = 0;
                while b < rest[a].len()
                    invariant
                        count > 0,
                        base.len() == count,
                        a < rest.len(),
                        team == rest@[a as int]@,
                        b <= team.len(),
                        self.players.len() == count,
                        self.teams() == distribute(base, prefix + team.take(b as int)),
                        self.same_but_teams(&*old(self)),
                    decreases team.len() - b,
                {
                    let player = rest[a][b];
                    let ghost before = self.teams();
                    let target = self.find_smallest_team();
                    self.players[target.0].push(player);
                    proof {
                        let extra = prefix + team.take(b as int);
                        assert((prefix + team.take(b + 1)).drop_last() =~= extra);
                        assert((prefix + team.take(b + 1)).last() == player);
                        assert(self.teams() =~= add_to_smallest(before, player));
                    }
                    b += 1;
                }
                proof {
                    assert(team.take(b as int) =~= team);
                    lemma_flatten_take_step(moved, a as int);
                }
                a += 1;
            }
            proof {
                assert(moved.take(a as int) =~= moved);
            }
        }
    }

    /// Caps the size of each team at `count`, moving the last players of
    /// over-full teams, team by team, to the smallest team while that team
    /// has room; stops as soon as the smallest team is full.
    pub fn set_players_per_team(&mut self, count: usize)
        requires
            count > 0,
        ensures
            final(self).teams() == rebalance(old(self).teams(), count as nat, 0),
            final(self).same_but_teams(&*old(self)),
    {
        let ghost goal = rebalance(self.teams(), count as nat, 0);
        let ghost n = self.players.len();
        let mut ti: usize = 0;
        while ti < self.players.len()
            invariant
                count > 0,
                self.players.len() == n,
                goal == rebalance(old(self).teams(), count as nat, 0),
                goal == rebalance(self.teams(), count as nat, ti as nat),
                ti <= self.players.len(),
                self.same_but_teams(&*old(self)),
            decreases self.players.len() - ti,
        {
            while self.players[ti].len() > count
                invariant
                    count > 0,
                    self.players.len() == n,
                    goal == rebalance(old(self).teams(), count as nat, 0),
                    goal == rebalance(self.teams(), count as nat, ti as nat),
                    ti < self.players.len(),
                    self.same_but_teams(&*old(self)),
                decreases self.players@[ti as int].len(),
            {
                let ghost cur = self.teams();
                assert(cur[ti as int] == self.players@[ti as int]@);
                let to_team = self.find_smallest_team();
                assert(cur[to_team.0 as int] == self.players@[to_team.0 as int]@);
                if self.players[to_team.0].len() < count {
                    let player = self.players[ti].pop().unwrap();
                    self.players[to_team.0].push(player);
                    proof {
                        assert(self.teams() =~= move_last(cur, ti as int, to_team.0 as int));
                    }
                } else {
                    assert(rebalance(cur, count as nat, ti as nat) == cur);
                    return;
                }
            }
            assert(self.teams()[ti as int] == self.players@[ti as int]@);
            ti += 1;
        }
    }

    /// Takes new settings and reshapes the teams to match them.
    pub fn update_settings(&mut self, settings: LobbySettings)
        requires
            settings.team_count > 0,
            settings.players_per_team > 0,
        ensures
            final(self).settings == settings,
            final(self).teams() == rebalance(
                with_team_count(old(self).teams(), settings.team_count as nat),
                settings.players_per_team as nat,
                0,
            ),
            final(self).id == old(self).id,
            final(self).leader == old(self).leader,
            final(self).lobby_state == old(self).lobby_state,
    {
        self.settings = settings;
        self.set_team_count(self.settings.team_count);
        self.set_players_per_team(self.settings.players_per_team);
    }

    /// Going back to the normal phase clears every member's champion
    /// selection. The phase itself is left as it is.
    pub fn set_lobby_state(&mut self, new_state: LobbyState)
        ensures
            final(self).teams() == if new_state == LobbyState::Normal {
                without_selections(old(self).teams())
            } else {
                old(self).teams()
            },
            final(self).same_but_teams(&*old(self)),
    {
        if new_state == LobbyState::Normal {
            let ghost orig = self.teams();
            let mut t: usize = 0;
            while t < self.players.len()
                invariant
                    self.players.len() == orig.len(),
                    t <= orig.len(),
                    forall|j: int| 0 <= j < t ==> (#[trigger] self.players@[j])@ == orig[j].map_values(|p: PlayerInLobby| cleared(p)),
                    forall|j: int| t <= j < orig.len() ==> (#[trigger] self.players@[j])@ == orig[j],
                    self.same_but_teams(&*old(self)),
                decreases orig.len() - t,
            {
                let ghost team = orig[t as int];
                assert(self.players@[t as int]@ == team);
                let mut k: usize = 0;
                while k < self.players[t].len()
                    invariant
                        self.players.len() == orig.len(),
                        t < orig.len(),
                        team == orig[t as int],
                        self.players@[t as int]@.len() == team.len(),
                        k <= team.len(),
                        forall|i: int| 0 <= i < k ==> #[trigger] self.players@[t as int]@[i] == cleared(team[i]),
                        forall|i: int| k <= i < team.len() ==> #[trigger] self.players@[t as int]@[i] == team[i],
                        forall|j: int| 0 <= j < orig.len() && j != t ==> (#[trigger] self.players@[j])@ == old_team(orig, j, t as int),
                        self.same_but_teams(&*old(self)),
                    decreases team.len() - k,
                {
                    self.players[t][k].selected_champion = None;
                    self.players[t][k].locked = false;
                    k += 1;
                }
                proof {
                    assert(self.players@[t as int]@ =~= team.map_values(|p: PlayerInLobby| cleared(p)));
                }
                t += 1;
            }
            proof {
                assert forall|j: int| 0 <= j < orig.len() implies #[trigger] self.teams()[j] == without_selections(orig)[j] by {
                    assert(self.teams()[j] == self.players@[j]@);
                }
                assert(self.teams() =~= without_selections(orig));
            }
        }
    }

    /// Full description of the lobby for clients.
    pub fn get_info(&self) -> (info: LobbyInfo)
        ensures
            self.is_described_by(&info),
    {
        let ghost teams = self.teams();
        let mut players: Vec<Vec<protocol::PlayerInLobby>> = Vec::new();
        let mut t: usize = 0;
        while t < self.players.len()
            invariant
                teams == self.teams(),
                t <= teams.len(),
                players.len() == t,
                forall|j: int| 0 <= j < t ==> (#[trigger] players@[j])@ == teams[j].map_values(|p: PlayerInLobby| public_member(p)),
            decreases teams.len() - t,
        {
            let ghost team = teams[t as int];
            assert(team == self.players@[t as int]@);
            let mut members: Vec<protocol::PlayerInLobby> = Vec::new();
            let mut k: usize = 0;
            while k < self.players[t].len()
                invariant
                    teams == self.teams(),
                    t < teams.len(),
                    team == self.players@[t as int]@,
                    k <= team.len(),
                    members@ =~= team.take(k as int).map_values(|p: PlayerInLobby| public_member(p)),
                decreases team.len() - k,
            {
                let p = self.players[t][k];
                members.push(protocol::PlayerInLobby {
                    id: p.id,
                    selected_champion: p.selected_champion,
                    locked: p.locked,
                });
                proof {
                    assert(team.take(k + 1) =~= team.take(k as int).push(p));
                }
                k += 1;
            }
            assert(team.take(k as int) =~= team);
            players.push(members);
            t += 1;
        }
        let info = LobbyInfo {
            id: self.id,
            settings: self.settings.clone(),
            players,
            leader: self.leader,
            lobby_state: self.lobby_state,
        };
        proof {
            assert(info.players@.map_values(|v: Vec<protocol::PlayerInLobby>| v@) =~= teams.map_values(
                |team: Seq<PlayerInLobby>| team.map_values(|p: PlayerInLobby| public_member(p)),
            ));
        }
        info
    }

    /// Summary of the lobby for the lobby list.
    pub fn get_short_info(&self) -> (short: ShortLobbyInfo)
        requires
            self.counts_fit(),
        ensures
            self.is_summarized_by(&short),
    {
        ShortLobbyInfo {
            id: self.id,
            name: self.settings.name.clone(),
            players: self.player_count(),
            max_player_count: self.max_player_count(),
        }
    }

    /// Number of players over all teams.
    pub fn player_count(&self) -> (count: usize)
        requires
            self.spec_player_count() <= usize::MAX,
        ensures
            count == self.spec_player_count(),
    {
        let ghost teams = self.teams();
        let mut count: usize = 0;
        let mut k: usize = 0;
        while k < self.players.len()
            invariant
                teams == self.teams(),
                teams.flatten().len() <= usize::MAX,
                k <= self.players.len(),
                count == teams.take(k as int).flatten().len(),
            decreases self.players.len() - k,
        {
            proof {
                lemma_flatten_take_step(teams, k as int);
                lemma_flatten_prefix_len(teams, k + 1);
            }
            assert(teams[k as int] == self.players@[k as int]@);
            count = count + self.players[k].len();
            k += 1;
        }
        assert(teams.take(k as int) =~= teams);
        count
    }

    /// Number of player slots the settings provide.
    pub fn max_player_count(&self) -> (max: usize)
        requires
            self.spec_max_player_count() <= usize::MAX,
        ensures
            max == self.spec_max_player_count(),
    {
        self.settings.players_per_team * self.settings.team_count
    }

    /// How many players there are beyond the slots the settings provide
    /// (zero when the lobby is not over-full).
    pub fn empty_player_slots(&self) -> (n: usize)
        requires
            self.counts_fit(),
        ensures
            n == if self.spec_player_count() > self.spec_max_player_count() {
                self.spec_player_count() - self.spec_max_player_count()
            } else {
                0
            },
    {
        self.player_count().saturating_sub(self.max_player_count())
    }

    /// A player can join when the lobby is not locked, is in its normal
    /// phase and has a free slot.
    pub fn can_join(&self) -> (ok: bool)
        requires
            self.counts_fit(),
        ensures
            ok == (!self.settings.locked && self.lobby_state == LobbyState::Normal
                && self.spec_player_count() < self.spec_max_player_count()),
    {
        !self.settings.locked && self.lobby_state == LobbyState::Normal
            && self.player_count() < self.max_player_count()
    }
}

} // verus!

verus! {

/// Every player in `teams` joins or stays; nobody else appears.
pub open spec fn players_of(teams: Seq<Seq<PlayerInLobby>>) -> vstd::multiset::Multiset<PlayerInLobby> {
    teams.flatten().to_multiset()
}

/// Sequences joined end to end hold the players of both.
pub proof fn lemma_concat_players(a: Seq<PlayerInLobby>, b: Seq<PlayerInLobby>, x: PlayerInLobby)
    ensures
        (a + b).to_multiset().count(x) == a.to_multiset().count(x) + b.to_multiset().count(x),
{
    broadcast use vstd::seq_lib::lemma_multiset_commutative;
    broadcast use vstd::multiset::group_multiset_axioms;

    assert((a + b).to_multiset() =~= a.to_multiset().add(b.to_multiset()));
}

/// A single player counts once.
pub proof fn lemma_single_player(p: PlayerInLobby, x: PlayerInLobby)
    ensures
        seq![p].to_multiset().count(x) == if x == p { 1nat } else { 0nat },
{
    broadcast use vstd::multiset::group_multiset_axioms;
    broadcast use vstd::seq_lib::group_to_multiset_ensures;

    assert(seq![p] =~= Seq::<PlayerInLobby>::empty().push(p));
    assert(Seq::<PlayerInLobby>::empty().to_multiset() =~= vstd::multiset::Multiset::empty());
}

/// Adding a player to the lobby adds exactly that player, keeps the number
/// of teams, and puts the player on the first of the smallest teams.
pub proof fn add_player_adds_one(teams: Seq<Seq<PlayerInLobby>>, p: PlayerInLobby)
    requires
        teams.len() > 0,
    ensures
        add_to_smallest(teams, p).len() == teams.len(),
        players_of(add_to_smallest(teams, p)) =~= players_of(teams).insert(p),
        add_to_smallest(teams, p).flatten().len() == teams.flatten().len() + 1,
        add_to_smallest(teams, p)[smallest_team(teams)].last() == p,
{
    broadcast use vstd::seq_lib::lemma_multiset_commutative;
    broadcast use vstd::multiset::group_multiset_axioms;

    lemma_smallest_team(teams);
    let i = smallest_team(teams);
    lemma_flatten_update(teams, i, teams[i].push(p));
    assert(teams[i].push(p) =~= teams[i] + seq![p]);
    let after = add_to_smallest(teams, p);
    assert forall|x: PlayerInLobby| #[trigger] players_of(after).count(x) == players_of(teams).insert(p).count(x) by {
        lemma_concat_players(teams[i], seq![p], x);
        lemma_single_player(p, x);
        assert(players_of(after).add(teams[i].to_multiset()).count(x) == players_of(teams).add(teams[i].push(p).to_multiset()).count(x));
    }
}

/// Distributing players onto teams adds exactly those players and keeps the
/// number of teams.
pub proof fn distribute_adds_players(teams: Seq<Seq<PlayerInLobby>>, extra: Seq<PlayerInLobby>)
    requires
        teams.len() > 0,
    ensures
        distribute(teams, extra).len() == teams.len(),
        players_of(distribute(teams, extra)) =~= players_of(teams).add(extra.to_multiset()),
    decreases extra.len(),
{
    broadcast use vstd::seq_lib::lemma_multiset_commutative;
    broadcast use vstd::multiset::group_multiset_axioms;

    if extra.len() == 0 {
        assert(extra.to_multiset() =~= vstd::multiset::Multiset::empty());
    } else {
        let rest = extra.drop_last();
        distribute_adds_players(teams, rest);
        add_player_adds_one(distribute(teams, rest), extra.last());
        assert(extra =~= rest + seq![extra.last()]);
        assert(seq![extra.last()].to_multiset() =~= vstd::multiset::Multiset::singleton(extra.last())) by {
            assert(seq![extra.last()] =~= Seq::<PlayerInLobby>::empty().push(extra.last()));
        }
    }
}

/// Teams that are all empty hold no player.
pub proof fn lemma_flatten_empty_teams(teams: Seq<Seq<PlayerInLobby>>)
    requires
        forall|k: int| 0 <= k < teams.len() ==> (#[trigger] teams[k]).len() == 0,
    ensures
        teams.flatten() =~= Seq::<PlayerInLobby>::empty(),
    decreases teams.len(),
{
    if teams.len() > 0 {
        let d = teams.drop_first();
        assert(forall|k: int| 0 <= k < d.len() ==> d[k] == teams[k + 1]);
        lemma_flatten_empty_teams(d);
        assert(teams[0].len() == 0);
    }
}

/// After the number of teams is set to `count` there are exactly `count`
/// teams, and they hold exactly the players held before.
pub proof fn team_count_change_keeps_players(teams: Seq<Seq<PlayerInLobby>>, count: nat)
    requires
        count > 0,
    ensures
        with_team_count(teams, count).len() == count,
        players_of(with_team_count(teams, count)) =~= players_of(teams),
{
    broadcast use vstd::seq_lib::lemma_multiset_commutative;
    broadcast use vstd::multiset::group_multiset_axioms;

    if count >= teams.len() {
        let extra = Seq::new((count - teams.len()) as nat, |i: int| Seq::<PlayerInLobby>::empty());
        lemma_flatten_empty_teams(extra);
        vstd::seq_lib::lemma_flatten_concat(teams, extra);
        assert(teams.flatten() + extra.flatten() =~= teams.flatten());
    } else {
        let base = teams.take(count as int);
        let moved = teams.skip(count as int);
        assert(teams =~= base + moved);
        vstd::seq_lib::lemma_flatten_concat(base, moved);
        distribute_adds_players(base, moved.flatten());
    }
}

/// Moving the last player of one team to another team keeps the number of
/// teams and the players.
pub proof fn move_last_keeps_players(teams: Seq<Seq<PlayerInLobby>>, from: int, to: int)
    requires
        0 <= from < teams.len(),
        0 <= to < teams.len(),
        from != to,
        teams[from].len() > 0,
    ensures
        move_last(teams, from, to).len() == teams.len(),
        players_of(move_last(teams, from, to)) =~= players_of(teams),
        move_last(teams, from, to).flatten().len() == teams.flatten().len(),
{
    broadcast use vstd::seq_lib::lemma_multiset_commutative;
    broadcast use vstd::multiset::group_multiset_axioms;

    let p = teams[from].last();
    let mid = teams.update(to, teams[to].push(p));
    lemma_flatten_update(teams, to, teams[to].push(p));
    lemma_flatten_update(mid, from, teams[from].drop_last());
    assert(mid[from] == teams[from]);
    assert(teams[to].push(p) =~= teams[to] + seq![p]);
    assert(teams[from] =~= teams[from].drop_last() + seq![p]);
    let after = move_last(teams, from, to);
    assert forall|x: PlayerInLobby| #[trigger] players_of(after).count(x) == players_of(teams).count(x) by {
        lemma_concat_players(teams[to], seq![p], x);
        lemma_concat_players(teams[from].drop_last(), seq![p], x);
        assert(players_of(mid).add(teams[to].to_multiset()).count(x) == players_of(teams).add(teams[to].push(p).to_multiset()).count(x));
        assert(players_of(after).add(mid[from].to_multiset()).count(x) == players_of(mid).add(teams[from].drop_last().to_multiset()).count(x));
    }
}

/// Rebalancing keeps the number of teams and the players.
pub proof fn rebalance_keeps_players(teams: Seq<Seq<PlayerInLobby>>, cap: nat, from: nat)
    ensures
        rebalance(teams, cap, from).len() == teams.len(),
        players_of(rebalance(teams, cap, from)) =~= players_of(teams),
        rebalance(teams, cap, from).flatten().len() == teams.flatten().len(),
    decreases teams.len() - from, teams[from as int].len(),
{
    if from < teams.len() {
        if teams[from as int].len() <= cap {
            rebalance_keeps_players(teams, cap, from + 1);
        } else {
            lemma_smallest_team(teams);
            let to = smallest_team(teams);
            if teams[to].len() < cap {
                move_last_keeps_players(teams, from as int, to);
                assert(move_last(teams, from as int, to)[from as int] == teams[from as int].drop_last());
                rebalance_keeps_players(move_last(teams, from as int, to), cap, from);
            }
        }
    }
}

/// Teams of at least `cap` players each hold at least `cap` players per team.
pub proof fn lemma_flatten_len_lower(teams: Seq<Seq<PlayerInLobby>>, cap: nat)
    requires
        forall|k: int| 0 <= k < teams.len() ==> (#[trigger] teams[k]).len() >= cap,
    ensures
        teams.flatten().len() >= teams.len() * cap,
    decreases teams.len(),
{
    if teams.len() > 0 {
        let d = teams.drop_last();
        assert(forall|k: int| 0 <= k < d.len() ==> d[k] == teams[k]);
        lemma_flatten_len_lower(d, cap);
        assert(teams =~= d.push(teams.last()));
        d.lemma_flatten_push(teams.last());
        let n = d.len();
        assert(n * cap + cap == (n + 1) * cap) by (nonlinear_arith);
    }
}

/// Teams of at least `cap` players each, one of them over `cap`, hold more
/// than `cap` players per team.
pub proof fn lemma_flatten_len_above(teams: Seq<Seq<PlayerInLobby>>, cap: nat, j: int)
    requires
        forall|k: int| 0 <= k < teams.len() ==> (#[trigger] teams[k]).len() >= cap,
        0 <= j < teams.len(),
        teams[j].len() > cap,
    ensures
        teams.flatten().len() > teams.len() * cap,
    decreases teams.len(),
{
    let d = teams.drop_last();
    assert(forall|k: int| 0 <= k < d.len() ==> d[k] == teams[k]);
    if j == teams.len() - 1 {
        lemma_flatten_len_lower(d, cap);
    } else {
        lemma_flatten_len_above(d, cap, j);
    }
    assert(teams =~= d.push(teams.last()));
    d.lemma_flatten_push(teams.last());
    let n = d.len();
    assert(n * cap + cap == (n + 1) * cap) by (nonlinear_arith);
}

/// When there are enough slots for everyone, rebalancing leaves no team
/// with more than `cap` players.
pub proof fn rebalance_fits_when_room(teams: Seq<Seq<PlayerInLobby>>, cap: nat, from: nat)
    requires
        teams.flatten().len() <= teams.len() * cap,
        from <= teams.len(),
        forall|k: int| 0 <= k < from ==> (#[trigger] teams[k]).len() <= cap,
    ensures
        forall|k: int| 0 <= k < teams.len() ==> (#[trigger] rebalance(teams, cap, from)[k]).len() <= cap,
    decreases teams.len() - from, teams[from as int].len(),
{
    if from < teams.len() {
        if teams[from as int].len() <= cap {
            assert(rebalance(teams, cap, from) == rebalance(teams, cap, from + 1));
            rebalance_fits_when_room(teams, cap, from + 1);
        } else {
            lemma_smallest_team(teams);
            let to = smallest_team(teams);
            if teams[to].len() < cap {
                let moved = move_last(teams, from as int, to);
                assert(rebalance(teams, cap, from) == rebalance(moved, cap, from));
                move_last_keeps_players(teams, from as int, to);
                assert(moved[from as int] == teams[from as int].drop_last());
                assert forall|k: int| 0 <= k < from implies (#[trigger] moved[k]).len() <= cap by {
                    if k == to {
                        assert(moved[k] == teams[to].push(teams[from as int].last()));
                    } else {
                        assert(moved[k] == teams[k]);
                    }
                }
                rebalance_fits_when_room(moved, cap, from);
            } else {
                assert forall|k: int| 0 <= k < teams.len() implies (#[trigger] teams[k]).len() >= cap by {
                    assert(teams[to].len() <= teams[k].len());
                }
                lemma_flatten_len_above(teams, cap, from as int);
            }
        }
    }
}

/// Changing the settings leaves exactly the chosen number of teams with the
/// same players; when there are enough slots for everyone, no team ends up
/// with more players than the chosen team size.
pub proof fn settings_change_keeps_players(teams: Seq<Seq<PlayerInLobby>>, team_count: nat, players_per_team: nat)
    requires
        team_count > 0,
    ensures
        ({
            let after = rebalance(with_team_count(teams, team_count), players_per_team, 0);
            &&& after.len() == team_count
            &&& players_of(after) =~= players_of(teams)
            &&& teams.flatten().len() <= team_count * players_per_team ==> forall|k: int|
                0 <= k < after.len() ==> (#[trigger] after[k]).len() <= players_per_team
        }),
{
    let shaped = with_team_count(teams, team_count);
    team_count_change_keeps_players(teams, team_count);
    rebalance_keeps_players(shaped, players_per_team, 0);
    vstd::seq_lib::to_multiset_len(shaped.flatten());
    vstd::seq_lib::to_multiset_len(teams.flatten());
    assert(shaped.flatten().len() == teams.flatten().len());
    if teams.flatten().len() <= team_count * players_per_team {
        rebalance_fits_when_room(shaped, players_per_team, 0);
    }
}

/// A player who is in the lobby leaves exactly once: the first member with
/// that id is gone and nobody else. A player who is not in the lobby leaves
/// the teams as they were.
pub proof fn remove_player_removes_one(teams: Seq<Seq<PlayerInLobby>>, id: PlayerId)
    ensures
        without_player(teams, id).len() == teams.len(),
        team_with(teams, id) < 0 ==> without_player(teams, id) == teams,
        team_with(teams, id) >= 0 ==> {
            let t = team_with(teams, id);
            let gone = teams[t][position_in(teams[t], id)];
            &&& gone.id == id
            &&& players_of(without_player(teams, id)).insert(gone) =~= players_of(teams)
            &&& without_player(teams, id).flatten().len() + 1 == teams.flatten().len()
        },
{
    broadcast use vstd::seq_lib::lemma_multiset_commutative;
    broadcast use vstd::multiset::group_multiset_axioms;

    lemma_team_with_found(teams, id);
    let t = team_with(teams, id);
    if t >= 0 {
        lemma_position_in_found(teams[t], id);
        let pos = position_in(teams[t], id);
        let team = teams[t];
        let rest = team.remove(pos);
        lemma_flatten_update(teams, t, rest);
        assert(team =~= team.take(pos) + seq![team[pos]] + team.skip(pos + 1));
        assert(rest =~= team.take(pos) + team.skip(pos + 1));
        let gone = team[pos];
        let after = without_player(teams, id);
        assert(after == teams.update(t, rest));
        assert forall|x: PlayerInLobby| #[trigger] players_of(after).insert(gone).count(x) == players_of(teams).count(x) by {
            lemma_concat_players(team.take(pos) + seq![gone], team.skip(pos + 1), x);
            lemma_concat_players(team.take(pos), seq![gone], x);
            lemma_concat_players(team.take(pos), team.skip(pos + 1), x);
            lemma_single_player(gone, x);
            assert(players_of(after).add(team.to_multiset()).count(x) == players_of(teams).add(rest.to_multiset()).count(x));
        }
    }
}

/// Going back to the normal phase clears every selection and keeps every
/// member, with its id and readiness, in its place.
pub proof fn clearing_selections_keeps_members(teams: Seq<Seq<PlayerInLobby>>)
    ensures
        without_selections(teams).len() == teams.len(),
        forall|t: int, k: int|
            0 <= t < teams.len() && 0 <= k < teams[t].len() ==> {
                let p = #[trigger] without_selections(teams)[t][k];
                &&& p.id == teams[t][k].id
                &&& p.ready == teams[t][k].ready
                &&& p.selected_champion is None
                &&& !p.locked
            },
        forall|t: int| 0 <= t < teams.len() ==> (#[trigger] without_selections(teams)[t]).len() == teams[t].len(),
{
}

} // verus!

verus! {

/// Moving the last player of team `from` to team `to` changes only those
/// two teams: `to` gains that player at its end, `from` loses it.
pub proof fn move_last_moves_one_player(teams: Seq<Seq<PlayerInLobby>>, from: int, to: int)
    requires
        0 <= from < teams.len(),
        0 <= to < teams.len(),
        from != to,
        teams[from].len() > 0,
    ensures
        move_last(teams, from, to).len() == teams.len(),
        move_last(teams, from, to)[to] == teams[to] + seq![teams[from][teams[from].len() - 1]],
        move_last(teams, from, to)[from] == teams[from].take(teams[from].len() - 1),
        forall|k: int| 0 <= k < teams.len() && k != from && k != to ==> #[trigger] move_last(teams, from, to)[k] == teams[k],
{
    assert(teams[to].push(teams[from].last()) =~= teams[to] + seq![teams[from][teams[from].len() - 1]]);
    assert(teams[from].drop_last() =~= teams[from].take(teams[from].len() - 1));
}

/// While capping team sizes, a player taken off an over-full team goes to
/// the team that is smallest at that moment (the first of them when several
/// are): never to a larger team while a smaller one exists.
pub proof fn capping_moves_to_first_smallest(teams: Seq<Seq<PlayerInLobby>>, cap: nat, from: nat, i: int)
    requires
        from < teams.len(),
        teams[from as int].len() > cap,
        0 <= i < teams.len(),
        forall|k: int| 0 <= k < teams.len() ==> teams[i].len() <= #[trigger] teams[k].len(),
        forall|k: int| 0 <= k < i ==> teams[i].len() < #[trigger] teams[k].len(),
        teams[i].len() < cap,
    ensures
        rebalance(teams, cap, from) == rebalance(move_last(teams, from as int, i), cap, from),
{
    lemma_first_smallest_unique(teams, i);
}

/// Capping team sizes stops moving players as soon as every team is full.
pub proof fn capping_stops_when_all_full(teams: Seq<Seq<PlayerInLobby>>, cap: nat, from: nat)
    requires
        from < teams.len(),
        teams[from as int].len() > cap,
        forall|k: int| 0 <= k < teams.len() ==> (#[trigger] teams[k]).len() >= cap,
    ensures
        rebalance(teams, cap, from) == teams,
{
    lemma_smallest_team(teams);
}

/// Capping team sizes leaves a team that already fits alone and goes on
/// with the next one.
pub proof fn capping_skips_fitting_team(teams: Seq<Seq<PlayerInLobby>>, cap: nat, from: nat)
    requires
        from < teams.len(),
        teams[from as int].len() <= cap,
    ensures
        rebalance(teams, cap, from) == rebalance(teams, cap, from + 1),
{
}

/// Removing a player deletes its first occurrence (the first member with
/// that id in the first team holding one) and nothing else: the other
/// members of that team keep their order, and all other teams are
/// unchanged.
pub proof fn removing_deletes_first_occurrence(teams: Seq<Seq<PlayerInLobby>>, id: PlayerId, t: int, pos: int)
    requires
        0 <= t < teams.len(),
        0 <= pos < teams[t].len(),
        teams[t][pos].id == id,
        forall|j: int| 0 <= j < pos ==> (#[trigger] teams[t][j]).id != id,
        forall|u: int, k: int| 0 <= u < t && 0 <= k < teams[u].len() ==> (#[trigger] teams[u][k]).id != id,
    ensures
        without_player(teams, id) == teams.update(t, teams[t].take(pos) + teams[t].skip(pos + 1)),
{
    lemma_position_in(teams[t], id, pos);
    assert forall|u: int| 0 <= u < t implies position_in(#[trigger] teams[u], id) < 0 by {
        assert forall|k: int| 0 <= k < teams[u].len() implies #[trigger] teams[u][k].id != id by {
            assert(teams[u][k].id != id);
        }
        lemma_position_in(teams[u], id, teams[u].len() as int);
    }
    lemma_team_with(teams, id, t);
    assert(teams[t].remove(pos) =~= teams[t].take(pos) + teams[t].skip(pos + 1));
}

/// Removing a player who is on no team changes nothing.
pub proof fn removing_absent_player_changes_nothing(teams: Seq<Seq<PlayerInLobby>>, id: PlayerId)
    requires
        forall|u: int, k: int| 0 <= u < teams.len() && 0 <= k < teams[u].len() ==> (#[trigger] teams[u][k]).id != id,
    ensures
        without_player(teams, id) == teams,
{
    assert forall|u: int| 0 <= u < teams.len() implies position_in(#[trigger] teams[u], id) < 0 by {
        assert forall|k: int| 0 <= k < teams[u].len() implies #[trigger] teams[u][k].id != id by {
            assert(teams[u][k].id != id);
        }
        lemma_position_in(teams[u], id, teams[u].len() as int);
    }
    lemma_team_with(teams, id, teams.len() as int);
}

/// The leader that replaces a departing leader is the earliest remaining
/// member: the first member of the first team that is not empty; when every
/// team is empty there is none.
pub proof fn next_leader_is_earliest_member(teams: Seq<Seq<PlayerInLobby>>)
    ensures
        forall|t: int|
            0 <= t < teams.len() && teams[t].len() > 0 && (forall|u: int| 0 <= u < t ==> (#[trigger] teams[u]).len() == 0)
                ==> first_member(teams) == Some(#[trigger] teams[t][0]),
        (forall|u: int| 0 <= u < teams.len() ==> (#[trigger] teams[u]).len() == 0) ==> first_member(teams) is None,
{
    assert forall|t: int|
        0 <= t < teams.len() && teams[t].len() > 0 && (forall|u: int| 0 <= u < t ==> (#[trigger] teams[u]).len() == 0)
        implies first_member(teams) == Some(#[trigger] teams[t][0]) by {
        lemma_first_member(teams, t);
    }
    if forall|u: int| 0 <= u < teams.len() ==> (#[trigger] teams[u]).len() == 0 {
        lemma_first_member(teams, teams.len() as int);
    }
}

} // verus!
