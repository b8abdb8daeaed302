use lobby_server::ids::{ChampionId, LobbyId, PlayerId};
use lobby_server::lobby::{Lobby, PlayerInLobby};
use lobby_server::protocol::{LobbySettings, LobbyState};

fn pid(n: u128) -> PlayerId {
    PlayerId { uuid: n }
}

fn member(n: u128) -> PlayerInLobby {
    PlayerInLobby { id: pid(n), ready: false, selected_champion: None, locked: false }
}

fn settings(team_count: usize, players_per_team: usize) -> LobbySettings {
    LobbySettings {
        name: "Arena".to_string(),
        team_count,
        players_per_team,
        locked: false,
        allows_team_switching: false,
    }
}

fn lobby(teams: &[&[u128]], leader: u128) -> Lobby {
    Lobby {
        id: LobbyId { uuid: 77 },
        settings: settings(teams.len(), 5),
        players: teams.iter().map(|t| t.iter().map(|&n| member(n)).collect()).collect(),
        leader: pid(leader),
        lobby_state: LobbyState::Normal,
    }
}

fn ids(lobby: &Lobby) -> Vec<Vec<u128>> {
    lobby.players.iter().map(|t| t.iter().map(|p| p.id.uuid).collect()).collect()
}

#[test]
fn validate_accepts_named_lobby_with_slots() {
    assert!(settings(2, 5).validate());
}

#[test]
fn validate_rejects_empty_name() {
    let mut s = settings(2, 5);
    s.name = String::new();
    assert!(!s.validate());
}

#[test]
fn validate_rejects_zero_teams_or_zero_slots() {
    assert!(!settings(0, 5).validate());
    assert!(!settings(2, 0).validate());
}

#[test]
fn smallest_team_is_first_of_the_smallest() {
    let l = lobby(&[&[1, 2], &[3], &[4]], 1);
    assert_eq!(l.find_smallest_team().0, 1);
    let l = lobby(&[&[1], &[2], &[3]], 1);
    assert_eq!(l.find_smallest_team().0, 0);
}

#[test]
fn add_player_joins_smallest_team() {
    let mut l = lobby(&[&[1, 2], &[3]], 1);
    l.add_player(pid(9));
    assert_eq!(ids(&l), vec![vec![1, 2], vec![3, 9]]);
    let added = l.players[1][1];
    assert!(!added.ready && !added.locked && added.selected_champion.is_none());
    assert_eq!(l.player_count(), 4);
}

#[test]
fn remove_player_takes_out_first_occurrence_only() {
    let mut l = lobby(&[&[1, 2], &[2, 3]], 3);
    l.remove_player(pid(2));
    assert_eq!(ids(&l), vec![vec![1], vec![2, 3]]);
    assert_eq!(l.leader, pid(3));
}

#[test]
fn remove_player_passes_leadership_to_first_remaining() {
    let mut l = lobby(&[&[], &[4, 5], &[6]], 4);
    l.remove_player(pid(4));
    assert_eq!(ids(&l), vec![vec![], vec![5], vec![6]]);
    assert_eq!(l.leader, pid(5));
}

#[test]
fn remove_last_player_keeps_leader() {
    let mut l = lobby(&[&[4], &[]], 4);
    l.remove_player(pid(4));
    assert_eq!(l.player_count(), 0);
    assert_eq!(l.leader, pid(4));
}

#[test]
fn remove_unknown_player_changes_nothing() {
    let mut l = lobby(&[&[1], &[2]], 1);
    l.remove_player(pid(42));
    assert_eq!(ids(&l), vec![vec![1], vec![2]]);
    assert_eq!(l.leader, pid(1));
}

#[test]
fn more_teams_start_empty() {
    let mut l = lobby(&[&[1, 2], &[3]], 1);
    l.set_team_count(4);
    assert_eq!(ids(&l), vec![vec![1, 2], vec![3], vec![], vec![]]);
}

#[test]
fn fewer_teams_redistribute_players_in_order() {
    let mut l = lobby(&[&[1, 2], &[3], &[4, 5]], 1);
    l.set_team_count(2);
    assert_eq!(ids(&l), vec![vec![1, 2, 5], vec![3, 4]]);
    assert_eq!(l.player_count(), 5);
}

#[test]
fn same_team_count_changes_nothing() {
    let mut l = lobby(&[&[1, 2], &[3]], 1);
    l.set_team_count(2);
    assert_eq!(ids(&l), vec![vec![1, 2], vec![3]]);
}

#[test]
fn team_cap_moves_last_players_to_smallest_team() {
    let mut l = lobby(&[&[1, 2, 3], &[4]], 1);
    l.set_players_per_team(2);
    assert_eq!(ids(&l), vec![vec![1, 2], vec![4, 3]]);
}

#[test]
fn team_cap_stops_when_smallest_team_is_full() {
    let mut l = lobby(&[&[1, 2, 3], &[4, 5]], 1);
    l.set_players_per_team(2);
    assert_eq!(ids(&l), vec![vec![1, 2, 3], vec![4, 5]]);
}

#[test]
fn team_cap_fits_everyone_when_there_is_room() {
    let mut l = lobby(&[&[1, 2, 3, 4], &[], &[5]], 1);
    l.set_players_per_team(2);
    for team in &l.players {
        assert!(team.len() <= 2);
    }
    assert_eq!(ids(&l), vec![vec![1, 2], vec![4, 3], vec![5]]);
}

#[test]
fn update_settings_reshapes_teams() {
    let mut l = lobby(&[&[1, 2, 3], &[4], &[5]], 1);
    l.update_settings(settings(2, 3));
    assert_eq!(l.settings.team_count, 2);
    assert_eq!(l.settings.players_per_team, 3);
    assert_eq!(ids(&l), vec![vec![1, 2, 3], vec![4, 5]]);
}

#[test]
fn back_to_normal_clears_selections() {
    let mut l = lobby(&[&[1], &[2]], 1);
    l.players[0][0].selected_champion = Some(ChampionId { uuid: 5 });
    l.players[0][0].locked = true;
    l.players[1][0].ready = true;
    l.lobby_state = LobbyState::ChampSelect;
    l.set_lobby_state(LobbyState::Normal);
    assert!(l.players[0][0].selected_champion.is_none());
    assert!(!l.players[0][0].locked);
    assert!(l.players[1][0].ready);
    assert_eq!(l.lobby_state, LobbyState::ChampSelect);
}

#[test]
fn other_phases_keep_selections() {
    let mut l = lobby(&[&[1]], 1);
    l.players[0][0].selected_champion = Some(ChampionId { uuid: 5 });
    l.players[0][0].locked = true;
    l.set_lobby_state(LobbyState::InGame);
    assert_eq!(l.players[0][0].selected_champion, Some(ChampionId { uuid: 5 }));
    assert!(l.players[0][0].locked);
}

#[test]
fn info_describes_lobby() {
    let mut l = lobby(&[&[1, 2], &[3]], 2);
    l.players[0][1].ready = true;
    l.players[0][1].locked = true;
    let info = l.get_info();
    assert_eq!(info.id, l.id);
    assert_eq!(info.leader, pid(2));
    assert_eq!(info.lobby_state, LobbyState::Normal);
    assert_eq!(info.settings.name, "Arena");
    assert_eq!(info.players.len(), 2);
    assert_eq!(info.players[0][1].id, pid(2));
    assert!(info.players[0][1].locked);
    assert_eq!(info.players[1][0].id, pid(3));
}

#[test]
fn short_info_counts_players_and_slots() {
    let l = lobby(&[&[1, 2], &[3]], 1);
    let short = l.get_short_info();
    assert_eq!(short.name, "Arena");
    assert_eq!(short.players, 3);
    assert_eq!(short.max_player_count, 10);
    assert_eq!(short.id, LobbyId { uuid: 77 });
}

#[test]
fn empty_player_slots_counts_players_beyond_slots() {
    let mut l = lobby(&[&[1, 2, 3], &[4, 5]], 1);
    l.settings.players_per_team = 1;
    assert_eq!(l.max_player_count(), 2);
    assert_eq!(l.empty_player_slots(), 3);
    l.settings.players_per_team = 5;
    assert_eq!(l.empty_player_slots(), 0);
}

#[test]
fn can_join_needs_open_normal_lobby_with_room() {
    let mut l = lobby(&[&[1], &[2]], 1);
    assert!(l.can_join());
    l.settings.locked = true;
    assert!(!l.can_join());
    l.settings.locked = false;
    l.lobby_state = LobbyState::ChampSelect;
    assert!(!l.can_join());
    l.lobby_state = LobbyState::Normal;
    l.settings.players_per_team = 1;
    assert!(!l.can_join());
}

fn sorted_ids(lobby: &Lobby) -> Vec<u128> {
    let mut all: Vec<u128> = lobby.players.iter().flatten().map(|p| p.id.uuid).collect();
    all.sort();
    all
}

#[test]
fn team_count_change_keeps_every_player() {
    for count in 1..=5 {
        let mut l = lobby(&[&[1, 2, 3], &[4], &[5, 6], &[7]], 1);
        l.set_team_count(count);
        assert_eq!(l.players.len(), count);
        assert_eq!(sorted_ids(&l), vec![1, 2, 3, 4, 5, 6, 7]);
    }
}

#[test]
fn settings_change_fits_everyone_when_there_is_room() {
    let mut l = lobby(&[&[1, 2, 3, 4, 5], &[6], &[7, 8]], 1);
    l.update_settings(settings(4, 2));
    assert_eq!(l.players.len(), 4);
    assert_eq!(sorted_ids(&l), vec![1, 2, 3, 4, 5, 6, 7, 8]);
    for team in &l.players {
        assert!(team.len() <= 2);
    }
}

#[test]
fn add_then_remove_restores_player_count() {
    let mut l = lobby(&[&[1], &[2, 3]], 1);
    l.add_player(pid(4));
    assert_eq!(l.player_count(), 4);
    l.remove_player(pid(4));
    assert_eq!(l.player_count(), 3);
    assert_eq!(sorted_ids(&l), vec![1, 2, 3]);
}
