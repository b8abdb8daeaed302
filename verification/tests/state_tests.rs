use lobby_server::framing::{frame_header, frame_length};
use lobby_server::ids::{ChampionId, LobbyId, PlayerId};
use lobby_server::lobby::{Lobby, PlayerInLobby};
use lobby_server::protocol::{ClientToLobby, LobbySettings, LobbyState, LobbyToClient};
use lobby_server::state::{Delivery, Event, State};

fn pid(n: u128) -> PlayerId {
    PlayerId { uuid: n }
}

fn connect(state: &mut State, n: u128, name: &str) -> String {
    let out = state.handle_event(Event::NewConnection { id: pid(n), requested_username: name.to_string() });
    assert_eq!(out.len(), 1);
    assert_eq!(out[0].recipients, vec![pid(n)]);
    match &out[0].message {
        LobbyToClient::Handshake { id, username } => {
            assert_eq!(*id, pid(n));
            username.clone()
        },
        other => panic!("unexpected {:?}", other),
    }
}

fn ask(state: &mut State, from: u128, message: ClientToLobby) -> Vec<Delivery> {
    state.handle_event(Event::Message { from: pid(from), message })
}

fn member(n: u128) -> PlayerInLobby {
    PlayerInLobby { id: pid(n), ready: false, selected_champion: None, locked: false }
}

/// A state with players 1, 2 and 3 connected, all in lobby 50 (teams
/// [[1, 2], [3]], led by 1).
fn state_with_lobby(lobby_state: LobbyState) -> State {
    let mut state = State::new();
    for n in 1..=3 {
        connect(&mut state, n, &format!("p{}", n));
        state.players.get_mut(&n).unwrap().in_lobby = Some(LobbyId { uuid: 50 });
    }
    let mut first = member(1);
    first.selected_champion = Some(ChampionId { uuid: 8 });
    first.locked = true;
    state.lobbies.insert(
        50,
        Lobby {
            id: LobbyId { uuid: 50 },
            settings: LobbySettings {
                name: "Mine".to_string(),
                team_count: 2,
                players_per_team: 5,
                locked: false,
                allows_team_switching: false,
            },
            players: vec![vec![first, member(2)], vec![member(3)]],
            leader: pid(1),
            lobby_state,
        },
    );
    state
}

#[test]
fn free_name_ending_in_letter_gets_number_one() {
    let state = State::new();
    assert_eq!(state.find_username("bob"), "bob1");
}

#[test]
fn free_name_ending_in_digit_is_kept() {
    let state = State::new();
    assert_eq!(state.find_username("x9"), "x9");
}

#[test]
fn empty_name_becomes_one() {
    let state = State::new();
    assert_eq!(state.find_username(""), "1");
}

#[test]
fn taken_name_is_returned_unchanged() {
    let mut state = State::new();
    let first = connect(&mut state, 1, "bob");
    assert_eq!(first, "bob1");
    assert_eq!(state.find_username("bob1"), "bob1");
}

#[test]
fn number_counts_up_past_taken_names() {
    let mut state = State::new();
    assert_eq!(connect(&mut state, 1, "bob"), "bob1");
    assert_eq!(connect(&mut state, 2, "bob"), "bob2");
    assert_eq!(connect(&mut state, 3, "bob"), "bob3");
}

#[test]
fn number_carries_into_new_digit() {
    let mut state = State::new();
    for n in 1..=9 {
        assert_eq!(connect(&mut state, n, "z"), format!("z{}", n));
    }
    assert_eq!(connect(&mut state, 10, "z"), "z10");
}

#[test]
fn free_name_with_leading_zeros_is_kept() {
    let mut state = State::new();
    state.player_names.insert("q08".to_string(), pid(1));
    assert_eq!(state.find_username("q007"), "q007");
    assert_eq!(state.find_username("q08"), "q08");
}

#[test]
fn counting_carries_through_nines_of_a_longer_number() {
    let mut state = State::new();
    state.player_names.insert("k1".to_string(), pid(1));
    for n in 2..=19 {
        state.player_names.insert(format!("k{}", n), pid(1));
    }
    assert_eq!(state.find_username("k"), "k20");
}

#[test]
fn non_ascii_names_get_a_number() {
    let state = State::new();
    assert_eq!(state.find_username("élan"), "élan1");
}

#[test]
fn new_connection_registers_player() {
    let mut state = State::new();
    let name = connect(&mut state, 7, "neo");
    assert_eq!(name, "neo1");
    let player = &state.players[&7];
    assert_eq!(player.id, pid(7));
    assert_eq!(player.username, "neo1");
    assert!(player.in_lobby.is_none());
    assert_eq!(state.player_names.get("neo1"), Some(&pid(7)));
}

#[test]
fn create_lobby_opens_lobby_led_by_creator() {
    let mut state = State::new();
    connect(&mut state, 1, "a");
    let out = ask(&mut state, 1, ClientToLobby::CreateLobby);
    assert_eq!(out.len(), 1);
    assert_eq!(out[0].recipients, vec![pid(1)]);
    let id = match out[0].message {
        LobbyToClient::JoinedLobby { id } => id,
        ref other => panic!("unexpected {:?}", other),
    };
    assert_eq!((id.uuid >> 76) & 0xF, 4);
    let lobby = &state.lobbies[&id.uuid];
    assert_eq!(lobby.id, id);
    assert_eq!(lobby.leader, pid(1));
    assert_eq!(lobby.settings.name, "New Lobby");
    assert_eq!(lobby.settings.team_count, 2);
    assert_eq!(lobby.settings.players_per_team, 5);
    assert_eq!(lobby.players.len(), 2);
    assert_eq!(lobby.players[0].len(), 1);
    assert_eq!(lobby.players[0][0].id, pid(1));
    assert!(lobby.players[1].is_empty());
    assert_eq!(lobby.lobby_state, LobbyState::Normal);
    assert!(state.players[&1].in_lobby.is_none());
}

#[test]
fn create_lobby_ignores_unknown_player_and_player_in_lobby() {
    let mut state = State::new();
    assert!(ask(&mut state, 1, ClientToLobby::CreateLobby).is_empty());
    assert!(state.lobbies.is_empty());
    let mut state = state_with_lobby(LobbyState::Normal);
    assert!(ask(&mut state, 1, ClientToLobby::CreateLobby).is_empty());
    assert_eq!(state.lobbies.len(), 1);
}

#[test]
fn lobby_list_lists_every_lobby_once() {
    let mut state = State::new();
    connect(&mut state, 1, "a");
    connect(&mut state, 2, "b");
    ask(&mut state, 1, ClientToLobby::CreateLobby);
    ask(&mut state, 2, ClientToLobby::CreateLobby);
    let out = ask(&mut state, 1, ClientToLobby::GetLobbyList);
    assert_eq!(out.len(), 1);
    assert_eq!(out[0].recipients, vec![pid(1)]);
    match &out[0].message {
        LobbyToClient::LobbyList { lobbies } => {
            assert_eq!(lobbies.len(), 2);
            let mut seen: Vec<u128> = lobbies.iter().map(|l| l.id.uuid).collect();
            seen.sort();
            let mut expected: Vec<u128> = state.lobbies.keys().copied().collect();
            expected.sort();
            assert_eq!(seen, expected);
            for l in lobbies {
                assert_eq!(l.name, "New Lobby");
                assert_eq!(l.players, 1);
                assert_eq!(l.max_player_count, 10);
            }
        },
        other => panic!("unexpected {:?}", other),
    }
}

#[test]
fn lobby_list_for_unknown_player_goes_to_nobody() {
    let mut state = State::new();
    let out = ask(&mut state, 9, ClientToLobby::GetLobbyList);
    assert_eq!(out.len(), 1);
    assert!(out[0].recipients.is_empty());
}

#[test]
fn lobby_info_of_known_and_unknown_lobby() {
    let mut state = state_with_lobby(LobbyState::Normal);
    let out = ask(&mut state, 2, ClientToLobby::GetLobbyInfo { id: LobbyId { uuid: 50 } });
    assert_eq!(out.len(), 1);
    assert_eq!(out[0].recipients, vec![pid(2)]);
    match &out[0].message {
        LobbyToClient::LobbyInfo { info } => {
            assert_eq!(info.leader, pid(1));
            assert_eq!(info.players[0][0].selected_champion, Some(ChampionId { uuid: 8 }));
            assert_eq!(info.players[1][0].id, pid(3));
        },
        other => panic!("unexpected {:?}", other),
    }
    assert!(ask(&mut state, 2, ClientToLobby::GetLobbyInfo { id: LobbyId { uuid: 51 } }).is_empty());
}

#[test]
fn player_info_of_known_and_unknown_player() {
    let mut state = state_with_lobby(LobbyState::Normal);
    let out = ask(&mut state, 1, ClientToLobby::GetPlayerInfo { player: pid(3) });
    assert_eq!(out.len(), 1);
    match &out[0].message {
        LobbyToClient::PlayerInfo { info } => {
            assert_eq!(info.id, pid(3));
            assert_eq!(info.name, "p3");
        },
        other => panic!("unexpected {:?}", other),
    }
    assert!(ask(&mut state, 1, ClientToLobby::GetPlayerInfo { player: pid(99) }).is_empty());
}

#[test]
fn handshake_join_and_kick_change_nothing() {
    let mut state = state_with_lobby(LobbyState::Normal);
    assert!(ask(&mut state, 1, ClientToLobby::Handshake { username: "x".to_string() }).is_empty());
    assert!(ask(&mut state, 1, ClientToLobby::JoinLobby { id: LobbyId { uuid: 50 } }).is_empty());
    assert!(ask(&mut state, 1, ClientToLobby::KickPlayer { id: pid(2) }).is_empty());
    assert_eq!(state.lobbies[&50].players.len(), 2);
    assert_eq!(state.lobbies[&50].player_count(), 3);
}

#[test]
fn leader_leaving_passes_leadership() {
    let mut state = state_with_lobby(LobbyState::Normal);
    let out = ask(&mut state, 1, ClientToLobby::LeaveLobby);
    assert_eq!(out.len(), 2);
    for d in &out {
        assert_eq!(d.recipients, vec![pid(2), pid(3)]);
    }
    assert!(matches!(out[0].message, LobbyToClient::PlayerBecameLeader { player } if player == pid(2)));
    assert!(matches!(out[1].message, LobbyToClient::PlayerLeftLobby { player } if player == pid(1)));
    let lobby = &state.lobbies[&50];
    assert_eq!(lobby.leader, pid(2));
    assert_eq!(lobby.player_count(), 2);
}

#[test]
fn leaving_during_champion_select_resets_selections() {
    let mut state = state_with_lobby(LobbyState::ChampSelect);
    state.lobbies.get_mut(&50).unwrap().players[1][0].locked = true;
    let out = ask(&mut state, 2, ClientToLobby::LeaveLobby);
    assert_eq!(out.len(), 2);
    assert!(matches!(out[0].message, LobbyToClient::LobbyStateChanged { new_state: LobbyState::Normal }));
    assert!(matches!(out[1].message, LobbyToClient::PlayerLeftLobby { player } if player == pid(2)));
    assert_eq!(out[0].recipients, vec![pid(1), pid(3)]);
    let lobby = &state.lobbies[&50];
    assert!(lobby.players[0][0].selected_champion.is_none());
    assert!(!lobby.players[1][0].locked);
    assert_eq!(lobby.lobby_state, LobbyState::ChampSelect);
    assert_eq!(lobby.leader, pid(1));
}

#[test]
fn last_player_leaving_closes_lobby() {
    let mut state = state_with_lobby(LobbyState::Normal);
    assert_eq!(ask(&mut state, 1, ClientToLobby::LeaveLobby).len(), 2);
    assert_eq!(ask(&mut state, 2, ClientToLobby::LeaveLobby).len(), 2);
    assert!(ask(&mut state, 3, ClientToLobby::LeaveLobby).is_empty());
    assert!(state.lobbies.is_empty());
}

#[test]
fn leaving_without_lobby_changes_nothing() {
    let mut state = State::new();
    connect(&mut state, 1, "a");
    assert!(ask(&mut state, 1, ClientToLobby::LeaveLobby).is_empty());
    assert!(ask(&mut state, 5, ClientToLobby::LeaveLobby).is_empty());
}

#[test]
fn lobby_messages_skip_disconnected_members() {
    let mut state = state_with_lobby(LobbyState::Normal);
    state.players.remove(&2);
    let d = state.send_message_to_lobby(LobbyId { uuid: 50 }, LobbyToClient::SettingUpGameServer);
    assert_eq!(d.recipients, vec![pid(1), pid(3)]);
    let d = state.send_message_to_lobby(LobbyId { uuid: 51 }, LobbyToClient::SettingUpGameServer);
    assert!(d.recipients.is_empty());
}

#[test]
fn send_message_reaches_only_connected_player() {
    let state = state_with_lobby(LobbyState::Normal);
    assert_eq!(state.send_message(pid(3), LobbyToClient::SettingUpGameServer).recipients, vec![pid(3)]);
    assert!(state.send_message(pid(30), LobbyToClient::SettingUpGameServer).recipients.is_empty());
}

#[test]
fn broadcast_reaches_every_player() {
    let state = state_with_lobby(LobbyState::Normal);
    let d = state.broadcast_message(LobbyToClient::SettingUpGameServer);
    let mut got: Vec<u128> = d.recipients.iter().map(|p| p.uuid).collect();
    got.sort();
    assert_eq!(got, vec![1, 2, 3]);
}

#[test]
fn player_info_copies_id_and_name() {
    let state = state_with_lobby(LobbyState::Normal);
    let info = state.players[&2].get_info();
    assert_eq!(info.id, pid(2));
    assert_eq!(info.name, "p2");
}

#[test]
fn random_ids_carry_version_four_and_differ() {
    let a = PlayerId::new();
    let b = PlayerId::new();
    assert_ne!(a, b);
    for v in [a.uuid, b.uuid, LobbyId::new().uuid] {
        assert_eq!(v & 0xF000_C000_0000_0000_0000, 0x4000_8000_0000_0000_0000);
    }
}

#[test]
fn frame_header_is_big_endian_length() {
    assert_eq!(frame_header(0x0102_0304), [1, 2, 3, 4]);
    assert_eq!(frame_header(0), [0, 0, 0, 0]);
    assert_eq!(frame_length([0, 0, 1, 0]), 256);
}

#[test]
fn frame_length_reads_back_header() {
    for n in [0usize, 1, 255, 256, 65_536, 0xFFFF_FFFF] {
        assert_eq!(frame_length(frame_header(n)), n);
    }
}

#[test]
fn same_request_gets_same_name() {
    let mut state = State::new();
    connect(&mut state, 1, "ann");
    assert_eq!(state.find_username("ann"), state.find_username("ann"));
    assert_eq!(state.find_username("ann"), "ann2");
}
