use set_server::engine::{BoardUpdate, RuleEngine};
use set_server::room::{Game, Lobby, Selection, User};
use set_server::server::{Join, Server, SetGameType, StartGame, VerifySet};
use set_server::ServerError;

/// A rule engine double: validity is fixed, `update_board` hands the board it
/// was given straight back, so tests can observe what the coordinator sent.
struct FixedEngine {
    valid: bool,
}

impl RuleEngine for FixedEngine {
    fn init_deck(&mut self) -> String {
        "D1,D2,D3,D4".to_string()
    }

    fn update_board(&mut self, deck: String, board: Vec<String>) -> BoardUpdate {
        BoardUpdate { deck, board, sets: 4 }
    }

    fn is_set(&mut self, _selected: &Vec<String>) -> bool {
        self.valid
    }
}

fn tokens(names: &[&str]) -> Vec<String> {
    names.iter().map(|t| t.to_string()).collect()
}

fn join(server: &mut Server, id: usize, name: &str, room: Option<Lobby>) -> Lobby {
    let msg = Join { id, username: name.to_string(), room_name: "room1".to_string() };
    let (lobby, _, _) = server.handle_join(msg, room);
    lobby
}

#[test]
fn join_creates_room_with_zero_points() {
    let mut server = Server::default();
    let lobby = join(&mut server, 1, "alice", None);
    assert_eq!(lobby.users.len(), 1);
    assert_eq!(lobby.users[0].0, 1);
    assert_eq!(lobby.users[0].1.name, "alice");
    assert_eq!(lobby.users[0].1.points, 0);
    assert!(lobby.game_type.is_none());
    assert!(lobby.game_state.is_none());
}

#[test]
fn rejoin_resets_points_and_never_duplicates() {
    let mut server = Server::default();
    let mut lobby = join(&mut server, 1, "alice", None);
    lobby.users[0].1.points = 7;
    let lobby = join(&mut server, 1, "alice", Some(lobby));
    assert_eq!(lobby.users.len(), 1);
    assert_eq!(lobby.users[0].1.points, 0);
    let lobby = join(&mut server, 1, "alice", Some(lobby));
    assert_eq!(lobby.users.len(), 1);
    assert_eq!(lobby.users[0].1.points, 0);
}

#[test]
fn broadcast_reaches_exactly_registered_roster_ids() {
    let mut server = Server::default();
    // Sinks registered for 1 and 3 only; the roster also holds 2.
    let lobby = join(&mut server, 1, "alice", None);
    let lobby2 = Lobby {
        users: vec![
            (1, User { name: "alice".to_string(), points: 0 }),
            (2, User { name: "bob".to_string(), points: 0 }),
            (3, User { name: "carol".to_string(), points: 0 }),
        ],
        game_type: lobby.game_type,
        game_state: lobby.game_state,
    };
    server.sessions.register(3);
    let msg = SetGameType { game_type: "triples".to_string(), room_name: "room1".to_string() };
    let (_, event, targets) = server.handle_set_game_type(msg, Some(lobby2)).unwrap();
    assert_eq!(event.event_type, "setGameType");
    assert_eq!(event.game_type, "triples");
    // Bob has no sink: skipped, without keeping alice or carol from delivery.
    assert_eq!(targets, vec![1, 3]);
}

#[test]
fn register_is_idempotent() {
    let mut server = Server::default();
    server.sessions.register(5);
    server.sessions.register(5);
    assert!(server.sessions.is_registered(5));
    assert!(!server.sessions.is_registered(6));
    assert_eq!(server.sessions.ids.len(), 1);
}

#[test]
fn start_game_has_no_previous_selection() {
    let mut server = Server::default();
    let lobby = join(&mut server, 1, "alice", None);
    let mut engine = FixedEngine { valid: true };
    let msg = StartGame { room_name: "room1".to_string() };
    let (lobby, event, _) = server.handle_start_game(&mut engine, msg, Some(lobby)).unwrap();
    let game = lobby.game_state.as_ref().unwrap();
    assert!(game.previous_selection.is_none());
    assert_eq!(game.deck, "D1,D2,D3,D4");
    assert_eq!(game.number_of_sets, 4);
    assert_eq!(event.event_type, "updateGame");
    assert!(event.game_state.previous_selection.is_none());
}

#[test]
fn start_game_without_room_is_room_not_found() {
    let server = Server::default();
    let mut engine = FixedEngine { valid: true };
    let msg = StartGame { room_name: "nowhere".to_string() };
    let r = server.handle_start_game(&mut engine, msg, None);
    assert_eq!(r.unwrap_err(), ServerError::RoomNotFound);
}

fn started_room(server: &mut Server, board: &[&str]) -> Lobby {
    let lobby = join(server, 1, "alice", None);
    Lobby {
        users: lobby.users,
        game_type: lobby.game_type,
        game_state: Some(Game {
            number_of_sets: 2,
            deck: "DECK".to_string(),
            board: tokens(board),
            previous_selection: None,
        }),
    }
}

#[test]
fn valid_set_increments_and_records_selection() {
    let mut server = Server::default();
    let lobby = started_room(&mut server, &["A", "B", "C", "D"]);
    let mut engine = FixedEngine { valid: true };
    let msg = VerifySet {
        id: 1,
        room_name: "room1".to_string(),
        selected: tokens(&["A", "B", "C"]),
    };
    let (lobby, event, _) = server.handle_verify_set(&mut engine, msg, Some(lobby)).unwrap();
    assert_eq!(lobby.users[0].1.points, 1);
    let game = lobby.game_state.as_ref().unwrap();
    let prev = game.previous_selection.as_ref().unwrap();
    assert_eq!(prev.user, "alice");
    assert!(prev.valid);
    assert_eq!(prev.selection, tokens(&["A", "B", "C"]));
    // The engine echoed the board it was given: the selected tokens are gone.
    assert_eq!(game.board, tokens(&["D"]));
    assert_eq!(event.event_type, "updateGame");
}

#[test]
fn invalid_set_decrements_and_leaves_board_alone() {
    let mut server = Server::default();
    let lobby = started_room(&mut server, &["A", "B", "C", "D"]);
    let mut engine = FixedEngine { valid: false };
    let msg = VerifySet {
        id: 1,
        room_name: "room1".to_string(),
        selected: tokens(&["A", "B", "C"]),
    };
    let (lobby, _, _) = server.handle_verify_set(&mut engine, msg, Some(lobby)).unwrap();
    assert_eq!(lobby.users[0].1.points, -1);
    let game = lobby.game_state.as_ref().unwrap();
    let prev = game.previous_selection.as_ref().unwrap();
    assert_eq!(prev.user, "alice");
    assert!(!prev.valid);
    assert_eq!(prev.selection, tokens(&["A", "B", "C"]));
    assert_eq!(game.board, tokens(&["A", "B", "C", "D"]));
    assert_eq!(game.deck, "DECK");
    assert_eq!(game.number_of_sets, 2);
}

#[test]
fn verify_set_affects_no_other_user() {
    let mut server = Server::default();
    let lobby = started_room(&mut server, &["A", "B"]);
    let lobby = join(&mut server, 2, "bob", Some(lobby));
    let mut engine = FixedEngine { valid: true };
    let msg = VerifySet { id: 2, room_name: "room1".to_string(), selected: tokens(&["A"]) };
    let (lobby, _, _) = server.handle_verify_set(&mut engine, msg, Some(lobby)).unwrap();
    assert_eq!(lobby.users[0].1.name, "alice");
    assert_eq!(lobby.users[0].1.points, 0);
    assert_eq!(lobby.users[1].1.name, "bob");
    assert_eq!(lobby.users[1].1.points, 1);
}

#[test]
fn verify_set_removes_one_occurrence_per_selected_token() {
    let mut server = Server::default();
    let lobby = started_room(&mut server, &["A", "B", "A", "C", "A"]);
    let mut engine = FixedEngine { valid: true };
    let msg = VerifySet { id: 1, room_name: "room1".to_string(), selected: tokens(&["A", "A"]) };
    let (lobby, _, _) = server.handle_verify_set(&mut engine, msg, Some(lobby)).unwrap();
    let game = lobby.game_state.as_ref().unwrap();
    assert_eq!(game.board, tokens(&["B", "C", "A"]));
}

#[test]
fn board_after_removal_is_bag_difference() {
    let board = tokens(&["A", "B", "A", "C"]);
    let removed = set_server::tokens::board_after_removal(&board, &tokens(&["A", "C"]));
    assert_eq!(removed, tokens(&["B", "A"]));
    let untouched = set_server::tokens::board_after_removal(&board, &tokens(&["X"]));
    assert_eq!(untouched, board);
    let emptied = set_server::tokens::board_after_removal(
        &tokens(&["A", "A"]),
        &tokens(&["A", "A"]),
    );
    assert_eq!(emptied, tokens(&[]));
}

#[test]
fn verify_set_errors() {
    let mut server = Server::default();
    let mut engine = FixedEngine { valid: true };
    let msg = VerifySet { id: 1, room_name: "room1".to_string(), selected: tokens(&["A"]) };
    let r = server.handle_verify_set(&mut engine, msg, None);
    assert_eq!(r.unwrap_err(), ServerError::RoomNotFound);

    let lobby = join(&mut server, 1, "alice", None);
    let msg = VerifySet { id: 9, room_name: "room1".to_string(), selected: tokens(&["A"]) };
    let r = server.handle_verify_set(&mut engine, msg, Some(lobby));
    assert_eq!(r.unwrap_err(), ServerError::UserNotFound);

    let lobby = join(&mut server, 1, "alice", None);
    let msg = VerifySet { id: 1, room_name: "room1".to_string(), selected: tokens(&["A"]) };
    let r = server.handle_verify_set(&mut engine, msg, Some(lobby));
    assert_eq!(r.unwrap_err(), ServerError::GameNotStarted);
}

#[test]
fn set_game_type_without_room_is_room_not_found() {
    let server = Server::default();
    let msg = SetGameType { game_type: "triples".to_string(), room_name: "x".to_string() };
    let r = server.handle_set_game_type(msg, None);
    assert_eq!(r.unwrap_err(), ServerError::RoomNotFound);
}

#[test]
fn join_snapshot_lists_roster_in_order() {
    let mut server = Server::default();
    let lobby = join(&mut server, 1, "alice", None);
    let msg = Join { id: 2, username: "bob".to_string(), room_name: "room1".to_string() };
    let (_, event, targets) = server.handle_join(msg, Some(lobby));
    assert_eq!(event.event_type, "users");
    assert_eq!(event.users.len(), 2);
    assert_eq!(event.users[0].name, "alice");
    assert_eq!(event.users[0].points, 0);
    assert_eq!(event.users[1].name, "bob");
    assert_eq!(event.users[1].points, 0);
    assert_eq!(targets, vec![1, 2]);
}

#[test]
fn roster_checks() {
    let good = Lobby {
        users: vec![
            (1, User { name: "a".to_string(), points: 3 }),
            (2, User { name: "b".to_string(), points: -2 }),
        ],
        game_type: None,
        game_state: None,
    };
    assert!(good.roster_unique());
    assert!(good.points_in_range());
    let dup = Lobby {
        users: vec![
            (1, User { name: "a".to_string(), points: 0 }),
            (1, User { name: "b".to_string(), points: i64::MAX }),
        ],
        game_type: None,
        game_state: None,
    };
    assert!(!dup.roster_unique());
    assert!(!dup.points_in_range());
}

#[test]
fn full_session_scenario() {
    let mut server = Server::default();
    let lobby = join(&mut server, 1, "alice", None);
    assert_eq!(lobby.users.len(), 1);
    assert_eq!(lobby.users[0].1.name, "alice");
    assert_eq!(lobby.users[0].1.points, 0);

    let mut engine = FixedEngine { valid: true };
    let msg = StartGame { room_name: "room1".to_string() };
    let (lobby, _, _) = server.handle_start_game(&mut engine, msg, Some(lobby)).unwrap();
    assert!(lobby.game_state.is_some());

    let msg = VerifySet {
        id: 1,
        room_name: "room1".to_string(),
        selected: tokens(&["A", "B", "C"]),
    };
    let (lobby, _, _) = server.handle_verify_set(&mut engine, msg, Some(lobby)).unwrap();
    assert_eq!(lobby.users[0].1.points, 1);
    let prev = lobby.game_state.as_ref().unwrap().previous_selection.as_ref().unwrap();
    assert_eq!(prev.user, "alice");
    assert!(prev.valid);
    assert_eq!(prev.selection.join(","), "A,B,C");
}

#[test]
fn full_session_scenario_invalid_selection() {
    let mut server = Server::default();
    let lobby = join(&mut server, 1, "alice", None);
    let mut engine = FixedEngine { valid: false };
    let msg = StartGame { room_name: "room1".to_string() };
    let (lobby, _, _) = server.handle_start_game(&mut engine, msg, Some(lobby)).unwrap();
    let deck_before = lobby.game_state.as_ref().unwrap().deck.clone();
    let board_before = lobby.game_state.as_ref().unwrap().board.clone();

    let msg = VerifySet {
        id: 1,
        room_name: "room1".to_string(),
        selected: tokens(&["A", "B", "C"]),
    };
    let (lobby, _, _) = server.handle_verify_set(&mut engine, msg, Some(lobby)).unwrap();
    assert_eq!(lobby.users[0].1.points, -1);
    let game = lobby.game_state.as_ref().unwrap();
    assert!(!game.previous_selection.as_ref().unwrap().valid);
    assert_eq!(game.deck, deck_before);
    assert_eq!(game.board, board_before);
}
