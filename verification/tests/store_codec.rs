use set_server::codec::{decode_lobby, encode_lobby};
use set_server::room::{Game, Lobby, Selection, User};
use set_server::ServerError;

fn tokens(names: &[&str]) -> Vec<String> {
    names.iter().map(|t| t.to_string()).collect()
}

fn full_room() -> Lobby {
    Lobby {
        users: vec![
            (1, User { name: "alice".to_string(), points: 5 }),
            (42, User { name: "bob;+-SN".to_string(), points: -3 }),
            (0, User { name: "".to_string(), points: i64::MIN }),
        ],
        game_type: Some("triples".to_string()),
        game_state: Some(Game {
            number_of_sets: 4,
            deck: "D1,D2;D3".to_string(),
            board: tokens(&["A", "", "B7"]),
            previous_selection: Some(Selection {
                user: "alice".to_string(),
                valid: true,
                selection: tokens(&["A", "B7"]),
            }),
        }),
    }
}

fn assert_rooms_equal(a: &Lobby, b: &Lobby) {
    assert_eq!(a.users.len(), b.users.len());
    for (x, y) in a.users.iter().zip(b.users.iter()) {
        assert_eq!(x.0, y.0);
        assert_eq!(x.1.name, y.1.name);
        assert_eq!(x.1.points, y.1.points);
    }
    assert_eq!(a.game_type, b.game_type);
    match (&a.game_state, &b.game_state) {
        (None, None) => {}
        (Some(g), Some(h)) => {
            assert_eq!(g.number_of_sets, h.number_of_sets);
            assert_eq!(g.deck, h.deck);
            assert_eq!(g.board, h.board);
            match (&g.previous_selection, &h.previous_selection) {
                (None, None) => {}
                (Some(p), Some(q)) => {
                    assert_eq!(p.user, q.user);
                    assert_eq!(p.valid, q.valid);
                    assert_eq!(p.selection, q.selection);
                }
                _ => panic!("previous selections differ"),
            }
        }
        _ => panic!("game states differ"),
    }
}

#[test]
fn round_trip_full_room() {
    let room = full_room();
    let wire = encode_lobby(&room);
    let back = decode_lobby(wire.as_str()).unwrap();
    assert_rooms_equal(&room, &back);
}

#[test]
fn round_trip_empty_room() {
    let room = Lobby { users: Vec::new(), game_type: None, game_state: None };
    let wire = encode_lobby(&room);
    let back = decode_lobby(wire.as_str()).unwrap();
    assert_rooms_equal(&room, &back);
}

#[test]
fn encoding_is_deterministic_text() {
    let room = Lobby {
        users: vec![(1, User { name: "ab".to_string(), points: -2 })],
        game_type: None,
        game_state: None,
    };
    assert_eq!(encode_lobby(&room), "1;1;2;ab-2;NN");
}

#[test]
fn garbage_is_a_deserialization_failure() {
    assert_eq!(decode_lobby("").unwrap_err(), ServerError::DeserializationFailure);
    assert_eq!(decode_lobby("hello").unwrap_err(), ServerError::DeserializationFailure);
    assert_eq!(decode_lobby("1;").unwrap_err(), ServerError::DeserializationFailure);
    let wire = encode_lobby(&full_room());
    let truncated = &wire[..wire.len() - 1];
    assert_eq!(decode_lobby(truncated).unwrap_err(), ServerError::DeserializationFailure);
    let padded = format!("{}Z", wire);
    assert_eq!(decode_lobby(padded.as_str()).unwrap_err(), ServerError::DeserializationFailure);
}
