//! The coordinator: a state machine that takes one command at a time together
//! with the room record the caller loaded, and returns the updated record,
//! the event to broadcast, and the ids the broadcast reaches. The caller owns
//! the store and the sinks; every decision in between is verified here.
use vstd::prelude::*;
use crate::ServerError;
use crate::engine::{BoardUpdate, RuleEngine};
use crate::messages::{GameTypeMessage, GameUpdateMessage, UserMessage};
use crate::messages::{game_type_message, game_update_message, snapshot_matches, snapshot_users};
use crate::registry::{SessionRegistry, registry_wf, targets_spec, lemma_targets_contains};
use crate::room::{Lobby, LobbyV, Selection, SelectionV, User, UserV, Game, GameV};
use crate::room::{empty_lobby, lobby_wf, roster_find, roster_has, lemma_roster_find_props};
use crate::tokens::board_after_removal;

verus! {

/// Join a room, creating it on first use; registers the sender's sink id.
pub struct Join {
    pub id: usize,
    pub username: String,
    pub room_name: String,
}

/// Configure the room's game type.
pub struct SetGameType {
    pub game_type: String,
    pub room_name: String,
}

/// Deal a fresh deck and board for the room.
pub struct StartGame {
    pub room_name: String,
}

/// Submit a selection of card tokens for the room's running game.
pub struct VerifySet {
    pub id: usize,
    pub room_name: String,
    pub selected: Vec<String>,
}

/// The coordinator. It holds only the session registry; room records are
/// handed in per command by the caller, which keeps them in the shared store.
pub struct Server {
    pub sessions: SessionRegistry,
}

/// The room a join starts from: the loaded record, or an empty room when the
/// store had none under that name.
pub open spec fn join_base(room: Option<Lobby>) -> LobbyV {
    match room {
        Some(l) => l@,
        None => empty_lobby(),
    }
}

/// What a join does to a room: the joining user's entry is inserted, or
/// overwritten where the id is already present, with points reset to zero.
pub open spec fn spec_join(l: LobbyV, id: nat, name: Seq<char>) -> LobbyV {
    let fresh = UserV { name, points: 0 };
    let k = roster_find(l.users, id);
    LobbyV {
        users: if k >= 0 {
            l.users.update(k, (id, fresh))
        } else {
            l.users.push((id, fresh))
        },
        game_type: l.game_type,
        game_state: l.game_state,
    }
}

/// Ties the executable target list to the roster of the room it was computed
/// from: a broadcast reaches an id exactly when the roster holds it and a
/// sink is registered for it.
pub proof fn lemma_reach(l: Lobby, ids: Seq<usize>)
    ensures
        forall|x: usize| #![trigger targets_spec(l.users@, ids).contains(x)]
            targets_spec(l.users@, ids).contains(x)
            <==> roster_has(l@.users, x as nat) && ids.contains(x),
{
    assert forall|x: usize| #![trigger targets_spec(l.users@, ids).contains(x)]
        targets_spec(l.users@, ids).contains(x)
        <==> roster_has(l@.users, x as nat) && ids.contains(x) by {
        lemma_targets_contains(l.users@, ids, x);
        if targets_spec(l.users@, ids).contains(x) {
            let i = choose|i: int| 0 <= i < l.users@.len() && #[trigger] l.users@[i].0 == x;
            assert(l@.users[i].0 == x as nat);
        }
        if roster_has(l@.users, x as nat) && ids.contains(x) {
            let i = choose|i: int| 0 <= i < l@.users.len() && l@.users[i].0 == x as nat;
            assert(l@.users[i].0 == l.users@[i].0 as nat);
            assert(l.users@[i].0 == x);
        }
    }
}

impl Default for Server {
    /// A coordinator with no registered sessions.
    fn default() -> (r: Server)
        ensures
            r.sessions.ids@ == Seq::<usize>::empty(),
            registry_wf(r.sessions.ids@),
    {
        Server { sessions: SessionRegistry::new() }
    }
}

impl Server {
    /// Join: register the sender's sink id, insert or overwrite the roster
    /// entry with zero points, and report the roster snapshot to broadcast.
    /// A join against an unseen room name starts from an empty room.
    pub fn handle_join(&mut self, msg: Join, room: Option<Lobby>) -> (r: (Lobby, UserMessage, Vec<usize>))
        requires
            registry_wf(old(self).sessions.ids@),
            (room matches Some(l) ==> lobby_wf(l@)),
        ensures
            registry_wf(final(self).sessions.ids@),
            forall|x: usize| final(self).sessions.ids@.contains(x)
                <==> old(self).sessions.ids@.contains(x) || x == msg.id,
            r.0@ == spec_join(join_base(room), msg.id as nat, msg.username@),
            lobby_wf(r.0@),
            snapshot_matches(r.1, r.0.users@),
            r.2@ == targets_spec(r.0.users@, final(self).sessions.ids@),
            forall|x: usize| r.2@.contains(x)
                <==> roster_has(r.0@.users, x as nat) && final(self).sessions.ids@.contains(x),
    {
        let Join { id, username, room_name: _ } = msg;
        self.sessions.register(id);
        let mut lobby = match room {
            Some(l) => l,
            None => Lobby::new(),
        };
        let ghost l0 = lobby@;
        let fresh = User { name: username, points: 0 };
        let ghost fresh_v = fresh@;
        proof {
            lemma_roster_find_props(l0.users, id as nat);
        }
        match lobby.find_user(id) {
            Some(k) => {
                let ghost pre = lobby.users@;
                let _ = lobby.users.remove(k);
                lobby.users.insert(k, (id, fresh));
                proof {
                    assert(lobby.users@[k as int].1@ == fresh_v);
                    assert(lobby.users@ =~= pre.update(k as int, lobby.users@[k as int]));
                    assert(lobby@.users =~= l0.users.update(k as int, (id as nat, fresh_v)));
                    assert(lobby@ =~= spec_join(l0, id as nat, msg.username@));
                    assert forall|i: int, j: int|
                        0 <= i < lobby@.users.len() && 0 <= j < lobby@.users.len() && i != j
                        implies lobby@.users[i].0 != lobby@.users[j].0 by {
                        assert(lobby@.users[i].0 == l0.users[i].0);
                        assert(lobby@.users[j].0 == l0.users[j].0);
                    }
                }
            },
            None => {
                lobby.users.push((id, fresh));
                proof {
                    assert(lobby@.users =~= l0.users.push((id as nat, fresh_v)));
                    assert(lobby@ =~= spec_join(l0, id as nat, msg.username@));
                    assert(!roster_has(l0.users, id as nat));
                    assert forall|i: int, j: int|
                        0 <= i < lobby@.users.len() && 0 <= j < lobby@.users.len() && i != j
                        implies lobby@.users[i].0 != lobby@.users[j].0 by {
                        if i < l0.users.len() && j < l0.users.len() {
                        } else if i == l0.users.len() {
                            assert(lobby@.users[j].0 == l0.users[j].0);
                            assert(l0.users[j].0 != id as nat);
                        } else {
                            assert(lobby@.users[i].0 == l0.users[i].0);
                            assert(l0.users[i].0 != id as nat);
                        }
                    }
                }
            },
        }
        let message = snapshot_users(&lobby.users);
        let targets = self.sessions.delivery_targets(&lobby.users);
        proof {
            lemma_reach(lobby, self.sessions.ids@);
        }
        (lobby, message, targets)
    }

    /// Configure the game type of an existing room and report the game-type
    /// event to broadcast. A room the store does not know is an error, never
    /// a silent no-op.
    pub fn handle_set_game_type(&self, msg: SetGameType, room: Option<Lobby>) -> (r: Result<
        (Lobby, GameTypeMessage, Vec<usize>),
        ServerError,
    >)
        ensures
            r is Ok <==> room is Some,
            (r matches Ok((l2, m, t)) ==> {
                &&& room matches Some(l0) && l2@ == (LobbyV {
                    users: l0@.users,
                    game_type: Some(msg.game_type@),
                    game_state: l0@.game_state,
                })
                &&& m.event_type@ == "setGameType"@
                &&& m.game_type@ == msg.game_type@
                &&& t@ == targets_spec(l2.users@, self.sessions.ids@)
                &&& forall|x: usize| t@.contains(x)
                    <==> roster_has(l2@.users, x as nat) && self.sessions.ids@.contains(x)
            }),
            (r matches Err(e) ==> e == ServerError::RoomNotFound && room is None),
    {
        let mut lobby = match room {
            Some(l) => l,
            None => {
                return Err(ServerError::RoomNotFound);
            },
        };
        let ghost l0 = lobby@;
        lobby.game_type = Some(msg.game_type.clone());
        let message = game_type_message(&msg.game_type);
        let targets = self.sessions.delivery_targets(&lobby.users);
        proof {
            assert(lobby@ =~= (LobbyV {
                users: l0.users,
                game_type: Some(msg.game_type@),
                game_state: l0.game_state,
            }));
            lemma_reach(lobby, self.sessions.ids@);
        }
        Ok((lobby, message, targets))
    }

    /// Start a game: have the rule engine deal a deck and refill an empty
    /// board, store the fresh game state, and report the game-update event.
    /// Immediately after a start there is no previous selection.
    pub fn handle_start_game<E: RuleEngine>(
        &self,
        engine: &mut E,
        msg: StartGame,
        room: Option<Lobby>,
    ) -> (r: Result<(Lobby, GameUpdateMessage, Vec<usize>), ServerError>)
        ensures
            r is Ok <==> room is Some,
            (r matches Ok((l2, m, t)) ==> {
                &&& room matches Some(l0) && l2@.users == l0@.users
                    && l2@.game_type == l0@.game_type
                &&& l2@.game_state matches Some(g) && g.previous_selection is None
                    && m.game_state@ == g
                &&& m.event_type@ == "updateGame"@
                &&& t@ == targets_spec(l2.users@, self.sessions.ids@)
                &&& forall|x: usize| t@.contains(x)
                    <==> roster_has(l2@.users, x as nat) && self.sessions.ids@.contains(x)
            }),
            (r matches Err(e) ==> e == ServerError::RoomNotFound && room is None),
    {
        let StartGame { room_name: _ } = msg;
        let mut lobby = match room {
            Some(l) => l,
            None => {
                return Err(ServerError::RoomNotFound);
            },
        };
        let deck = engine.init_deck();
        let update = engine.update_board(deck, Vec::new());
        let BoardUpdate { deck, board, sets } = update;
        let game = Game { number_of_sets: sets, deck, board, previous_selection: None };
        let message = game_update_message(&game);
        lobby.game_state = Some(game);
        let targets = self.sessions.delivery_targets(&lobby.users);
        proof {
            lemma_reach(lobby, self.sessions.ids@);
        }
        Ok((lobby, message, targets))
    }

    /// Verify a submitted selection. A valid selection earns the submitter
    /// exactly one point and hands the rule engine the board with the
    /// selected tokens removed, one occurrence each; an invalid one costs
    /// exactly one point and leaves deck, board and match count untouched.
    /// Either way the outcome is recorded as the room's previous selection
    /// and nobody else's entry changes.
    pub fn handle_verify_set<E: RuleEngine>(
        &self,
        engine: &mut E,
        msg: VerifySet,
        room: Option<Lobby>,
    ) -> (r: Result<(Lobby, GameUpdateMessage, Vec<usize>), ServerError>)
        requires
            (room matches Some(l) ==> lobby_wf(l@) && forall|j: int|
                0 <= j < l@.users.len()
                    ==> i64::MIN < #[trigger] l@.users[j].1.points < i64::MAX),
        ensures
            r is Ok <==> (room matches Some(l0) && roster_has(l0@.users, msg.id as nat)
                && l0@.game_state is Some),
            (r matches Ok((l2, m, t)) ==> room matches Some(l0) && {
                let k = roster_find(l0@.users, msg.id as nat);
                let g0 = l0@.game_state.unwrap();
                &&& lobby_wf(l2@)
                &&& l2@.game_type == l0@.game_type
                &&& l2@.users.len() == l0@.users.len()
                &&& forall|j: int| 0 <= j < l2@.users.len() && j != k
                    ==> #[trigger] l2@.users[j] == l0@.users[j]
                &&& l2@.users[k].0 == msg.id as nat
                &&& l2@.users[k].1.name == l0@.users[k].1.name
                &&& l2@.game_state matches Some(g2) && {
                    &&& g2.previous_selection matches Some(ps) && {
                        &&& ps.user == l0@.users[k].1.name
                        &&& ps.selection == msg.selected.deep_view()
                        &&& (ps.valid ==> l2@.users[k].1.points == l0@.users[k].1.points + 1)
                        &&& (!ps.valid ==> {
                            &&& l2@.users[k].1.points == l0@.users[k].1.points - 1
                            &&& g2.deck == g0.deck
                            &&& g2.board == g0.board
                            &&& g2.number_of_sets == g0.number_of_sets
                        })
                    }
                    &&& m.game_state@ == g2
                }
                &&& m.event_type@ == "updateGame"@
                &&& t@ == targets_spec(l2.users@, self.sessions.ids@)
                &&& forall|x: usize| t@.contains(x)
                    <==> roster_has(l2@.users, x as nat) && self.sessions.ids@.contains(x)
            }),
            (r matches Err(e) ==> match e {
                ServerError::RoomNotFound => room is None,
                ServerError::UserNotFound => room matches Some(l0)
                    && !roster_has(l0@.users, msg.id as nat),
                ServerError::GameNotStarted => room matches Some(l0)
                    && roster_has(l0@.users, msg.id as nat) && l0@.game_state is None,
                _ => false,
            }),
    {
        let VerifySet { id, room_name: _, selected } = msg;
        let mut lobby = match room {
            Some(l) => l,
            None => {
                return Err(ServerError::RoomNotFound);
            },
        };
        let ghost l0 = lobby@;
        proof {
            lemma_roster_find_props(l0.users, id as nat);
        }
        let k = match lobby.find_user(id) {
            Some(k) => k,
            None => {
                return Err(ServerError::UserNotFound);
            },
        };
        if lobby.game_state.is_none() {
            return Err(ServerError::GameNotStarted);
        }
        let valid = engine.is_set(&selected);

        let ghost pre = lobby.users@;
        let (uid, submitter) = lobby.users.remove(k);
        proof {
            assert(pre[k as int].1@ == l0.users[k as int].1);
            assert(i64::MIN < l0.users[k as int].1.points < i64::MAX);
            assert(l0.users[k as int].1.points == submitter.points as int);
        }
        let name = submitter.name;
        let ghost name_v = name@;
        let points = if valid {
            submitter.points + 1
        } else {
            submitter.points - 1
        };
        let updated = User { name: name.clone(), points };
        let ghost upd_v = updated@;
        lobby.users.insert(k, (uid, updated));
        proof {
            assert(lobby.users@[k as int].1@ == upd_v);
            assert(lobby.users@ =~= pre.update(k as int, lobby.users@[k as int]));
            assert(name_v == l0.users[k as int].1.name);
        }

        let game = if valid {
            let (new_deck, new_board, sets) = match &lobby.game_state {
                Some(g0) => {
                    let reduced = board_after_removal(&g0.board, &selected);
                    let update = engine.update_board(g0.deck.clone(), reduced);
                    (update.deck, update.board, update.sets)
                },
                None => {
                    return Err(ServerError::GameNotStarted);
                },
            };
            Game {
                number_of_sets: sets,
                deck: new_deck,
                board: new_board,
                previous_selection: Some(Selection { user: name, valid: true, selection: selected }),
            }
        } else {
            let (old_deck, old_board, old_sets) = match &lobby.game_state {
                Some(g0) => (g0.deck.clone(), g0.board.clone(), g0.number_of_sets),
                None => {
                    return Err(ServerError::GameNotStarted);
                },
            };
            proof {
                assert(old_board.deep_view() =~= l0.game_state.unwrap().board);
            }
            Game {
                number_of_sets: old_sets,
                deck: old_deck,
                board: old_board,
                previous_selection: Some(Selection { user: name, valid: false, selection: selected }),
            }
        };
        let message = game_update_message(&game);
        lobby.game_state = Some(game);
        let targets = self.sessions.delivery_targets(&lobby.users);
        proof {
            assert(lobby@.users =~= l0.users.update(k as int, (id as nat, (UserV {
                name: name_v,
                points: points as int,
            }))));
            assert forall|i: int, j: int|
                0 <= i < lobby@.users.len() && 0 <= j < lobby@.users.len() && i != j
                implies lobby@.users[i].0 != lobby@.users[j].0 by {
                assert(lobby@.users[i].0 == l0.users[i].0);
                assert(lobby@.users[j].0 == l0.users[j].0);
            }
            lemma_reach(lobby, self.sessions.ids@);
        }
        Ok((lobby, message, targets))
    }
}

/// Joining never duplicates a roster entry and always resets the points: the
/// joined roster holds exactly one entry for the id, with zero points, and a
/// further join of the same id leaves the roster size unchanged.
pub proof fn lemma_rejoin_resets_points_no_duplicate(l: LobbyV, id: nat, name: Seq<char>, name2: Seq<char>)
    requires
        lobby_wf(l),
    ensures
        ({
            let l2 = spec_join(l, id, name);
            &&& lobby_wf(l2)
            &&& roster_has(l2.users, id)
            &&& l2.users[roster_find(l2.users, id)].1 == (UserV { name, points: 0 })
            &&& l2.users.len() == (if roster_has(l.users, id) {
                l.users.len() as int
            } else {
                l.users.len() as int + 1
            })
            &&& spec_join(l2, id, name2).users.len() == l2.users.len()
        }),
{
    lemma_roster_find_props(l.users, id);
    let l2 = spec_join(l, id, name);
    let fresh = UserV { name, points: 0 };
    let k0 = roster_find(l.users, id);
    if k0 >= 0 {
        assert(l2.users[k0].0 == id);
        assert(forall|k: int| 0 <= k < k0 ==> l2.users[k].0 != id);
        crate::room::lemma_roster_find_unique(l2.users, id, k0);
    } else {
        assert(!roster_has(l.users, id));
        let last = l.users.len() as int;
        assert(l2.users[last].0 == id);
        assert(forall|k: int| 0 <= k < last ==> l2.users[k] == l.users[k]);
        assert(forall|k: int| 0 <= k < last ==> l2.users[k].0 != id);
        crate::room::lemma_roster_find_unique(l2.users, id, last);
    }
    let k2 = roster_find(l2.users, id);
    assert(l2.users[k2] == (id, fresh));
    assert(lobby_wf(l2));
    lemma_roster_find_props(l2.users, id);
    assert(roster_find(l2.users, id) >= 0);
}

} // verus!
