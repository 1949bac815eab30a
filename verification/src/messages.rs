//! Outbound events: each wraps a payload in a tagged envelope that the
//! transport serializes and fans out to the roster's sinks.
use vstd::prelude::*;
use crate::room::{Game, User, UserV};

verus! {

/// A serialized event on its way to one connected client.
#[derive(Debug)]
pub struct Message(pub String);

/// A roster entry as shown to clients.
#[derive(Debug)]
pub struct ClientUser {
    pub name: String,
    pub points: i64,
}

impl View for ClientUser {
    type V = UserV;

    open spec fn view(&self) -> UserV {
        UserV { name: self.name@, points: self.points as int }
    }
}

/// Roster-snapshot event: the full member list with points.
#[derive(Debug)]
pub struct UserMessage {
    pub event_type: String,
    pub users: Vec<ClientUser>,
}

/// Game-type event: the newly configured type.
#[derive(Debug)]
pub struct GameTypeMessage {
    pub event_type: String,
    pub game_type: String,
}

/// Game-update event: the full game state after a change.
#[derive(Debug)]
pub struct GameUpdateMessage {
    pub event_type: String,
    pub game_state: Game,
}

/// The roster snapshot a `UserMessage` must carry: every member, in roster
/// order, with the points it has now.
pub open spec fn snapshot_matches(msg: UserMessage, users: Seq<(usize, User)>) -> bool {
    &&& msg.event_type@ == "users"@
    &&& msg.users@.len() == users.len()
    &&& forall|i: int| 0 <= i < users.len() ==> #[trigger] msg.users@[i]@ == users[i].1@
}

/// Build the roster-snapshot payload.
pub fn snapshot_users(users: &Vec<(usize, User)>) -> (r: UserMessage)
    ensures
        snapshot_matches(r, users@),
{
    let mut list: Vec<ClientUser> = Vec::new();
    let n = users.len();
    let mut i: usize = 0;
    while i < n
        invariant
            n == users@.len(),
            i <= n,
            list@.len() == i,
            forall|k: int| 0 <= k < i ==> #[trigger] list@[k]@ == users@[k].1@,
        decreases n - i,
    {
        let name = users[i].1.name.clone();
        let points = users[i].1.points;
        list.push(ClientUser { name, points });
        i += 1;
    }
    UserMessage { event_type: String::from_str("users"), users: list }
}

/// Build the game-type event.
pub fn game_type_message(game_type: &String) -> (r: GameTypeMessage)
    ensures
        r.event_type@ == "setGameType"@,
        r.game_type@ == game_type@,
{
    GameTypeMessage { event_type: String::from_str("setGameType"), game_type: game_type.clone() }
}

/// Build the game-update event.
pub fn game_update_message(game: &Game) -> (r: GameUpdateMessage)
    ensures
        r.event_type@ == "updateGame"@,
        r.game_state@ == game@,
{
    GameUpdateMessage { event_type: String::from_str("updateGame"), game_state: game.duplicate() }
}

} // verus!
