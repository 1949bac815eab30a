//! The data model: users, selections, game states and rooms, with their
//! mathematical views and the roster operations the coordinator needs.
use vstd::prelude::*;

verus! {

/// A member of a room's roster.
#[derive(Clone, Debug)]
pub struct User {
    pub name: String,
    /// May go negative: an invalid selection costs a point.
    pub points: i64,
}

/// The outcome of the most recent selection; overwritten on every attempt.
#[derive(Clone, Debug)]
pub struct Selection {
    /// Display name of the submitter.
    pub user: String,
    /// Whether the rule engine accepted the selection.
    pub valid: bool,
    /// The submitted card tokens.
    pub selection: Vec<String>,
}

/// The in-play snapshot of one room's game. Exists only after a game has
/// been started.
#[derive(Clone, Debug)]
pub struct Game {
    /// How many valid matches the rule engine reports on the board.
    pub number_of_sets: usize,
    /// Engine-encoded remaining cards; opaque to the coordinator.
    pub deck: String,
    /// The in-play card tokens.
    pub board: Vec<String>,
    pub previous_selection: Option<Selection>,
}

/// One room: the roster (user id to user, ids unique), the configured game
/// type, and the game state once a game has started.
#[derive(Clone, Debug)]
pub struct Lobby {
    pub users: Vec<(usize, User)>,
    pub game_type: Option<String>,
    pub game_state: Option<Game>,
}

#[verifier::ext_equal]
pub struct UserV {
    pub name: Seq<char>,
    pub points: int,
}

#[verifier::ext_equal]
pub struct SelectionV {
    pub user: Seq<char>,
    pub valid: bool,
    pub selection: Seq<Seq<char>>,
}

#[verifier::ext_equal]
pub struct GameV {
    pub number_of_sets: nat,
    pub deck: Seq<char>,
    pub board: Seq<Seq<char>>,
    pub previous_selection: Option<SelectionV>,
}

#[verifier::ext_equal]
pub struct LobbyV {
    pub users: Seq<(nat, UserV)>,
    pub game_type: Option<Seq<char>>,
    pub game_state: Option<GameV>,
}

impl View for User {
    type V = UserV;

    open spec fn view(&self) -> UserV {
        UserV { name: self.name@, points: self.points as int }
    }
}

impl View for Selection {
    type V = SelectionV;

    open spec fn view(&self) -> SelectionV {
        SelectionV { user: self.user@, valid: self.valid, selection: self.selection.deep_view() }
    }
}

impl View for Game {
    type V = GameV;

    open spec fn view(&self) -> GameV {
        GameV {
            number_of_sets: self.number_of_sets as nat,
            deck: self.deck@,
            board: self.board.deep_view(),
            previous_selection: match self.previous_selection {
                Some(s) => Some(s@),
                None => None,
            },
        }
    }
}

/// The roster as its view: ids as naturals, users as their views.
pub open spec fn roster_view(users: Seq<(usize, User)>) -> Seq<(nat, UserV)> {
    users.map_values(|p: (usize, User)| (p.0 as nat, p.1@))
}

impl View for Lobby {
    type V = LobbyV;

    open spec fn view(&self) -> LobbyV {
        LobbyV {
            users: roster_view(self.users@),
            game_type: match self.game_type {
                Some(ref t) => Some(t@),
                None => None,
            },
            game_state: match self.game_state {
                Some(ref g) => Some(g@),
                None => None,
            },
        }
    }
}

/// Whether a roster holds an entry for `id`.
pub open spec fn roster_has(users: Seq<(nat, UserV)>, id: nat) -> bool {
    exists|i: int| 0 <= i < users.len() && users[i].0 == id
}

/// The first index holding `id`, or -1 when there is none.
pub open spec fn roster_find(users: Seq<(nat, UserV)>, id: nat) -> int
    decreases users.len(),
{
    if users.len() == 0 {
        -1
    } else if users[0].0 == id {
        0
    } else {
        let k = roster_find(users.subrange(1, users.len() as int), id);
        if k < 0 {
            -1
        } else {
            k + 1
        }
    }
}

/// Roster well-formedness: user ids are unique.
pub open spec fn roster_wf(users: Seq<(nat, UserV)>) -> bool {
    forall|i: int, j: int|
        0 <= i < users.len() && 0 <= j < users.len() && i != j ==> users[i].0 != users[j].0
}

/// Room well-formedness: a unique roster entry per user id.
pub open spec fn lobby_wf(l: LobbyV) -> bool {
    roster_wf(l.users)
}

/// A room with nobody in it and nothing configured: what a join against an
/// unseen room name starts from.
pub open spec fn empty_lobby() -> LobbyV {
    LobbyV { users: Seq::empty(), game_type: None, game_state: None }
}

pub proof fn lemma_roster_find_props(users: Seq<(nat, UserV)>, id: nat)
    ensures
        roster_has(users, id) <==> roster_find(users, id) >= 0,
        roster_find(users, id) >= 0 ==> roster_find(users, id) < users.len()
            && users[roster_find(users, id)].0 == id,
        roster_find(users, id) >= 0 ==> forall|k: int|
            0 <= k < roster_find(users, id) ==> users[k].0 != id,
    decreases users.len(),
{
    if users.len() == 0 {
    } else if users[0].0 == id {
    } else {
        let tail = users.subrange(1, users.len() as int);
        lemma_roster_find_props(tail, id);
        if roster_has(users, id) {
            let i = choose|i: int| 0 <= i < users.len() && users[i].0 == id;
            assert(tail[i - 1].0 == id);
        }
        if roster_has(tail, id) {
            let i = choose|i: int| 0 <= i < tail.len() && tail[i].0 == id;
            assert(users[i + 1].0 == id);
        }
        if roster_find(users, id) >= 0 {
            assert(forall|k: int|
                1 <= k < roster_find(users, id) ==> users[k].0 == tail[k - 1].0);
        }
    }
}

impl Selection {
    /// A copy whose view is the same; the derived `Clone` says nothing.
    pub fn duplicate(&self) -> (r: Selection)
        ensures
            r@ == self@,
    {
        let r = Selection {
            user: self.user.clone(),
            valid: self.valid,
            selection: self.selection.clone(),
        };
        proof {
            assert(r.selection.deep_view() =~= self.selection.deep_view());
        }
        r
    }
}

impl Game {
    /// A copy whose view is the same; the derived `Clone` says nothing.
    pub fn duplicate(&self) -> (r: Game)
        ensures
            r@ == self@,
    {
        let previous_selection = match &self.previous_selection {
            Some(s) => Some(s.duplicate()),
            None => None,
        };
        let r = Game {
            number_of_sets: self.number_of_sets,
            deck: self.deck.clone(),
            board: self.board.clone(),
            previous_selection,
        };
        proof {
            assert(r.board.deep_view() =~= self.board.deep_view());
            assert(r@ =~= self@) by {
                assert(r@.previous_selection == self@.previous_selection);
            }
        }
        r
    }
}

impl Lobby {
    /// A fresh, empty room record.
    pub fn new() -> (r: Lobby)
        ensures
            r@ == empty_lobby(),
            lobby_wf(r@),
    {
        let r = Lobby { users: Vec::new(), game_type: None, game_state: None };
        proof {
            assert(r@.users =~= Seq::<(nat, UserV)>::empty());
            assert(r@ =~= empty_lobby());
        }
        r
    }

    /// Whether the roster's ids are unique: what the command handlers ask of
    /// a loaded record, checkable before calling them.
    pub fn roster_unique(&self) -> (r: bool)
        ensures
            r == lobby_wf(self@),
    {
        let n = self.users.len();
        let mut i: usize = 0;
        while i < n
            invariant
                n == self.users.len(),
                i <= n,
                forall|a: int, b: int| 0 <= a < i && a < b < n
                    ==> self@.users[a].0 != self@.users[b].0,
            decreases n - i,
        {
            let mut j: usize = i + 1;
            while j < n
                invariant
                    n == self.users.len(),
                    i < j <= n,
                    i < n,
                    forall|b: int| i < b < j ==> self@.users[i as int].0 != self@.users[b].0,
                decreases n - j,
            {
                if self.users[i].0 == self.users[j].0 {
                    proof {
                        assert(self@.users[i as int].0 == self@.users[j as int].0);
                    }
                    return false;
                }
                j += 1;
            }
            i += 1;
        }
        proof {
            assert forall|a: int, b: int|
                0 <= a < n && 0 <= b < n && a != b
                implies self@.users[a].0 != self@.users[b].0 by {
                if a < b {
                } else {
                }
            }
        }
        true
    }

    /// Whether every member's points sit strictly inside the machine range,
    /// so that one more win or loss cannot overflow: what verifying a
    /// selection asks of a loaded record.
    pub fn points_in_range(&self) -> (r: bool)
        ensures
            r == (forall|j: int| 0 <= j < self@.users.len()
                ==> i64::MIN < #[trigger] self@.users[j].1.points < i64::MAX),
    {
        let n = self.users.len();
        let mut i: usize = 0;
        while i < n
            invariant
                n == self.users.len(),
                i <= n,
                forall|j: int| 0 <= j < i
                    ==> i64::MIN < #[trigger] self@.users[j].1.points < i64::MAX,
            decreases n - i,
        {
            let p = self.users[i].1.points;
            if p == i64::MIN || p == i64::MAX {
                proof {
                    assert(self@.users[i as int].1.points == p as int);
                }
                return false;
            }
            proof {
                assert(self@.users[i as int].1.points == p as int);
            }
            i += 1;
        }
        true
    }

    /// The first roster position holding `id`, if any.
    pub fn find_user(&self, id: usize) -> (r: Option<usize>)
        ensures
            match r {
                Some(i) => roster_find(self@.users, id as nat) == i as int && i < self.users.len(),
                None => roster_find(self@.users, id as nat) == -1,
            },
    {
        let n = self.users.len();
        let mut i: usize = 0;
        while i < n
            invariant
                n == self.users.len(),
                i <= n,
                forall|k: int| 0 <= k < i ==> self@.users[k].0 != id as nat,
            decreases n - i,
        {
            if self.users[i].0 == id {
                proof {
                    lemma_roster_find_unique(self@.users, id as nat, i as int);
                }
                return Some(i);
            }
            i += 1;
        }
        proof {
            lemma_roster_find_props(self@.users, id as nat);
            if roster_find(self@.users, id as nat) >= 0 {
                let j = roster_find(self@.users, id as nat);
                assert(self@.users[j].0 == id as nat);
            }
        }
        None
    }
}

/// If the entries before `i` miss `id` and entry `i` holds it, `i` is what
/// `roster_find` returns.
pub proof fn lemma_roster_find_unique(users: Seq<(nat, UserV)>, id: nat, i: int)
    requires
        0 <= i < users.len(),
        users[i].0 == id,
        forall|k: int| 0 <= k < i ==> users[k].0 != id,
    ensures
        roster_find(users, id) == i,
    decreases users.len(),
{
    if i == 0 {
    } else {
        let tail = users.subrange(1, users.len() as int);
        assert(forall|k: int| 0 <= k < i - 1 ==> tail[k].0 != id);
        lemma_roster_find_unique(tail, id, i - 1);
    }
}

} // verus!
