//! The card-matching rule engine, an external collaborator. Only its
//! three-operation interface is consumed; deck generation, board refill and
//! set-validity are opaque to the coordinator, which is verified for every
//! implementation of this trait.
use vstd::prelude::*;

verus! {

/// Deck, refilled board, and how many valid matches the board now holds.
pub struct BoardUpdate {
    pub deck: String,
    pub board: Vec<String>,
    pub sets: usize,
}

/// The rule engine's interface. Implementations may be stateful (a shuffled
/// deck is drawn at random), so nothing is promised of the results; the
/// coordinator's contracts hold for every outcome.
pub trait RuleEngine {
    /// A fresh, engine-encoded deck.
    fn init_deck(&mut self) -> String;

    /// Refill `board` from `deck` up to the engine's target size and report
    /// the number of valid matches now on the board.
    fn update_board(&mut self, deck: String, board: Vec<String>) -> BoardUpdate;

    /// Whether the submitted tokens form a valid match.
    fn is_set(&mut self, selected: &Vec<String>) -> bool;
}

} // verus!
