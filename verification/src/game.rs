//! The capabilities a game must offer to be searched.
//!
//! A game is described twice: by executable methods, which the engine
//! calls, and by specification functions, which say what those methods
//! compute. The engine's contracts are stated over the latter.

use std::fmt::Debug;
use vstd::prelude::*;
use vstd::std_specs::cmp::PartialEqSpec;

verus! {

/// A legal move of some game. Actions are compared with `==`, which has to
/// decide mathematical equality.
pub trait GameAction: Debug + PartialEq + Copy {
    /// `==` on actions is exactly equality of values.
    proof fn lemma_eq_is_equality(a: Self, b: Self)
        ensures
            Self::obeys_eq_spec(),
            a.eq_spec(&b) <==> a == b,
    ;
}

/// A participant of a game. Players are compared with `==`, which has to
/// decide mathematical equality.
pub trait Player: Debug + Eq + Copy {
    /// `==` on players is exactly equality of values.
    proof fn lemma_eq_is_equality(a: Self, b: Self)
        ensures
            Self::obeys_eq_spec(),
            a.eq_spec(&b) <==> a == b,
    ;
}

/// One position of a turn-based game.
///
/// Rewards are integers, in a unit of the game's choosing.
pub trait GameState<A: GameAction, P: Player>: Clone {
    /// The legal actions at this position, in the order `get_actions`
    /// reports them. The position is terminal when there are none.
    spec fn legal_actions(&self) -> Seq<A>;

    /// The position reached by playing `action` here.
    spec fn successor(&self, action: A) -> Self;

    /// The player to move.
    spec fn turn(&self) -> P;

    /// What the position is worth to `player`.
    spec fn reward(&self, player: P) -> int;

    /// An upper bound on the number of moves that can still be played.
    spec fn plies_left(&self) -> nat;

    /// No action is offered twice at one position.
    proof fn lemma_actions_distinct(&self)
        ensures
            self.legal_actions().no_duplicates(),
    ;

    /// Every legal move brings the end of the game closer, so every playout
    /// ends.
    proof fn lemma_successor_closer(&self, action: A)
        requires
            self.legal_actions().contains(action),
        ensures
            self.successor(action).plies_left() < self.plies_left(),
    ;

    /// Rewards fit the type they are reported in.
    proof fn lemma_reward_bounded(&self, player: P)
        ensures
            i32::MIN <= self.reward(player) <= i32::MAX,
    ;

    /// A clone of a position is that position.
    proof fn lemma_clone_is_copy(&self, copy: &Self)
        requires
            cloned(*self, *copy),
        ensures
            *copy == *self,
    ;

    /// Returns the actions that can be taken from this state.
    fn get_actions(&self) -> (actions: Vec<A>)
        ensures
            actions@ == self.legal_actions(),
    ;

    /// Applies the given action, which must be legal here, to this state.
    fn apply_action(&mut self, action: &A)
        requires
            old(self).legal_actions().contains(*action),
        ensures
            *final(self) == old(self).successor(*action),
    ;

    /// Returns the player whose turn it is.
    fn get_turn(&self) -> (player: P)
        ensures
            player == self.turn(),
    ;

    /// Returns what this state is worth to `player`.
    fn get_reward_for_player(&self, player: P) -> (reward: i32)
        ensures
            reward == self.reward(player),
    ;
}

} // verus!
