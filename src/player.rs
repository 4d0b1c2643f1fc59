use vstd::prelude::*;
use crate::mancala::{
    apply_moves, legal_moves, lemma_swap_total, swapped, total_seeds, GameState,
};
use crate::packed_actions::{Action, ActionQueue};

verus! {

/// A computer player. It keeps the board from its own point of view and the
/// board before the opponent's last turn, which value updates start from.
pub struct AIPlayer {
    pub curr_state: GameState,
    pub last_state: GameState,
}

impl AIPlayer {
    pub fn new(starting_state: GameState) -> (r: AIPlayer)
        ensures
            r.curr_state == starting_state,
            r.last_state == starting_state,
    {
        AIPlayer { curr_state: starting_state, last_state: starting_state }
    }

    /// Records the opponent's turn `action`, which is played from the
    /// opponent's side of the board.
    pub fn opponent_plays(&mut self, action: Action)
        requires
            action.wf(),
            total_seeds(old(self).curr_state@) <= 255,
            legal_moves(swapped(old(self).curr_state@), action.items()),
        ensures
            final(self).last_state == old(self).curr_state,
            final(self).curr_state@ == swapped(
                apply_moves(swapped(old(self).curr_state@), action.items()),
            ),
    {
        self.last_state = self.curr_state;
        proof {
            lemma_swap_total(self.curr_state@);
        }
        self.curr_state.swap_board();
        self.curr_state.evaluate_action(action);
        self.curr_state.swap_board();
    }

    /// Plays its own chosen turn `action`.
    pub fn play_action(&mut self, action: Action)
        requires
            action.wf(),
            total_seeds(old(self).curr_state@) <= 255,
            legal_moves(old(self).curr_state@, action.items()),
        ensures
            final(self).last_state == old(self).last_state,
            final(self).curr_state@ == apply_moves(old(self).curr_state@, action.items()),
    {
        self.curr_state.evaluate_action(action);
    }

    pub fn current_state(&self) -> (r: GameState)
        ensures
            r == self.curr_state,
    {
        self.curr_state
    }
}

/// A person at the keyboard; the board is kept from their point of view.
pub struct HumanPlayer {
    curr_state: GameState,
}

impl HumanPlayer {
    /// The board from the person's point of view.
    pub closed spec fn board(&self) -> Seq<nat> {
        self.curr_state@
    }

    pub fn new(starting_state: GameState) -> (r: HumanPlayer)
        ensures
            r.board() == starting_state@,
    {
        HumanPlayer { curr_state: starting_state }
    }

    /// Records the opponent's turn `action`, which is played from the
    /// opponent's side of the board.
    pub fn opponent_plays(&mut self, action: Action)
        requires
            action.wf(),
            total_seeds(old(self).board()) <= 255,
            legal_moves(swapped(old(self).board()), action.items()),
        ensures
            final(self).board() == swapped(apply_moves(swapped(old(self).board()), action.items())),
    {
        proof {
            lemma_swap_total(self.curr_state@);
        }
        self.curr_state.swap_board();
        self.curr_state.evaluate_action(action);
        self.curr_state.swap_board();
    }

    /// Plays the person's chosen turn `action`.
    pub fn play_action(&mut self, action: Action)
        requires
            action.wf(),
            total_seeds(old(self).board()) <= 255,
            legal_moves(old(self).board(), action.items()),
        ensures
            final(self).board() == apply_moves(old(self).board(), action.items()),
    {
        self.curr_state.evaluate_action(action);
    }

    pub fn current_state(&self) -> (r: GameState)
        ensures
            r@ == self.board(),
    {
        self.curr_state
    }
}

} // verus!
