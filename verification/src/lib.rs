//! A rules engine for the board game Go.
//!
//! The engine tracks a square grid of stones, discovers connected groups,
//! counts their liberties, resolves captures, and validates candidate moves
//! (including suicide prevention). A `Game` session owns the board and the
//! turn state and applies each accepted move as one atomic transaction.

mod board;
mod group;
mod liberty;
mod capture;
mod rules;
mod game;

pub use board::{
    adjacent, col_of, in_bounds, lemma_adjacent_iff, opponent, row_of, Board, Stone,
};
pub use group::{
    connected, find_group, group_of, is_path, lemma_connected_refl, lemma_connected_step,
    lemma_connected_sym, lemma_connected_trans, lemma_group_eq, lemma_group_members,
    lemma_groups_partition, members,
};
pub use liberty::{count_liberties, has_liberties, lemma_liberties_seed_independent, liberty_set};
pub use capture::{after_captures, captured_set, resolve};
pub use rules::{
    after_move, is_suicide, legal, lemma_played_cell_not_captured, placed, rejection, validate,
    MoveError,
};
pub use game::Game;
