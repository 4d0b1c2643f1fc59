pub mod mancala;
pub mod packed_actions;
pub mod player;
