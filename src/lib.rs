//! A Minesweeper engine with a rule-based solver.
pub mod ai_player;
pub mod game;
