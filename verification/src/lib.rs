//! Chinese Chess (Xiangqi): board, rules, game state and a search engine.
pub mod board;
pub mod moves;
pub mod game;
pub mod ai;
pub mod ui;
