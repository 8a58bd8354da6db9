//! A Go engine: the rules of the game, a Monte-Carlo search over them, and the
//! text protocols that talk to it.

pub mod area;
pub mod arena;
pub mod bits;
pub mod board;
pub mod cli;
pub mod command_line;
pub mod coords;
pub mod drive;
pub mod game;
pub mod gtp;
pub mod laws;
pub mod mcts;
pub mod order;
pub mod picture;
pub mod playouts;
pub mod protocol;
pub mod rebuild;
pub mod requests;
pub mod rules;
pub mod search;
pub mod terminal;
pub mod text;
pub mod tree;
pub mod web;
pub mod zobrist;
