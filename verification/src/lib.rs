pub mod board;
pub mod enpassant;
pub mod attack;
pub mod attackers;
pub mod movegen;
pub mod search;
pub mod sanity;
pub mod text;
pub mod uci;
pub mod fen;
pub mod engine;
pub mod laws;
pub mod alphabeta;
pub mod distinct;
pub mod fide;
pub mod game;
