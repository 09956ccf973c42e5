pub mod bits;
pub mod attacks;
pub mod board;
pub mod board_laws;
pub mod magic_table;
pub mod movegen;
pub mod legality;
pub mod fen;
pub mod engine;
pub mod ordering;
pub mod search;
pub mod attack_laws;
pub mod game_laws;
pub mod fit_laws;
