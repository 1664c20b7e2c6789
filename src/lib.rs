//! Core of a chess engine: a bitboard position, a fully legal move
//! generator, perft node counting and an alpha-beta search.
//!
//! The rules are stated once, from White's side of the board, in
//! `rules`; Black's rules are their mirror image. The executable code
//! follows the same plan: positions with Black to move are mirrored,
//! handled as White, and the results are mirrored back.

mod types;
pub mod square;
pub mod moves;
pub mod position;
pub mod rules;
pub mod movegen;
pub mod fen;
pub mod search;
pub mod rng;
pub mod laws;

pub use types::{Color, Piece};
pub use square::{algebraic_to_index, index_to_algebraic};
pub use moves::BitBoardMove;
pub use position::{is_empty, pop_lsb, BitBoard, BitBoardState, BoardMailbox};
pub use fen::FenError;
pub use movegen::generate_moves;
pub use search::{best_move, evaluate_bitboard, perft, piece_value, SearchDriver};
pub use rng::Rng;
