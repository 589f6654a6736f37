//! Legal move generation for chess on bitboards: sets of squares in one
//! word, attack tables indexed by magic hashing, masks for checks and
//! pins, and the making and taking back of moves, with machine-checked
//! proofs that the generator lists exactly the legal moves.
pub mod analysis;
pub mod attacks;
pub mod bitboard;
pub mod bits;
pub mod board;
pub mod checks;
pub mod color;
pub mod complete;
pub mod complete_walks;
pub mod counting;
pub mod dumb7fill;
pub mod fen;
pub mod geometry;
pub mod helpers;
pub mod legality;
pub mod lines;
pub mod listing;
pub mod magic;
pub mod masks;
pub mod movegen;
pub mod moves;
pub mod nonsliders;
pub mod perft;
pub mod piece;
pub mod pins;
pub mod play;
pub mod position;
pub mod rules;
pub mod safe_moves;
pub mod safety;
pub mod search;
pub mod slider;
pub mod square;
pub mod start;
pub mod survive;
pub mod tables;
pub mod text;
pub mod view;
