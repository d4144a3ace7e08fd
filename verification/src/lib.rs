//! A chess engine library: piece encodings, move data, board bookkeeping,
//! precomputed attack tables, Zobrist hashing and search helpers.

pub mod pieces;
pub mod utils;
pub mod move_data;
pub mod value_holder;
pub mod killer_moves;
pub mod castling_rights;
pub mod piece_square_tables;
pub mod point;
pub mod piece;
pub mod bitboards;
pub mod precomputed_data;
pub mod move_list;
pub mod scored_move_list;
pub mod pv_table;
pub mod move_sorter;
pub mod transposition_table;
pub mod bot;
pub mod precalculated_move_data;
pub mod zobrist;
pub mod board;
pub mod bits;
pub mod movegen;
pub mod consistency;
pub mod board_status;
pub mod fen;
pub mod game;
pub mod maxwell;
pub mod perft;
pub mod search;
pub mod opening_book;
