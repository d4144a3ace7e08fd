use maxwell::bitboards::{Bitboards, knight_attacks_of, A_FILE, H_FILE};
use maxwell::bot::{BotConfig, parse_usize, str_contains, STARTING_FEN, digit_of};
use maxwell::fen::split_chars;
use maxwell::killer_moves::KillerMoves;
use maxwell::maxwell::{Maxwell, MaxwellPlaying, MAXWELL_PLAYING};
use maxwell::move_data::{MoveData, null_move, moves_equal, DOUBLE_PAWN_PUSH_FLAG};
use maxwell::move_list::MoveList;
use maxwell::move_sorter::MoveSorter;
use maxwell::opening_book::OpeningBook;
use maxwell::perft::PerftResults;
use maxwell::piece_square_tables::flip_index;
use maxwell::point::Point;
use maxwell::precalculated_move_data::PrecalculatedMoveData;
use maxwell::precomputed_data::PrecomputedData;
use maxwell::pv_table::PVTable;
use maxwell::scored_move_list::ScoredMoveList;
use maxwell::transposition_table::{TranspositionTable, NodeType};
use maxwell::utils::{
    coordinate_to_index, square_coordinates, move_str_is_valid, pop_lsb, get_lsb, evaluation_is_mate,
    ply_from_mate, CHECKMATE_EVAL, chars_of, string_of, lower_char,
};
use maxwell::value_holder::ValueHolder;
use maxwell::zobrist::Zobrist;

fn mv(from: u8, to: u8) -> MoveData {
    MoveData { flag: 0, capture: 12, piece: 12, from, to }
}

#[test]
fn packed_moves_round_trip() {
    let m = MoveData { flag: DOUBLE_PAWN_PUSH_FLAG, capture: 12, piece: 12, from: 52, to: 36 };
    let packed = m.to_binary();
    assert_eq!(packed, (5u16 << 12) | (52 << 6) | 36);
    let back = MoveData::from_binary(packed);
    assert_eq!((back.flag, back.from, back.to), (5, 52, 36));
    assert_eq!(MoveData::from_binary(0xFFFF).to_binary(), 0xFFFF);
}

#[test]
fn coordinates_round_trip() {
    let m = MoveData::from_coordinates("e2e4".to_string());
    assert_eq!((m.from, m.to, m.flag), (52, 36, 0));
    assert_eq!(m.to_coordinates(), "e2e4");
    let promotion = MoveData::from_coordinates("a7a8q".to_string());
    assert_eq!((promotion.from, promotion.to, promotion.flag), (8, 0, 4));
    assert_eq!(promotion.to_coordinates(), "a7a8q");
    assert_eq!(MoveData::from_coordinates("h1a8n".to_string()).to_coordinates(), "h1a8n");
}

#[test]
fn square_names() {
    assert_eq!(coordinate_to_index("a8"), 0);
    assert_eq!(coordinate_to_index("h1"), 63);
    assert_eq!(coordinate_to_index("e2"), 52);
    assert_eq!(coordinate_to_index("z9"), 0);
    assert_eq!(square_coordinates(0), "a8");
    assert_eq!(square_coordinates(63), "h1");
    for i in 0..64u8 {
        assert_eq!(coordinate_to_index(&square_coordinates(i)), i);
    }
}

#[test]
fn move_strings() {
    assert!(move_str_is_valid("e2e4"));
    assert!(move_str_is_valid("E2E4"));
    assert!(move_str_is_valid("a7a8q"));
    assert!(!move_str_is_valid("a7a8k"));
    assert!(!move_str_is_valid("e2e"));
    assert!(!move_str_is_valid("e2e9"));
    assert!(!move_str_is_valid("quit"));
    assert_eq!(lower_char('Q'), 'q');
    assert_eq!(lower_char('7'), '7');
}

#[test]
fn lowest_bits() {
    let mut b: u64 = 0b1010_0000;
    assert_eq!(pop_lsb(&mut b), 5);
    assert_eq!(b, 0b1000_0000);
    assert_eq!(pop_lsb(&mut b), 7);
    assert_eq!(b, 0);
    assert_eq!(get_lsb(0), 64);
    assert_eq!(get_lsb(1u64 << 63), 63);
}

#[test]
fn mate_scores() {
    assert!(evaluation_is_mate(CHECKMATE_EVAL - 3));
    assert!(evaluation_is_mate(-(CHECKMATE_EVAL - 3)));
    assert!(!evaluation_is_mate(CHECKMATE_EVAL - 100));
    assert!(!evaluation_is_mate(250));
    assert_eq!(ply_from_mate(CHECKMATE_EVAL - 3), 3);
    assert_eq!(ply_from_mate(-(CHECKMATE_EVAL - 7)), 7);
}

#[test]
fn strings_and_characters() {
    assert_eq!(chars_of("ab c"), vec!['a', 'b', ' ', 'c']);
    assert_eq!(string_of(&vec!['x', 'y']), "xy");
    let fields = split_chars(&chars_of("a b  c"), ' ');
    assert_eq!(fields, vec![vec!['a'], vec!['b'], vec![], vec!['c']]);
    assert_eq!(digit_of('7'), 7);
    assert_eq!(digit_of('x'), 10);
}

#[test]
fn value_holder_push_pop() {
    let mut h = ValueHolder::new(5u8);
    h.current = 9;
    h.push();
    h.current = 11;
    h.push();
    h.pop();
    assert_eq!(h.current, 9);
    assert_eq!(h.index, 1);
    h.pop();
    assert_eq!(h.current, 5);
    assert_eq!(h.index, 0);
    h.push();
    h.clear();
    assert_eq!(h.index, 1);
    assert_eq!(h.current, 5);
    assert_eq!(h.history, vec![5]);
}

#[test]
fn killer_moves_keep_the_two_latest() {
    let mut k = KillerMoves::new();
    assert!(k.is_killer(null_move()));
    k.add_killer_move(mv(1, 2));
    k.add_killer_move(mv(3, 4));
    k.add_killer_move(mv(3, 4));
    assert!(k.is_killer(mv(1, 2)) && k.is_killer(mv(3, 4)));
    k.add_killer_move(mv(5, 6));
    assert!(!k.is_killer(mv(1, 2)));
    assert!(moves_equal(&k.moves[0], &mv(5, 6)));
    assert!(moves_equal(&k.moves[1], &mv(3, 4)));
}

#[test]
fn move_list_best_first() {
    let mut list = MoveList::new();
    list.push(mv(1, 2), 10);
    list.push(mv(3, 4), 30);
    list.push(mv(5, 6), 20);
    assert_eq!(list.len(), 3);
    assert_eq!(list.get_next_move().from, 3);
    assert_eq!(list.get_next_move().from, 5);
    assert_eq!(list.get_next_move().from, 1);
}

#[test]
fn scored_move_list_selection() {
    let mut list = ScoredMoveList::new();
    list.push(1, mv(1, 2));
    list.push(7, mv(3, 4));
    list.push(4, mv(5, 6));
    assert_eq!(list.len(), 3);
    assert_eq!(list.get(0).from, 3);
    assert_eq!(list.get(1).from, 5);
    assert_eq!(list.get(2).from, 1);
}

#[test]
fn principal_variation_table() {
    let mut pv = PVTable::new();
    pv.set_pv_length(2);
    pv.push_pv_move(mv(1, 2), 2);
    assert_eq!(pv.get_pv_move(2).from, 1);
    pv.pop();
    assert_eq!(pv.get_pv_move(0), null_move());
}

#[test]
fn sorter_orders_by_score() {
    let mut sorter = MoveSorter::new();
    sorter.push_killer_move(mv(8, 16), 0);
    let quiet = mv(48, 40);
    let killer = mv(8, 16);
    let capture = MoveData { flag: 0, capture: 4, piece: 6, from: 50, to: 41 };
    let hash = mv(57, 42);
    let sorted = sorter.sort_moves(true, vec![quiet, killer, capture, hash], hash, 0);
    assert_eq!(sorted.len(), 4);
    assert!(moves_equal(&sorted[0].1, &hash));
    for w in sorted.windows(2) {
        assert!(w[0].0 >= w[1].0);
    }
    sorter.clear();
    assert!(!sorter.killer_moves[0].is_killer(killer));
}

#[test]
fn transposition_table_probes() {
    let mut tt = TranspositionTable::empty();
    tt.store(42, 5, 120, mv(1, 2), NodeType::Exact);
    assert!(tt.lookup(42, 6, -100, 100).is_none());
    let hit = tt.lookup(42, 4, -100, 100).unwrap();
    assert_eq!(hit.evaluation, 120);
    tt.store(7, 3, 50, mv(3, 4), NodeType::LowerBound);
    assert!(tt.lookup(7, 3, -100, 60).is_none());
    assert!(tt.lookup(7, 3, -100, 40).is_some());
    tt.store(9, 3, -50, mv(3, 4), NodeType::UpperBound);
    assert!(tt.lookup(9, 3, -60, 100).is_none());
    assert!(tt.lookup(9, 3, -40, 100).is_some());
    for _ in 0..11 {
        tt.update();
    }
    assert!(tt.lookup(42, 1, -100, 100).is_none());
}

#[test]
fn transposition_table_prefers_deeper_exact_entries() {
    let mut tt = TranspositionTable::empty();
    tt.store(42, 6, 120, mv(1, 2), NodeType::Exact);
    tt.store(42, 3, 30, mv(3, 4), NodeType::LowerBound);
    assert_eq!(tt.lookup(42, 1, -100, 100).unwrap().evaluation, 120);
    tt.store(42, 3, 40, mv(3, 4), NodeType::Exact);
    assert_eq!(tt.lookup(42, 1, -100, 100).unwrap().evaluation, 40);
    tt.store(42, 5, 50, mv(5, 6), NodeType::UpperBound);
    assert_eq!(tt.lookup(42, 1, 60, 100).unwrap().evaluation, 50);
}

#[test]
fn bot_configuration_from_arguments() {
    let args = vec!["maxwell".to_string(), "debug_output=false".to_string(), "hash_size=64".to_string(), "opening_book=true".to_string()];
    let config = BotConfig::from_args(args);
    assert!(!config.debug_output);
    assert!(config.opening_book);
    assert!(config.time_management);
    assert_eq!(config.hash_size, 64);
    assert_eq!(config.fen, STARTING_FEN);
    let defaults = BotConfig::from_args(vec![]);
    assert_eq!(defaults.hash_size, 256);
    assert!(defaults.debug_output);
    let bad = BotConfig::from_args(vec!["hash_size=lots".to_string()]);
    assert_eq!(bad.hash_size, 256);
}

#[test]
fn parsing_numbers() {
    assert_eq!(parse_usize("256"), Some(256));
    assert_eq!(parse_usize("+7"), Some(7));
    assert_eq!(parse_usize(""), None);
    assert_eq!(parse_usize("-1"), None);
    assert_eq!(parse_usize("99999999999999999999999"), None);
    assert!(str_contains("hash_size=1", "size"));
    assert!(!str_contains("hash", "hash_size"));
}

#[test]
fn points() {
    let p = Point::from_index(52);
    assert_eq!((p.x, p.y), (4, 6));
    let d = p.difference(Point::new(1, 1));
    assert_eq!((d.x, d.y), (-3, -5));
    let a = p.abs_difference(Point::new(1, 1));
    assert_eq!((a.x, a.y), (3, 5));
    assert!(Point::point_inbetween(Point::new(0, 0), Point::new(2, 3), Point::new(4, 4)));
    assert!(!Point::point_inbetween(Point::new(0, 0), Point::new(5, 3), Point::new(4, 4)));
}

#[test]
fn attack_tables() {
    let boards = Bitboards::initialize();
    assert_eq!(boards.knight_bitboards[0].count_ones(), 2);
    assert_eq!(knight_attacks_of(27).count_ones(), 8);
    assert_eq!(knight_attacks_of(63), (1u64 << 46) | (1u64 << 53));
    assert_eq!(A_FILE & H_FILE, 0);
    let data = PrecomputedData::calculate();
    assert_eq!(data.king_bitboards[0].count_ones(), 3);
    assert_eq!(data.squares_to_edge[0][0], 0);
    let pre = PrecalculatedMoveData::calculate();
    assert_eq!(pre.knight_attacks[27].count_ones(), 8);
    assert_eq!(pre.king_attacks[63].count_ones(), 3);
    assert_eq!(pre.pawn_attacks[1][52], (1u64 << 43) | (1u64 << 45));
    let rook = pre.generate_sliding_moves_bitboard(0, 0, 4, 1u64 << 2);
    assert_eq!(rook, (1u64 << 1) | (1u64 << 2) | (1u64 << 8) | (1u64 << 16) | (1u64 << 24) | (1u64 << 32) | (1u64 << 40) | (1u64 << 48) | (1u64 << 56));
}

#[test]
fn mirrored_squares() {
    assert_eq!(flip_index(0), 56);
    assert_eq!(flip_index(60), 4);
    assert_eq!(flip_index(flip_index(27)), 27);
}

#[test]
fn empty_hasher() {
    let z = Zobrist::new_empty();
    assert_eq!(z.key.current, 0);
    assert_eq!(z.key.history, vec![0]);
}

#[test]
fn opening_book_offers_continuations() {
    let mut book = OpeningBook::create();
    assert_eq!(book.lines.len(), 20);
    let first = book.opening_candidates(&String::new());
    assert!(first.iter().all(|m| m.to_coordinates() == "e2e4" || m.to_coordinates() == "d2d4"));
    assert_eq!(first.len(), 19);
    let after = book.opening_candidates(&"d2d4 d7d5 b1c3".to_string());
    assert_eq!(after.len(), 2);
    assert!(after.iter().all(|m| m.to_coordinates() == "g8f6"));
    let m = book.get_opening_move("e2e4 c7c5".to_string());
    let candidates = book.opening_candidates(&"e2e4 c7c5".to_string());
    assert!(candidates.iter().any(|c| moves_equal(c, &m)));
    assert_eq!(candidates.len(), 1);
    assert_eq!(book.get_opening_move("a2a3".to_string()), null_move());
}

#[test]
fn driver_state_and_counters() {
    let maxwell = Maxwell::new();
    assert!(maxwell.in_opening);
    assert_eq!(maxwell.best_move, 0);
    assert!(MAXWELL_PLAYING == MaxwellPlaying::White);
    let results = PerftResults::new(4);
    assert_eq!(results.depth, 4);
    assert_eq!(results.positions + results.nodes + results.checks, 0);
}

#[test]
fn opening_book_readability() {
    let book = OpeningBook::create();
    assert!(book.readable_after(&String::new()));
    assert!(book.readable_after(&"e2e4 e7e5".to_string()));
    assert!(book.readable_after(&"c2c4 e7e5 b1c3 g8f6".to_string()));
    // Two marks make the line look longer than the fields it has.
    let marked = OpeningBook { lines: vec!["XXe2e4 e7e5"] };
    assert!(!marked.readable_after(&"e2e4 e7e5".to_string()));
    let short = OpeningBook { lines: vec!["e2e4 e7"] };
    assert!(!short.readable_after(&"e2e4".to_string()));
    assert!(short.readable_after(&"d2d4".to_string()));
}

#[test]
fn sorter_keeps_ties_in_order() {
    let sorter = MoveSorter::new();
    let quiet = vec![mv(48, 40), mv(49, 41), mv(50, 42), mv(51, 43)];
    let sorted = sorter.sort_moves(true, quiet.clone(), null_move(), 0);
    for (k, (score, m)) in sorted.iter().enumerate() {
        assert_eq!(*score, 0);
        assert!(moves_equal(m, &quiet[k]));
    }
}
