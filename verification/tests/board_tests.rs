use maxwell::perft::PerftResults;
use maxwell::fen::fen_is_readable;
use maxwell::board::Board;
use maxwell::move_data::{MoveData, EN_PASSANT_FLAG, SHORT_CASTLE_FLAG, LONG_CASTLE_FLAG, DOUBLE_PAWN_PUSH_FLAG};
use maxwell::pieces::{NO_PIECE, WHITE_PAWN, WHITE_KING, BLACK_PAWN, WHITE_KNIGHT, WHITE_QUEEN, BLACK_KING, WHITE_ROOK};

const START: &str = "rnbqkbnr/pppppppp/8/8/8/8/PPPPPPPP/RNBQKBNR w KQkq - 0 1";
const KIWIPETE: &str = "r3k2r/p1ppqpb1/bn2pnp1/3PN3/1p2P3/2N2Q1p/PPPBBPPP/R3K2R w KQkq - 0 1";
const POSITION_4: &str = "r3k2r/Pppp1ppp/1b3nbN/nP6/BBP1P3/q4N2/Pp1P2PP/R2Q1RK1 w kq - 0 1";

fn legal_moves(board: &mut Board) -> Vec<MoveData> {
    let moves = board.get_pseudo_legal_moves_for_color(board.white_to_move, false);
    let mut legal = vec![];
    for m in moves {
        if board.make_move(m) {
            board.undo_last_move();
            legal.push(m);
        }
    }
    legal
}

fn perft(board: &mut Board, depth: u32) -> u64 {
    if depth == 0 {
        return 1;
    }
    let mut total = 0;
    for m in board.get_pseudo_legal_moves_for_color(board.white_to_move, false) {
        if board.make_move(m) {
            total += perft(board, depth - 1);
            board.undo_last_move();
        }
    }
    total
}

fn find_move(board: &mut Board, from: u8, to: u8) -> MoveData {
    let moves = board.get_moves_for_piece(from, false);
    *moves.iter().find(|m| m.to == to).expect("move should be generated")
}

#[test]
fn starting_position_is_read() {
    let board = Board::from_fen(START);
    assert!(board.white_to_move);
    assert_eq!(board.get_piece(0), 3);
    assert_eq!(board.get_piece(4), BLACK_KING);
    assert_eq!(board.get_piece(60), WHITE_KING);
    assert_eq!(board.get_piece(52), WHITE_PAWN);
    assert_eq!(board.get_piece(12), BLACK_PAWN);
    assert_eq!(board.get_piece(35), NO_PIECE);
    assert_eq!(board.board_state.current.castling_rights, 0b1111);
    assert_eq!(board.board_state.current.fifty_move_counter, 0);
    assert_eq!(board.total_material_without_pawns, [3200, 3200]);
    assert_eq!(board.moves.len(), 0);
}

#[test]
fn fen_fields_are_read() {
    let board = Board::from_fen("8/8/8/3k4/R5p1/P5r1/4K3/8 b Kq - 37 60");
    assert!(!board.white_to_move);
    assert_eq!(board.board_state.current.castling_rights, 0b0101);
    assert_eq!(board.board_state.current.fifty_move_counter, 37);
    assert_eq!(board.calculate_fen(), "8/8/8/3k4/R5p1/P5r1/4K3/8");
    let unreadable_counter = Board::from_fen("8/8/8/3k4/8/8/4K3/8 w - - x 1");
    assert_eq!(unreadable_counter.board_state.current.fifty_move_counter, 0);
    let too_large = Board::from_fen("8/8/8/3k4/8/8/4K3/8 w - - 300 1");
    assert_eq!(too_large.board_state.current.fifty_move_counter, 0);
}

#[test]
fn fen_round_trip() {
    for fen in [START, KIWIPETE, POSITION_4] {
        let board = Board::from_fen(fen);
        let placement = fen.split(' ').next().unwrap();
        assert_eq!(board.calculate_fen(), placement);
    }
}

#[test]
fn move_counts_at_depth_one() {
    assert_eq!(legal_moves(&mut Board::from_fen(START)).len(), 20);
    assert_eq!(legal_moves(&mut Board::from_fen(KIWIPETE)).len(), 48);
    assert_eq!(legal_moves(&mut Board::from_fen(POSITION_4)).len(), 6);
}

#[test]
fn move_counts_at_depth_two_and_three() {
    assert_eq!(perft(&mut Board::from_fen(START), 2), 400);
    assert_eq!(perft(&mut Board::from_fen(START), 3), 8902);
    assert_eq!(perft(&mut Board::from_fen(KIWIPETE), 2), 2039);
}

#[test]
fn pseudo_legal_moves_have_no_duplicates() {
    let mut board = Board::from_fen(KIWIPETE);
    let moves = board.get_pseudo_legal_moves_for_color(true, false);
    for (i, a) in moves.iter().enumerate() {
        for b in moves.iter().skip(i + 1) {
            assert!(!(a.from == b.from && a.to == b.to && a.flag == b.flag));
        }
    }
}

#[test]
fn make_then_undo_restores_the_position() {
    let mut board = Board::from_fen(KIWIPETE);
    let fen = board.calculate_fen();
    let key = board.zobrist.key.current;
    let rights = board.board_state.current.castling_rights;
    for m in board.get_pseudo_legal_moves_for_color(true, false) {
        if board.make_move(m) {
            assert!(!board.white_to_move);
            assert_eq!(board.moves.len(), 1);
            assert!(board.undo_last_move());
        }
        assert_eq!(board.calculate_fen(), fen);
        assert_eq!(board.zobrist.key.current, key);
        assert_eq!(board.board_state.current.castling_rights, rights);
        assert!(board.white_to_move);
        assert_eq!(board.moves.len(), 0);
    }
}

#[test]
fn undo_without_moves_does_nothing() {
    let mut board = Board::from_fen(START);
    assert!(!board.undo_last_move());
    assert_eq!(board.calculate_fen(), "rnbqkbnr/pppppppp/8/8/8/8/PPPPPPPP/RNBQKBNR");
}

#[test]
fn a_move_leaving_the_king_attacked_is_refused() {
    // The white knight on e2 is pinned by the rook on e8.
    let mut board = Board::from_fen("4r1k1/8/8/8/8/8/4N3/4K3 w - - 0 1");
    let knight_move = find_move(&mut board, 52, 37);
    assert!(!board.make_move(knight_move));
    assert_eq!(board.calculate_fen(), "4r1k1/8/8/8/8/8/4N3/4K3");
    assert!(board.white_to_move);
}

#[test]
fn pawn_moves_from_the_start() {
    let mut board = Board::from_fen(START);
    let moves = board.get_moves_for_piece(52, false);
    assert_eq!(moves.len(), 2);
    assert!(moves.iter().any(|m| m.to == 44 && m.flag == 0));
    assert!(moves.iter().any(|m| m.to == 36 && m.flag == DOUBLE_PAWN_PUSH_FLAG));
    let knight = board.get_moves_for_piece(57, false);
    assert_eq!(knight.len(), 2);
    assert!(knight.iter().all(|m| m.piece == WHITE_KNIGHT as u8 && m.capture == NO_PIECE as u8));
}

#[test]
fn promotions_give_four_moves() {
    let mut board = Board::from_fen("7k/P7/8/8/8/8/8/K7 w - - 0 1");
    let moves = board.get_moves_for_piece(8, false);
    assert_eq!(moves.len(), 4);
    let mut flags: Vec<u8> = moves.iter().map(|m| m.flag).collect();
    flags.sort();
    assert_eq!(flags, vec![1, 2, 3, 4]);
    let m = *moves.iter().find(|m| m.flag == 4).unwrap();
    assert!(board.make_move(m));
    assert_eq!(board.get_piece(0), WHITE_QUEEN);
    assert_eq!(board.total_material_without_pawns[1], 900);
    board.undo_last_move();
    assert_eq!(board.get_piece(8), WHITE_PAWN);
    assert_eq!(board.total_material_without_pawns[1], 0);
}

#[test]
fn en_passant_after_a_double_push() {
    let mut board = Board::from_fen("4k3/3p4/8/4P3/8/8/8/4K3 b - - 0 1");
    let push = find_move(&mut board, 11, 27);
    assert_eq!(push.flag, DOUBLE_PAWN_PUSH_FLAG);
    assert!(board.make_move(push));
    let moves = board.get_moves_for_piece(28, false);
    let en_passant = *moves.iter().find(|m| m.flag == EN_PASSANT_FLAG).expect("en passant");
    assert_eq!(en_passant.to, 19);
    assert_eq!(en_passant.capture, BLACK_PAWN as u8);
    assert!(board.make_move(en_passant));
    assert_eq!(board.get_piece(27), NO_PIECE);
    assert_eq!(board.get_piece(19), WHITE_PAWN);
    board.undo_last_move();
    assert_eq!(board.get_piece(27), BLACK_PAWN);
    assert_eq!(board.get_piece(28), WHITE_PAWN);
}

#[test]
fn castling_both_ways() {
    let mut board = Board::from_fen("r3k2r/8/8/8/8/8/8/R3K2R w KQkq - 0 1");
    assert!(board.can_short_castle(true));
    assert!(board.can_long_castle(true));
    let moves = board.get_moves_for_piece(60, false);
    let short = *moves.iter().find(|m| m.flag == SHORT_CASTLE_FLAG).unwrap();
    let long = *moves.iter().find(|m| m.flag == LONG_CASTLE_FLAG).unwrap();
    assert_eq!(short.to, 62);
    assert_eq!(long.to, 58);
    assert!(board.make_move(short));
    assert_eq!(board.get_piece(61), WHITE_ROOK);
    assert_eq!(board.get_piece(62), WHITE_KING);
    assert_eq!(board.board_state.current.castling_rights, 0b0011);
    board.undo_last_move();
    assert_eq!(board.board_state.current.castling_rights, 0b1111);
    assert!(board.make_move(long));
    assert_eq!(board.get_piece(59), WHITE_ROOK);
    assert_eq!(board.get_piece(58), WHITE_KING);
}

#[test]
fn castling_through_an_attacked_square_is_not_allowed() {
    let mut board = Board::from_fen("4kr2/8/8/8/8/8/8/4K2R w K - 0 1");
    assert!(!board.can_short_castle(true));
    let mut in_check = Board::from_fen("4r1k1/8/8/8/8/8/8/4K2R w K - 0 1");
    assert!(!in_check.can_short_castle(true));
    let mut free = Board::from_fen("6k1/8/8/8/8/8/8/4K2R w K - 0 1");
    assert!(free.can_short_castle(true));
    assert!(!free.can_long_castle(true));
}

#[test]
fn king_in_check_and_attacks() {
    let mut board = Board::from_fen("4k3/8/8/8/8/8/8/r3K3 w - - 0 1");
    assert!(board.king_in_check(true));
    assert!(!board.king_in_check(false));
    assert!(board.square_is_attacked_by_color(1u64 << 60, false));
    assert!(!board.square_is_attacked_by_color(1u64 << 52, false));
    let attacked = board.get_attacked_squares_for_color(0);
    assert_ne!(attacked & (1u64 << 59), 0);
    assert_ne!(attacked & (1u64 << 48), 0);
    assert_eq!(attacked & (1u64 << 49), 0);
}

#[test]
fn only_captures() {
    let mut board = Board::from_fen("4k3/8/8/3p4/4P3/8/8/4K3 w - - 0 1");
    let captures = board.get_pseudo_legal_moves_for_color(true, true);
    assert_eq!(captures.len(), 1);
    assert_eq!(captures[0].to, 27);
    assert_eq!(captures[0].capture, BLACK_PAWN as u8);
}

#[test]
fn play_move_checks_the_request() {
    let mut board = Board::from_fen(START);
    let request = MoveData::from_coordinates("e2e4".to_string());
    assert!(board.play_move(request));
    assert_eq!(board.get_piece(36), WHITE_PAWN);
    assert!(!board.white_to_move);
    let illegal = MoveData::from_coordinates("e7e4".to_string());
    assert!(!board.play_move(illegal));
    let wrong_side = MoveData::from_coordinates("d2d4".to_string());
    assert!(!board.play_move(wrong_side));
    assert_eq!(board.moves.len(), 1);
}

#[test]
fn null_move_and_back() {
    let mut board = Board::from_fen(START);
    // With no move made yet the last move reads as the null move: no pass.
    assert!(!board.try_null_move());
    let m = find_move(&mut board, 52, 36);
    assert!(board.make_move(m));
    let key = board.zobrist.key.current;
    let fen = board.calculate_fen();
    assert!(board.try_null_move());
    assert!(board.white_to_move);
    assert_ne!(board.zobrist.key.current, key);
    assert_eq!(board.board_state.current.fifty_move_counter, 0);
    assert!(!board.try_null_move());
    board.undo_null_move();
    assert!(!board.white_to_move);
    assert_eq!(board.zobrist.key.current, key);
    assert_eq!(board.moves.len(), 1);
    assert_eq!(board.calculate_fen(), fen);
}

#[test]
fn repetition_and_draws() {
    let mut board = Board::from_fen(START);
    assert!(!board.is_repetition());
    for (from, to) in [(62u8, 45u8), (6, 21), (45, 62), (21, 6)] {
        let m = find_move(&mut board, from, to);
        assert!(board.make_move(m));
    }
    assert!(board.is_repetition());
    assert!(board.is_draw());
    let fifty = Board::from_fen("4k3/8/8/8/8/8/4P3/4K3 w - - 100 80");
    assert!(fifty.is_draw());
    let bare_kings = Board::from_fen("4k3/8/8/8/8/8/8/4K3 w - - 0 1");
    assert!(bare_kings.insufficient_checkmating_material());
    assert!(bare_kings.is_draw());
    let rook = Board::from_fen("4k3/8/8/8/8/8/8/R3K3 w - - 0 1");
    assert!(!rook.is_draw());
}

#[test]
fn winner_of_finished_games() {
    // Fool's mate: white is mated.
    let mut mated = Board::from_fen("rnb1kbnr/pppp1ppp/8/4p3/6Pq/5P2/PPPPP2P/RNBQKBNR w KQkq - 1 3");
    assert_eq!(mated.get_winner(), Some(-1));
    let mut stalemate = Board::from_fen("k7/8/1Q6/8/8/8/8/4K3 b - - 0 1");
    assert_eq!(stalemate.get_winner(), Some(0));
    let mut running = Board::from_fen(START);
    assert_eq!(running.get_winner(), None);
    let mut drawn = Board::from_fen("4k3/8/8/8/8/8/8/4K3 w - - 0 1");
    assert_eq!(drawn.get_winner(), Some(0));
    let mut black_mated = Board::from_fen("R3k3/8/4K3/8/8/8/8/8 b - - 0 1");
    assert_eq!(black_mated.get_winner(), Some(1));
}

#[test]
fn zobrist_keys_follow_the_position() {
    let a = Board::from_fen(START);
    let b = Board::from_fen(START);
    assert_eq!(a.zobrist.key.current, b.zobrist.key.current);
    assert_ne!(a.zobrist.key.current, 0);
    let black = Board::from_fen("rnbqkbnr/pppppppp/8/8/8/8/PPPPPPPP/RNBQKBNR b KQkq - 0 1");
    assert_ne!(black.zobrist.key.current, a.zobrist.key.current);
    let mut c = Board::from_fen(START);
    let m = find_move(&mut c, 52, 36);
    c.make_move(m);
    assert_ne!(c.zobrist.key.current, a.zobrist.key.current);
}

#[test]
fn perspective_and_last_move() {
    let mut board = Board::from_fen(START);
    assert_eq!(board.perspective(), 1);
    assert_eq!(board.get_last_move(), maxwell::move_data::null_move());
    let m = find_move(&mut board, 52, 36);
    board.make_move(m);
    assert_eq!(board.perspective(), -1);
    assert_eq!(board.get_last_move().to, 36);
    assert!(board.square_is_empty(52));
    assert!(!board.square_is_empty(36));
    assert_eq!(board.occupied_bitboard() & board.unoccupied_bitboard(), 0);
    assert_eq!(board.occupied_bitboard().count_ones(), 32);
}

fn every_move_fits(board: &mut Board, depth: u32) {
    assert!(board.color_movable_now(board.white_to_move, false));
    let moves = board.get_pseudo_legal_moves_for_color(board.white_to_move, false);
    for m in moves {
        assert!(board.move_fits_now(m), "generated move does not fit: {:?}", m);
        if depth > 0 && board.make_move(m) {
            assert!(board.last_move_undoable());
            every_move_fits(board, depth - 1);
            board.undo_last_move();
        }
    }
}

#[test]
fn generated_moves_of_reachable_positions_fit() {
    every_move_fits(&mut Board::from_fen(START), 2);
    every_move_fits(&mut Board::from_fen(KIWIPETE), 1);
    every_move_fits(&mut Board::from_fen(POSITION_4), 2);
}

#[test]
fn requirement_checks() {
    assert!(fen_is_readable(START));
    assert!(!fen_is_readable("rnbqkbnr/pppppppp w KQkq -"));
    assert!(!fen_is_readable("rnbqkbnx/pppppppp/8/8/8/8/PPPPPPPP/RNBQKBNR w KQkq - 0 1"));
    assert!(!fen_is_readable("9/9/9/9/9/9/9/9/K w - - 0 1"));
    let board = Board::from_fen(START);
    assert!(board.move_fits_now(MoveData { flag: 0, capture: NO_PIECE as u8, piece: WHITE_PAWN as u8, from: 52, to: 44 }));
    assert!(!board.move_fits_now(MoveData { flag: 0, capture: NO_PIECE as u8, piece: WHITE_PAWN as u8, from: 52, to: 12 }));
    assert!(!board.move_fits_now(MoveData { flag: SHORT_CASTLE_FLAG, capture: NO_PIECE as u8, piece: WHITE_KING as u8, from: 60, to: 62 }));
    assert!(board.last_move_undoable());
}

#[test]
fn perft_counts() {
    
    let mut start = Board::from_fen(START);
    assert!(start.is_consistent());
    let (results, first_moves) = PerftResults::calculate(&mut start, 3);
    assert_eq!(results.depth, 3);
    assert_eq!(results.positions, 8902);
    assert_eq!(results.captures, 34);
    assert_eq!(results.checks, 12);
    assert_eq!(first_moves.len(), 20);
    assert_eq!(first_moves.iter().map(|(_, n)| n).sum::<u128>(), 8902);
    assert_eq!(start.calculate_fen(), "rnbqkbnr/pppppppp/8/8/8/8/PPPPPPPP/RNBQKBNR");
    assert_eq!(start.moves.len(), 0);

    let mut kiwipete = Board::from_fen(KIWIPETE);
    let (results, _) = PerftResults::calculate(&mut kiwipete, 2);
    assert_eq!(results.positions, 2039);
    assert_eq!(results.nodes, 48 + 2039);
    assert_eq!(results.captures, 8 + 351);
    assert_eq!(results.en_passants, 1);
    assert_eq!(results.castles, 2 + 91);
    assert_eq!(results.promotions, 0);
    assert_eq!(results.checks, 3);
}

#[test]
fn consistency_check() {
    assert!(Board::from_fen(KIWIPETE).is_consistent());
    // Castling rights without the rook on its corner.
    assert!(!Board::from_fen("4k3/8/8/8/8/8/8/4K3 w K - 0 1").is_consistent());
    // The side that just moved is in check.
    assert!(!Board::from_fen("4k3/8/8/8/8/8/8/4R1K1 w - - 0 1").is_consistent());
    // A pawn on the row it would promote beyond.
    assert!(!Board::from_fen("P3k3/8/8/8/8/8/8/4K3 w - - 0 1").is_consistent());
}

#[test]
fn incremental_key_matches_recomputed_key() {
    let mut board = Board::from_fen(KIWIPETE);
    for (from, to) in [(45u8, 37u8), (21, 31), (60, 62)] {
        let moves = board.get_moves_for_piece(from, false);
        let m = *moves.iter().find(|m| m.to == to).expect("move");
        assert!(board.make_move(m));
        let recomputed = maxwell::zobrist::Zobrist::generate(&board);
        assert_eq!(board.zobrist.key.current, recomputed.key.current);
    }
}

#[test]
fn key_depends_only_on_the_position_after_a_double_push() {
    // 1. e4 straight away, and 1. Nf3 Nf6 2. Ng1 Ng8 3. e4: the same position,
    // black to move, en-passant file e in both.
    let mut direct = Board::from_fen(START);
    let push = find_move(&mut direct, 52, 36);
    assert_eq!(push.flag, DOUBLE_PAWN_PUSH_FLAG);
    assert!(direct.make_move(push));

    let mut around = Board::from_fen(START);
    for (from, to) in [(62u8, 45u8), (6, 21), (45, 62), (21, 6), (52, 36)] {
        let m = find_move(&mut around, from, to);
        assert!(around.make_move(m));
    }
    assert_eq!(around.calculate_fen(), direct.calculate_fen());
    assert_eq!(around.zobrist.key.current, direct.zobrist.key.current);

    // After the reply the en-passant file is gone again in both.
    let reply_direct = find_move(&mut direct, 1, 18);
    assert!(direct.make_move(reply_direct));
    let reply_around = find_move(&mut around, 1, 18);
    assert!(around.make_move(reply_around));
    assert_eq!(around.zobrist.key.current, direct.zobrist.key.current);
}

#[test]
fn reading_and_writing_the_piece_field_gives_it_back() {
    let field = "r3k2r/p1ppqpb1/bn2pnp1/3PN3/1p2P3/2N2Q1p/PPPBBPPP/R3K2R";
    let board = Board::from_fen(KIWIPETE);
    assert_eq!(board.calculate_fen(), field);
    assert_eq!(Board::from_fen(START).calculate_fen(), "rnbqkbnr/pppppppp/8/8/8/8/PPPPPPPP/RNBQKBNR");
}
