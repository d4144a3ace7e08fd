use maxwell::game::{Game, PieceMove, get_worth_for_piece, is_white, generate_starting_position};
use maxwell::piece::{PAWN, KNIGHT, QUEEN, KING, ROOK, WHITE, BLACK};

const START: &str = "rnbqkbnr/pppppppp/8/8/8/8/PPPPPPPP/RNBQKBNR";

#[test]
fn starting_position_codes() {
    let board = generate_starting_position(START);
    assert_eq!(board[0], ROOK | BLACK);
    assert_eq!(board[4], KING | BLACK);
    assert_eq!(board[60], KING | WHITE);
    assert_eq!(board[52], PAWN | WHITE);
    assert_eq!(board[35], 0);
    let game = Game::new(START);
    assert!(game.game_data.whites_turn);
    assert!(game.game_data.promoting.is_none());
    assert!(game.game_data.white_can_short_castle && game.game_data.black_can_long_castle);
    assert_eq!(game.game_data.last_move, PieceMove::default());
}

#[test]
fn colour_bit() {
    assert!(is_white(PAWN | WHITE));
    assert!(!is_white(PAWN | BLACK));
}

#[test]
fn twenty_moves_each_at_the_start() {
    let mut game = Game::new(START);
    assert_eq!(game.get_legal_moves_for_color(true).len(), 20);
    assert_eq!(game.get_legal_moves_for_color(false).len(), 20);
    assert_eq!(game.get_legal_moves_for_piece(57).len(), 2);
    assert_eq!(game.get_legal_moves_for_piece(52).len(), 2);
}

#[test]
fn worth_of_pieces() {
    // A white knight on b1 and a black knight on b8 are worth the same.
    assert_eq!(get_worth_for_piece(KNIGHT | WHITE, 57), get_worth_for_piece(KNIGHT | BLACK, 1));
    assert_eq!(get_worth_for_piece(QUEEN | WHITE, 59), 900);
    assert_eq!(get_worth_for_piece(0, 10), 0);
}

#[test]
fn symmetric_start_evaluates_to_zero() {
    let mut game = Game::new(START);
    assert_eq!(game.eval(), 0);
}

#[test]
fn make_then_undo_restores_the_game() {
    let mut game = Game::new(START);
    let before = game.game_data.clone();
    let push = PieceMove { pawn_moving_twice: true, ..PieceMove::plain(52, 36) };
    game.make_move(push);
    assert_eq!(game.game_data.board[36], PAWN | WHITE);
    assert_eq!(game.game_data.board[52], 0);
    assert!(!game.game_data.whites_turn);
    assert_eq!(game.game_data.last_move, push);
    game.undo_last_move();
    assert_eq!(game.game_data, before);
}

#[test]
fn en_passant_and_check() {
    let mut game = Game::new("4k3/3p4/8/4P3/8/8/8/4K3");
    game.game_data.whites_turn = false;
    game.make_move(PieceMove { pawn_moving_twice: true, ..PieceMove::plain(11, 27) });
    let moves = game.get_legal_moves_for_piece(28);
    assert!(moves.iter().any(|m| m.en_passant_capture == Some(27) && m.to == 19));
    let ep = *moves.iter().find(|m| m.en_passant_capture.is_some()).unwrap();
    game.make_move(ep);
    assert_eq!(game.game_data.board[27], 0);
    assert_eq!(game.game_data.board[19], PAWN | WHITE);
}

#[test]
fn king_in_check_and_pinned_pieces() {
    let mut game = Game::new("4r1k1/8/8/8/8/8/4N3/4K3");
    game.game_data.black_can_short_castle = false;
    game.game_data.black_can_long_castle = false;
    assert!(!game.king_in_check(true));
    // The knight is pinned: none of its moves is legal.
    assert_eq!(game.get_legal_moves_for_piece(52).len(), 0);
    let mut checked = Game::new("4k3/8/8/8/8/8/8/r3K3");
    assert!(checked.king_in_check(true));
    assert!(!checked.king_in_check(false));
}

#[test]
fn white_promotion_waits_for_the_piece() {
    let mut game = Game::new("7k/P7/8/8/8/8/8/K7");
    game.game_data.white_can_short_castle = false;
    game.game_data.white_can_long_castle = false;
    game.game_data.black_can_short_castle = false;
    game.game_data.black_can_long_castle = false;
    let moves = game.get_legal_moves_for_piece(8);
    assert_eq!(moves.len(), 4);
    game.make_move(PieceMove::plain(8, 0));
    assert_eq!(game.game_data.promoting, Some(0));
    game.promote(QUEEN);
    assert_eq!(game.game_data.board[0], QUEEN | WHITE);
    assert!(game.game_data.promoting.is_none());
}

#[test]
fn black_promotion_uses_the_move_type() {
    let mut game = Game::new("k7/8/8/8/8/8/p7/7K");
    game.game_data.whites_turn = false;
    game.make_move(PieceMove { promotion_type: KNIGHT, ..PieceMove::plain(48, 56) });
    assert_eq!(game.game_data.board[56], KNIGHT | BLACK);
}

#[test]
fn castling_moves_the_rook() {
    let mut game = Game::new("r3k2r/8/8/8/8/8/8/R3K2R");
    let moves = game.get_legal_moves_for_piece(60);
    assert!(moves.iter().any(|m| m.short_castle && m.to == 62));
    assert!(moves.iter().any(|m| m.long_castle && m.to == 58));
    game.make_move(PieceMove { short_castle: true, ..PieceMove::plain(60, 62) });
    assert_eq!(game.game_data.board[61], ROOK | WHITE);
    assert_eq!(game.game_data.board[63], 0);
    assert!(!game.game_data.white_can_short_castle && !game.game_data.white_can_long_castle);
    assert!(game.game_data.black_can_short_castle);
}
