use maxwell::board::Board;
use maxwell::search::Search;
use maxwell::utils::CHECKMATE_EVAL;

fn flat(_b: &Board) -> i32 {
    0
}

#[test]
fn checkmated_side_scores_mate_at_the_root() {
    let mut board = Board::from_fen("rnb1kbnr/pppp1ppp/8/4p3/6Pq/5P2/PPPPP2P/RNBQKBNR w KQkq - 1 3");
    assert!(board.is_consistent());
    let key = board.zobrist.key.current;
    let mut search = Search::new();
    let r = search.alpha_beta_search(&mut board, &flat, 2, 0, -1_000_000, 1_000_000, 0);
    assert_eq!(r, -CHECKMATE_EVAL);
    assert_eq!(board.zobrist.key.current, key);
    assert_eq!(board.moves.len(), 0);
}

#[test]
fn stalemated_side_scores_zero() {
    let mut board = Board::from_fen("7k/5Q2/6K1/8/8/8/8/8 b - - 0 1");
    let mut search = Search::new();
    let r = search.alpha_beta_search(&mut board, &flat, 1, 0, -1000, 1000, 0);
    assert_eq!(r, 0);
}

#[test]
fn drawn_position_below_the_root_scores_zero() {
    let mut board = Board::from_fen("8/8/8/3k4/8/8/4K3/8 w - - 0 1");
    let mut search = Search::new();
    let r = search.alpha_beta_search(&mut board, &|_b: &Board| 777, 3, 1, -1000, 1000, 0);
    assert_eq!(r, 0);
}

#[test]
fn quiescence_stands_pat_at_beta() {
    let mut board = Board::from_fen("rnbqkbnr/pppppppp/8/8/8/8/PPPPPPPP/RNBQKBNR w KQkq - 0 1");
    let mut search = Search::new();
    assert_eq!(search.quiescence_search(&mut board, &|_b: &Board| 500, -1000, 100, false), 100);
    assert_eq!(search.quiescence_search(&mut board, &|_b: &Board| 50, -1000, 100, false), 50);
}

#[test]
fn deepening_finds_the_mate_in_one() {
    let mut board = Board::from_fen("6k1/5ppp/8/8/8/8/8/R5K1 w - - 0 1");
    let mut search = Search::new();
    search.begin(0);
    assert!(search.search_depth(&mut board, &flat, 1).is_some());
    assert_eq!(search.search_depth(&mut board, &flat, 2), Some(CHECKMATE_EVAL - 1));
    assert_eq!(search.best_move.from, 56);
    assert_eq!(search.best_move.to, 0);
    assert_eq!(search.evaluation, CHECKMATE_EVAL - 1);
    assert_eq!(board.moves.len(), 0);
}

#[test]
fn first_legal_move_skips_moves_into_check() {
    // The knight on e2 is pinned; the first legal move is a king move.
    let mut board = Board::from_fen("4r1k1/8/8/8/8/8/4N3/4K3 w - - 0 1");
    let m = Search::first_legal_move(&mut board);
    assert_eq!(m.from, 60);
    assert_eq!(board.moves.len(), 0);
    let mut mated = Board::from_fen("rnb1kbnr/pppp1ppp/8/4p3/6Pq/5P2/PPPPP2P/RNBQKBNR w KQkq - 1 3");
    let none = Search::first_legal_move(&mut mated);
    assert_eq!(none.piece, 12);
}

#[test]
fn quiescence_searches_a_winning_capture() {
    // White to move can take the undefended queen on d5 with the pawn on e4.
    let mut board = Board::from_fen("4k3/8/8/3q4/4P3/8/8/4K3 w - - 0 1");
    let mut search = Search::new();
    let material = |b: &Board| {
        let white = b.total_material_without_pawns[1];
        let black = b.total_material_without_pawns[0];
        if b.white_to_move { white - black } else { black - white }
    };
    let r = search.quiescence_search(&mut board, &material, -100000, 100000, false);
    assert_eq!(r, 0);
    assert_eq!(board.moves.len(), 0);
}
