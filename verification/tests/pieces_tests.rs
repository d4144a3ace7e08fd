use maxwell::pieces::{build_piece, char_to_piece, get_piece_type, is_piece_white, piece_to_char, NO_PIECE};

#[test]
fn piece_letters_round_trip() {
    for p in 0..12usize {
        assert_eq!(char_to_piece(piece_to_char(p)), p);
    }
    assert_eq!(char_to_piece('x'), NO_PIECE);
    assert_eq!(piece_to_char(12), ' ');
    assert_eq!(char_to_piece('K'), 11);
    assert_eq!(piece_to_char(0), 'p');
}

#[test]
fn piece_colour_and_type() {
    assert!(is_piece_white(6));
    assert!(!is_piece_white(5));
    assert_eq!(get_piece_type(9), 3);
    assert_eq!(build_piece(true, 4), 10);
    assert_eq!(build_piece(false, 4), 4);
}
