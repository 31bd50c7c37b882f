use game_client::board::{build_board, SquareColor};

#[test]
fn board_has_64_squares_row_major() {
    let b = build_board();
    assert_eq!(b.len(), 64);
    for (i, p) in b.iter().enumerate() {
        assert_eq!(p.x as usize, i % 8);
        assert_eq!(p.z as usize, i / 8);
    }
}

#[test]
fn board_colors_alternate() {
    let b = build_board();
    assert_eq!(b[0].color, SquareColor::Light);
    assert_eq!(b[1].color, SquareColor::Dark);
    assert_eq!(b[8].color, SquareColor::Dark);
    assert_eq!(b[9].color, SquareColor::Light);
    assert_eq!(b[63].color, SquareColor::Light);
    for p in &b {
        let expected = if (p.x + p.z) % 2 == 0 {
            SquareColor::Light
        } else {
            SquareColor::Dark
        };
        assert_eq!(p.color, expected);
    }
}
