//! The locally owned board: an 8-by-8 grid of squares, laid out row-major
//! with alternating colors. These pieces are client-owned and never subject
//! to server reconciliation; their number and placement are fixed at
//! construction, so a renderer may keep stable references to them.

use vstd::prelude::*;

verus! {

/// The model variant a board square carries.
#[derive(Clone, Copy, PartialEq, Eq, Structural, Debug)]
pub enum SquareColor {
    Light,
    Dark,
}

/// One board square at grid position `(x, z)`.
#[derive(Clone, Copy, PartialEq, Eq, Structural, Debug)]
pub struct BoardPiece {
    pub x: u32,
    pub z: u32,
    pub color: SquareColor,
}

/// The classic alternation: a square is light when `x + z` is even.
pub open spec fn spec_square_color(x: u32, z: u32) -> SquareColor {
    if (x + z) % 2 == 0 {
        SquareColor::Light
    } else {
        SquareColor::Dark
    }
}

/// Builds the 64 board squares, row-major: square `i` stands at
/// `(i % 8, i / 8)` with the alternating color.
pub fn build_board() -> (b: Vec<BoardPiece>)
    ensures
        b@.len() == 64,
        forall|i: int|
            0 <= i < 64 ==> #[trigger] b@[i] == (BoardPiece {
                x: (i % 8) as u32,
                z: (i / 8) as u32,
                color: spec_square_color((i % 8) as u32, (i / 8) as u32),
            }),
{
    let mut b: Vec<BoardPiece> = Vec::new();
    let mut i: usize = 0;
    while i < 64
        invariant
            i <= 64,
            b@.len() == i,
            forall|j: int|
                0 <= j < i ==> #[trigger] b@[j] == (BoardPiece {
                    x: (j % 8) as u32,
                    z: (j / 8) as u32,
                    color: spec_square_color((j % 8) as u32, (j / 8) as u32),
                }),
        decreases 64 - i,
    {
        let x = (i % 8) as u32;
        let z = (i / 8) as u32;
        let color = if (x + z) % 2 == 0 {
            SquareColor::Light
        } else {
            SquareColor::Dark
        };
        b.push(BoardPiece { x, z, color });
        i = i + 1;
    }
    b
}

} // verus!
