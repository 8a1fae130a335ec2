//! The order in which the 64 coefficients of a block are stored.
use vstd::prelude::*;

verus! {

/// Natural (row by row) index of each coefficient in storage order.
pub const ZIGZAG: [usize; 64] = [
    0, 1, 8, 16, 9, 2, 3, 10, 17, 24, 32, 25, 18, 11, 4, 5, 12, 19, 26, 33, 40, 48, 41, 34, 27, 20,
    13, 6, 7, 14, 21, 28, 35, 42, 49, 56, 57, 50, 43, 36, 29, 22, 15, 23, 30, 37, 44, 51, 58, 59,
    52, 45, 38, 31, 39, 46, 53, 60, 61, 54, 47, 55, 62, 63,
];

/// Place in storage order of each coefficient in natural order.
pub const PLACE: [usize; 64] = [
    0, 1, 5, 6, 14, 15, 27, 28, 2, 4, 7, 13, 16, 26, 29, 42, 3, 8, 12, 17, 25, 30, 41, 43, 9, 11,
    18, 24, 31, 40, 44, 53, 10, 19, 23, 32, 39, 45, 52, 54, 20, 22, 33, 38, 46, 51, 55, 60, 21, 34,
    37, 47, 50, 56, 59, 61, 35, 36, 48, 49, 57, 58, 62, 63,
];

/// Storage order is a permutation, and the two tables undo each other.
pub proof fn law_zigzag_is_permutation()
    ensures
        forall|j: int| 0 <= j < 64 ==> (#[trigger] ZIGZAG@[j]) < 64 && PLACE@[ZIGZAG@[j] as int] == j,
        forall|n: int| 0 <= n < 64 ==> (#[trigger] PLACE@[n]) < 64 && ZIGZAG@[PLACE@[n] as int] == n,
{
}

/// Storage order runs along the diagonals of a block, up and down in turn, from its first to its
/// last coefficient: from one place to the next it goes one step along the diagonal, or to the next
/// diagonal where the block ends.
pub proof fn law_zigzag_path(k: int)
    requires
        0 <= k < 63,
    ensures
        ZIGZAG@[0] == 0,
        ZIGZAG@[63] == 63,
        ({
            let row = ZIGZAG@[k] as int / 8;
            let col = ZIGZAG@[k] as int % 8;
            let next_row = ZIGZAG@[k + 1] as int / 8;
            let next_col = ZIGZAG@[k + 1] as int % 8;
            if (row + col) % 2 == 0 {
                if col == 7 {
                    next_row == row + 1 && next_col == col
                } else if row == 0 {
                    next_row == row && next_col == col + 1
                } else {
                    next_row == row - 1 && next_col == col + 1
                }
            } else {
                if row == 7 {
                    next_row == row && next_col == col + 1
                } else if col == 0 {
                    next_row == row + 1 && next_col == col
                } else {
                    next_row == row + 1 && next_col == col - 1
                }
            }
        }),
{
}

} // verus!
