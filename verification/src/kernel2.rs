//! Helpers for the transposed layout used by the wide kernels.

use vstd::prelude::*;

verus! {

/// Transpose a square matrix in place: afterwards, row `r` column `c` holds
/// what row `c` column `r` held.
pub fn portable_transpose<T: Copy, const N: usize>(words: &mut [[T; N]; N])
    ensures
        forall|r: int, c: int|
            0 <= r < N && 0 <= c < N ==> #[trigger] final(words)@[r]@[c] == old(words)@[c]@[r],
{
    if N == 0 {
        return;
    }
    let mut row: usize = 0;
    while row < N - 1
        invariant
            N > 0,
            row <= N - 1,
            forall|r: int, c: int|
                0 <= r < N && 0 <= c < N ==> #[trigger] words@[r]@[c] == if r < row || c < row {
                    old(words)@[c]@[r]
                } else {
                    old(words)@[r]@[c]
                },
        decreases N - row,
    {
        let mut col: usize = row + 1;
        while col < N
            invariant
                N > 0,
                row < N - 1,
                row + 1 <= col <= N,
                forall|r: int, c: int|
                    0 <= r < N && 0 <= c < N ==> #[trigger] words@[r]@[c] == if r < row || c < row || (r == row
                        && row < c < col) || (c == row && row < r < col) {
                        old(words)@[c]@[r]
                    } else {
                        old(words)@[r]@[c]
                    },
            decreases N - col,
        {
            let upper = words[row][col];
            let lower = words[col][row];
            let mut upper_row = words[row];
            upper_row[col] = lower;
            words[row] = upper_row;
            let mut lower_row = words[col];
            lower_row[row] = upper;
            words[col] = lower_row;
            col += 1;
        }
        row += 1;
    }
}

} // verus!
