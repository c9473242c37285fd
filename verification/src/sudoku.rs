//! The Sudoku engine: validity checking, backtracking solving, diagonal
//! seeding, and puzzle generation.

use vstd::prelude::*;

use crate::board::{
    board_dims, board_ok, boxes_distinct, cells_in_range, completion_from, consistent, full,
    lemma_complete_end, lemma_complete_place, lemma_complete_skip, lemma_mask_consistent,
    lemma_no_completion_invalid, lemma_pattern_ok, lemma_permutation_of, lemma_place_ok,
    lemma_pairs_consistent, lemma_row_view, lemma_seeded_ok, lemma_zero_count_remove,
    lemma_zeros_prefix_full, pair_ok, pattern_base, pattern_value, placement_free, remove_count,
    same_box, seeded_below, sees, solvable, solvable_from, zero_count,
};

verus! {

/// Writes `val` into the cell at (`r`, `c`).
fn set_cell(board: &mut Vec<Vec<usize>>, r: usize, c: usize, val: usize)
    requires
        board_dims(old(board).deep_view()),
        r < 9,
        c < 9,
    ensures
        final(board).deep_view() == old(board).deep_view().update(
            r as int,
            old(board).deep_view()[r as int].update(c as int, val),
        ),
{
    proof {
        assert(board@.len() == 9);
        lemma_row_view(*board, r as int);
        assert(board@[r as int]@.len() == 9);
    }
    board[r][c] = val;
    proof {
        let b1 = old(board).deep_view().update(
            r as int,
            old(board).deep_view()[r as int].update(c as int, val),
        );
        assert forall|i: int| 0 <= i < 9 implies board.deep_view()[i] == b1[i] by {
            lemma_row_view(*board, i);
            lemma_row_view(*old(board), i);
            if i == r as int {
                assert(board@[i]@ =~= old(board)@[i]@.update(c as int, val));
            } else {
                assert(board@[i] == old(board)@[i]);
            }
        }
        assert(board.deep_view() =~= b1);
    }
}

/// Decides whether `num` already occurs in row `row`, in column `col`, or
/// in the 3x3 box containing (`row`, `col`); placing `num` at (`row`,
/// `col`) is legal exactly when it does not.
#[verifier::loop_isolation(false)]
pub fn is_num_valid(board: &Vec<Vec<usize>>, row: usize, col: usize, num: usize) -> (r: bool)
    requires
        board_dims(board.deep_view()),
        row < 9,
        col < 9,
    ensures
        r == placement_free(board.deep_view(), row as int, col as int, num),
{
    let ghost b = board.deep_view();
    proof {
        assert(board@.len() == 9);
        assert forall|j: int| 0 <= j < 9 implies (#[trigger] board@[j])@.len() == 9 by {
            lemma_row_view(*board, j);
            assert(b[j].len() == 9);
        }
    }
    let size = board.len();
    let mut i: usize = 0;
    while i < size
        invariant
            i <= 9,
            forall|j: int| 0 <= j < i ==> #[trigger] b[row as int][j] != num,
            forall|j: int| 0 <= j < i ==> #[trigger] b[j][col as int] != num,
        decreases 9 - i,
    {
        proof {
            lemma_row_view(*board, row as int);
            lemma_row_view(*board, i as int);
        }
        if board[row][i] == num {
            assert(b[row as int][i as int] == num);
            return false;
        }
        if board[i][col] == num {
            assert(b[i as int][col as int] == num);
            return false;
        }
        i += 1;
    }

    let sub_row = (row / 3) * 3;
    let sub_col = (col / 3) * 3;

    let mut di: usize = 0;
    while di < 3
        invariant
            di <= 3,
            forall|x: int, y: int|
                0 <= x < di && 0 <= y < 3 ==> #[trigger] b[sub_row + x][sub_col + y] != num,
        decreases 3 - di,
    {
        let mut dj: usize = 0;
        while dj < 3
            invariant
                di < 3,
                dj <= 3,
                forall|x: int, y: int|
                    0 <= x < di && 0 <= y < 3 ==> #[trigger] b[sub_row + x][sub_col + y] != num,
                forall|y: int| 0 <= y < dj ==> #[trigger] b[sub_row + di][sub_col + y] != num,
            decreases 3 - dj,
        {
            proof {
                lemma_row_view(*board, sub_row + di);
            }
            if board[sub_row + di][sub_col + dj] == num {
                assert(b[sub_row + di as int][sub_col + dj as int] == num);
                assert(same_box(sub_row + di as int, sub_col + dj as int, row as int, col as int));
                return false;
            }
            dj += 1;
        }
        di += 1;
    }

    assert(placement_free(b, row as int, col as int, num)) by {
        assert forall|r: int, c: int|
            0 <= r < 9 && 0 <= c < 9 && (r == row as int || c == col as int || same_box(
                r,
                c,
                row as int,
                col as int,
            )) implies #[trigger] b[r][c] != num by {
            if r == row as int {
                assert(b[row as int][c] != num);
            } else if c == col as int {
                assert(b[r][col as int] != num);
            } else {
                assert(r / 3 == row as int / 3 && c / 3 == col as int / 3);
                let x = r - sub_row;
                let y = c - sub_col;
                assert(0 <= x < 3 && 0 <= y < 3);
                assert(b[sub_row + x][sub_col + y] != num);
            }
        }
    }
    true
}

/// How many times the generator reseeds and resolves before it falls back
/// to a fixed complete board; a consistently seeded board has never been
/// seen to fail, so the ceiling exists only to keep generation total.
const RETRY_LIMIT: usize = 1000;

/// Allocates an empty `size` x `size` board.
#[verifier::loop_isolation(false)]
fn new_empty_board(size: usize) -> (board: Vec<Vec<usize>>)
    requires
        size == 9,
    ensures
        board_dims(board.deep_view()),
        forall|r: int, c: int|
            0 <= r < 9 && 0 <= c < 9 ==> #[trigger] board.deep_view()[r][c] == 0,
{
    let mut board: Vec<Vec<usize>> = Vec::new();
    let mut r: usize = 0;
    while r < size
        invariant
            r <= 9,
            board@.len() == r,
            forall|t: int| 0 <= t < r ==> (#[trigger] board.deep_view()[t]).len() == 9,
            forall|t: int, c: int|
                0 <= t < r && 0 <= c < 9 ==> #[trigger] board.deep_view()[t][c] == 0,
        decreases 9 - r,
    {
        let mut row: Vec<usize> = Vec::new();
        let mut c: usize = 0;
        while c < size
            invariant
                c <= 9,
                row@.len() == c,
                forall|t: int| 0 <= t < c ==> #[trigger] row@[t] == 0,
            decreases 9 - c,
        {
            row.push(0);
            c += 1;
        }
        proof {
            assert forall|t: int| 0 <= t < r implies board.deep_view()[t] == (
            #[trigger] board@[t])@ by {
                lemma_row_view(board, t);
            }
        }
        let ghost rowv = row@;
        let ghost prev = board.deep_view();
        board.push(row);
        proof {
            assert forall|t: int| 0 <= t < r + 1 implies (#[trigger] board.deep_view()[t]).len()
                == 9 && forall|c2: int| 0 <= c2 < 9 ==> #[trigger] board.deep_view()[t][c2]
                == 0 by {
                lemma_row_view(board, t);
                if t < r {
                    assert(board.deep_view()[t] == prev[t]);
                } else {
                    assert(board.deep_view()[t] == rowv);
                }
            }
        }
        r += 1;
    }
    board
}

/// Builds the fixed complete fallback board, whose digit at (`r`, `c`) is
/// `pattern_value(r, c)`.
#[verifier::loop_isolation(false)]
fn pattern_board() -> (board: Vec<Vec<usize>>)
    ensures
        board_ok(board.deep_view()),
        full(board.deep_view()),
{
    let mut board = new_empty_board(9);
    let mut r: usize = 0;
    while r < 9
        invariant
            r <= 9,
            board_dims(board.deep_view()),
            forall|t: int, c: int|
                0 <= t < r && 0 <= c < 9 ==> #[trigger] board.deep_view()[t][c] == pattern_value(
                    t,
                    c,
                ),
        decreases 9 - r,
    {
        let base = 3 * (r % 3) + r / 3;
        let mut c: usize = 0;
        while c < 9
            invariant
                c <= 9,
                r < 9,
                base == pattern_base(r as int),
                board_dims(board.deep_view()),
                forall|t: int, c2: int|
                    0 <= t < r && 0 <= c2 < 9 ==> #[trigger] board.deep_view()[t][c2]
                        == pattern_value(t, c2),
                forall|c2: int|
                    0 <= c2 < c ==> #[trigger] board.deep_view()[r as int][c2] == pattern_value(
                        r as int,
                        c2,
                    ),
            decreases 9 - c,
        {
            let t = base + c;
            let val = if t < 9 {
                t + 1
            } else {
                t - 8
            };
            set_cell(&mut board, r, c, val);
            c += 1;
        }
        r += 1;
    }
    proof {
        lemma_pattern_ok(board.deep_view());
    }
    board
}

/// Relies on fastrand::shuffle: it reorders the elements of the slice in
/// place by swaps, so the new contents are a permutation of the old.
#[verifier::external_body]
fn shuffle_vec(v: &mut Vec<usize>)
    ensures
        final(v)@.to_multiset() == old(v)@.to_multiset(),
        final(v)@.len() == old(v)@.len(),
{
    fastrand::shuffle(v.as_mut_slice());
}

/// Fills the 3x3 block anchored at (`row`, `col`) with a random
/// permutation of the digits 1..9, assigned in row-major order; the rest
/// of the board is untouched.
#[verifier::loop_isolation(false)]
pub fn fill_block(board: &mut Vec<Vec<usize>>, row: usize, col: usize)
    requires
        board_dims(old(board).deep_view()),
        row < 9,
        col < 9,
        row % 3 == 0,
        col % 3 == 0,
    ensures
        board_dims(final(board).deep_view()),
        forall|r: int, c: int|
            0 <= r < 9 && 0 <= c < 9 && !(row <= r < row + 3 && col <= c < col + 3)
                ==> #[trigger] final(board).deep_view()[r][c] == old(board).deep_view()[r][c],
        forall|x: int, y: int|
            0 <= x < 3 && 0 <= y < 3 ==> 1 <= #[trigger] final(board).deep_view()[row + x][col
                + y] <= 9,
        forall|x1: int, y1: int, x2: int, y2: int|
            #![trigger final(board).deep_view()[row + x1][col + y1], final(board).deep_view()[row + x2][col + y2]]
            0 <= x1 < 3 && 0 <= y1 < 3 && 0 <= x2 < 3 && 0 <= y2 < 3 && !(x1 == x2 && y1 == y2)
                ==> final(board).deep_view()[row + x1][col + y1] != final(board).deep_view()[row
                + x2][col + y2],
{
    let ghost b0 = board.deep_view();
    let size = board.len();
    let mut nums: Vec<usize> = Vec::new();
    let mut v: usize = 1;
    while v <= size
        invariant
            1 <= v <= 10,
            nums@.len() == v - 1,
            forall|t: int| 0 <= t < v - 1 ==> #[trigger] nums@[t] == t + 1,
        decreases 10 - v,
    {
        nums.push(v);
        v += 1;
    }
    let ghost base = nums@;
    proof {
        assert(base.no_duplicates());
    }
    shuffle_vec(&mut nums);
    proof {
        lemma_permutation_of(base, nums@);
        assert forall|t: int| 0 <= t < 9 implies 1 <= #[trigger] nums@[t] <= 9 by {
            assert(nums@.contains(nums@[t]));
            assert(base.contains(nums@[t]));
            let w = choose|w: int| 0 <= w < base.len() && base[w] == nums@[t];
            assert(base[w] == w + 1);
        }
    }

    let mut i: usize = 0;
    while i < 3
        invariant
            i <= 3,
            board_dims(board.deep_view()),
            forall|r: int, c: int|
                0 <= r < 9 && 0 <= c < 9 && !(row <= r < row + i && col <= c < col + 3)
                    ==> #[trigger] board.deep_view()[r][c] == b0[r][c],
            forall|x: int, y: int|
                0 <= x < i && 0 <= y < 3 ==> #[trigger] board.deep_view()[row + x][col + y]
                    == nums@[3 * x + y],
        decreases 3 - i,
    {
        let mut j: usize = 0;
        while j < 3
            invariant
                i < 3,
                j <= 3,
                board_dims(board.deep_view()),
                forall|r: int, c: int|
                    0 <= r < 9 && 0 <= c < 9 && !(row <= r < row + i && col <= c < col + 3) && !(r
                        == row + i && col <= c < col + j) ==> #[trigger] board.deep_view()[r][c]
                        == b0[r][c],
                forall|x: int, y: int|
                    0 <= x < i && 0 <= y < 3 ==> #[trigger] board.deep_view()[row + x][col + y]
                        == nums@[3 * x + y],
                forall|y: int|
                    0 <= y < j ==> #[trigger] board.deep_view()[row + i][col + y] == nums@[3 * i
                        + y],
            decreases 3 - j,
        {
            let val = nums[i * 3 + j];
            set_cell(board, row + i, col + j, val);
            j += 1;
        }
        i += 1;
    }

    proof {
        assert forall|x1: int, y1: int, x2: int, y2: int|
            #![trigger board.deep_view()[row + x1][col + y1], board.deep_view()[row + x2][col + y2]]
            0 <= x1 < 3 && 0 <= y1 < 3 && 0 <= x2 < 3 && 0 <= y2 < 3 && !(x1 == x2 && y1 == y2)
                implies board.deep_view()[row + x1][col + y1] != board.deep_view()[row + x2][col
                + y2] by {
            assert(board.deep_view()[row + x1][col + y1] == nums@[3 * x1 + y1]);
            assert(board.deep_view()[row + x2][col + y2] == nums@[3 * x2 + y2]);
            assert(3 * x1 + y1 != 3 * x2 + y2);
        }
    }
}

/// Clears cells from a fully assigned board to turn it into a puzzle: a
/// difficulty-dependent count of positions, drawn as the first entries of
/// a random permutation of all 81 positions, become empty, and every other
/// cell keeps its value.
#[verifier::loop_isolation(false)]
pub fn remove_numbers(board: &mut Vec<Vec<usize>>, difficulty: usize)
    requires
        board_dims(old(board).deep_view()),
        full(old(board).deep_view()),
    ensures
        board_dims(final(board).deep_view()),
        forall|r: int, c: int|
            0 <= r < 9 && 0 <= c < 9 ==> #[trigger] final(board).deep_view()[r][c] == old(
                board,
            ).deep_view()[r][c] || final(board).deep_view()[r][c] == 0,
        zero_count(final(board).deep_view()) == remove_count(difficulty),
{
    let ghost b0 = board.deep_view();
    let size = board.len();
    let total_cells = size * size;
    let to_remove: usize = match difficulty {
        1 => total_cells / 3,
        2 => total_cells * 4 / 9,
        3 => total_cells * 2 / 3,
        _ => total_cells / 3,
    };
    assert(total_cells == 81) by (nonlinear_arith)
        requires
            size == 9,
            total_cells == size * size,
    ;
    assert(to_remove == remove_count(difficulty));

    let mut positions: Vec<usize> = Vec::new();
    let mut k: usize = 0;
    while k < total_cells
        invariant
            k <= 81,
            positions@.len() == k,
            forall|t: int| 0 <= t < k ==> #[trigger] positions@[t] == t,
        decreases 81 - k,
    {
        positions.push(k);
        k += 1;
    }
    let ghost base = positions@;
    proof {
        assert(base.no_duplicates());
    }
    shuffle_vec(&mut positions);
    proof {
        lemma_permutation_of(base, positions@);
        assert forall|t: int| 0 <= t < 81 implies #[trigger] positions@[t] < 81 by {
            assert(positions@.contains(positions@[t]));
            assert(base.contains(positions@[t]));
            let w = choose|w: int| 0 <= w < base.len() && base[w] == positions@[t];
            assert(base[w] == w);
        }
    }

    proof {
        lemma_zeros_prefix_full(b0, 9);
    }
    let mut idx: usize = 0;
    while idx < to_remove
        invariant
            idx <= to_remove <= 81,
            positions@.len() == 81,
            positions@.no_duplicates(),
            forall|t: int| 0 <= t < 81 ==> #[trigger] positions@[t] < 81,
            board_dims(board.deep_view()),
            forall|r: int, c: int|
                0 <= r < 9 && 0 <= c < 9 ==> #[trigger] board.deep_view()[r][c] == b0[r][c]
                    || board.deep_view()[r][c] == 0,
            forall|r: int, c: int|
                0 <= r < 9 && 0 <= c < 9 ==> ((#[trigger] board.deep_view()[r][c] == 0) <==> exists|
                    t: int,
                |
                    0 <= t < idx && #[trigger] positions@[t] == 9 * r + c),
            zero_count(board.deep_view()) == idx,
        decreases to_remove - idx,
    {
        let ghost bprev = board.deep_view();
        let p = positions[idx];
        let r = p / 9;
        let c = p % 9;
        proof {
            assert(r < 9 && c < 9);
            assert(9 * (r as int) + c as int == p);
            assert(bprev[r as int][c as int] != 0) by {
                if bprev[r as int][c as int] == 0 {
                    let t = choose|t: int|
                        0 <= t < idx && #[trigger] positions@[t] == 9 * (r as int) + c as int;
                    assert(positions@[t] == positions@[idx as int]);
                }
            }
        }
        set_cell(board, r, c, 0);
        proof {
            lemma_zero_count_remove(bprev, r as int, c as int);
            assert forall|r2: int, c2: int| 0 <= r2 < 9 && 0 <= c2 < 9 implies ((
            #[trigger] board.deep_view()[r2][c2] == 0) <==> exists|t: int|
                0 <= t < idx + 1 && #[trigger] positions@[t] == 9 * r2 + c2) by {
                if r2 == r as int && c2 == c as int {
                    assert(positions@[idx as int] == 9 * r2 + c2);
                } else {
                    assert(board.deep_view()[r2][c2] == bprev[r2][c2]);
                    if exists|t: int| 0 <= t < idx + 1 && #[trigger] positions@[t] == 9 * r2 + c2 {
                        let t = choose|t: int|
                            0 <= t < idx + 1 && #[trigger] positions@[t] == 9 * r2 + c2;
                        assert(t < idx);
                    }
                }
            }
        }
        idx += 1;
    }
}

/// Decides whether a board is one the engine accepts: a 9x9 grid whose
/// cells hold 0 or a digit 1..9, with no digit repeated in any row,
/// column, or box. Hosts validate boards arriving from outside here,
/// before handing them to the solver.
#[verifier::loop_isolation(false)]
pub fn check_board(board: &Vec<Vec<usize>>) -> (r: bool)
    ensures
        r == board_ok(board.deep_view()),
{
    let ghost b = board.deep_view();
    if board.len() != 9 {
        return false;
    }
    let mut r0: usize = 0;
    while r0 < 9
        invariant
            r0 <= 9,
            forall|t: int| 0 <= t < r0 ==> (#[trigger] b[t]).len() == 9,
            forall|t: int, c: int| 0 <= t < r0 && 0 <= c < 9 ==> #[trigger] b[t][c] <= 9,
        decreases 9 - r0,
    {
        proof {
            lemma_row_view(*board, r0 as int);
        }
        let row = &board[r0];
        if row.len() != 9 {
            assert(b[r0 as int].len() != 9);
            return false;
        }
        let mut c0: usize = 0;
        while c0 < 9
            invariant
                r0 < 9,
                c0 <= 9,
                b[r0 as int].len() == 9,
                forall|c: int| 0 <= c < c0 ==> #[trigger] b[r0 as int][c] <= 9,
            decreases 9 - c0,
        {
            if row[c0] > 9 {
                assert(b[r0 as int][c0 as int] > 9);
                return false;
            }
            c0 += 1;
        }
        r0 += 1;
    }
    assert(board_dims(b) && cells_in_range(b));

    let mut p1: usize = 0;
    while p1 < 81
        invariant
            p1 <= 81,
            forall|q1: int, q2: int| 0 <= q1 < p1 && 0 <= q2 < 81 ==> #[trigger] pair_ok(b, q1, q2),
        decreases 81 - p1,
    {
        let r1 = p1 / 9;
        let c1 = p1 % 9;
        proof {
            lemma_row_view(*board, r1 as int);
        }
        let v1 = board[r1][c1];
        let mut p2: usize = 0;
        while p2 < 81
            invariant
                p1 < 81,
                p2 <= 81,
                r1 == p1 / 9,
                c1 == p1 % 9,
                v1 == b[r1 as int][c1 as int],
                forall|q1: int, q2: int|
                    0 <= q1 < p1 && 0 <= q2 < 81 ==> #[trigger] pair_ok(b, q1, q2),
                forall|q2: int| 0 <= q2 < p2 ==> #[trigger] pair_ok(b, p1 as int, q2),
            decreases 81 - p2,
        {
            let r2 = p2 / 9;
            let c2 = p2 % 9;
            proof {
                lemma_row_view(*board, r2 as int);
            }
            let in_sight = (r1 == r2 || c1 == c2 || (r1 / 3 == r2 / 3 && c1 / 3 == c2 / 3)) && !(r1
                == r2 && c1 == c2);
            if in_sight && v1 != 0 && v1 == board[r2][c2] {
                assert(sees(r1 as int, c1 as int, r2 as int, c2 as int));
                assert(!consistent(b));
                return false;
            }
            assert(pair_ok(b, p1 as int, p2 as int));
            p2 += 1;
        }
        p1 += 1;
    }
    proof {
        lemma_pairs_consistent(b);
    }
    true
}

/// Solves the board in place by backtracking, walking the cells in
/// row-major order from (`row`, `col`). Returns true exactly when the
/// cells from that position on can be filled consistently; the board is
/// then left so completed, and every non-empty cell is kept. On failure
/// the board is left exactly as it was.
#[verifier::loop_isolation(false)]
pub fn resolv_backtrack(board: &mut Vec<Vec<usize>>, row: usize, col: usize) -> (r: bool)
    requires
        board_ok(old(board).deep_view()),
        row < 9,
        col <= 9,
    ensures
        r == solvable_from(old(board).deep_view(), 9 * row + col),
        r ==> completion_from(old(board).deep_view(), final(board).deep_view(), 9 * row + col),
        r ==> board_ok(final(board).deep_view()),
        !r ==> final(board).deep_view() == old(board).deep_view(),
    decreases 82 - 9 * row - col,
{
    let ghost b0 = board.deep_view();
    let ghost k0: int = 9 * row + col;

    let mut rr = row;
    let mut cc = col;
    if cc == 9 {
        cc = 0;
        rr = rr + 1;
        if rr == 9 {
            proof {
                lemma_complete_end(b0);
                assert(solvable_from(b0, k0));
            }
            return true;
        }
    }
    assert(9 * rr + cc == k0);

    proof {
        assert(board@.len() == 9);
        lemma_row_view(*board, rr as int);
        assert(board@[rr as int]@.len() == 9);
    }
    if board[rr][cc] != 0 {
        assert(b0[rr as int][cc as int] != 0);
        let res = resolv_backtrack(board, rr, cc + 1);
        proof {
            assert(res == solvable_from(b0, k0 + 1));
            if res {
                lemma_complete_skip(b0, board.deep_view(), rr as int, cc as int);
                assert(solvable_from(b0, k0));
            } else {
                assert forall|s: Seq<Seq<usize>>| !#[trigger] completion_from(b0, s, k0) by {
                    if completion_from(b0, s, k0) {
                        lemma_complete_skip(b0, s, rr as int, cc as int);
                        assert(completion_from(b0, s, k0 + 1));
                        assert(solvable_from(b0, k0 + 1));
                    }
                }
                assert(!solvable_from(b0, k0));
            }
        }
        return res;
    }
    assert(b0[rr as int][cc as int] == 0);

    let mut num: usize = 1;
    while num <= 9
        invariant
            1 <= num <= 10,
            board.deep_view() == b0,
            forall|s: Seq<Seq<usize>>| #[trigger]
                completion_from(b0, s, k0) ==> s[rr as int][cc as int] >= num,
        decreases 10 - num,
    {
        let valid = is_num_valid(board, rr, cc, num);
        if valid {
            set_cell(board, rr, cc, num);
            let ghost b1 = board.deep_view();
            proof {
                lemma_place_ok(b0, rr as int, cc as int, num);
            }
            let res = resolv_backtrack(board, rr, cc + 1);
            proof {
                assert(res == solvable_from(b1, k0 + 1));
            }
            if res {
                proof {
                    assert(completion_from(b1, board.deep_view(), k0 + 1));
                    lemma_complete_place(b0, board.deep_view(), rr as int, cc as int, num);
                    assert(completion_from(b0, board.deep_view(), k0));
                    assert(solvable_from(b0, k0));
                }
                return true;
            }
            set_cell(board, rr, cc, 0);
            proof {
                assert(board.deep_view() =~~= b0);
                assert forall|s: Seq<Seq<usize>>| #[trigger]
                    completion_from(b0, s, k0) implies s[rr as int][cc as int] != num by {
                    lemma_complete_place(b0, s, rr as int, cc as int, num);
                    if s[rr as int][cc as int] == num {
                        assert(completion_from(b1, s, k0 + 1));
                        assert(solvable_from(b1, k0 + 1));
                    }
                }
            }
        } else {
            proof {
                assert forall|s: Seq<Seq<usize>>| #[trigger]
                    completion_from(b0, s, k0) implies s[rr as int][cc as int] != num by {
                    lemma_no_completion_invalid(b0, s, rr as int, cc as int, num);
                }
            }
        }
        num += 1;
    }
    proof {
        assert forall|s: Seq<Seq<usize>>| !#[trigger] completion_from(b0, s, k0) by {
            if completion_from(b0, s, k0) {
                assert(s[rr as int][cc as int] <= 9);
            }
        }
        assert(!solvable_from(b0, k0));
    }
    false
}

/// Turns a complete consistent board into a puzzle: clears the
/// difficulty-dependent number of cells and shows that what remains is
/// still consistent and solvable, the complete board itself witnessing a
/// solution.
#[verifier::loop_isolation(false)]
fn thin_out(board: &mut Vec<Vec<usize>>, difficulty: usize)
    requires
        board_ok(old(board).deep_view()),
        full(old(board).deep_view()),
    ensures
        board_ok(final(board).deep_view()),
        zero_count(final(board).deep_view()) == remove_count(difficulty),
        solvable(final(board).deep_view()),
{
    let ghost sol = board.deep_view();
    remove_numbers(board, difficulty);
    proof {
        lemma_mask_consistent(sol, board.deep_view());
        assert(cells_in_range(board.deep_view())) by {
            assert forall|r: int, c: int|
                0 <= r < 9 && 0 <= c < 9 implies #[trigger] board.deep_view()[r][c] <= 9 by {
                assert(board.deep_view()[r][c] == sol[r][c] || board.deep_view()[r][c] == 0);
            }
        }
        assert(completion_from(board.deep_view(), sol, 0));
        assert(solvable(board.deep_view()));
    }
}

/// Generates a 9x9 Sudoku puzzle of the requested difficulty: seeds the
/// three diagonal blocks with random permutations of 1..9, completes the
/// board by backtracking, and clears a difficulty-dependent number of
/// randomly chosen cells. The returned puzzle is consistent, has exactly
/// `remove_count(difficulty)` empty cells, and is solvable. Should every
/// randomized attempt fail to complete (which a consistent seed has never
/// been seen to do), a fixed complete board is thinned out instead.
#[verifier::loop_isolation(false)]
pub fn generate_board(size: usize, difficulty: usize) -> (board: Vec<Vec<usize>>)
    requires
        size == 9,
    ensures
        board_ok(board.deep_view()),
        zero_count(board.deep_view()) == remove_count(difficulty),
        solvable(board.deep_view()),
{
    let mut attempts: usize = 0;
    while attempts < RETRY_LIMIT
        invariant
            attempts <= RETRY_LIMIT,
        decreases RETRY_LIMIT - attempts,
    {
        let mut board = new_empty_board(size);

        let mut i: usize = 0;
        while i < size
            invariant
                i <= 9,
                i % 3 == 0,
                board_dims(board.deep_view()),
                cells_in_range(board.deep_view()),
                seeded_below(board.deep_view(), i as int),
                boxes_distinct(board.deep_view()),
            decreases 9 - i,
        {
            let ghost before = board.deep_view();
            fill_block(&mut board, i, i);
            proof {
                let after = board.deep_view();
                assert forall|r: int, c: int| 0 <= r < 9 && 0 <= c < 9 implies ((
                #[trigger] after[r][c] == 0) <==> !(r / 3 == c / 3 && r < i + 3)) by {
                    if i <= r < i + 3 && i <= c < i + 3 {
                        assert(after[r][c] == after[i + (r - i)][i + (c - i)]);
                        assert(1 <= after[r][c] <= 9);
                        assert(r / 3 == i / 3 && c / 3 == i / 3);
                    } else {
                        assert(after[r][c] == before[r][c]);
                        if r / 3 == c / 3 && r < i + 3 && !(r < i) {
                            assert(i <= r < i + 3);
                            assert(3 * (i / 3) == i);
                            assert(c / 3 == r / 3 && 3 * (r / 3) <= r < 3 * (r / 3) + 3);
                            assert(i <= c < i + 3);
                        }
                    }
                }
                assert(cells_in_range(after)) by {
                    assert forall|r: int, c: int|
                        0 <= r < 9 && 0 <= c < 9 implies #[trigger] after[r][c] <= 9 by {
                        if i <= r < i + 3 && i <= c < i + 3 {
                            assert(after[r][c] == after[i + (r - i)][i + (c - i)]);
                        } else {
                            assert(after[r][c] == before[r][c]);
                        }
                    }
                }
                assert(boxes_distinct(after)) by {
                    assert forall|r1: int, c1: int, r2: int, c2: int|
                        0 <= r1 < 9 && 0 <= c1 < 9 && 0 <= r2 < 9 && 0 <= c2 < 9 && same_box(
                            r1,
                            c1,
                            r2,
                            c2,
                        ) && !(r1 == r2 && c1 == c2) && #[trigger] after[r1][c1] != 0 implies
                        after[r1][c1] != #[trigger] after[r2][c2] by {
                        if i <= r1 < i + 3 && i <= c1 < i + 3 {
                            assert(r2 / 3 == r1 / 3 && c2 / 3 == c1 / 3);
                            assert(i / 3 <= r1 / 3 && 3 * (i / 3) == i);
                            assert(i <= r2 < i + 3 && i <= c2 < i + 3);
                            assert(after[i + (r1 - i)][i + (c1 - i)] != after[i + (r2 - i)][i + (c2
                                - i)]);
                        } else {
                            assert(after[r1][c1] == before[r1][c1]);
                            assert(before[r1][c1] != 0);
                            assert(r1 / 3 == c1 / 3 && r1 < i);
                            assert(r2 / 3 == r1 / 3 && c2 / 3 == c1 / 3);
                            assert(!(i <= r2 < i + 3 && i <= c2 < i + 3));
                            assert(after[r2][c2] == before[r2][c2]);
                        }
                    }
                }
            }
            i += 3;
        }

        proof {
            lemma_seeded_ok(board.deep_view());
        }
        if resolv_backtrack(&mut board, 0, 0) {
            proof {
                assert(full(board.deep_view()));
            }
            thin_out(&mut board, difficulty);
            return board;
        }
        attempts += 1;
    }

    let mut board = pattern_board();
    thin_out(&mut board, difficulty);
    board
}

} // verus!
