//! The mathematical model of a Sudoku board: a 9x9 grid of cells, each
//! empty (0) or a digit 1..9, constrained so that no digit repeats within
//! a row, a column, or a 3x3 box.

use vstd::prelude::*;

verus! {

/// The board is a 9x9 grid.
pub open spec fn board_dims(b: Seq<Seq<usize>>) -> bool {
    b.len() == 9 && forall|r: int| 0 <= r < 9 ==> (#[trigger] b[r]).len() == 9
}

/// Every cell holds 0 (empty) or a digit 1..9.
pub open spec fn cells_in_range(b: Seq<Seq<usize>>) -> bool {
    forall|r: int, c: int| 0 <= r < 9 && 0 <= c < 9 ==> #[trigger] b[r][c] <= 9
}

/// The two positions lie in the same 3x3 box.
pub open spec fn same_box(r1: int, c1: int, r2: int, c2: int) -> bool {
    r1 / 3 == r2 / 3 && c1 / 3 == c2 / 3
}

/// Two distinct positions constrain each other: they share a row, a
/// column, or a 3x3 box.
pub open spec fn sees(r1: int, c1: int, r2: int, c2: int) -> bool {
    (r1 == r2 || c1 == c2 || same_box(r1, c1, r2, c2)) && !(r1 == r2 && c1 == c2)
}

/// No digit occurs twice in any row, column, or box (empty cells aside).
pub open spec fn consistent(b: Seq<Seq<usize>>) -> bool {
    forall|r1: int, c1: int, r2: int, c2: int|
        0 <= r1 < 9 && 0 <= c1 < 9 && 0 <= r2 < 9 && 0 <= c2 < 9 && sees(r1, c1, r2, c2)
            && #[trigger] b[r1][c1] != 0 ==> b[r1][c1] != #[trigger] b[r2][c2]
}

/// A board the engine accepts: 9x9, cells in 0..9, and no digit repeated
/// within a row, column, or box.
pub open spec fn board_ok(b: Seq<Seq<usize>>) -> bool {
    board_dims(b) && cells_in_range(b) && consistent(b)
}

/// `num` occurs nowhere in row `row`, in column `col`, or in the box of
/// (`row`, `col`): placing it at (`row`, `col`) keeps the board consistent.
pub open spec fn placement_free(b: Seq<Seq<usize>>, row: int, col: int, num: usize) -> bool {
    forall|r: int, c: int|
        0 <= r < 9 && 0 <= c < 9 && (r == row || c == col || same_box(r, c, row, col))
            ==> #[trigger] b[r][c] != num
}

/// A fully and consistently assigned board.
pub open spec fn solved(b: Seq<Seq<usize>>) -> bool {
    board_dims(b) && consistent(b) && forall|r: int, c: int|
        0 <= r < 9 && 0 <= c < 9 ==> 1 <= #[trigger] b[r][c] <= 9
}

/// `s` witnesses that `b0` can be completed by the solver's cursor, which
/// walks positions in row-major order counted as `9 * row + col` and never
/// touches a position before `k0`: `s` equals `b0` strictly before `k0`,
/// keeps every non-empty cell of `b0`, fills every position from `k0` on
/// with a digit, and is consistent throughout.
pub open spec fn completion_from(b0: Seq<Seq<usize>>, s: Seq<Seq<usize>>, k0: int) -> bool {
    &&& board_dims(s)
    &&& consistent(s)
    &&& forall|r: int, c: int|
        0 <= r < 9 && 0 <= c < 9 && 9 * r + c < k0 ==> #[trigger] s[r][c] == b0[r][c]
    &&& forall|r: int, c: int|
        0 <= r < 9 && 0 <= c < 9 && 9 * r + c >= k0 && b0[r][c] != 0 ==> #[trigger] s[r][c]
            == b0[r][c]
    &&& forall|r: int, c: int|
        0 <= r < 9 && 0 <= c < 9 && 9 * r + c >= k0 ==> 1 <= #[trigger] s[r][c] <= 9
}

/// Some completion of `b` exists from position `k0` on.
pub open spec fn solvable_from(b: Seq<Seq<usize>>, k0: int) -> bool {
    exists|s: Seq<Seq<usize>>| #[trigger] completion_from(b, s, k0)
}

/// A board is solvable when some consistent full assignment extends its
/// non-empty cells.
pub open spec fn solvable(b: Seq<Seq<usize>>) -> bool {
    solvable_from(b, 0)
}

/// How many cells the generator clears from a solved board, by difficulty:
/// a third of the 81 cells when easy (1), four ninths when medium (2), two
/// thirds when hard (3), and the easy count for any other selector.
pub open spec fn remove_count(difficulty: usize) -> int {
    if difficulty == 1 {
        27
    } else if difficulty == 2 {
        36
    } else if difficulty == 3 {
        54
    } else {
        27
    }
}

/// Every cell of the board is filled.
pub open spec fn full(b: Seq<Seq<usize>>) -> bool {
    forall|r: int, c: int| 0 <= r < 9 && 0 <= c < 9 ==> #[trigger] b[r][c] != 0
}

/// Number of empty cells among the first `j` cells of one row.
pub open spec fn row_zeros(s: Seq<usize>, j: int) -> int
    decreases j,
{
    if j <= 0 {
        0
    } else {
        row_zeros(s, j - 1) + if s[j - 1] == 0 {
            1int
        } else {
            0int
        }
    }
}

/// Number of empty cells in the first `i` rows.
pub open spec fn zeros_prefix(b: Seq<Seq<usize>>, i: int) -> int
    decreases i,
{
    if i <= 0 {
        0
    } else {
        zeros_prefix(b, i - 1) + row_zeros(b[i - 1], 9)
    }
}

/// Number of empty cells on the board.
pub open spec fn zero_count(b: Seq<Seq<usize>>) -> int {
    zeros_prefix(b, 9)
}

/// A row without empty cells counts no zeros.
pub proof fn lemma_row_zeros_full(s: Seq<usize>, j: int)
    requires
        forall|t: int| 0 <= t < j ==> #[trigger] s[t] != 0,
    ensures
        row_zeros(s, j) == 0,
    decreases j,
{
    if j > 0 {
        lemma_row_zeros_full(s, j - 1);
    }
}

/// A board without empty cells counts no zeros in its first `i` rows.
pub proof fn lemma_zeros_prefix_full(b: Seq<Seq<usize>>, i: int)
    requires
        full(b),
        i <= 9,
    ensures
        zeros_prefix(b, i) == 0,
    decreases i,
{
    if i > 0 {
        lemma_zeros_prefix_full(b, i - 1);
        lemma_row_zeros_full(b[i - 1], 9);
    }
}

/// Clearing one cell of a row adds one to the zero count of every prefix
/// that covers it and leaves the others unchanged.
pub proof fn lemma_row_zeros_update(s: Seq<usize>, c: int, j: int)
    requires
        0 <= c < s.len(),
        s[c] != 0,
        j <= s.len(),
    ensures
        row_zeros(s.update(c, 0), j) == row_zeros(s, j) + if c < j {
            1int
        } else {
            0int
        },
    decreases j,
{
    if j > 0 {
        lemma_row_zeros_update(s, c, j - 1);
    }
}

/// Clearing one filled cell adds exactly one to the zero count of every
/// row prefix that covers its row.
pub proof fn lemma_zeros_prefix_update(b: Seq<Seq<usize>>, r: int, c: int, i: int)
    requires
        board_dims(b),
        0 <= r < 9,
        0 <= c < 9,
        b[r][c] != 0,
        i <= 9,
    ensures
        zeros_prefix(b.update(r, b[r].update(c, 0)), i) == zeros_prefix(b, i) + if r < i {
            1int
        } else {
            0int
        },
    decreases i,
{
    let b1 = b.update(r, b[r].update(c, 0));
    if i > 0 {
        lemma_zeros_prefix_update(b, r, c, i - 1);
        if r == i - 1 {
            lemma_row_zeros_update(b[r], c, 9);
            assert(b1[i - 1] == b[r].update(c, 0));
        } else {
            assert(b1[i - 1] == b[i - 1]);
        }
    }
}

/// Clearing one filled cell adds exactly one to the board's zero count.
pub proof fn lemma_zero_count_remove(b: Seq<Seq<usize>>, r: int, c: int)
    requires
        board_dims(b),
        0 <= r < 9,
        0 <= c < 9,
        b[r][c] != 0,
    ensures
        zero_count(b.update(r, b[r].update(c, 0))) == zero_count(b) + 1,
{
    lemma_zeros_prefix_update(b, r, c, 9);
}

/// A board whose non-empty cells all agree with one consistent board is
/// itself consistent.
pub proof fn lemma_mask_consistent(b: Seq<Seq<usize>>, m: Seq<Seq<usize>>)
    requires
        board_dims(b),
        consistent(b),
        board_dims(m),
        forall|r: int, c: int|
            0 <= r < 9 && 0 <= c < 9 ==> #[trigger] m[r][c] == b[r][c] || m[r][c] == 0,
    ensures
        consistent(m),
{
    assert forall|r1: int, c1: int, r2: int, c2: int|
        0 <= r1 < 9 && 0 <= c1 < 9 && 0 <= r2 < 9 && 0 <= c2 < 9 && sees(r1, c1, r2, c2)
            && #[trigger] m[r1][c1] != 0 implies m[r1][c1] != #[trigger] m[r2][c2] by {
        assert(m[r1][c1] == b[r1][c1]);
        if m[r2][c2] != 0 {
            assert(m[r2][c2] == b[r2][c2]);
        }
    }
}

/// The filled cells are exactly those of the diagonal 3x3 blocks whose
/// rows lie below `i`.
pub open spec fn seeded_below(b: Seq<Seq<usize>>, i: int) -> bool {
    forall|r: int, c: int|
        0 <= r < 9 && 0 <= c < 9 ==> ((#[trigger] b[r][c] == 0) <==> !(r / 3 == c / 3 && r < i))
}

/// No digit occurs twice within any single 3x3 box.
pub open spec fn boxes_distinct(b: Seq<Seq<usize>>) -> bool {
    forall|r1: int, c1: int, r2: int, c2: int|
        0 <= r1 < 9 && 0 <= c1 < 9 && 0 <= r2 < 9 && 0 <= c2 < 9 && same_box(r1, c1, r2, c2) && !(
        r1 == r2 && c1 == c2) && #[trigger] b[r1][c1] != 0 ==> b[r1][c1] != #[trigger] b[r2][c2]
}

/// A board whose filled cells are exactly the diagonal blocks, each box
/// free of repeated digits, satisfies every Sudoku constraint: diagonal
/// blocks never share a row or a column with each other.
pub proof fn lemma_seeded_ok(b: Seq<Seq<usize>>)
    requires
        board_dims(b),
        cells_in_range(b),
        seeded_below(b, 9),
        boxes_distinct(b),
    ensures
        board_ok(b),
{
    assert forall|r1: int, c1: int, r2: int, c2: int|
        0 <= r1 < 9 && 0 <= c1 < 9 && 0 <= r2 < 9 && 0 <= c2 < 9 && sees(r1, c1, r2, c2)
            && #[trigger] b[r1][c1] != 0 implies b[r1][c1] != #[trigger] b[r2][c2] by {
        if b[r2][c2] != 0 {
            assert(r1 / 3 == c1 / 3);
            assert(r2 / 3 == c2 / 3);
            if r1 == r2 || c1 == c2 {
                assert(same_box(r1, c1, r2, c2));
            }
        }
    }
}

/// The column offset of row `r` on the fallback board: each row of a band
/// shifts the digits by three columns, and each band shifts by one more.
pub open spec fn pattern_base(r: int) -> int {
    3 * (r % 3) + r / 3
}

/// The digit of the fallback board at (`r`, `c`): the digits 1..9 read
/// cyclically, starting at the row's offset; this realizes a complete
/// Sudoku solution.
pub open spec fn pattern_value(r: int, c: int) -> int {
    if pattern_base(r) + c < 9 {
        pattern_base(r) + c + 1
    } else {
        pattern_base(r) + c - 8
    }
}

/// On the fallback board, equal digits stand nine cyclic steps apart.
proof fn lemma_pattern_value_inj(r1: int, c1: int, r2: int, c2: int)
    requires
        0 <= r1 < 9,
        0 <= c1 < 9,
        0 <= r2 < 9,
        0 <= c2 < 9,
        pattern_value(r1, c1) == pattern_value(r2, c2),
    ensures
        pattern_base(r1) + c1 == pattern_base(r2) + c2 || pattern_base(r1) + c1 == pattern_base(
            r2,
        ) + c2 + 9 || pattern_base(r1) + c1 + 9 == pattern_base(r2) + c2,
{
    assert(0 <= pattern_base(r1) <= 8);
    assert(0 <= pattern_base(r2) <= 8);
}

/// The fallback board is a complete consistent assignment.
pub proof fn lemma_pattern_ok(b: Seq<Seq<usize>>)
    requires
        board_dims(b),
        forall|r: int, c: int| 0 <= r < 9 && 0 <= c < 9 ==> #[trigger] b[r][c] == pattern_value(
            r,
            c,
        ),
    ensures
        board_ok(b),
        full(b),
{
    assert forall|r: int, c: int| 0 <= r < 9 && 0 <= c < 9 implies 1 <= #[trigger] b[r][c]
        <= 9 by {
        assert(0 <= pattern_base(r) <= 8);
    }
    assert forall|r1: int, c1: int, r2: int, c2: int|
        0 <= r1 < 9 && 0 <= c1 < 9 && 0 <= r2 < 9 && 0 <= c2 < 9 && sees(r1, c1, r2, c2)
            && #[trigger] b[r1][c1] != 0 implies b[r1][c1] != #[trigger] b[r2][c2] by {
        if b[r1][c1] == b[r2][c2] {
            lemma_pattern_value_inj(r1, c1, r2, c2);
            if r1 == r2 {
                assert(c1 == c2);
            } else if c1 == c2 {
                assert(pattern_base(r1) == pattern_base(r2) || pattern_base(r1) == pattern_base(r2)
                    + 9 || pattern_base(r1) + 9 == pattern_base(r2));
                assert(0 <= pattern_base(r1) <= 8 && 0 <= pattern_base(r2) <= 8);
                assert(pattern_base(r1) == pattern_base(r2));
                assert(r1 % 3 == r2 % 3 && r1 / 3 == r2 / 3);
                assert(r1 == r2);
            } else {
                assert(r1 / 3 == r2 / 3 && c1 / 3 == c2 / 3);
                assert(pattern_base(r1) - pattern_base(r2) == 3 * (r1 % 3) - 3 * (r2 % 3));
                assert(-8 <= (pattern_base(r1) + c1) - (pattern_base(r2) + c2) <= 8);
                assert(pattern_base(r1) + c1 == pattern_base(r2) + c2);
                assert(3 * (r1 % 3) + c1 == 3 * (r2 % 3) + c2);
                assert(c1 % 3 == c2 % 3) by {
                    assert(c1 == 3 * (c1 / 3) + c1 % 3);
                    assert(c2 == 3 * (c2 / 3) + c2 % 3);
                };
                assert(r1 % 3 == r2 % 3);
                assert(r1 == r2 && c1 == c2);
            }
        }
    }
}

/// A reordering of a duplicate-free sequence is duplicate-free and holds
/// exactly the same elements.
pub proof fn lemma_permutation_of(a: Seq<usize>, b: Seq<usize>)
    requires
        a.to_multiset() == b.to_multiset(),
        a.no_duplicates(),
    ensures
        b.no_duplicates(),
        forall|x: usize| a.contains(x) <==> b.contains(x),
{
    broadcast use vstd::seq_lib::group_to_multiset_ensures;
    broadcast use vstd::multiset::group_multiset_axioms;

    a.lemma_multiset_has_no_duplicates();
    b.lemma_multiset_has_no_duplicates_conv();
    assert forall|x: usize| a.contains(x) <==> b.contains(x) by {
        vstd::seq_lib::to_multiset_contains(a, x);
        vstd::seq_lib::to_multiset_contains(b, x);
        assert(a.to_multiset().count(x) == b.to_multiset().count(x));
    }
}

/// A board that satisfies every constraint completes itself once the
/// cursor has passed the last position.
pub proof fn lemma_complete_end(b: Seq<Seq<usize>>)
    requires
        board_ok(b),
    ensures
        completion_from(b, b, 81),
{
}

/// When the cell under the cursor is already filled, the completions from
/// this position are exactly the completions from the next one.
pub proof fn lemma_complete_skip(b: Seq<Seq<usize>>, s: Seq<Seq<usize>>, r: int, c: int)
    requires
        board_ok(b),
        0 <= r < 9,
        0 <= c < 9,
        b[r][c] != 0,
    ensures
        completion_from(b, s, 9 * r + c) <==> completion_from(b, s, 9 * r + c + 1),
{
    let k0 = 9 * r + c;
    if completion_from(b, s, k0) {
        assert forall|r2: int, c2: int|
            0 <= r2 < 9 && 0 <= c2 < 9 && 9 * r2 + c2 < k0 + 1 implies #[trigger] s[r2][c2]
            == b[r2][c2] by {
            if 9 * r2 + c2 == k0 {
                assert(r2 == r && c2 == c);
            }
        }
        assert(completion_from(b, s, k0 + 1));
    }
    if completion_from(b, s, k0 + 1) {
        assert forall|r2: int, c2: int|
            0 <= r2 < 9 && 0 <= c2 < 9 && 9 * r2 + c2 >= k0 && b[r2][c2] != 0 implies #[trigger] s[r2][c2]
            == b[r2][c2] by {
            if 9 * r2 + c2 == k0 {
                assert(r2 == r && c2 == c);
            }
        }
        assert forall|r2: int, c2: int|
            0 <= r2 < 9 && 0 <= c2 < 9 && 9 * r2 + c2 >= k0 implies 1 <= #[trigger] s[r2][c2]
            <= 9 by {
            if 9 * r2 + c2 == k0 {
                assert(r2 == r && c2 == c);
                assert(s[r][c] == b[r][c]);
                assert(b[r][c] <= 9);
            }
        }
        assert(completion_from(b, s, k0));
    }
}

/// Placing a digit that passes the validity check on an empty cell keeps
/// the board within every constraint.
pub proof fn lemma_place_ok(b: Seq<Seq<usize>>, r: int, c: int, num: usize)
    requires
        board_ok(b),
        0 <= r < 9,
        0 <= c < 9,
        b[r][c] == 0,
        1 <= num <= 9,
        placement_free(b, r, c, num),
    ensures
        board_ok(b.update(r, b[r].update(c, num))),
{
    let b1 = b.update(r, b[r].update(c, num));
    assert forall|r2: int| 0 <= r2 < 9 implies (#[trigger] b1[r2]).len() == 9 by {
        assert(b[r2].len() == 9);
    }
    assert forall|r2: int, c2: int| 0 <= r2 < 9 && 0 <= c2 < 9 implies #[trigger] b1[r2][c2]
        <= 9 by {
        assert(b[r2][c2] <= 9);
    }
    assert forall|r1: int, c1: int, r2: int, c2: int|
        0 <= r1 < 9 && 0 <= c1 < 9 && 0 <= r2 < 9 && 0 <= c2 < 9 && sees(r1, c1, r2, c2)
            && #[trigger] b1[r1][c1] != 0 implies b1[r1][c1] != #[trigger] b1[r2][c2] by {
        if r1 == r && c1 == c {
            assert(b1[r1][c1] == num);
            assert(!(r2 == r && c2 == c));
            assert(b1[r2][c2] == b[r2][c2]);
            assert(r2 == r || c2 == c || same_box(r2, c2, r, c));
            assert(b[r2][c2] != num);
        } else if r2 == r && c2 == c {
            assert(b1[r2][c2] == num);
            assert(b1[r1][c1] == b[r1][c1]);
            assert(r1 == r || c1 == c || same_box(r1, c1, r, c));
            assert(b[r1][c1] != num);
        } else {
            assert(b1[r1][c1] == b[r1][c1]);
            assert(b1[r2][c2] == b[r2][c2]);
        }
    }
}

/// Placing a digit on the empty cell under the cursor splits the search:
/// the completions of the new board from the next position are exactly the
/// completions of the old board that choose that digit here.
pub proof fn lemma_complete_place(b: Seq<Seq<usize>>, s: Seq<Seq<usize>>, r: int, c: int, num: usize)
    requires
        board_ok(b),
        0 <= r < 9,
        0 <= c < 9,
        b[r][c] == 0,
        1 <= num <= 9,
    ensures
        completion_from(b.update(r, b[r].update(c, num)), s, 9 * r + c + 1) <==> (completion_from(
            b,
            s,
            9 * r + c,
        ) && s[r][c] == num),
{
    let k0 = 9 * r + c;
    let b1 = b.update(r, b[r].update(c, num));
    assert(b1[r][c] == num);
    assert forall|r2: int, c2: int|
        0 <= r2 < 9 && 0 <= c2 < 9 && !(r2 == r && c2 == c) implies #[trigger] b1[r2][c2]
        == b[r2][c2] by {
        if r2 == r {
            assert(b1[r2][c2] == b[r].update(c, num)[c2]);
        }
    }
    if completion_from(b1, s, k0 + 1) {
        assert(s[r][c] == b1[r][c]);
        assert forall|r2: int, c2: int|
            0 <= r2 < 9 && 0 <= c2 < 9 && 9 * r2 + c2 >= k0 && b[r2][c2] != 0 implies #[trigger] s[r2][c2]
            == b[r2][c2] by {
            assert(!(r2 == r && c2 == c));
            assert(9 * r2 + c2 != k0);
            assert(b1[r2][c2] == b[r2][c2]);
        }
        assert forall|r2: int, c2: int|
            0 <= r2 < 9 && 0 <= c2 < 9 && 9 * r2 + c2 < k0 implies #[trigger] s[r2][c2]
            == b[r2][c2] by {
            assert(s[r2][c2] == b1[r2][c2]);
            assert(!(r2 == r && c2 == c));
        }
        assert forall|r2: int, c2: int|
            0 <= r2 < 9 && 0 <= c2 < 9 && 9 * r2 + c2 >= k0 implies 1 <= #[trigger] s[r2][c2]
            <= 9 by {
            if 9 * r2 + c2 == k0 {
                assert(r2 == r && c2 == c);
            }
        }
        assert(completion_from(b, s, k0));
    }
    if completion_from(b, s, k0) && s[r][c] == num {
        assert forall|r2: int, c2: int|
            0 <= r2 < 9 && 0 <= c2 < 9 && 9 * r2 + c2 < k0 + 1 implies #[trigger] s[r2][c2]
            == b1[r2][c2] by {
            if 9 * r2 + c2 == k0 {
                assert(r2 == r && c2 == c);
            } else {
                assert(!(r2 == r && c2 == c));
                assert(s[r2][c2] == b[r2][c2]);
            }
        }
        assert forall|r2: int, c2: int|
            0 <= r2 < 9 && 0 <= c2 < 9 && 9 * r2 + c2 >= k0 + 1 && b1[r2][c2] != 0 implies #[trigger] s[r2][c2]
            == b1[r2][c2] by {
            assert(!(r2 == r && c2 == c));
            assert(b1[r2][c2] == b[r2][c2]);
        }
        assert(completion_from(b1, s, k0 + 1));
    }
}

/// When the candidate digit already occurs in a unit of the empty cell
/// under the cursor, no completion places it there.
pub proof fn lemma_no_completion_invalid(
    b: Seq<Seq<usize>>,
    s: Seq<Seq<usize>>,
    r: int,
    c: int,
    num: usize,
)
    requires
        board_ok(b),
        0 <= r < 9,
        0 <= c < 9,
        b[r][c] == 0,
        1 <= num <= 9,
        !placement_free(b, r, c, num),
        completion_from(b, s, 9 * r + c),
    ensures
        s[r][c] != num,
{
    let k0 = 9 * r + c;
    let (r2, c2) = choose|r2: int, c2: int|
        0 <= r2 < 9 && 0 <= c2 < 9 && (r2 == r || c2 == c || same_box(r2, c2, r, c))
            && #[trigger] b[r2][c2] == num;
    assert(b[r2][c2] == num);
    assert(!(r2 == r && c2 == c));
    assert(s[r2][c2] == num) by {
        if 9 * r2 + c2 < k0 {
            assert(s[r2][c2] == b[r2][c2]);
        } else {
            assert(b[r2][c2] != 0);
            assert(s[r2][c2] == b[r2][c2]);
        }
    }
    if s[r][c] == num {
        assert(sees(r, c, r2, c2));
        assert(s[r][c] != s[r2][c2]);
    }
}

/// The cells at positions `p1` and `p2` (in row-major counting) do not
/// hold the same digit if they constrain each other.
pub open spec fn pair_ok(b: Seq<Seq<usize>>, p1: int, p2: int) -> bool {
    (sees(p1 / 9, p1 % 9, p2 / 9, p2 % 9) && b[p1 / 9][p1 % 9] != 0) ==> b[p1 / 9][p1 % 9]
        != b[p2 / 9][p2 % 9]
}

/// A board is consistent exactly when every ordered pair of positions is.
pub proof fn lemma_pairs_consistent(b: Seq<Seq<usize>>)
    requires
        forall|p1: int, p2: int| 0 <= p1 < 81 && 0 <= p2 < 81 ==> #[trigger] pair_ok(b, p1, p2),
    ensures
        consistent(b),
{
    assert forall|r1: int, c1: int, r2: int, c2: int|
        0 <= r1 < 9 && 0 <= c1 < 9 && 0 <= r2 < 9 && 0 <= c2 < 9 && sees(r1, c1, r2, c2)
            && #[trigger] b[r1][c1] != 0 implies b[r1][c1] != #[trigger] b[r2][c2] by {
        let p1 = 9 * r1 + c1;
        let p2 = 9 * r2 + c2;
        assert(p1 / 9 == r1 && p1 % 9 == c1 && p2 / 9 == r2 && p2 % 9 == c2);
        assert(pair_ok(b, p1, p2));
    }
}

/// The deep view of a vector of rows indexes to the view of each row.
pub proof fn lemma_row_view(b: Vec<Vec<usize>>, r: int)
    requires
        0 <= r < b@.len(),
    ensures
        b.deep_view()[r] == b@[r]@,
{
    assert(b.deep_view()[r] =~= b@[r]@);
}

} // verus!
