//! Laws of the engine that span several functions: solved boards carry
//! every digit once per unit, the validity check is deterministic, and
//! harder difficulties clear more cells.

use vstd::prelude::*;

use crate::board::{
    completion_from, placement_free, remove_count, same_box, sees, solved,
};

verus! {

/// The values of nine pairwise distinct cells, each a digit 1..9, cover
/// every digit 1..9: nine distinct values fill a nine-element range.
proof fn lemma_nine_distinct_cover(s: Seq<int>)
    requires
        s.len() == 9,
        forall|i: int| 0 <= i < 9 ==> 1 <= #[trigger] s[i] <= 9,
        s.no_duplicates(),
    ensures
        forall|v: int| 1 <= v <= 9 ==> s.contains(v),
{
    broadcast use vstd::set::group_set_axioms;
    broadcast use vstd::seq_lib::seq_to_set_is_finite;

    let vals = s.to_set();
    s.unique_seq_to_set();
    let range = vstd::set_lib::set_int_range(1, 10);
    vstd::set_lib::lemma_int_range(1, 10);
    assert(vals.subset_of(range)) by {
        assert forall|x: int| vals.contains(x) implies range.contains(x) by {
            let i = choose|i: int| 0 <= i < s.len() && s[i] == x;
            assert(1 <= s[i] <= 9);
        }
    }
    assert forall|v: int| 1 <= v <= 9 implies s.contains(v) by {
        if !s.contains(v) {
            assert(!vals.contains(v));
            assert(vals.subset_of(range.remove(v)));
            assert(range.contains(v));
            assert(range.remove(v).len() == 8);
            vstd::set_lib::lemma_len_subset(vals, range.remove(v));
        }
    }
}

/// Row `r` holds the digit `v` somewhere.
pub open spec fn row_contains(b: Seq<Seq<usize>>, r: int, v: int) -> bool {
    exists|c: int| 0 <= c < 9 && #[trigger] b[r][c] == v
}

/// Column `c` holds the digit `v` somewhere.
pub open spec fn col_contains(b: Seq<Seq<usize>>, c: int, v: int) -> bool {
    exists|r: int| 0 <= r < 9 && #[trigger] b[r][c] == v
}

/// The box with corner (`3 * br`, `3 * bc`) holds the digit `v` somewhere.
pub open spec fn box_contains(b: Seq<Seq<usize>>, br: int, bc: int, v: int) -> bool {
    exists|i: int, j: int| 0 <= i < 3 && 0 <= j < 3 && #[trigger] b[3 * br + i][3 * bc + j] == v
}

/// Every row, column, and box of a solved board contains each digit 1..9
/// at least once; `solved` already rules out a second occurrence, so each
/// digit occurs exactly once per unit.
pub proof fn lemma_solved_units_complete(b: Seq<Seq<usize>>)
    requires
        solved(b),
    ensures
        forall|r: int, v: int| 0 <= r < 9 && 1 <= v <= 9 ==> #[trigger] row_contains(b, r, v),
        forall|c: int, v: int| 0 <= c < 9 && 1 <= v <= 9 ==> #[trigger] col_contains(b, c, v),
        forall|br: int, bc: int, v: int|
            0 <= br < 3 && 0 <= bc < 3 && 1 <= v <= 9 ==> #[trigger] box_contains(b, br, bc, v),
{
    assert forall|r: int, v: int|
        0 <= r < 9 && 1 <= v <= 9 implies #[trigger] row_contains(b, r, v) by {
        let s = Seq::new(9, |c: int| b[r][c] as int);
        assert forall|c1: int, c2: int|
            0 <= c1 < 9 && 0 <= c2 < 9 && c1 != c2 implies s[c1] != s[c2] by {
            assert(sees(r, c1, r, c2));
            assert(b[r][c1] != 0);
        }
        lemma_nine_distinct_cover(s);
        assert(s.contains(v));
        let c = choose|c: int| 0 <= c < 9 && s[c] == v;
        assert(b[r][c] == v);
    }
    assert forall|c: int, v: int|
        0 <= c < 9 && 1 <= v <= 9 implies #[trigger] col_contains(b, c, v) by {
        let s = Seq::new(9, |r: int| b[r][c] as int);
        assert forall|r1: int, r2: int|
            0 <= r1 < 9 && 0 <= r2 < 9 && r1 != r2 implies s[r1] != s[r2] by {
            assert(sees(r1, c, r2, c));
            assert(b[r1][c] != 0);
        }
        lemma_nine_distinct_cover(s);
        assert(s.contains(v));
        let r = choose|r: int| 0 <= r < 9 && s[r] == v;
        assert(b[r][c] == v);
    }
    assert forall|br: int, bc: int, v: int|
        0 <= br < 3 && 0 <= bc < 3 && 1 <= v <= 9 implies #[trigger] box_contains(b, br, bc, v) by {
        let s = Seq::new(9, |t: int| b[3 * br + t / 3][3 * bc + t % 3] as int);
        assert forall|t1: int, t2: int|
            0 <= t1 < 9 && 0 <= t2 < 9 && t1 != t2 implies s[t1] != s[t2] by {
            let r1 = 3 * br + t1 / 3;
            let c1 = 3 * bc + t1 % 3;
            let r2 = 3 * br + t2 / 3;
            let c2 = 3 * bc + t2 % 3;
            assert(r1 / 3 == br && r2 / 3 == br && c1 / 3 == bc && c2 / 3 == bc);
            assert(same_box(r1, c1, r2, c2));
            assert(!(r1 == r2 && c1 == c2));
            assert(sees(r1, c1, r2, c2));
            assert(b[r1][c1] != 0);
            assert(b[r1][c1] != b[r2][c2]);
        }
        lemma_nine_distinct_cover(s);
        assert(s.contains(v));
        let t = choose|t: int| 0 <= t < 9 && s[t] == v;
        assert(b[3 * br + t / 3][3 * bc + t % 3] == v);
        assert(0 <= t / 3 < 3 && 0 <= t % 3 < 3);
    }
}

/// A board the solver completes from the first position is solved.
pub proof fn lemma_completion_solved(b: Seq<Seq<usize>>, s: Seq<Seq<usize>>)
    requires
        completion_from(b, s, 0),
    ensures
        solved(s),
{
}

/// The validity check is a pure function of the board and the placement:
/// any two checks of the same placement on an unmodified board answer the
/// same.
pub proof fn lemma_is_valid_deterministic(
    b: Seq<Seq<usize>>,
    row: int,
    col: int,
    num: usize,
    r1: bool,
    r2: bool,
)
    requires
        r1 == placement_free(b, row, col, num),
        r2 == placement_free(b, row, col, num),
    ensures
        r1 == r2,
{
}

/// Harder difficulties clear strictly more cells from the solved board.
pub proof fn lemma_difficulty_monotone(d1: usize, d2: usize)
    requires
        1 <= d1 < d2 <= 3,
    ensures
        remove_count(d1) < remove_count(d2),
{
}

} // verus!
