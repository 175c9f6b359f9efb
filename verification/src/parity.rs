use vstd::prelude::*;
use crate::board::{blank_of, goal_cells, is_permutation, legal, slide, swap_blank};
use crate::board::{lemma_blank_exists, lemma_goal_permutation, lemma_slide_permutation};
use crate::board::{lemma_blank_unique, lemma_target_in_range, occurs};
use crate::field::Move;
use crate::path::{end_of, playable, reaches_goal};

verus! {

/// One if the tile in cell `j` is smaller than the tile in cell `i`, zero
/// if it is not or if either cell is blank.
pub open spec fn smaller_tile(cells: Seq<u8>, j: int, i: int) -> int {
    if cells[j] != 0 && cells[j] < cells[i] {
        1
    } else {
        0
    }
}

/// How many of the first `k` cells hold a tile smaller than the tile in
/// cell `i`.
pub open spec fn smaller_before(cells: Seq<u8>, i: int, k: int) -> int
    decreases k,
{
    if k <= 0 {
        0
    } else {
        smaller_before(cells, i, k - 1) + smaller_tile(cells, k - 1, i)
    }
}

/// How many pairs of tiles within the first `n` cells stand in rising
/// order: the tile that comes first is the smaller one.
pub open spec fn rising_pairs(cells: Seq<u8>, n: int) -> int
    decreases n,
{
    if n <= 0 {
        0
    } else {
        rising_pairs(cells, n - 1) + smaller_before(cells, n - 1, n - 1)
    }
}

/// The row of the blank, counted from zero at the top.
pub open spec fn blank_row(cells: Seq<u8>) -> int {
    blank_of(cells) / 4
}

/// The parity rule of the puzzle: the pairs of tiles in rising order and
/// the row of the blank add up to an even number.
pub open spec fn solvable(cells: Seq<u8>) -> bool {
    (rising_pairs(cells, 16) + blank_row(cells)) % 2 == 0
}

/// No more cells hold a smaller tile than were looked at.
pub proof fn lemma_smaller_before_bound(cells: Seq<u8>, i: int, k: int)
    requires
        0 <= k,
    ensures
        0 <= smaller_before(cells, i, k) <= k,
    decreases k,
{
    if k > 0 {
        lemma_smaller_before_bound(cells, i, k - 1);
    }
}

/// Among `n` cells there are at most `n * n` pairs.
pub proof fn lemma_rising_pairs_bound(cells: Seq<u8>, n: int)
    requires
        0 <= n,
    ensures
        0 <= rising_pairs(cells, n) <= n * n,
    decreases n,
{
    if n > 0 {
        lemma_rising_pairs_bound(cells, n - 1);
        lemma_smaller_before_bound(cells, n - 1, n - 1);
        assert((n - 1) * (n - 1) + (n - 1) <= n * n) by (nonlinear_arith)
            requires
                n > 0,
        ;
    }
}

/// One if `a` is a tile and smaller than `b`, zero if not.
spec fn under(a: u8, b: u8) -> int {
    if a != 0 && a < b {
        1
    } else {
        0
    }
}

/// How many of the first `k` cells hold a tile smaller than `x`.
spec fn below(cells: Seq<u8>, x: u8, k: int) -> int
    decreases k,
{
    if k <= 0 {
        0
    } else {
        below(cells, x, k - 1) + under(cells[k - 1], x)
    }
}

/// The tiles before cell `i` that are smaller than the tile in it.
spec fn before_own(cells: Seq<u8>, i: int) -> int {
    smaller_before(cells, i, i)
}

proof fn lemma_smaller_is_below(cells: Seq<u8>, i: int, k: int)
    requires
        0 <= k,
    ensures
        smaller_before(cells, i, k) == below(cells, cells[i], k),
    decreases k,
{
    if k > 0 {
        lemma_smaller_is_below(cells, i, k - 1);
    }
}

proof fn lemma_below_local(c: Seq<u8>, d: Seq<u8>, x: u8, k: int)
    requires
        0 <= k,
        forall|j: int| 0 <= j < k ==> c[j] == d[j],
    ensures
        below(c, x, k) == below(d, x, k),
    decreases k,
{
    if k > 0 {
        lemma_below_local(c, d, x, k - 1);
    }
}

proof fn lemma_below_update(c: Seq<u8>, p: int, y: u8, x: u8, k: int)
    requires
        0 <= p < k <= c.len(),
    ensures
        below(c.update(p, y), x, k) == below(c, x, k) - under(c[p], x) + under(y, x),
    decreases k,
{
    if k - 1 == p {
        lemma_below_local(c, c.update(p, y), x, k - 1);
    } else {
        lemma_below_update(c, p, y, x, k - 1);
    }
}

proof fn lemma_below_nothing(c: Seq<u8>, k: int)
    requires
        0 <= k,
    ensures
        below(c, 0, k) == 0,
    decreases k,
{
    if k > 0 {
        lemma_below_nothing(c, k - 1);
    }
}

/// Counting on from cell `lo` to cell `hi`.
proof fn lemma_below_range(c: Seq<u8>, x: u8, lo: int, hi: int)
    requires
        0 <= lo <= hi,
    ensures
        below(c, x, hi) == below(c, x, lo) + between(c, x, lo, hi),
    decreases hi - lo,
{
    if lo < hi {
        lemma_below_range(c, x, lo, hi - 1);
    }
}

/// How many of the cells from `lo` up to, not including, `hi` hold a
/// tile smaller than `x`.
spec fn between(c: Seq<u8>, x: u8, lo: int, hi: int) -> int
    decreases hi - lo,
{
    if hi <= lo {
        0
    } else {
        between(c, x, lo, hi - 1) + under(c[hi - 1], x)
    }
}

/// By how much the pairs in rising order among the first `n` cells differ
/// between two boards.
spec fn drift(c: Seq<u8>, d: Seq<u8>, n: int) -> int {
    rising_pairs(d, n) - rising_pairs(c, n)
}

/// Where two boards agree on the count of every cell outside the cells
/// from `lo` to `hi`, the difference arises between `lo` and `hi` only.
proof fn lemma_drift_outside(c: Seq<u8>, d: Seq<u8>, lo: int, hi: int, n: int)
    requires
        0 <= lo <= hi < 16,
        0 <= n <= 16,
        forall|i: int| 0 <= i < 16 && (i < lo || hi < i) ==> before_own(d, i) == before_own(c, i),
    ensures
        n <= lo ==> drift(c, d, n) == 0,
        n > hi ==> drift(c, d, n) == drift(c, d, hi + 1),
    decreases n,
{
    if n > 0 {
        lemma_drift_outside(c, d, lo, hi, n - 1);
        if n - 1 < lo || hi < n - 1 {
            assert(before_own(d, n - 1) == before_own(c, n - 1));
        }
    }
}

/// What a change of places between the blank and the tile in cell `t`
/// does to the count of each cell.
proof fn lemma_counts_after_swap(c: Seq<u8>, t: int, i: int)
    requires
        is_permutation(c),
        0 <= t < 16,
        t != blank_of(c),
        0 <= i < 16,
    ensures
        ({
            let b = blank_of(c);
            let d = swap_blank(c, t);
            let v = c[t];
            let lo = if b < t { b } else { t };
            let hi = if b < t { t } else { b };
            &&& (i < lo || hi < i) ==> before_own(d, i) == before_own(c, i)
            &&& lo < i < hi && b == lo ==> before_own(d, i) == before_own(c, i) + under(v, c[i])
            &&& lo < i < hi && b == hi ==> before_own(d, i) == before_own(c, i) - under(v, c[i])
            &&& i == b ==> before_own(c, i) == 0 && before_own(d, i) == below(c, v, b)
            &&& i == t ==> before_own(c, i) == below(c, v, t) && before_own(d, i) == 0
        }),
{
    lemma_blank_exists(c);
    let b = blank_of(c);
    let d = swap_blank(c, t);
    let v = c[t];
    let lo = if b < t { b } else { t };
    let hi = if b < t { t } else { b };
    let mid = c.update(b, v);
    assert(d == mid.update(t, 0u8));
    lemma_smaller_is_below(c, i, i);
    lemma_smaller_is_below(d, i, i);
    if i < lo {
        lemma_below_local(c, d, c[i], i);
    } else if hi < i {
        lemma_below_update(c, b, v, c[i], i);
        lemma_below_update(mid, t, 0u8, c[i], i);
    } else if lo < i < hi {
        if b == lo {
            lemma_below_update(c, b, v, c[i], i);
            lemma_below_local(mid, d, c[i], i);
        } else {
            lemma_below_local(c, mid, c[i], i);
            lemma_below_update(mid, t, 0u8, c[i], i);
        }
    } else if i == b {
        lemma_below_nothing(c, i);
        if b == lo {
            lemma_below_local(c, d, v, i);
        } else {
            lemma_below_local(c, mid, v, i);
            lemma_below_update(mid, t, 0u8, v, i);
        }
    } else {
        lemma_below_nothing(d, i);
    }
}

/// A tile in a cell other than `t` is either smaller or larger than the
/// tile in `t`.
proof fn lemma_one_way(c: Seq<u8>, t: int, k: int)
    requires
        is_permutation(c),
        0 <= t < 16,
        0 <= k < 16,
        k != t,
        k != blank_of(c),
        t != blank_of(c),
    ensures
        under(c[t], c[k]) + under(c[k], c[t]) == 1,
{
    lemma_blank_exists(c);
    let b = blank_of(c);
    if k < t {
        assert(c[k] != c[t]);
    } else {
        assert(c[t] != c[k]);
    }
    if k < b {
        assert(c[k] != c[b]);
    } else {
        assert(c[b] != c[k]);
    }
    if t < b {
        assert(c[t] != c[b]);
    } else {
        assert(c[b] != c[t]);
    }
}

/// A slide to the left or to the right leaves the number of pairs in
/// rising order as it was; a slide up or down changes it by an odd
/// number.
proof fn lemma_slide_drift(c: Seq<u8>, m: Move)
    requires
        is_permutation(c),
        legal(c, m),
    ensures
        (m == Move::Left || m == Move::Right) ==> drift(c, slide(c, m), 16) == 0,
        (m == Move::Up || m == Move::Down) ==> drift(c, slide(c, m), 16) % 2 != 0,
{
    lemma_blank_exists(c);
    let b = blank_of(c);
    let t = m.target(b);
    lemma_target_in_range(b, m);
    let d = slide(c, m);
    let v = c[t];
    let lo = if b < t { b } else { t };
    let hi = if b < t { t } else { b };
    assert forall|i: int| 0 <= i < 16 && (i < lo || hi < i) implies before_own(d, i)
        == before_own(c, i) by {
        lemma_counts_after_swap(c, t, i);
    }
    lemma_drift_outside(c, d, lo, hi, 16);
    lemma_drift_outside(c, d, lo, hi, lo);
    lemma_counts_after_swap(c, t, lo);
    lemma_counts_after_swap(c, t, hi);
    lemma_below_range(c, v, lo, hi);
    assert(under(c[lo], v) == 0);
    if hi == lo + 1 {
        assert(between(c, v, lo, hi) == between(c, v, lo, lo) + under(c[lo], v));
        assert(drift(c, d, lo + 1) == drift(c, d, lo) + before_own(d, lo) - before_own(c, lo));
        assert(drift(c, d, lo + 2) == drift(c, d, lo + 1) + before_own(d, hi) - before_own(
            c,
            hi,
        ));
    } else {
        assert(hi == lo + 4);
        lemma_counts_after_swap(c, t, lo + 1);
        lemma_counts_after_swap(c, t, lo + 2);
        lemma_counts_after_swap(c, t, lo + 3);
        lemma_one_way(c, t, lo + 1);
        lemma_one_way(c, t, lo + 2);
        lemma_one_way(c, t, lo + 3);
        assert(between(c, v, lo, lo + 1) == between(c, v, lo, lo) + under(c[lo], v));
        assert(between(c, v, lo, lo + 2) == between(c, v, lo, lo + 1) + under(c[lo + 1], v));
        assert(between(c, v, lo, lo + 3) == between(c, v, lo, lo + 2) + under(c[lo + 2], v));
        assert(between(c, v, lo, lo + 4) == between(c, v, lo, lo + 3) + under(c[lo + 3], v));
        assert(drift(c, d, lo + 1) == drift(c, d, lo) + before_own(d, lo) - before_own(c, lo));
        assert(drift(c, d, lo + 2) == drift(c, d, lo + 1) + before_own(d, lo + 1) - before_own(
            c,
            lo + 1,
        ));
        assert(drift(c, d, lo + 3) == drift(c, d, lo + 2) + before_own(d, lo + 2) - before_own(
            c,
            lo + 2,
        ));
        assert(drift(c, d, lo + 4) == drift(c, d, lo + 3) + before_own(d, lo + 3) - before_own(
            c,
            lo + 3,
        ));
        assert(drift(c, d, lo + 5) == drift(c, d, lo + 4) + before_own(d, hi) - before_own(
            c,
            hi,
        ));
    }
}

/// A legal move does not change whether the parity rule holds: the
/// states that pass it and the states that fail it are never joined by a
/// move.
pub proof fn lemma_move_keeps_parity(cells: Seq<u8>, m: Move)
    requires
        is_permutation(cells),
        legal(cells, m),
    ensures
        solvable(slide(cells, m)) == solvable(cells),
{
    lemma_slide_drift(cells, m);
    lemma_slide_permutation(cells, m);
    lemma_blank_exists(cells);
    let b = blank_of(cells);
    match m {
        Move::Up => {
            assert((b - 4) / 4 == b / 4 - 1);
        },
        Move::Down => {
            assert((b + 4) / 4 == b / 4 + 1);
        },
        Move::Left => {
            assert((b - 1) / 4 == b / 4);
        },
        Move::Right => {
            assert((b + 1) / 4 == b / 4);
        },
    }
}

/// On the solved board every tile has all the tiles before it below it.
proof fn lemma_goal_counts(i: int, k: int)
    requires
        0 <= k <= i < 16,
    ensures
        smaller_before(goal_cells(), i, k) == if i == 15 {
            0
        } else {
            k
        },
    decreases k,
{
    if k > 0 {
        lemma_goal_counts(i, k - 1);
    }
}

/// On the solved board every pair among the first `n` tiles is in rising
/// order.
proof fn lemma_goal_pairs(n: int)
    requires
        0 <= n <= 15,
    ensures
        2 * rising_pairs(goal_cells(), n) == n * (n - 1),
    decreases n,
{
    if n > 0 {
        let a = n - 1;
        lemma_goal_pairs(a);
        lemma_goal_counts(a, a);
        assert((a + 1) * a == a * (a - 1) + 2 * a) by (nonlinear_arith);
    } else {
        assert(n * (n - 1) == 0) by (nonlinear_arith)
            requires
                n == 0,
        ;
    }
}

/// The solved board passes the parity rule.
pub proof fn lemma_goal_solvable()
    ensures
        solvable(goal_cells()),
{
    lemma_goal_pairs(15);
    lemma_goal_counts(15, 15);
    lemma_goal_permutation();
    assert(rising_pairs(goal_cells(), 16) == rising_pairs(goal_cells(), 15) + smaller_before(
        goal_cells(),
        15,
        15,
    ));
}

/// Moves that can be played do not change whether the parity rule holds.
pub proof fn lemma_moves_keep_parity(cells: Seq<u8>, moves: Seq<Move>)
    requires
        is_permutation(cells),
        playable(cells, moves),
    ensures
        solvable(end_of(cells, moves)) == solvable(cells),
    decreases moves.len(),
{
    if moves.len() > 0 {
        lemma_move_keeps_parity(cells, moves[0]);
        lemma_slide_permutation(cells, moves[0]);
        lemma_moves_keep_parity(slide(cells, moves[0]), moves.drop_first());
    }
}

/// Only a state that passes the parity rule has a way to the solved
/// board.
pub proof fn lemma_solved_only_if_solvable(cells: Seq<u8>, moves: Seq<Move>)
    requires
        is_permutation(cells),
        reaches_goal(cells, moves),
    ensures
        solvable(cells),
{
    lemma_moves_keep_parity(cells, moves);
    lemma_goal_solvable();
}

/// The value `v` with the names of the tiles 1 and 2 exchanged.
pub open spec fn renamed(v: u8) -> u8 {
    if v == 1 {
        2
    } else if v == 2 {
        1
    } else {
        v
    }
}

/// The board with the tiles 1 and 2 in each other's cell.
pub open spec fn exchanged(cells: Seq<u8>) -> Seq<u8> {
    Seq::new(cells.len(), |i: int| renamed(cells[i]))
}

/// Two cells of a permutation hold two values.
proof fn lemma_two_values(c: Seq<u8>, a: int, b: int)
    requires
        is_permutation(c),
        0 <= a < 16,
        0 <= b < 16,
        a != b,
    ensures
        c[a] != c[b],
{
    if a < b {
        assert(c[a] != c[b]);
    } else {
        assert(c[b] != c[a]);
    }
}

/// The tiles 1 and 2 in each other's cell: a permutation again, with the
/// blank where it was, and the same board again when done twice.
pub proof fn lemma_exchanged_permutation(c: Seq<u8>)
    requires
        is_permutation(c),
    ensures
        is_permutation(exchanged(c)),
        blank_of(exchanged(c)) == blank_of(c),
        exchanged(exchanged(c)) == c,
{
    let d = exchanged(c);
    assert forall|i: int, j: int| 0 <= i < j < 16 implies d[i] != d[j] by {
        assert(c[i] != c[j]);
    }
    assert forall|v: u8| 0 <= v < 16 implies #[trigger] occurs(d, v) by {
        assert(occurs(c, renamed(v)));
        let k = choose|k: int| 0 <= k < 16 && #[trigger] c[k] == renamed(v);
        assert(0 <= k < 16 && d[k] == v);
    }
    lemma_blank_exists(c);
    assert(d[blank_of(c)] == 0);
    lemma_blank_unique(d, blank_of(c));
    assert(exchanged(d) =~= c);
}

/// By how much the count of a cell changes when the tiles 1 and 2, which
/// stand in the cells `lo` and `hi`, change places: by one, up or down,
/// for the later of the two cells, and not at all for any other.
proof fn lemma_exchanged_count(c: Seq<u8>, lo: int, hi: int, i: int, k: int)
    requires
        is_permutation(c),
        0 <= lo < hi < 16,
        (c[lo] == 1 && c[hi] == 2) || (c[lo] == 2 && c[hi] == 1),
        0 <= k <= i < 16,
    ensures
        smaller_before(exchanged(c), i, k) == smaller_before(c, i, k) + if i == hi && k > lo {
            1 - 2 * under(c[lo], c[hi])
        } else {
            0
        },
    decreases k,
{
    if k > 0 {
        lemma_exchanged_count(c, lo, hi, i, k - 1);
        let j = k - 1;
        if j != i {
            lemma_two_values(c, j, i);
        }
        if j != lo {
            lemma_two_values(c, j, lo);
        }
        if j != hi {
            lemma_two_values(c, j, hi);
        }
        if i != lo {
            lemma_two_values(c, i, lo);
        }
        if i != hi {
            lemma_two_values(c, i, hi);
        }
    }
}

/// By how much the pairs in rising order change when the tiles 1 and 2
/// change places: by exactly one pair.
proof fn lemma_exchanged_pairs(c: Seq<u8>, lo: int, hi: int, n: int)
    requires
        is_permutation(c),
        0 <= lo < hi < 16,
        (c[lo] == 1 && c[hi] == 2) || (c[lo] == 2 && c[hi] == 1),
        0 <= n <= 16,
    ensures
        rising_pairs(exchanged(c), n) == rising_pairs(c, n) + if n > hi {
            1 - 2 * under(c[lo], c[hi])
        } else {
            0
        },
    decreases n,
{
    if n > 0 {
        lemma_exchanged_pairs(c, lo, hi, n - 1);
        lemma_exchanged_count(c, lo, hi, n - 1, n - 1);
    }
}

/// The tiles 1 and 2 in each other's cell turn a state that passes the
/// parity rule into one that fails it, and one that fails it into one
/// that passes. Every state has its partner on the other side, so the
/// rule parts the states into two halves of the same size.
pub proof fn lemma_exchange_flips_parity(cells: Seq<u8>)
    requires
        is_permutation(cells),
    ensures
        solvable(exchanged(cells)) != solvable(cells),
{
    lemma_exchanged_permutation(cells);
    assert(occurs(cells, 1u8));
    assert(occurs(cells, 2u8));
    let first = choose|k: int| 0 <= k < 16 && #[trigger] cells[k] == 1u8;
    let second = choose|k: int| 0 <= k < 16 && #[trigger] cells[k] == 2u8;
    if first < second {
        lemma_exchanged_pairs(cells, first, second, 16);
    } else {
        lemma_exchanged_pairs(cells, second, first, 16);
    }
}

/// The board with the contents of the cells `i` and `j` exchanged.
pub open spec fn swap_cells(cells: Seq<u8>, i: int, j: int) -> Seq<u8> {
    cells.update(i, cells[j]).update(j, cells[i])
}

/// What the exchange of the tiles `a` and `b` does to the count of a cell
/// between them that holds `x`.
spec fn turn(a: u8, b: u8, x: u8) -> int {
    under(b, x) - under(a, x)
}

/// What the exchange of the tiles `a` and `b` does to the counts of the
/// cells after `lo` and before `n`, added up.
spec fn turns(c: Seq<u8>, a: u8, b: u8, lo: int, n: int) -> int
    decreases n - lo,
{
    if n <= lo + 1 {
        0
    } else {
        turns(c, a, b, lo, n - 1) + turn(a, b, c[n - 1])
    }
}

/// The counts of the cells between two exchanged tiles change by an even
/// number in all, once the tiles between them that are smaller than the
/// one or the other are taken into account.
proof fn lemma_turns_even(c: Seq<u8>, lo: int, hi: int, n: int)
    requires
        is_permutation(c),
        0 <= lo < n <= hi < 16,
        c[lo] != 0,
        c[hi] != 0,
    ensures
        (between(c, c[lo], lo, n) - between(c, c[hi], lo, n) + turns(c, c[lo], c[hi], lo, n)
            + under(c[lo], c[hi])) % 2 == 0,
    decreases n - lo,
{
    let a = c[lo];
    let b = c[hi];
    if n == lo + 1 {
        assert(between(c, a, lo, lo) == 0 && between(c, b, lo, lo) == 0);
        assert(between(c, a, lo, n) == under(a, a));
        assert(between(c, b, lo, n) == under(a, b));
    } else {
        lemma_turns_even(c, lo, hi, n - 1);
        let x = c[n - 1];
        lemma_two_values(c, n - 1, lo);
        lemma_two_values(c, n - 1, hi);
        assert((under(x, a) - under(x, b) + under(b, x) - under(a, x)) % 2 == 0);
    }
}

/// Between two exchanged tiles the difference of the pairs in rising
/// order grows by the turn of each cell.
proof fn lemma_drift_between(c: Seq<u8>, lo: int, hi: int, n: int)
    requires
        is_permutation(c),
        0 <= lo < n <= hi < 16,
    ensures
        drift(c, swap_cells(c, lo, hi), n) == below(c, c[hi], lo) - below(c, c[lo], lo) + turns(
            c,
            c[lo],
            c[hi],
            lo,
            n,
        ),
    decreases n - lo,
{
    let a = c[lo];
    let b = c[hi];
    let d = swap_cells(c, lo, hi);
    let mid = c.update(lo, b);
    assert(d == mid.update(hi, a));
    if n == lo + 1 {
        lemma_swap_counts_before(c, lo, hi, lo);
        lemma_smaller_is_below(c, lo, lo);
        lemma_smaller_is_below(d, lo, lo);
        lemma_below_local(c, d, b, lo);
    } else {
        lemma_drift_between(c, lo, hi, n - 1);
        let i = n - 1;
        lemma_smaller_is_below(c, i, i);
        lemma_smaller_is_below(d, i, i);
        lemma_below_update(c, lo, b, c[i], i);
        lemma_below_local(mid, d, c[i], i);
    }
}

/// Before the first of two exchanged cells nothing changes.
proof fn lemma_swap_counts_before(c: Seq<u8>, lo: int, hi: int, n: int)
    requires
        0 <= n <= lo < hi < 16,
        c.len() == 16,
    ensures
        drift(c, swap_cells(c, lo, hi), n) == 0,
    decreases n,
{
    if n > 0 {
        lemma_swap_counts_before(c, lo, hi, n - 1);
        let d = swap_cells(c, lo, hi);
        lemma_smaller_is_below(c, n - 1, n - 1);
        lemma_smaller_is_below(d, n - 1, n - 1);
        lemma_below_local(c, d, c[n - 1], n - 1);
    }
}

/// After the second of two exchanged cells nothing changes.
proof fn lemma_swap_counts_after(c: Seq<u8>, lo: int, hi: int, n: int)
    requires
        0 <= lo < hi < n <= 16,
        c.len() == 16,
    ensures
        drift(c, swap_cells(c, lo, hi), n) == drift(c, swap_cells(c, lo, hi), hi + 1),
    decreases n,
{
    if n > hi + 1 {
        lemma_swap_counts_after(c, lo, hi, n - 1);
        let d = swap_cells(c, lo, hi);
        let mid = c.update(lo, c[hi]);
        let i = n - 1;
        lemma_smaller_is_below(c, i, i);
        lemma_smaller_is_below(d, i, i);
        lemma_below_update(c, lo, c[hi], c[i], i);
        lemma_below_update(mid, hi, c[lo], c[i], i);
    }
}

/// Two tiles in each other's cell change the number of pairs in rising
/// order by an odd number.
proof fn lemma_swap_drift_odd(c: Seq<u8>, lo: int, hi: int)
    requires
        is_permutation(c),
        0 <= lo < hi < 16,
        c[lo] != 0,
        c[hi] != 0,
    ensures
        drift(c, swap_cells(c, lo, hi), 16) % 2 != 0,
{
    let a = c[lo];
    let b = c[hi];
    let d = swap_cells(c, lo, hi);
    let mid = c.update(lo, b);
    assert(d == mid.update(hi, a));
    lemma_two_values(c, lo, hi);
    lemma_drift_between(c, lo, hi, hi);
    lemma_turns_even(c, lo, hi, hi);
    lemma_swap_counts_after(c, lo, hi, 16);
    lemma_smaller_is_below(c, hi, hi);
    lemma_smaller_is_below(d, hi, hi);
    lemma_below_update(c, lo, b, a, hi);
    lemma_below_local(mid, d, a, hi);
    lemma_below_range(c, a, lo, hi);
    lemma_below_range(c, b, lo, hi);
    assert(drift(c, d, hi + 1) == drift(c, d, hi) + before_own(d, hi) - before_own(c, hi));
}

/// Two tiles in each other's cell, whichever two, turn a state that
/// passes the parity rule into one that fails it, and one that fails it
/// into one that passes.
pub proof fn lemma_swap_flips_parity(cells: Seq<u8>, i: int, j: int)
    requires
        is_permutation(cells),
        0 <= i < 16,
        0 <= j < 16,
        i != j,
        cells[i] != 0,
        cells[j] != 0,
    ensures
        is_permutation(swap_cells(cells, i, j)),
        solvable(swap_cells(cells, i, j)) != solvable(cells),
{
    let lo = if i < j { i } else { j };
    let hi = if i < j { j } else { i };
    let d = swap_cells(cells, lo, hi);
    assert(swap_cells(cells, i, j) =~= d);
    lemma_swap_drift_odd(cells, lo, hi);
    assert forall|x: int, y: int| 0 <= x < y < 16 implies d[x] != d[y] by {
        let px = if x == lo { hi } else if x == hi { lo } else { x };
        let py = if y == lo { hi } else if y == hi { lo } else { y };
        lemma_two_values(cells, px, py);
    }
    assert forall|v: u8| 0 <= v < 16 implies #[trigger] occurs(d, v) by {
        assert(occurs(cells, v));
        let k = choose|k: int| 0 <= k < 16 && #[trigger] cells[k] == v;
        let pk = if k == lo { hi } else if k == hi { lo } else { k };
        assert(0 <= pk < 16 && d[pk] == v);
    }
    assert forall|x: int| 0 <= x < 16 implies #[trigger] d[x] < 16 by {
        let px = if x == lo { hi } else if x == hi { lo } else { x };
        assert(d[x] == cells[px]);
    }
    lemma_blank_exists(cells);
    assert(d[blank_of(cells)] == 0);
    lemma_blank_unique(d, blank_of(cells));
}

} // verus!
