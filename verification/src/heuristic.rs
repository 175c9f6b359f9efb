use vstd::prelude::*;
use crate::board::{blank_of, goal_cells, is_permutation, legal, occurs, slide};
use crate::board::lemma_goal_permutation;
use crate::path::{end_of, playable, reaches_goal};
use crate::board::{lemma_blank_exists, lemma_slide_permutation, lemma_target_in_range};
use crate::field::{Field, Move};

verus! {

/// The distance between two numbers.
pub open spec fn gap(a: int, b: int) -> int {
    if a >= b {
        a - b
    } else {
        b - a
    }
}

/// The number of rows plus the number of columns between two cells.
pub open spec fn cell_distance(a: int, b: int) -> int {
    gap(a % 4, b % 4) + gap(a / 4, b / 4)
}

/// The cell that holds the value `v`.
pub open spec fn position_of(cells: Seq<u8>, v: u8) -> int {
    choose|i: int| 0 <= i < 16 && cells[i] == v
}

/// How far tile `v` is from the cell where it belongs, which is cell
/// `v - 1`.
pub open spec fn home_distance(cells: Seq<u8>, v: u8) -> int {
    cell_distance(position_of(cells, v), v - 1)
}

/// The home distances of the tiles 1 to `n`, added up.
pub open spec fn distance_sum(cells: Seq<u8>, n: int) -> int
    decreases n,
{
    if n <= 0 {
        0
    } else {
        distance_sum(cells, n - 1) + home_distance(cells, n as u8)
    }
}

/// The estimate that both search engines use: the home distances of the
/// fifteen tiles, added up. The blank does not count.
pub open spec fn manhattan(cells: Seq<u8>) -> int {
    distance_sum(cells, 15)
}

/// By how much the estimate changes when the blank slides in direction
/// `m`: the tile that the blank meets moves into the blank's cell.
pub open spec fn heuristic_change(cells: Seq<u8>, m: Move) -> int {
    let b = blank_of(cells);
    let p = m.target(b);
    cell_distance(b, cells[p] - 1) - cell_distance(p, cells[p] - 1)
}

/// On a permutation a value is where it is found.
pub proof fn lemma_position_unique(cells: Seq<u8>, v: u8, k: int)
    requires
        is_permutation(cells),
        0 <= k < 16,
        cells[k] == v,
    ensures
        position_of(cells, v) == k,
{
    let p = position_of(cells, v);
    assert(0 <= p < 16 && cells[p] == v);
    if p < k {
        assert(cells[p] != cells[k]);
    } else if k < p {
        assert(cells[k] != cells[p]);
    }
}

/// On a permutation every value has a cell.
pub proof fn lemma_position_exists(cells: Seq<u8>, v: u8)
    requires
        is_permutation(cells),
        v < 16,
    ensures
        0 <= position_of(cells, v) < 16,
        cells[position_of(cells, v)] == v,
{
    assert(occurs(cells, v));
    let i = choose|i: int| 0 <= i < 16 && #[trigger] cells[i] == v;
    assert(0 <= i < 16 && cells[i] == v);
}

/// The home distances of any cells add up to no less than nothing.
pub proof fn lemma_distance_sum_nonnegative(cells: Seq<u8>, n: int)
    ensures
        distance_sum(cells, n) >= 0,
    decreases n,
{
    if n > 0 {
        lemma_distance_sum_nonnegative(cells, n - 1);
    }
}

/// Two cells of the board are at most six steps apart.
pub proof fn lemma_cell_distance_bound(a: int, b: int)
    requires
        0 <= a < 16,
        0 <= b < 16,
    ensures
        0 <= cell_distance(a, b) <= 6,
{
}

/// The sum over `n` tiles is at most six for each.
pub proof fn lemma_distance_sum_bound(cells: Seq<u8>, n: int)
    requires
        is_permutation(cells),
        0 <= n <= 15,
    ensures
        0 <= distance_sum(cells, n) <= 6 * n,
    decreases n,
{
    if n > 0 {
        lemma_distance_sum_bound(cells, n - 1);
        lemma_position_exists(cells, n as u8);
        lemma_cell_distance_bound(position_of(cells, n as u8), n - 1);
    }
}

/// What one step of the blank does to the distance between the tile that
/// it meets and any cell `t`: the tile goes from `p` to `b`, one row or
/// one column away, so the distance changes by one along that axis.
pub proof fn lemma_step_changes_distance(b: int, m: Move, t: int)
    requires
        0 <= b < 16,
        m.legal_at(b),
        0 <= t < 16,
    ensures
        ({
            let p = m.target(b);
            let d = cell_distance(b, t) - cell_distance(p, t);
            &&& d == 1 || d == -1
            &&& d == match m {
                Move::Up => gap(t / 4, p / 4 + 1) - gap(t / 4, p / 4),
                Move::Down => gap(t / 4, p / 4 - 1) - gap(t / 4, p / 4),
                Move::Left => gap(t % 4, p % 4 + 1) - gap(t % 4, p % 4),
                Move::Right => gap(t % 4, p % 4 - 1) - gap(t % 4, p % 4),
            }
        }),
{
    let p = m.target(b);
    match m {
        Move::Up => {
            assert(b / 4 == p / 4 + 1 && b % 4 == p % 4);
        },
        Move::Down => {
            assert(b / 4 == p / 4 - 1 && b % 4 == p % 4);
        },
        Move::Left => {
            assert(b / 4 == p / 4 && b % 4 == p % 4 + 1);
        },
        Move::Right => {
            assert(b / 4 == p / 4 && b % 4 == p % 4 - 1);
        },
    }
}

/// The tile that the blank meets is a tile, not a second blank.
pub proof fn lemma_met_tile(cells: Seq<u8>, m: Move)
    requires
        is_permutation(cells),
        legal(cells, m),
    ensures
        1 <= cells[m.target(blank_of(cells))] <= 15,
        0 <= m.target(blank_of(cells)) < 16,
{
    lemma_blank_exists(cells);
    let b = blank_of(cells);
    let p = m.target(b);
    lemma_target_in_range(b, m);
    if p < b {
        assert(cells[p] != cells[b]);
    } else {
        assert(cells[b] != cells[p]);
    }
}

/// A slide changes the place of one tile only: the one that the blank
/// meets, which goes to where the blank was.
pub proof fn lemma_slide_positions(cells: Seq<u8>, m: Move, w: u8)
    requires
        is_permutation(cells),
        legal(cells, m),
        1 <= w <= 15,
    ensures
        position_of(slide(cells, m), w) == if w == cells[m.target(blank_of(cells))] {
            blank_of(cells)
        } else {
            position_of(cells, w)
        },
{
    lemma_blank_exists(cells);
    lemma_slide_permutation(cells, m);
    let b = blank_of(cells);
    let p = m.target(b);
    let next = slide(cells, m);
    if w == cells[p] {
        assert(next[b] == w);
        lemma_position_unique(next, w, b);
    } else {
        lemma_position_exists(cells, w);
        let k = position_of(cells, w);
        assert(k != b && k != p);
        assert(next[k] == w);
        lemma_position_unique(next, w, k);
    }
}

/// The sums over the tiles 1 to `n` before and after a slide differ by
/// the change for the tile that moved, if that tile is among them.
proof fn lemma_distance_sum_slide(cells: Seq<u8>, m: Move, n: int)
    requires
        is_permutation(cells),
        legal(cells, m),
        0 <= n <= 15,
    ensures
        distance_sum(slide(cells, m), n) == distance_sum(cells, n) + if cells[m.target(
            blank_of(cells),
        )] <= n {
            heuristic_change(cells, m)
        } else {
            0
        },
    decreases n,
{
    lemma_met_tile(cells, m);
    if n > 0 {
        lemma_distance_sum_slide(cells, m, n - 1);
        lemma_slide_positions(cells, m, n as u8);
        lemma_position_unique(cells, cells[m.target(blank_of(cells))], m.target(blank_of(cells)));
    }
}

/// The estimate after a legal move is the estimate before it plus the
/// change computed for that move.
pub proof fn lemma_heuristic_identity(cells: Seq<u8>, m: Move)
    requires
        is_permutation(cells),
        legal(cells, m),
    ensures
        manhattan(slide(cells, m)) == manhattan(cells) + heuristic_change(cells, m),
{
    lemma_met_tile(cells, m);
    lemma_distance_sum_slide(cells, m, 15);
}

/// One legal move changes the estimate by exactly one, up or down.
pub proof fn lemma_heuristic_step(cells: Seq<u8>, m: Move)
    requires
        is_permutation(cells),
        legal(cells, m),
    ensures
        heuristic_change(cells, m) == 1 || heuristic_change(cells, m) == -1,
        manhattan(slide(cells, m)) == manhattan(cells) + 1 || manhattan(slide(cells, m))
            == manhattan(cells) - 1,
{
    lemma_heuristic_identity(cells, m);
    lemma_met_tile(cells, m);
    lemma_blank_exists(cells);
    lemma_step_changes_distance(blank_of(cells), m, cells[m.target(blank_of(cells))] - 1);
}

/// On the solved board the first `n` tiles are at home.
proof fn lemma_goal_distance_sum(n: int)
    requires
        0 <= n <= 15,
    ensures
        distance_sum(goal_cells(), n) == 0,
    decreases n,
{
    if n > 0 {
        lemma_goal_distance_sum(n - 1);
        lemma_goal_permutation();
        assert(goal_cells()[n - 1] == n as u8);
        lemma_position_unique(goal_cells(), n as u8, n - 1);
    }
}

/// The estimate for the solved board is zero.
pub proof fn lemma_goal_manhattan()
    ensures
        manhattan(goal_cells()) == 0,
{
    lemma_goal_distance_sum(15);
}

/// The estimate is never negative and never above ninety.
pub proof fn lemma_manhattan_bound(cells: Seq<u8>)
    requires
        is_permutation(cells),
    ensures
        0 <= manhattan(cells) <= 90,
{
    lemma_distance_sum_bound(cells, 15);
}

/// The estimate falls by no more than one with each move: along a way
/// it is at most the moves made plus the estimate at the end.
pub proof fn lemma_estimate_along(cells: Seq<u8>, moves: Seq<Move>)
    requires
        is_permutation(cells),
        playable(cells, moves),
    ensures
        manhattan(cells) <= moves.len() + manhattan(end_of(cells, moves)),
    decreases moves.len(),
{
    if moves.len() > 0 {
        lemma_slide_permutation(cells, moves[0]);
        lemma_heuristic_step(cells, moves[0]);
        lemma_estimate_along(slide(cells, moves[0]), moves.drop_first());
    }
}

/// The estimate never asks for more moves than a way to the solved board
/// has.
pub proof fn lemma_admissible(cells: Seq<u8>, moves: Seq<Move>)
    requires
        is_permutation(cells),
        reaches_goal(cells, moves),
    ensures
        manhattan(cells) <= moves.len(),
    decreases moves.len(),
{
    if moves.len() == 0 {
        lemma_goal_manhattan();
    } else {
        lemma_slide_permutation(cells, moves[0]);
        lemma_heuristic_step(cells, moves[0]);
        lemma_admissible(slide(cells, moves[0]), moves.drop_first());
    }
}

/// The estimate for `field`: the sum, over the fifteen tiles, of the rows
/// and columns between the tile and the cell where it belongs.
pub fn calculate_heuristic(field: &Field) -> (r: u32)
    ensures
        r == manhattan(field@),
        r <= 90,
{
    proof {
        use_type_invariant(field);
    }
    let mut total: u32 = 0;
    let mut i_target: u8 = 0;
    while i_target < 15
        invariant
            i_target <= 15,
            is_permutation(field@),
            total == distance_sum(field@, i_target as int),
            total <= 6 * i_target,
        decreases 15 - i_target,
    {
        let target_piece: u8 = i_target + 1;
        let mut i_current: u8 = 0;
        let mut distance: u32 = 0;
        proof {
            lemma_position_exists(field@, target_piece);
        }
        while i_current < 16
            invariant_except_break
                i_current <= 16,
                forall|j: int| 0 <= j < i_current ==> field@[j] != target_piece,
            invariant
                is_permutation(field@),
                i_target < 15,
                target_piece == i_target + 1,
                0 <= position_of(field@, target_piece) < 16,
                field@[position_of(field@, target_piece)] == target_piece,
            ensures
                distance == home_distance(field@, target_piece),
                distance <= 6,
            decreases 16 - i_current,
        {
            if field.get_linear(i_current) == target_piece {
                let dx: u8 = if i_target % 4 >= i_current % 4 {
                    i_target % 4 - i_current % 4
                } else {
                    i_current % 4 - i_target % 4
                };
                let dy: u8 = if i_target / 4 >= i_current / 4 {
                    i_target / 4 - i_current / 4
                } else {
                    i_current / 4 - i_target / 4
                };
                distance = (dx + dy) as u32;
                proof {
                    lemma_position_unique(field@, target_piece, i_current as int);
                }
                break ;
            }
            i_current += 1;
        }
        total += distance;
        i_target += 1;
    }
    total
}

/// By how much the estimate changes when the blank of `field` slides in
/// direction `m`, which has to be a legal move: one up or one down.
pub fn calculate_heuristic_change(field: &Field, m: Move) -> (r: i32)
    requires
        legal(field@, m),
    ensures
        r == heuristic_change(field@, m),
        r == 1 || r == -1,
{
    proof {
        use_type_invariant(field);
        lemma_blank_exists(field@);
        lemma_target_in_range(blank_of(field@), m);
    }
    let empty_index = field.get_empty_index();
    let piece_index: u8 = match m {
        Move::Up => empty_index - 4,
        Move::Down => empty_index + 4,
        Move::Left => empty_index - 1,
        Move::Right => empty_index + 1,
    };
    let piece = field.get_linear(piece_index);
    proof {
        if piece == 0 {
            if piece_index < empty_index {
                assert(field@[piece_index as int] != field@[empty_index as int]);
            } else {
                assert(field@[empty_index as int] != field@[piece_index as int]);
            }
        }
    }
    let target_index: u8 = piece - 1;
    proof {
        lemma_step_changes_distance(blank_of(field@), m, target_index as int);
    }
    let piece_x: i32 = (piece_index % 4) as i32;
    let piece_y: i32 = (piece_index / 4) as i32;
    let target_x: i32 = (target_index % 4) as i32;
    let target_y: i32 = (target_index / 4) as i32;
    match m {
        Move::Up => distance(target_y, piece_y + 1) - distance(target_y, piece_y),
        Move::Down => distance(target_y, piece_y - 1) - distance(target_y, piece_y),
        Move::Left => distance(target_x, piece_x + 1) - distance(target_x, piece_x),
        Move::Right => distance(target_x, piece_x - 1) - distance(target_x, piece_x),
    }
}

/// The distance between two small numbers.
fn distance(a: i32, b: i32) -> (r: i32)
    requires
        -8 <= a <= 8,
        -8 <= b <= 8,
    ensures
        r == gap(a as int, b as int),
{
    if a >= b {
        a - b
    } else {
        b - a
    }
}

} // verus!
