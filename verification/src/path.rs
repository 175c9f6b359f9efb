use vstd::prelude::*;
use crate::board::{goal_cells, is_permutation, legal, slide};
use crate::board::{lemma_blank_exists, lemma_slide_permutation, lemma_target_in_range};
use crate::field::{Field, Move};

verus! {

/// The boards of a sequence of states.
pub open spec fn boards(states: Seq<Field>) -> Seq<Seq<u8>> {
    Seq::new(states.len(), |i: int| states[i]@)
}

/// Each move is legal on the board before it and leads to the board after
/// it.
pub open spec fn is_walk(moves: Seq<Move>, states: Seq<Seq<u8>>) -> bool {
    &&& states.len() == moves.len() + 1
    &&& forall|i: int|
        0 <= i < moves.len() ==> legal(#[trigger] states[i], moves[i]) && states[i + 1] == slide(
            states[i],
            moves[i],
        )
}

/// A walk from `start` to the solved board.
pub open spec fn is_solution(start: Seq<u8>, moves: Seq<Move>, states: Seq<Seq<u8>>) -> bool {
    &&& is_walk(moves, states)
    &&& states[0] == start
    &&& states[states.len() - 1] == goal_cells()
}

/// Whether the moves can be made one after the other, starting on
/// `cells`.
pub open spec fn playable(cells: Seq<u8>, moves: Seq<Move>) -> bool
    decreases moves.len(),
{
    if moves.len() == 0 {
        true
    } else {
        legal(cells, moves[0]) && playable(slide(cells, moves[0]), moves.drop_first())
    }
}

/// The board that the moves lead to, starting on `cells`.
pub open spec fn end_of(cells: Seq<u8>, moves: Seq<Move>) -> Seq<u8>
    decreases moves.len(),
{
    if moves.len() == 0 {
        cells
    } else {
        end_of(slide(cells, moves[0]), moves.drop_first())
    }
}

/// The moves can be made from `cells` and end on the solved board.
pub open spec fn reaches_goal(cells: Seq<u8>, moves: Seq<Move>) -> bool {
    playable(cells, moves) && end_of(cells, moves) == goal_cells()
}

/// The moves can be made from `cells` and end on the board `to`.
pub open spec fn leads(cells: Seq<u8>, moves: Seq<Move>, to: Seq<u8>) -> bool {
    playable(cells, moves) && end_of(cells, moves) == to
}

/// No moves that lead from `cells` to `to` are fewer than `g`.
pub open spec fn shortest(cells: Seq<u8>, to: Seq<u8>, g: int) -> bool {
    forall|ms: Seq<Move>| #[trigger] leads(cells, ms, to) ==> ms.len() >= g
}

/// The colour of the cell of the blank, if the board is coloured like a
/// chessboard: every move takes the blank to the other colour.
pub open spec fn colour(cells: Seq<u8>) -> int {
    (crate::board::blank_of(cells) / 4 + crate::board::blank_of(cells) % 4) % 2
}

/// A move takes the blank to a cell of the other colour.
pub proof fn lemma_move_colour(cells: Seq<u8>, m: Move)
    requires
        is_permutation(cells),
        legal(cells, m),
    ensures
        colour(slide(cells, m)) == 1 - colour(cells),
{
    lemma_blank_exists(cells);
    lemma_slide_permutation(cells, m);
    let b = crate::board::blank_of(cells);
    match m {
        Move::Up => {
            assert((b - 4) / 4 == b / 4 - 1 && (b - 4) % 4 == b % 4);
        },
        Move::Down => {
            assert((b + 4) / 4 == b / 4 + 1 && (b + 4) % 4 == b % 4);
        },
        Move::Left => {
            assert((b - 1) / 4 == b / 4 && (b - 1) % 4 == b % 4 - 1);
        },
        Move::Right => {
            assert((b + 1) / 4 == b / 4 && (b + 1) % 4 == b % 4 + 1);
        },
    }
}

/// Two ways between the same boards are both even or both odd in
/// length: the number of moves and the two colours add up to an even
/// number.
pub proof fn lemma_way_colour(cells: Seq<u8>, moves: Seq<Move>)
    requires
        is_permutation(cells),
        playable(cells, moves),
    ensures
        (colour(end_of(cells, moves)) + colour(cells) + moves.len()) % 2 == 0,
    decreases moves.len(),
{
    if moves.len() > 0 {
        lemma_move_colour(cells, moves[0]);
        lemma_slide_permutation(cells, moves[0]);
        lemma_way_colour(slide(cells, moves[0]), moves.drop_first());
    }
}

/// No moves lead from `cells` to the solved board.
pub open spec fn no_way(cells: Seq<u8>) -> bool {
    forall|ms: Seq<Move>| !#[trigger] reaches_goal(cells, ms)
}

/// No move of the sequence undoes the move before it, and the first does
/// not undo `prev`.
pub open spec fn direct(prev: Option<Move>, moves: Seq<Move>) -> bool
    decreases moves.len(),
{
    if moves.len() == 0 {
        true
    } else {
        &&& prev != Some(moves[0].inverse_spec())
        &&& direct(Some(moves[0]), moves.drop_first())
    }
}

/// The moves of a walk can be played from its first board and end on its
/// last.
pub proof fn lemma_walk_playable(moves: Seq<Move>, states: Seq<Seq<u8>>)
    requires
        is_walk(moves, states),
    ensures
        playable(states[0], moves),
        end_of(states[0], moves) == states[states.len() - 1],
    decreases moves.len(),
{
    if moves.len() > 0 {
        let rest = moves.drop_first();
        let later = states.drop_first();
        assert(legal(states[0], moves[0]) && states[1] == slide(states[0], moves[0]));
        assert forall|i: int| 0 <= i < rest.len() implies legal(#[trigger] later[i], rest[i])
            && later[i + 1] == slide(later[i], rest[i]) by {
            assert(later[i] == states[i + 1]);
            assert(legal(states[i + 1], moves[i + 1]));
        }
        lemma_walk_playable(rest, later);
        assert(later[0] == states[1]);
        assert(later[later.len() - 1] == states[states.len() - 1]);
    }
}

/// A move and the move that undoes it, one after the other, lead back to
/// where they began.
pub proof fn lemma_undo(cells: Seq<u8>, m: Move)
    requires
        is_permutation(cells),
        legal(cells, m),
    ensures
        legal(slide(cells, m), m.inverse_spec()),
        slide(slide(cells, m), m.inverse_spec()) == cells,
{
    lemma_blank_exists(cells);
    lemma_slide_permutation(cells, m);
    lemma_target_in_range(crate::board::blank_of(cells), m);
    assert(slide(slide(cells, m), m.inverse_spec()) =~= cells);
}

/// Moves that can be played keep the board a permutation.
pub proof fn lemma_end_permutation(cells: Seq<u8>, moves: Seq<Move>)
    requires
        is_permutation(cells),
        playable(cells, moves),
    ensures
        is_permutation(end_of(cells, moves)),
    decreases moves.len(),
{
    if moves.len() > 0 {
        lemma_slide_permutation(cells, moves[0]);
        lemma_end_permutation(slide(cells, moves[0]), moves.drop_first());
    }
}

/// What may follow a given move may follow no move at all.
pub proof fn lemma_direct_weaken(prev: Option<Move>, moves: Seq<Move>)
    requires
        direct(prev, moves),
    ensures
        direct(None, moves),
{
}

/// Undoing twice is doing.
pub proof fn lemma_inverse_twice(m: Move)
    ensures
        m.inverse_spec().inverse_spec() == m,
{
}

/// Whatever reaches the solved board, some sequence that never undoes
/// its own last move reaches it too and is no longer.
pub proof fn lemma_shorten(cells: Seq<u8>, moves: Seq<Move>) -> (r: Seq<Move>)
    requires
        is_permutation(cells),
        reaches_goal(cells, moves),
    ensures
        reaches_goal(cells, r),
        direct(None, r),
        r.len() <= moves.len(),
    decreases moves.len(),
{
    if moves.len() == 0 {
        moves
    } else {
        let m = moves[0];
        let next = slide(cells, m);
        lemma_slide_permutation(cells, m);
        let rest = lemma_shorten(next, moves.drop_first());
        if rest.len() > 0 && rest[0] == m.inverse_spec() {
            lemma_undo(cells, m);
            assert(direct(Some(rest[0]), rest.drop_first()));
            lemma_direct_weaken(Some(rest[0]), rest.drop_first());
            rest.drop_first()
        } else {
            let r = seq![m] + rest;
            assert(r[0] == m);
            assert(r.drop_first() =~= rest);
            if rest.len() > 0 {
                lemma_inverse_twice(m);
                lemma_inverse_twice(rest[0]);
                assert(direct(Some(rest[0]), rest.drop_first()));
                assert(direct(Some(m), rest));
            }
            assert(direct(Some(m), rest));
            assert(direct(None, r));
            r
        }
    }
}

} // verus!
