use vstd::prelude::*;
use crate::arena::{node_ok, path_moves, trace, tree_ok, AStarNode};
use crate::arena::{lemma_path_kept, lemma_path_walk};
use crate::astar::AStarSolution;
use crate::board::{all_moves, goal_cells, is_permutation, legal, slide};
use crate::field::{Field, Move};
use crate::heuristic::{calculate_heuristic, lemma_admissible, manhattan};
use crate::heuristic::lemma_distance_sum_nonnegative;
use crate::path::{boards, direct, reaches_goal};
use crate::path::{lemma_inverse_twice, lemma_shorten, lemma_walk_playable};

verus! {

/// The highest bound on the cost of a way that the search tries. Past it
/// the search gives up, long before the arithmetic on costs could
/// overflow.
pub const BOUND_LIMIT: u64 = 0xFFFF_FFFF_FFFF_FF00;

/// Whether a search from a node that was reached by `prev` tries move
/// `m`: not the move that undoes `prev`, and not a move off the board.
pub open spec fn tries(prev: Option<Move>, cells: Seq<u8>, m: Move) -> bool {
    prev != Some(m.inverse_spec()) && legal(cells, m)
}

/// The moves, among the first `k` of the four, that a search tries.
pub open spec fn tried_moves(prev: Option<Move>, cells: Seq<u8>, k: int) -> Seq<Move>
    decreases k,
{
    if k <= 0 {
        Seq::empty()
    } else if tries(prev, cells, all_moves()[k - 1]) {
        tried_moves(prev, cells, k - 1).push(all_moves()[k - 1])
    } else {
        tried_moves(prev, cells, k - 1)
    }
}

/// No way from `cells` to the solved board that begins without undoing
/// `prev`, and never undoes its own last move, brings the cost of `g`
/// moves made so far below `t`. With no `t`, there is no such way.
pub open spec fn blocked(cells: Seq<u8>, prev: Option<Move>, g: int, t: Option<u64>) -> bool {
    forall|ms: Seq<Move>|
        direct(prev, ms) && #[trigger] reaches_goal(cells, ms) ==> t is Some && g + ms.len()
            >= t.unwrap()
}

/// Every way from `cells` to the solved board has at least `bound`
/// moves.
pub open spec fn at_least(cells: Seq<u8>, bound: int) -> bool {
    forall|ms: Seq<Move>| #[trigger] reaches_goal(cells, ms) ==> ms.len() >= bound
}

/// The lower of two costs, where none stands for a cost above all
/// others.
pub open spec fn lesser(a: Option<int>, b: Option<int>) -> Option<int> {
    match (a, b) {
        (None, _) => b,
        (_, None) => a,
        (Some(x), Some(y)) => if y < x {
            b
        } else {
            a
        },
    }
}

/// A cost as a number without bounds.
pub open spec fn cost_of(t: Option<u64>) -> Option<int> {
    match t {
        Some(v) => Some(v as int),
        None => None,
    }
}

/// Whether the depth-first search below a node with the board `cells`,
/// reached by `prev` after `g` moves, meets the solved board without
/// passing `bound`. A node whose moves and estimate pass the bound is cut
/// off. The solved board is met where it is not cut off. From any other
/// node the search goes on with the moves that it tries.
pub open spec fn meets_goal(cells: Seq<u8>, prev: Option<Move>, g: int, bound: int) -> bool
    decreases bound + 1 - g,
    via meets_goal_ends
{
    if g + manhattan(cells) > bound {
        false
    } else if cells == goal_cells() {
        true
    } else {
        ||| tries(prev, cells, Move::Up) && meets_goal(
            slide(cells, Move::Up),
            Some(Move::Up),
            g + 1,
            bound,
        )
        ||| tries(prev, cells, Move::Down) && meets_goal(
            slide(cells, Move::Down),
            Some(Move::Down),
            g + 1,
            bound,
        )
        ||| tries(prev, cells, Move::Left) && meets_goal(
            slide(cells, Move::Left),
            Some(Move::Left),
            g + 1,
            bound,
        )
        ||| tries(prev, cells, Move::Right) && meets_goal(
            slide(cells, Move::Right),
            Some(Move::Right),
            g + 1,
            bound,
        )
    }
}

#[via_fn]
proof fn meets_goal_ends(cells: Seq<u8>, prev: Option<Move>, g: int, bound: int) {
    lemma_distance_sum_nonnegative(cells, 15);
}

/// The lowest cost at which the depth-first search below a node is cut
/// off: the moves made plus the estimate, at the nodes where that sum
/// passes `bound`. None where the search is cut off nowhere.
pub open spec fn least_cut(cells: Seq<u8>, prev: Option<Move>, g: int, bound: int) -> Option<int>
    decreases bound + 1 - g,
    via least_cut_ends
{
    if g + manhattan(cells) > bound {
        Some(g + manhattan(cells))
    } else if cells == goal_cells() {
        None
    } else {
        lesser(
            lesser(
                lesser(
                    if tries(prev, cells, Move::Up) {
                        least_cut(slide(cells, Move::Up), Some(Move::Up), g + 1, bound)
                    } else {
                        None
                    },
                    if tries(prev, cells, Move::Down) {
                        least_cut(slide(cells, Move::Down), Some(Move::Down), g + 1, bound)
                    } else {
                        None
                    },
                ),
                if tries(prev, cells, Move::Left) {
                    least_cut(slide(cells, Move::Left), Some(Move::Left), g + 1, bound)
                } else {
                    None
                },
            ),
            if tries(prev, cells, Move::Right) {
                least_cut(slide(cells, Move::Right), Some(Move::Right), g + 1, bound)
            } else {
                None
            },
        )
    }
}

#[via_fn]
proof fn least_cut_ends(cells: Seq<u8>, prev: Option<Move>, g: int, bound: int) {
    lemma_distance_sum_nonnegative(cells, 15);
}

/// The lowest cost at which the search is cut off below the child for
/// move `m`; none if the move is not tried.
pub open spec fn child_cut(
    cells: Seq<u8>,
    prev: Option<Move>,
    g: int,
    bound: int,
    m: Move,
) -> Option<int> {
    if tries(prev, cells, m) {
        least_cut(slide(cells, m), Some(m), g + 1, bound)
    } else {
        None
    }
}

/// The lowest cost at which the search is cut off below the children
/// for the first `k` of the four moves.
pub open spec fn cuts_first(
    cells: Seq<u8>,
    prev: Option<Move>,
    g: int,
    bound: int,
    k: int,
) -> Option<int>
    decreases k,
{
    if k <= 0 {
        None
    } else {
        lesser(
            cuts_first(cells, prev, g, bound, k - 1),
            child_cut(cells, prev, g, bound, all_moves()[k - 1]),
        )
    }
}

/// The lowest cost at which the search is cut off below the children
/// for the first `j` moves of `ms`.
pub open spec fn cuts_list(cells: Seq<u8>, ms: Seq<Move>, g: int, bound: int, j: int) -> Option<
    int,
>
    decreases j,
{
    if j <= 0 {
        None
    } else {
        lesser(
            cuts_list(cells, ms, g, bound, j - 1),
            least_cut(slide(cells, ms[j - 1]), Some(ms[j - 1]), g + 1, bound),
        )
    }
}

/// What is cut off below the first moves of a list does not depend on
/// the moves after them.
proof fn lemma_cuts_list_prefix(
    cells: Seq<u8>,
    a: Seq<Move>,
    b: Seq<Move>,
    g: int,
    bound: int,
    j: int,
)
    requires
        0 <= j <= a.len(),
        j <= b.len(),
        forall|i: int| 0 <= i < j ==> a[i] == b[i],
    ensures
        cuts_list(cells, a, g, bound, j) == cuts_list(cells, b, g, bound, j),
    decreases j,
{
    if j > 0 {
        lemma_cuts_list_prefix(cells, a, b, g, bound, j - 1);
    }
}

/// Going through the moves that are tried gives what going through the
/// four moves gives, since a move that is not tried is cut off nowhere.
proof fn lemma_cuts_tried(cells: Seq<u8>, prev: Option<Move>, g: int, bound: int, k: int)
    requires
        0 <= k <= 4,
    ensures
        cuts_list(
            cells,
            tried_moves(prev, cells, k),
            g,
            bound,
            tried_moves(prev, cells, k).len() as int,
        ) == cuts_first(cells, prev, g, bound, k),
    decreases k,
{
    if k > 0 {
        lemma_cuts_tried(cells, prev, g, bound, k - 1);
        let before = tried_moves(prev, cells, k - 1);
        let m = all_moves()[k - 1];
        if tries(prev, cells, m) {
            lemma_cuts_list_prefix(cells, before, before.push(m), g, bound, before.len() as int);
        }
    }
}

/// Below a node that is not cut off and does not hold the solved board,
/// the search is cut off where it is cut off below its children.
proof fn lemma_least_cut_children(cells: Seq<u8>, prev: Option<Move>, g: int, bound: int)
    requires
        g + manhattan(cells) <= bound,
        cells != goal_cells(),
    ensures
        least_cut(cells, prev, g, bound) == cuts_list(
            cells,
            tried_moves(prev, cells, 4),
            g,
            bound,
            tried_moves(prev, cells, 4).len() as int,
        ),
{
    lemma_cuts_tried(cells, prev, g, bound, 4);
    assert(all_moves()[0] == Move::Up && all_moves()[1] == Move::Down && all_moves()[2]
        == Move::Left && all_moves()[3] == Move::Right);
    assert(cuts_first(cells, prev, g, bound, 0) == None::<int>);
    assert(cuts_first(cells, prev, g, bound, 1) == child_cut(cells, prev, g, bound, Move::Up));
    assert(cuts_first(cells, prev, g, bound, 2) == lesser(
        cuts_first(cells, prev, g, bound, 1),
        child_cut(cells, prev, g, bound, Move::Down),
    ));
    assert(cuts_first(cells, prev, g, bound, 3) == lesser(
        cuts_first(cells, prev, g, bound, 2),
        child_cut(cells, prev, g, bound, Move::Left),
    ));
    assert(cuts_first(cells, prev, g, bound, 4) == lesser(
        cuts_first(cells, prev, g, bound, 3),
        child_cut(cells, prev, g, bound, Move::Right),
    ));
}

/// Below a node that is not cut off and does not hold the solved board,
/// the search meets the solved board exactly if it meets it below the
/// child for one of the moves that it tries.
proof fn lemma_meets_goal_children(cells: Seq<u8>, prev: Option<Move>, g: int, bound: int)
    requires
        g + manhattan(cells) <= bound,
        cells != goal_cells(),
    ensures
        meets_goal(cells, prev, g, bound) <==> exists|j: int|
            0 <= j < tried_moves(prev, cells, 4).len() && meets_goal(
                slide(cells, #[trigger] tried_moves(prev, cells, 4)[j]),
                Some(tried_moves(prev, cells, 4)[j]),
                g + 1,
                bound,
            ),
{
    let ms = tried_moves(prev, cells, 4);
    if meets_goal(cells, prev, g, bound) {
        let m = if tries(prev, cells, Move::Up) && meets_goal(
            slide(cells, Move::Up),
            Some(Move::Up),
            g + 1,
            bound,
        ) {
            Move::Up
        } else if tries(prev, cells, Move::Down) && meets_goal(
            slide(cells, Move::Down),
            Some(Move::Down),
            g + 1,
            bound,
        ) {
            Move::Down
        } else if tries(prev, cells, Move::Left) && meets_goal(
            slide(cells, Move::Left),
            Some(Move::Left),
            g + 1,
            bound,
        ) {
            Move::Left
        } else {
            Move::Right
        };
        assert(tries(prev, cells, m) && meets_goal(slide(cells, m), Some(m), g + 1, bound));
        lemma_all_moves(m);
        let j = lemma_tried_member(prev, cells, m, 4);
        assert(meets_goal(slide(cells, ms[j]), Some(ms[j]), g + 1, bound));
    }
    if exists|j: int|
        0 <= j < ms.len() && meets_goal(slide(cells, #[trigger] ms[j]), Some(ms[j]), g + 1, bound) {
        let j = choose|j: int|
            0 <= j < ms.len() && meets_goal(
                slide(cells, #[trigger] ms[j]),
                Some(ms[j]),
                g + 1,
                bound,
            );
        lemma_tried_are_tried(prev, cells, 4, j);
        let m = ms[j];
        match m {
            Move::Up => {},
            Move::Down => {},
            Move::Left => {},
            Move::Right => {},
        }
    }
}

/// A move that a search tries is among the moves it tries.
proof fn lemma_tried_member(prev: Option<Move>, cells: Seq<u8>, m: Move, k: int) -> (j: int)
    requires
        0 <= k <= 4,
        tries(prev, cells, m),
        exists|i: int| 0 <= i < k && all_moves()[i] == m,
    ensures
        0 <= j < tried_moves(prev, cells, k).len(),
        tried_moves(prev, cells, k)[j] == m,
    decreases k,
{
    if all_moves()[k - 1] == m {
        tried_moves(prev, cells, k).len() - 1
    } else {
        let i = choose|i: int| 0 <= i < k && all_moves()[i] == m;
        assert(0 <= i < k - 1 && all_moves()[i] == m);
        lemma_tried_member(prev, cells, m, k - 1)
    }
}

/// The moves that a search tries are tried.
proof fn lemma_tried_are_tried(prev: Option<Move>, cells: Seq<u8>, k: int, j: int)
    requires
        0 <= k <= 4,
        0 <= j < tried_moves(prev, cells, k).len(),
    ensures
        tries(prev, cells, tried_moves(prev, cells, k)[j]),
    decreases k,
{
    if k > 0 {
        if j < tried_moves(prev, cells, k - 1).len() {
            lemma_tried_are_tried(prev, cells, k - 1, j);
        }
    }
}

/// Every move is one of the four.
proof fn lemma_all_moves(m: Move)
    ensures
        exists|i: int| 0 <= i < 4 && all_moves()[i] == m,
{
    match m {
        Move::Up => {
            assert(all_moves()[0] == m);
        },
        Move::Down => {
            assert(all_moves()[1] == m);
        },
        Move::Left => {
            assert(all_moves()[2] == m);
        },
        Move::Right => {
            assert(all_moves()[3] == m);
        },
    }
}

/// The estimate alone blocks every way that is too short.
proof fn lemma_estimate_blocks(cells: Seq<u8>, prev: Option<Move>, g: int, f: u64)
    requires
        is_permutation(cells),
        f == g + manhattan(cells),
    ensures
        blocked(cells, prev, g, Some(f)),
{
    assert forall|ms: Seq<Move>| direct(prev, ms) && #[trigger] reaches_goal(cells, ms) implies g
        + ms.len() >= f by {
        lemma_admissible(cells, ms);
    }
}

/// If every move that is tried from `cells` is blocked at `t`, one move
/// further on, then `cells` itself is blocked at `t`, unless it is the
/// solved board.
proof fn lemma_blocked_by_children(cells: Seq<u8>, prev: Option<Move>, g: int, t: Option<u64>)
    requires
        is_permutation(cells),
        cells != goal_cells(),
        forall|j: int|
            0 <= j < tried_moves(prev, cells, 4).len() ==> blocked(
                slide(cells, #[trigger] tried_moves(prev, cells, 4)[j]),
                Some(tried_moves(prev, cells, 4)[j]),
                g + 1,
                t,
            ),
    ensures
        blocked(cells, prev, g, t),
{
    assert forall|ms: Seq<Move>| direct(prev, ms) && #[trigger] reaches_goal(cells, ms) implies t
        is Some && g + ms.len() >= t.unwrap() by {
        assert(ms.len() > 0);
        let m = ms[0];
        lemma_all_moves(m);
        let j = lemma_tried_member(prev, cells, m, 4);
        let rest = ms.drop_first();
        assert(blocked(slide(cells, tried_moves(prev, cells, 4)[j]), Some(m), g + 1, t));
        assert(direct(Some(m), rest) && reaches_goal(slide(cells, m), rest));
    }
}

/// What is blocked at a threshold is blocked at every lower one.
proof fn lemma_blocked_lower(
    cells: Seq<u8>,
    prev: Option<Move>,
    g: int,
    t: Option<u64>,
    u: Option<u64>,
)
    requires
        blocked(cells, prev, g, t),
        t is Some ==> u is Some && u.unwrap() <= t.unwrap(),
    ensures
        blocked(cells, prev, g, u),
{
    assert forall|ms: Seq<Move>| direct(prev, ms) && #[trigger] reaches_goal(cells, ms) implies u
        is Some && g + ms.len() >= u.unwrap() by {
        assert(t is Some && g + ms.len() >= t.unwrap());
    }
}

/// If the start is blocked at `t`, every way from it to the solved board
/// has at least `t` moves, and there is none if there is no `t`.
proof fn lemma_blocked_start(cells: Seq<u8>, t: Option<u64>)
    requires
        is_permutation(cells),
        blocked(cells, None, 0, t),
    ensures
        forall|ms: Seq<Move>| #[trigger] reaches_goal(cells, ms) ==> t is Some && ms.len()
            >= t.unwrap(),
{
    assert forall|ms: Seq<Move>| #[trigger] reaches_goal(cells, ms) implies t is Some && ms.len()
        >= t.unwrap() by {
        let short = lemma_shorten(cells, ms);
        assert(direct(None, short) && reaches_goal(cells, short));
    }
}

/// Where no way from the start to the solved board has fewer than
/// `shortest` moves, whatever solves the start has at least as many.
pub proof fn lemma_no_shorter_way(start: Seq<u8>, shortest: int, other: AStarSolution)
    requires
        at_least(start, shortest),
        other.solves(start),
    ensures
        other.moves@.len() >= shortest,
{
    lemma_walk_playable(other.moves@, boards(other.states@));
    assert(reaches_goal(start, other.moves@));
}

/// Both engines give ways of the same length: each gives a way from the
/// start to the solved board that no way undercuts, as their steps and
/// runs state, and two such ways have the same number of moves.
pub proof fn lemma_engines_agree(start: Seq<u8>, best_first: AStarSolution, deepening: AStarSolution)
    requires
        best_first.solves(start),
        at_least(start, best_first.moves@.len() as int),
        deepening.solves(start),
        at_least(start, deepening.moves@.len() as int),
    ensures
        best_first.moves@.len() == deepening.moves@.len(),
{
    lemma_no_shorter_way(start, best_first.moves@.len() as int, deepening);
    lemma_no_shorter_way(start, deepening.moves@.len() as int, best_first);
}

/// The arena `after` is the arena `before` with one child of node `p`
/// for each move that a search tries from it, in their order, added at
/// the end.
pub open spec fn with_successors(before: Seq<AStarNode>, p: int, after: Seq<AStarNode>) -> bool {
    let ms = tried_moves(before[p].previous_move, before[p].field@, 4);
    &&& after.len() == before.len() + ms.len()
    &&& forall|i: int| 0 <= i < before.len() ==> after[i] == before[i]
    &&& forall|j: int|
        0 <= j < ms.len() ==> {
            let n = #[trigger] after[before.len() + j];
            &&& n.id == before.len() + j
            &&& n.parent_id == p
            &&& n.previous_move == Some(ms[j])
            &&& n.field@ == slide(before[p].field@, ms[j])
        }
}

/// Every node of `a` is still there in `b`, unchanged.
pub open spec fn grown(a: Seq<AStarNode>, b: Seq<AStarNode>) -> bool {
    &&& a.len() <= b.len()
    &&& forall|i: int| 0 <= i < a.len() ==> a[i] == b[i]
}

/// The search engine that deepens step by step: a depth-first search
/// that is cut off where the cost passes a bound, repeated with the
/// bound raised to the lowest cost that was cut off. It keeps every node
/// that it has generated.
pub struct IDAStar {
    nodes: Vec<AStarNode>,
    start: Field,
}

impl IDAStar {
    /// Every node generated so far, in the order of generation.
    pub closed spec fn arena(&self) -> Seq<AStarNode> {
        self.nodes@
    }

    /// The state that the search begins with.
    pub closed spec fn start(&self) -> Field {
        self.start
    }

    /// The arena is a forest of trees rooted in the start state.
    pub open spec fn wf(&self) -> bool {
        self.start().wf() && tree_ok(self.arena(), self.start()@)
    }

    /// An engine that is about to search from `start`. Nothing has been
    /// generated yet.
    pub fn new(start: &Field) -> (r: IDAStar)
        ensures
            r.wf(),
            r.start() == *start,
            r.arena().len() == 0,
    {
        proof {
            use_type_invariant(start);
        }
        IDAStar { nodes: Vec::new(), start: *start }
    }

    /// Generates the children of node `node_id`, one for each move that
    /// stays on the board and does not undo the move that led to the
    /// node, and gives their numbers.
    fn successors(&mut self, node_id: usize) -> (v: Vec<usize>)
        requires
            old(self).wf(),
            node_id < old(self).arena().len(),
        ensures
            final(self).wf(),
            final(self).start() == old(self).start(),
            with_successors(old(self).arena(), node_id as int, final(self).arena()),
            v@.len() == final(self).arena().len() - old(self).arena().len(),
            forall|j: int| 0 <= j < v@.len() ==> v@[j] == old(self).arena().len() + j,
    {
        let node = self.nodes[node_id];
        let ghost before = self.nodes@;
        let ghost start = self.start@;
        let mut v: Vec<usize> = Vec::new();
        let moves = Move::iter();
        let mut k: usize = 0;
        proof {
            assert(node_ok(before, node_id as int, start));
        }
        while k < 4
            invariant
                k <= 4,
                moves@ == all_moves(),
                self.start == old(self).start,
                self.start.wf(),
                start == self.start@,
                before == old(self).arena(),
                node_id < before.len(),
                node == before[node_id as int],
                node.field.wf(),
                node.id == node_id,
                tree_ok(self.nodes@, start),
                self.nodes@.len() == before.len() + tried_moves(
                    node.previous_move,
                    node.field@,
                    k as int,
                ).len(),
                forall|i: int| 0 <= i < before.len() ==> self.nodes@[i] == before[i],
                forall|j: int|
                    0 <= j < tried_moves(node.previous_move, node.field@, k as int).len() ==> {
                        let n = #[trigger] self.nodes@[before.len() + j];
                        &&& n.id == before.len() + j
                        &&& n.parent_id == node_id
                        &&& n.previous_move == Some(
                            tried_moves(node.previous_move, node.field@, k as int)[j],
                        )
                        &&& n.field@ == slide(
                            node.field@,
                            tried_moves(node.previous_move, node.field@, k as int)[j],
                        )
                    },
                v@.len() == self.nodes@.len() - before.len(),
                forall|j: int| 0 <= j < v@.len() ==> v@[j] == before.len() + j,
            decreases 4 - k,
        {
            let m = moves[k];
            let ghost ms = tried_moves(node.previous_move, node.field@, k as int);
            proof {
                lemma_inverse_twice(m);
            }
            let undoes = node.previous_move.is_some() && node.previous_move.unwrap()
                == m.inverse();
            if !undoes && node.field.is_valid_move(m) {
                let mut field: Field = node.field;
                field.make_move(m);
                let mut new_node = AStarNode::from(field);
                new_node.id = self.nodes.len();
                new_node.parent_id = node.id;
                new_node.previous_move = Some(m);
                let ghost now = self.nodes@;
                self.nodes.push(new_node);
                assert(self.nodes@.len() == self.nodes.len());
                v.push(new_node.id);
                proof {
                    let after = self.nodes@;
                    assert(tried_moves(node.previous_move, node.field@, k + 1) == ms.push(m));
                    assert forall|i: int| 0 <= i < after.len() implies #[trigger] node_ok(
                        after,
                        i,
                        start,
                    ) by {
                        if i < now.len() {
                            assert(node_ok(now, i, start));
                        }
                    }
                    assert forall|j: int| 0 <= j < ms.len() + 1 implies {
                        let n = #[trigger] after[before.len() + j];
                        &&& n.id == before.len() + j
                        &&& n.parent_id == node_id
                        &&& n.previous_move == Some(ms.push(m)[j])
                        &&& n.field@ == slide(node.field@, ms.push(m)[j])
                    } by {
                        if j < ms.len() {
                            assert(after[before.len() + j] == now[before.len() + j]);
                        }
                    }
                }
            } else {
                proof {
                    assert(tried_moves(node.previous_move, node.field@, k + 1) == ms);
                }
            }
            k += 1;
        }
        v
    }

    /// Searches depth first below node `current_node_id`, which is `g`
    /// moves from the root, and goes no further where the moves made
    /// plus the estimate pass `bound`. Gives the way to the solved board
    /// if it meets it. If not, gives the lowest cost at which it was cut
    /// off, or nothing if it was cut off nowhere.
    fn search(&mut self, current_node_id: usize, g: u64, bound: u64) -> (r: Result<
        AStarSolution,
        Option<u64>,
    >)
        requires
            old(self).wf(),
            current_node_id < old(self).arena().len(),
            g == path_moves(old(self).arena(), current_node_id as int).len(),
            g <= bound + 1,
            bound <= BOUND_LIMIT,
        ensures
            final(self).wf(),
            final(self).start() == old(self).start(),
            grown(old(self).arena(), final(self).arena()),
            r matches Ok(sol) ==> sol.solves(old(self).start()@) && sol.moves@.len() <= bound,
            r matches Err(t) ==> {
                &&& blocked(
                    old(self).arena()[current_node_id as int].field@,
                    old(self).arena()[current_node_id as int].previous_move,
                    g as int,
                    t,
                )
                &&& t matches Some(tv) ==> tv > bound
            },
            g + manhattan(old(self).arena()[current_node_id as int].field@) > bound ==> {
                &&& r == Err::<AStarSolution, Option<u64>>(
                    Some((g + manhattan(old(self).arena()[current_node_id as int].field@)) as u64),
                )
                &&& final(self).arena() == old(self).arena()
            },
            r is Ok <==> meets_goal(
                old(self).arena()[current_node_id as int].field@,
                old(self).arena()[current_node_id as int].previous_move,
                g as int,
                bound as int,
            ),
            r matches Err(t) ==> cost_of(t) == least_cut(
                old(self).arena()[current_node_id as int].field@,
                old(self).arena()[current_node_id as int].previous_move,
                g as int,
                bound as int,
            ),
        decreases bound + 1 - g,
    {
        let ghost first = self.nodes@;
        let ghost start = self.start@;
        let current_node = self.nodes[current_node_id];
        let ghost cells = current_node.field@;
        let ghost prev = current_node.previous_move;
        proof {
            assert(node_ok(first, current_node_id as int, start));
            crate::heuristic::lemma_manhattan_bound(cells);
        }
        let f: u64 = g + calculate_heuristic(&current_node.field) as u64;
        if f > bound {
            proof {
                lemma_estimate_blocks(cells, prev, g as int, f);
            }
            return Err(Some(f));
        }
        if current_node.field.is_solved() {
            let (moves, states) = trace(&self.nodes, current_node_id, Ghost(start));
            proof {
                lemma_path_walk(first, current_node_id as int, start);
                let bs = boards(states@);
                assert(bs[bs.len() - 1] == cells);
            }
            return Ok(AStarSolution { moves, states });
        }
        let mut min: Option<u64> = None;
        let successors = self.successors(current_node_id);
        let ghost born = self.nodes@;
        let ghost ms = tried_moves(prev, cells, 4);
        let mut idx: usize = 0;
        while idx < successors.len()
            invariant
                idx <= successors@.len(),
                self.wf(),
                self.start() == old(self).start(),
                start == old(self).start()@,
                first == old(self).arena(),
                tree_ok(first, start),
                current_node_id < first.len(),
                cells == first[current_node_id as int].field@,
                prev == first[current_node_id as int].previous_move,
                is_permutation(cells),
                ms == tried_moves(prev, cells, 4),
                with_successors(first, current_node_id as int, born),
                grown(born, self.nodes@),
                successors@.len() == ms.len(),
                forall|j: int| 0 <= j < successors@.len() ==> successors@[j] == first.len() + j,
                g == path_moves(first, current_node_id as int).len(),
                g <= bound,
                bound <= BOUND_LIMIT,
                forall|j: int|
                    0 <= j < idx ==> blocked(
                        slide(cells, #[trigger] ms[j]),
                        Some(ms[j]),
                        g + 1,
                        min,
                    ),
                min matches Some(mv) ==> mv > bound,
                forall|j: int|
                    0 <= j < idx ==> !meets_goal(
                        slide(cells, #[trigger] ms[j]),
                        Some(ms[j]),
                        g + 1,
                        bound as int,
                    ),
                cost_of(min) == cuts_list(cells, ms, g as int, bound as int, idx as int),
                g + manhattan(cells) <= bound,
                cells != goal_cells(),
            decreases successors@.len() - idx,
        {
            let x_id = successors[idx];
            let ghost now = self.nodes@;
            let ghost m = ms[idx as int];
            proof {
                let child = born[first.len() + idx];
                assert(now[x_id as int] == child);
                assert(child.parent_id == current_node_id && child.previous_move == Some(m));
                assert(now[current_node_id as int] == first[current_node_id as int]);
                lemma_path_kept(first, now, current_node_id as int, start);
                assert(path_moves(now, x_id as int) == path_moves(now, current_node_id as int).push(
                    m,
                ));
            }
            match self.search(x_id, g + 1, bound) {
                Ok(solution) => {
                    proof {
                        lemma_meets_goal_children(cells, prev, g as int, bound as int);
                        assert(meets_goal(
                            slide(cells, ms[idx as int]),
                            Some(ms[idx as int]),
                            g + 1,
                            bound as int,
                        ));
                    }
                    return Ok(solution);
                },
                Err(t) => {
                    let ghost before = min;
                    match t {
                        Some(tv) => {
                            match min {
                                None => {
                                    min = t;
                                },
                                Some(mv) => {
                                    if tv < mv {
                                        min = t;
                                    }
                                },
                            }
                        },
                        None => {},
                    }
                    proof {
                        assert(blocked(slide(cells, m), Some(m), g + 1, t));
                        lemma_blocked_lower(slide(cells, m), Some(m), g + 1, t, min);
                        assert forall|j: int| 0 <= j < idx + 1 implies blocked(
                            slide(cells, #[trigger] ms[j]),
                            Some(ms[j]),
                            g + 1,
                            min,
                        ) by {
                            if j < idx {
                                lemma_blocked_lower(
                                    slide(cells, ms[j]),
                                    Some(ms[j]),
                                    g + 1,
                                    before,
                                    min,
                                );
                            }
                        }
                    }
                },
            }
            idx += 1;
        }
        proof {
            lemma_blocked_by_children(cells, prev, g as int, min);
            lemma_meets_goal_children(cells, prev, g as int, bound as int);
            lemma_least_cut_children(cells, prev, g as int, bound as int);
        }
        Err(min)
    }

    /// Searches for a way from the start state to the solved board and
    /// gives a shortest one. The bound on the cost begins at the estimate
    /// for the start state and rises from one search to the next. The
    /// search fails only where no way exists that is short enough to be
    /// tried, which no state that can be solved at all comes near.
    pub fn run(&mut self) -> (r: Result<AStarSolution, ()>)
        requires
            old(self).wf(),
        ensures
            final(self).wf(),
            final(self).start() == old(self).start(),
            grown(old(self).arena(), final(self).arena()),
            r matches Ok(sol) ==> sol.solves(old(self).start()@) && at_least(
                old(self).start()@,
                sol.moves@.len() as int,
            ),
            r is Err <==> at_least(old(self).start()@, BOUND_LIMIT + 1),
    {
        let ghost start = self.start@;
        let ghost first = self.nodes@;
        let root = AStarNode {
            field: self.start,
            heu_h: 0,
            heu_g: 0,
            heu: 0,
            id: self.nodes.len(),
            parent_id: self.nodes.len(),
            previous_move: None,
        };
        self.nodes.push(root);
        assert(self.nodes@.len() == self.nodes.len());
        proof {
            let after = self.nodes@;
            assert forall|i: int| 0 <= i < after.len() implies #[trigger] node_ok(
                after,
                i,
                start,
            ) by {
                if i < first.len() {
                    assert(node_ok(first, i, start));
                }
            }
            assert forall|ms: Seq<Move>| #[trigger] reaches_goal(start, ms) implies ms.len()
                >= manhattan(start) by {
                lemma_admissible(start, ms);
            }
            crate::heuristic::lemma_manhattan_bound(start);
        }
        let mut bound: u64 = calculate_heuristic(&self.start) as u64;
        loop
            invariant
                self.wf(),
                self.start() == old(self).start(),
                start == old(self).start()@,
                is_permutation(start),
                grown(old(self).arena(), self.nodes@),
                root.id < self.nodes@.len(),
                self.nodes@[root.id as int] == root,
                root.parent_id == root.id,
                root.previous_move is None,
                root.field@ == start,
                bound <= BOUND_LIMIT,
                at_least(start, bound as int),
            decreases BOUND_LIMIT - bound,
        {
            let ghost now = self.nodes@;
            match self.search(root.id, 0, bound) {
                Ok(solution) => {
                    proof {
                        lemma_walk_playable(solution.moves@, boards(solution.states@));
                        assert(reaches_goal(start, solution.moves@));
                        assert forall|ms: Seq<Move>| #[trigger]
                            reaches_goal(start, ms) implies ms.len() >= solution.moves@.len() by {
                            assert(ms.len() >= bound);
                        }
                    }
                    return Ok(solution);
                },
                Err(t) => {
                    proof {
                        lemma_blocked_start(start, t);
                    }
                    match t {
                        None => {
                            return Err(());
                        },
                        Some(tv) => {
                            if tv > BOUND_LIMIT {
                                return Err(());
                            }
                            bound = tv;
                        },
                    }
                },
            }
        }
    }
}

} // verus!
