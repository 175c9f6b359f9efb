use vstd::prelude::*;
use std::collections::{HashMap, HashSet};
use crate::arena::{is_root, node_ok, path_moves, path_states, trace, tree_ok, AStarNode};
use crate::arena::{lemma_path_kept, lemma_path_walk};
use crate::board::{all_moves, goal_cells, is_permutation, legal, slide};
use crate::board::lemma_slide_permutation;
use crate::field::{lemma_unpack_injective, Field, Move};
use crate::frontier::Frontier;
use crate::heuristic::{heuristic_change, lemma_heuristic_identity, manhattan};
use crate::nibbles::unpack;
use crate::path::{boards, end_of, is_solution, leads, no_way, playable, reaches_goal};
use crate::path::{shortest, lemma_move_colour, lemma_walk_playable, lemma_way_colour};
use crate::heuristic::{lemma_estimate_along, lemma_heuristic_step, lemma_manhattan_bound};
use crate::idastar::at_least;

pub use crate::heuristic::{calculate_heuristic, calculate_heuristic_change};

verus! {

broadcast use vstd::std_specs::hash::group_hash_axioms;

/// A way from a start state to the solved board: the moves, and the
/// states that they lead through, the start first and the solved board
/// last.
pub struct AStarSolution {
    pub moves: Vec<Move>,
    pub states: Vec<Field>,
}

impl AStarSolution {
    /// Playing the moves from `start` gives the states one after the
    /// other and ends on the solved board.
    pub open spec fn solves(&self, start: Seq<u8>) -> bool {
        is_solution(start, self.moves@, boards(self.states@))
    }
}

/// Some node of the arena holds the board `cells`.
pub open spec fn seen(nodes: Seq<AStarNode>, cells: Seq<u8>) -> bool {
    exists|i: int| 0 <= i < nodes.len() && (#[trigger] nodes[i]).field@ == cells
}

/// The costs of node `i`: the moves made so far, the estimate of the
/// rest, and their sum.
pub open spec fn cost_ok(nodes: Seq<AStarNode>, i: int) -> bool {
    let n = nodes[i];
    &&& n.heu_g == path_moves(nodes, i).len()
    &&& n.heu_h == manhattan(n.field@)
    &&& n.heu == n.heu_g + n.heu_h
}

/// The place of a node in the order in which the waiting nodes are
/// taken: the lower total cost first, and among nodes of equal cost the
/// one with fewer moves behind it, which is the one with the higher
/// estimate.
pub open spec fn rank(n: AStarNode) -> int {
    n.heu * 128 + 127 - n.heu_h
}

/// Every node carries its costs.
pub open spec fn costs_ok(nodes: Seq<AStarNode>) -> bool {
    forall|i: int| 0 <= i < nodes.len() ==> #[trigger] cost_ok(nodes, i)
}

/// No two nodes hold the same board.
pub open spec fn states_distinct(nodes: Seq<AStarNode>) -> bool {
    forall|i: int, j: int|
        0 <= i < j < nodes.len() ==> (#[trigger] nodes[i]).field@ != (#[trigger] nodes[j]).field@
}

/// What holds of a best-first search between two steps: one tree, rooted
/// in node 0; every node with its costs; every board generated once and
/// marked as added; the waiting nodes ordered by their own cost; and the
/// expanded states, none of which waits.
pub open spec fn search_ok(
    nodes: Seq<AStarNode>,
    waiting: Map<usize, u128>,
    added: Set<u64>,
    closed: Map<u64, usize>,
) -> bool {
    &&& 0 < nodes.len() <= usize::MAX
    &&& tree_ok(nodes, nodes[0].field@)
    &&& forall|i: int| 0 <= i < nodes.len() ==> (is_root(nodes, i) <==> i == 0)
    &&& costs_ok(nodes)
    &&& states_distinct(nodes)
    &&& forall|id: usize| #[trigger]
        waiting.contains_key(id) ==> id < nodes.len() && waiting[id] == rank(nodes[id as int])
    &&& forall|s: u64| #[trigger] added.contains(s) <==> seen(nodes, unpack(s))
    &&& forall|s: u64| #[trigger]
        closed.contains_key(s) ==> closed[s] < nodes.len() && nodes[closed[s] as int].field@
            == unpack(s) && !waiting.contains_key(closed[s])
}

/// Node `i` has been expanded: its state is marked as closed, with the
/// node's own number.
pub open spec fn is_expanded(nodes: Seq<AStarNode>, closed: Map<u64, usize>, i: int) -> bool {
    closed.contains_key(nodes[i].field.packed()) && closed[nodes[i].field.packed()] == i
}

/// Node `i` waits, or it has been expanded, or it holds the solved
/// board.
pub open spec fn placed(
    nodes: Seq<AStarNode>,
    waiting: Map<usize, u128>,
    closed: Map<u64, usize>,
    i: int,
) -> bool {
    ||| waiting.contains_key(i as usize)
    ||| is_expanded(nodes, closed, i)
    ||| nodes[i].field@ == goal_cells()
}

/// If move `m` is legal on the board of node `i`, some node holds the
/// board that it leads to.
pub open spec fn move_done(nodes: Seq<AStarNode>, i: int, m: Move) -> bool {
    legal(nodes[i].field@, m) ==> seen(nodes, slide(nodes[i].field@, m))
}

/// Every board next to that of node `i` is held by some node.
pub open spec fn node_done(nodes: Seq<AStarNode>, i: int) -> bool {
    &&& move_done(nodes, i, Move::Up)
    &&& move_done(nodes, i, Move::Down)
    &&& move_done(nodes, i, Move::Left)
    &&& move_done(nodes, i, Move::Right)
}

/// Nothing is lost on the way: every node waits, has been expanded or
/// holds the solved board; and a node that has been expanded does not
/// hold the solved board and has every board next to its own in the
/// arena.
pub open spec fn thorough(
    nodes: Seq<AStarNode>,
    waiting: Map<usize, u128>,
    closed: Map<u64, usize>,
) -> bool {
    &&& forall|i: int| 0 <= i < nodes.len() ==> #[trigger] placed(nodes, waiting, closed, i)
    &&& forall|s: u64| #[trigger]
        closed.contains_key(s) ==> node_done(nodes, closed[s] as int) && nodes[closed[s] as int].field@
            != goal_cells()
}

/// A board that some node holds is still held when nodes are added.
pub proof fn lemma_seen_kept(a: Seq<AStarNode>, b: Seq<AStarNode>, cells: Seq<u8>)
    requires
        a.len() <= b.len(),
        forall|i: int| 0 <= i < a.len() ==> a[i] == b[i],
        seen(a, cells),
    ensures
        seen(b, cells),
{
    let i = choose|i: int| 0 <= i < a.len() && (#[trigger] a[i]).field@ == cells;
    assert(b[i].field@ == cells);
}

/// What is done for a node stays done when nodes are added.
pub proof fn lemma_done_kept(a: Seq<AStarNode>, b: Seq<AStarNode>, i: int)
    requires
        a.len() <= b.len(),
        forall|j: int| 0 <= j < a.len() ==> a[j] == b[j],
        0 <= i < a.len(),
    ensures
        forall|m: Move| move_done(a, i, m) ==> move_done(b, i, m),
        node_done(a, i) ==> node_done(b, i),
{
    assert forall|m: Move| move_done(a, i, m) implies move_done(b, i, m) by {
        if legal(a[i].field@, m) {
            lemma_seen_kept(a, b, slide(a[i].field@, m));
        }
    }
}

/// No way from `start` to the board of a node has fewer moves than the
/// node has behind it.
pub open spec fn depths_least(nodes: Seq<AStarNode>, start: Seq<u8>) -> bool {
    forall|i: int|
        0 <= i < nodes.len() ==> shortest(start, (#[trigger] nodes[i]).field@, nodes[i].heu_g as int)
}

/// Every node that holds the solved board waits.
pub open spec fn goal_waits(nodes: Seq<AStarNode>, waiting: Map<usize, u128>) -> bool {
    forall|i: int|
        0 <= i < nodes.len() && (#[trigger] nodes[i]).field@ == goal_cells()
            ==> waiting.contains_key(i as usize)
}

/// On a way from a board in the arena to a board outside it, some node
/// waits: the way enters it after the moves `pre` and goes on with the
/// moves `post`.
proof fn lemma_frontier_on_way(
    nodes: Seq<AStarNode>,
    waiting: Map<usize, u128>,
    closed: Map<u64, usize>,
    cells: Seq<u8>,
    moves: Seq<Move>,
) -> (r: (int, Seq<Move>, Seq<Move>))
    requires
        nodes.len() <= usize::MAX,
        thorough(nodes, waiting, closed),
        goal_waits(nodes, waiting),
        seen(nodes, cells),
        playable(cells, moves),
        !seen(nodes, end_of(cells, moves)),
    ensures
        0 <= r.0 < nodes.len(),
        waiting.contains_key(r.0 as usize),
        leads(cells, r.1, nodes[r.0].field@),
        leads(nodes[r.0].field@, r.2, end_of(cells, moves)),
        r.1.len() + r.2.len() == moves.len(),
    decreases moves.len(),
{
    let i = choose|i: int| 0 <= i < nodes.len() && (#[trigger] nodes[i]).field@ == cells;
    if waiting.contains_key(i as usize) {
        (i, Seq::empty(), moves)
    } else {
        assert(placed(nodes, waiting, closed, i));
        assert(is_expanded(nodes, closed, i));
        assert(node_done(nodes, i));
        assert(moves.len() > 0);
        let m = moves[0];
        match m {
            Move::Up => {
                assert(move_done(nodes, i, Move::Up));
            },
            Move::Down => {
                assert(move_done(nodes, i, Move::Down));
            },
            Move::Left => {
                assert(move_done(nodes, i, Move::Left));
            },
            Move::Right => {
                assert(move_done(nodes, i, Move::Right));
            },
        }
        let rest = lemma_frontier_on_way(nodes, waiting, closed, slide(cells, m), moves.drop_first());
        let pre = seq![m] + rest.1;
        assert(pre[0] == m);
        assert(pre.drop_first() =~= rest.1);
        (rest.0, pre, rest.2)
    }
}

/// Node `i` holds a state and carries the estimate for it and the sum
/// of its costs.
pub open spec fn priced(nodes: Seq<AStarNode>, i: int) -> bool {
    let n = nodes[i];
    &&& n.field.wf()
    &&& n.heu_h == manhattan(n.field@)
    &&& n.heu == n.heu_g + n.heu_h
}

/// A node on a shorter way to a board ranks before a node that is one
/// move short of that board on a longer way.
proof fn lemma_rank_decides(
    g_here: int,
    h_here: int,
    g_other: int,
    h_other: int,
    h_next: int,
    before: int,
    after: int,
)
    requires
        0 <= h_here <= 90,
        0 <= h_other <= 90,
        0 <= before,
        0 <= after,
        g_other <= before,
        h_other <= after + h_next,
        before + after <= g_here - 1,
        h_here >= h_next - 1,
    ensures
        (g_other + h_other) * 128 + 127 - h_other < (g_here + h_here) * 128 + 127 - h_here,
{
}

/// The first way on which the search comes to a board is a shortest
/// one. When node `p` is taken, which waits with the lowest rank, and a
/// move from it leads to a board that no node holds yet, then no way
/// from the start to that board has fewer moves than `p` has behind it
/// and one more.
proof fn lemma_first_way_is_least(
    nodes: Seq<AStarNode>,
    waiting: Map<usize, u128>,
    closed: Map<u64, usize>,
    p: int,
    m: Move,
    way: Seq<Move>,
)
    requires
        0 < nodes.len() <= usize::MAX,
        forall|i: int| 0 <= i < nodes.len() ==> #[trigger] priced(nodes, i),
        forall|q: usize| #[trigger]
            waiting.contains_key(q) ==> q < nodes.len() && waiting[q] == rank(nodes[q as int]),
        thorough(nodes, waiting, closed),
        goal_waits(nodes, waiting),
        depths_least(nodes, nodes[0].field@),
        0 <= p < nodes.len(),
        waiting.contains_key(p as usize),
        forall|q: usize| #[trigger] waiting.contains_key(q) ==> waiting[p as usize] <= waiting[q],
        leads(nodes[0].field@, way, nodes[p].field@),
        way.len() == nodes[p].heu_g,
        legal(nodes[p].field@, m),
        !seen(nodes, slide(nodes[p].field@, m)),
    ensures
        shortest(nodes[0].field@, slide(nodes[p].field@, m), nodes[p].heu_g + 1),
{
    let start = nodes[0].field@;
    let here = nodes[p].field@;
    let next = slide(here, m);
    let g = nodes[p].heu_g as int;
    assert(priced(nodes, 0));
    assert(priced(nodes, p));
    assert(seen(nodes, start));
    lemma_way_colour(start, way);
    lemma_move_colour(here, m);
    lemma_heuristic_step(here, m);
    lemma_manhattan_bound(here);
    assert forall|ms: Seq<Move>| #[trigger] leads(start, ms, next) implies ms.len() >= g + 1 by {
        if ms.len() < g + 1 {
            lemma_way_colour(start, ms);
            assert(ms.len() <= g - 1);
            let r = lemma_frontier_on_way(nodes, waiting, closed, start, ms);
            let y = r.0;
            assert(priced(nodes, y));
            assert(shortest(start, nodes[y].field@, nodes[y].heu_g as int));
            assert(leads(start, r.1, nodes[y].field@));
            lemma_estimate_along(nodes[y].field@, r.2);
            lemma_manhattan_bound(nodes[y].field@);
            assert(waiting.contains_key(y as usize));
            assert(waiting[p as usize] == rank(nodes[p]));
            assert(waiting[y as usize] == rank(nodes[y]));
            lemma_rank_decides(
                g,
                nodes[p].heu_h as int,
                nodes[y].heu_g as int,
                nodes[y].heu_h as int,
                manhattan(next),
                r.1.len() as int,
                r.2.len() as int,
            );
            assert(false);
        }
    }
}

/// Where nothing waits and no node that holds the solved board has been
/// taken, every board that moves lead to from a board in the arena is in
/// the arena too.
proof fn lemma_walk_seen(
    nodes: Seq<AStarNode>,
    waiting: Map<usize, u128>,
    closed: Map<u64, usize>,
    cells: Seq<u8>,
    moves: Seq<Move>,
)
    requires
        thorough(nodes, waiting, closed),
        nodes.len() <= usize::MAX,
        forall|id: usize| !waiting.contains_key(id),
        forall|i: int| 0 <= i < nodes.len() ==> (#[trigger] nodes[i]).field@ != goal_cells(),
        seen(nodes, cells),
        crate::path::playable(cells, moves),
    ensures
        seen(nodes, crate::path::end_of(cells, moves)),
    decreases moves.len(),
{
    if moves.len() > 0 {
        let i = choose|i: int| 0 <= i < nodes.len() && (#[trigger] nodes[i]).field@ == cells;
        assert(placed(nodes, waiting, closed, i));
        assert(is_expanded(nodes, closed, i));
        assert(node_done(nodes, i));
        let m = moves[0];
        match m {
            Move::Up => {
                assert(move_done(nodes, i, Move::Up));
            },
            Move::Down => {
                assert(move_done(nodes, i, Move::Down));
            },
            Move::Left => {
                assert(move_done(nodes, i, Move::Left));
            },
            Move::Right => {
                assert(move_done(nodes, i, Move::Right));
            },
        }
        lemma_walk_seen(nodes, waiting, closed, slide(cells, m), moves.drop_first());
    }
}

/// Whether expanding node `p` generates a node for move `m`: not for the
/// move that undoes the one that led to `p`, not for a move off the
/// board, and not for a board that some node holds already.
pub open spec fn keeps(nodes: Seq<AStarNode>, p: int, m: Move) -> bool {
    &&& nodes[p].previous_move != Some(m.inverse_spec())
    &&& legal(nodes[p].field@, m)
    &&& !seen(nodes, slide(nodes[p].field@, m))
}

/// The moves, among the first `k` of the four, for which expanding node
/// `p` generates a node.
pub open spec fn new_moves(nodes: Seq<AStarNode>, p: int, k: int) -> Seq<Move>
    decreases k,
{
    if k <= 0 {
        Seq::empty()
    } else if keeps(nodes, p, all_moves()[k - 1]) {
        new_moves(nodes, p, k - 1).push(all_moves()[k - 1])
    } else {
        new_moves(nodes, p, k - 1)
    }
}

/// The node `n` is what move `m` makes of `parent`, with number `id`: one
/// move further from the root, and its estimate changed by what the move
/// changes.
pub open spec fn is_child(n: AStarNode, parent: AStarNode, m: Move, id: int) -> bool {
    &&& n.id == id
    &&& n.parent_id == parent.id
    &&& n.previous_move == Some(m)
    &&& n.field.wf()
    &&& n.field@ == slide(parent.field@, m)
    &&& n.heu_g == parent.heu_g + 1
    &&& n.heu_h == parent.heu_h + heuristic_change(parent.field@, m)
    &&& n.heu == n.heu_g + n.heu_h
}

/// The arena `after` is the arena `before` with the nodes that expanding
/// node `p` generates for the first `k` of the four moves, in their
/// order, added at the end.
pub open spec fn expanded(
    before: Seq<AStarNode>,
    p: int,
    k: int,
    after: Seq<AStarNode>,
) -> bool {
    let ms = new_moves(before, p, k);
    &&& after.len() == before.len() + ms.len()
    &&& forall|i: int| 0 <= i < before.len() ==> after[i] == before[i]
    &&& forall|j: int|
        0 <= j < ms.len() ==> is_child(
            #[trigger] after[before.len() + j],
            before[p],
            ms[j],
            before.len() + j,
        )
}

/// The place of a node in the order of the waiting nodes.
fn rank_of(node: &AStarNode) -> (r: u128)
    requires
        node.heu_h <= 90,
        node.heu == node.heu_g + node.heu_h,
    ensures
        r == rank(*node),
{
    node.heu * 128 + (127 - node.heu_h) as u128
}

/// A node is never further from its root than its number says.
pub proof fn lemma_depth_bound(nodes: Seq<AStarNode>, i: int)
    requires
        0 <= i,
    ensures
        path_moves(nodes, i).len() <= i,
    decreases i,
{
    if 0 <= i < nodes.len() && nodes[i].parent_id < i && nodes[i].previous_move is Some {
        lemma_depth_bound(nodes, nodes[i].parent_id as int);
    }
}

/// Two different moves lead to two different boards.
pub proof fn lemma_moves_part(cells: Seq<u8>, a: Move, b: Move)
    requires
        is_permutation(cells),
        legal(cells, a),
        legal(cells, b),
        a != b,
    ensures
        slide(cells, a) != slide(cells, b),
{
    lemma_slide_permutation(cells, a);
    lemma_slide_permutation(cells, b);
}

/// A node holds the board that `s` packs exactly if some node holds the
/// board `cells`, where `cells` is what `s` unpacks to.
proof fn lemma_seen_after_push(nodes: Seq<AStarNode>, n: AStarNode, cells: Seq<u8>)
    ensures
        seen(nodes.push(n), cells) <==> (seen(nodes, cells) || n.field@ == cells),
{
    let after = nodes.push(n);
    if seen(after, cells) {
        let i = choose|i: int| 0 <= i < after.len() && (#[trigger] after[i]).field@ == cells;
        if i < nodes.len() {
            assert(nodes[i].field@ == cells);
        }
    }
    if seen(nodes, cells) {
        let i = choose|i: int| 0 <= i < nodes.len() && (#[trigger] nodes[i]).field@ == cells;
        assert(after[i].field@ == cells);
    }
    if n.field@ == cells {
        assert(after[nodes.len() as int].field@ == cells);
    }
}

/// Adding a child of node `p` for a board that no node holds keeps the
/// search in order.
proof fn lemma_push_child(
    nodes: Seq<AStarNode>,
    waiting: Map<usize, u128>,
    added: Set<u64>,
    closed: Map<u64, usize>,
    p: int,
    m: Move,
    n: AStarNode,
)
    requires
        search_ok(nodes, waiting, added, closed),
        0 <= p < nodes.len(),
        nodes.len() < usize::MAX,
        legal(nodes[p].field@, m),
        !seen(nodes, n.field@),
        is_child(n, nodes[p], m, nodes.len() as int),
    ensures
        search_ok(
            nodes.push(n),
            waiting.insert(nodes.len() as usize, rank(n) as u128),
            added.insert(n.field.packed()),
            closed,
        ),
{
    let after = nodes.push(n);
    let id = nodes.len() as usize;
    let start = nodes[0].field@;
    assert(node_ok(nodes, p, start));
    assert(cost_ok(nodes, p));
    lemma_slide_permutation(nodes[p].field@, m);
    lemma_heuristic_identity(nodes[p].field@, m);
    crate::heuristic::lemma_manhattan_bound(n.field@);
    assert forall|i: int| 0 <= i < after.len() implies #[trigger] node_ok(after, i, start) by {
        if i < nodes.len() {
            assert(node_ok(nodes, i, start));
        }
    }
    assert forall|i: int| 0 <= i < after.len() implies #[trigger] cost_ok(after, i) by {
        if i < nodes.len() {
            assert(cost_ok(nodes, i));
            lemma_path_kept(nodes, after, i, start);
        } else {
            lemma_path_kept(nodes, after, p, start);
            lemma_heuristic_identity(nodes[p].field@, m);
        }
    }
    assert forall|i: int, j: int| 0 <= i < j < after.len() implies (#[trigger] after[i]).field@
        != (#[trigger] after[j]).field@ by {
        if j < nodes.len() {
            assert(nodes[i].field@ != nodes[j].field@);
        } else {
            assert(nodes[i].field@ != n.field@);
        }
    }
    assert forall|s: u64| #[trigger]
        added.insert(n.field.packed()).contains(s) <==> seen(after, unpack(s)) by {
        lemma_seen_after_push(nodes, n, unpack(s));
        assert(added.contains(s) <==> seen(nodes, unpack(s)));
        if n.field@ == unpack(s) {
            lemma_unpack_injective(n.field.packed(), s);
        }
    }
    assert forall|s: u64| #[trigger] closed.contains_key(s) implies closed[s] < after.len()
        && after[closed[s] as int].field@ == unpack(s) && !waiting.insert(
        id,
        rank(n) as u128,
    ).contains_key(
        closed[s],
    ) by {}
    assert(after[0] == nodes[0]);
    assert(tree_ok(after, after[0].field@));
    assert forall|i: int| 0 <= i < after.len() implies (is_root(after, i) <==> i == 0) by {
        if i < nodes.len() {
            assert(is_root(nodes, i) <==> i == 0);
        }
    }
    assert forall|w: usize| #[trigger]
        waiting.insert(id, rank(n) as u128).contains_key(w) implies w < after.len()
        && waiting.insert(id, rank(n) as u128)[w] == rank(after[w as int]) by {
        if w != id {
            assert(waiting.contains_key(w));
        }
    }
}

/// The moves for which expanding a node generates a node are legal, and
/// each is one of the moves that were tried.
proof fn lemma_new_moves_tried(nodes: Seq<AStarNode>, p: int, k: int, j: int)
    requires
        0 <= k <= 4,
        0 <= j < new_moves(nodes, p, k).len(),
    ensures
        legal(nodes[p].field@, new_moves(nodes, p, k)[j]),
        exists|i: int| 0 <= i < k && all_moves()[i] == new_moves(nodes, p, k)[j],
    decreases k,
{
    if k > 0 {
        let before = new_moves(nodes, p, k - 1);
        if j < before.len() {
            lemma_new_moves_tried(nodes, p, k - 1, j);
            let i = choose|i: int| 0 <= i < k - 1 && all_moves()[i] == before[j];
            assert(0 <= i < k && all_moves()[i] == new_moves(nodes, p, k)[j]);
        } else {
            assert(all_moves()[k - 1] == new_moves(nodes, p, k)[j]);
        }
    }
}

/// While a node is being expanded, the children generated so far do not
/// change which of the remaining moves generate a node.
proof fn lemma_keeps_unchanged(before: Seq<AStarNode>, p: int, k: int, now: Seq<AStarNode>)
    requires
        0 <= k < 4,
        0 <= p < before.len(),
        before[p].field.wf(),
        expanded(before, p, k, now),
    ensures
        keeps(now, p, all_moves()[k]) <==> keeps(before, p, all_moves()[k]),
{
    let m = all_moves()[k];
    let cells = before[p].field@;
    assert(now[p] == before[p]);
    if legal(cells, m) {
        let next = slide(cells, m);
        if seen(before, next) {
            let i = choose|i: int| 0 <= i < before.len() && (#[trigger] before[i]).field@ == next;
            assert(now[i].field@ == next);
        }
        if seen(now, next) && !seen(before, next) {
            let i = choose|i: int| 0 <= i < now.len() && (#[trigger] now[i]).field@ == next;
            if i < before.len() {
                assert(before[i].field@ == next);
            } else {
                let j = i - before.len();
                let ms = new_moves(before, p, k);
                assert(is_child(now[before.len() + j], before[p], ms[j], before.len() + j));
                lemma_new_moves_tried(before, p, k, j);
                let t = choose|t: int| 0 <= t < k && all_moves()[t] == ms[j];
                assert(ms[j] != m);
                lemma_moves_part(cells, ms[j], m);
            }
        }
    }
}

/// The best-first search engine. It keeps every node that it has
/// generated, the nodes that wait to be expanded, the states that have
/// been generated and the states that have been expanded.
///
/// A state is generated once, and the first way to it stays. Among
/// waiting nodes of equal cost the one with fewer moves behind it is
/// taken first, so that the first way to a state is a shortest one, and
/// so is the way that the search gives to the solved board.
pub struct AStar {
    nodes: Vec<AStarNode>,
    open: Frontier,
    added: HashSet<u64>,
    closed: HashMap<u64, usize>,
}

impl AStar {
    /// Every node generated so far, in the order of generation.
    pub closed spec fn arena(&self) -> Seq<AStarNode> {
        self.nodes@
    }

    /// The nodes that wait to be expanded, each with its cost.
    pub closed spec fn waiting(&self) -> Map<usize, u128> {
        self.open@
    }

    /// The packed states that have been generated.
    pub closed spec fn added_ids(&self) -> Set<u64> {
        self.added@
    }

    /// The packed states that have been expanded, each with its node.
    pub closed spec fn closed_ids(&self) -> Map<u64, usize> {
        self.closed@
    }

    /// How many states have been expanded.
    pub closed spec fn expanded_count(&self) -> nat {
        self.closed@.dom().len()
    }

    /// The waiting nodes are kept in the order of their costs.
    pub closed spec fn heap_ok(&self) -> bool {
        self.open.wf()
    }

    /// The tree, the costs and the marks are in order.
    pub open spec fn sound(&self) -> bool {
        self.heap_ok() && search_ok(
            self.arena(),
            self.waiting(),
            self.added_ids(),
            self.closed_ids(),
        )
    }

    /// The engine is in order between two steps. Until a step has given
    /// a way to the solved board, every node has been reached on a
    /// shortest way.
    pub open spec fn wf(&self) -> bool {
        &&& self.sound()
        &&& thorough(self.arena(), self.waiting(), self.closed_ids())
        &&& self.reached() || depths_least(self.arena(), self.start())
    }

    /// Some node that holds the solved board has been taken from the
    /// waiting nodes: a step has given the way to it.
    pub open spec fn reached(&self) -> bool {
        exists|i: int|
            0 <= i < self.arena().len() && (#[trigger] self.arena()[i]).field@ == goal_cells()
                && !self.waiting().contains_key(i as usize)
    }

    /// The board that the search began with.
    pub open spec fn start(&self) -> Seq<u8> {
        self.arena()[0].field@
    }

    /// Node `p` waits, and no waiting node costs less.
    pub open spec fn best(&self, p: usize) -> bool {
        &&& self.waiting().contains_key(p)
        &&& forall|q: usize| #[trigger]
            self.waiting().contains_key(q) ==> self.waiting()[p] <= self.waiting()[q]
    }

    /// What one step does when it takes node `p` from the waiting nodes.
    /// If `p` holds the solved board, the step gives the way to it and
    /// changes nothing else. If not, `p` is marked as expanded and its
    /// children are generated, each of which waits from now on.
    pub open spec fn stepped(
        pre: AStar,
        p: usize,
        post: AStar,
        r: Option<Result<AStarSolution, ()>>,
    ) -> bool {
        let node = pre.arena()[p as int];
        if node.field@ == goal_cells() {
            &&& r matches Some(Ok(sol)) && sol.moves@ == path_moves(pre.arena(), p as int)
                && sol.states@ == path_states(pre.arena(), p as int)
            &&& post.arena() == pre.arena()
            &&& post.waiting() == pre.waiting().remove(p)
            &&& post.added_ids() == pre.added_ids()
            &&& post.closed_ids() == pre.closed_ids()
        } else {
            &&& r is None
            &&& expanded(pre.arena(), p as int, 4, post.arena())
            &&& forall|id: usize| #[trigger]
                post.waiting().contains_key(id) <==> (pre.waiting().contains_key(id) && id != p)
                    || pre.arena().len() <= id < post.arena().len()
            &&& post.closed_ids() == pre.closed_ids().insert(node.field.packed(), p)
        }
    }

    /// What one step does. Where nothing waits it fails and changes
    /// nothing. Elsewhere it takes some node of the lowest rank.
    pub open spec fn step_takes(
        pre: AStar,
        post: AStar,
        r: Option<Result<AStarSolution, ()>>,
    ) -> bool {
        if pre.exhausted() {
            &&& r == Some(Err::<AStarSolution, ()>(()))
            &&& post.arena() == pre.arena()
            &&& post.waiting() == pre.waiting()
            &&& post.added_ids() == pre.added_ids()
            &&& post.closed_ids() == pre.closed_ids()
        } else {
            exists|p: usize| #[trigger] pre.best(p) && AStar::stepped(pre, p, post, r)
        }
    }

    /// What steps do, one after the other. The engine goes through the
    /// states of `trail`, from `pre` to `post`, one step from each state
    /// to the next. Every step but the last has no result, and the last
    /// one gives `r`. With no step at all there is no result.
    pub open spec fn ran(
        pre: AStar,
        post: AStar,
        trail: Seq<AStar>,
        r: Option<Result<AStarSolution, ()>>,
    ) -> bool {
        &&& trail.len() > 0
        &&& trail[0] == pre
        &&& trail[trail.len() - 1] == post
        &&& trail.len() == 1 ==> r is None
        &&& forall|i: int|
            0 <= i < trail.len() - 1 ==> AStar::step_takes(
                #[trigger] trail[i],
                trail[i + 1],
                if i == trail.len() - 2 {
                    r
                } else {
                    None
                },
            )
    }

    /// While no way to the solved board has been given, a node of the
    /// lowest rank is taken on a shortest way, and so is each child that
    /// it gets.
    proof fn lemma_child_depth(&self, p: usize, m: Move)
        requires
            self.wf(),
            !self.reached(),
            self.best(p),
            keeps(self.arena(), p as int, m),
        ensures
            shortest(
                self.start(),
                slide(self.arena()[p as int].field@, m),
                self.arena()[p as int].heu_g + 1,
            ),
    {
        let nodes = self.arena();
        let start = self.start();
        assert forall|i: int| 0 <= i < nodes.len() implies #[trigger] priced(nodes, i) by {
            assert(node_ok(nodes, i, start));
            assert(cost_ok(nodes, i));
        }
        assert(goal_waits(nodes, self.waiting())) by {
            assert forall|i: int|
                0 <= i < nodes.len() && (#[trigger] nodes[i]).field@
                    == goal_cells() implies self.waiting().contains_key(i as usize) by {}
        }
        assert(cost_ok(nodes, p as int));
        lemma_path_walk(nodes, p as int, start);
        lemma_walk_playable(path_moves(nodes, p as int), boards(path_states(nodes, p as int)));
        lemma_first_way_is_least(
            nodes,
            self.waiting(),
            self.closed_ids(),
            p as int,
            m,
            path_moves(nodes, p as int),
        );
    }

    /// The search does not fail where there is a way: if nothing waits
    /// although moves lead from the start to the solved board, a step has
    /// given a way to it before.
    pub proof fn lemma_fails_only_without_way(&self, moves: Seq<Move>)
        requires
            self.wf(),
            self.exhausted(),
            crate::path::reaches_goal(self.start(), moves),
        ensures
            self.reached(),
    {
        let nodes = self.arena();
        if !self.reached() {
            assert forall|i: int| 0 <= i < nodes.len() implies (#[trigger] nodes[i]).field@
                != goal_cells() by {
                if nodes[i].field@ == goal_cells() {
                    assert(!self.waiting().contains_key(i as usize));
                }
            }
            assert(nodes[0].field@ == self.start());
            lemma_walk_seen(nodes, self.waiting(), self.closed_ids(), self.start(), moves);
            let j = choose|j: int|
                0 <= j < nodes.len() && (#[trigger] nodes[j]).field@ == goal_cells();
            assert(false);
        }
    }

    /// An engine that is about to search from `start`: the root is the
    /// only node, and it waits.
    pub fn new(start: &Field) -> (r: AStar)
        ensures
            r.wf(),
            r.start() == start@,
            r.arena().len() == 1,
            r.arena()[0].field == *start,
            r.waiting().dom() == set![0usize],
            r.closed_ids() == Map::<u64, usize>::empty(),
            r.expanded_count() == 0,
    {
        let mut astar = AStar {
            nodes: Vec::new(),
            open: Frontier::new(),
            added: HashSet::new(),
            closed: HashMap::new(),
        };
        let mut node = AStarNode::new();
        node.field = *start;
        node.heu_h = calculate_heuristic(start) as u64;
        node.heu_g = 0;
        node.heu = node.heu_h as u128;
        node.id = astar.nodes.len();
        node.parent_id = astar.nodes.len();
        astar.nodes.push(node);
        astar.open.push(rank_of(&node), node.id);
        astar.added.insert(start.unique_id());
        proof {
            use_type_invariant(start);
            let nodes = astar.nodes@;
            assert(nodes.len() == 1 && nodes[0] == node);
            assert(node_ok(nodes, 0, start@));
            assert(cost_ok(nodes, 0));
            assert forall|s: u64| #[trigger] astar.added@.contains(s) <==> seen(
                nodes,
                unpack(s),
            ) by {
                if s == start.packed() {
                    assert(nodes[0].field@ == unpack(s));
                }
                if seen(nodes, unpack(s)) {
                    lemma_unpack_injective(start.packed(), s);
                }
            }
            assert(astar.open@.dom() =~= set![0usize]);
            assert(placed(nodes, astar.open@, astar.closed@, 0));
            assert(shortest(start@, start@, 0));
        }
        astar
    }

    /// Nothing waits.
    pub open spec fn exhausted(&self) -> bool {
        forall|id: usize| !self.waiting().contains_key(id)
    }

    /// Generates the child of `current_node` for move `m`, unless the
    /// move undoes the one before, leaves the board, or leads to a state
    /// generated earlier.
    fn add_child(&mut self, current_node: AStarNode, m: Move)
        requires
            old(self).sound(),
            current_node.id < old(self).arena().len(),
            old(self).arena()[current_node.id as int] == current_node,
        ensures
            final(self).sound(),
            final(self).closed_ids() == old(self).closed_ids(),
            final(self).expanded_count() == old(self).expanded_count(),
            keeps(old(self).arena(), current_node.id as int, m) ==> {
                &&& final(self).arena() == old(self).arena().push(final(self).arena().last())
                &&& is_child(
                    final(self).arena().last(),
                    current_node,
                    m,
                    old(self).arena().len() as int,
                )
                &&& final(self).waiting() == old(self).waiting().insert(
                    old(self).arena().len() as usize,
                    rank(final(self).arena().last()) as u128,
                )
            },
            !keeps(old(self).arena(), current_node.id as int, m) ==> final(self).arena() == old(
                self,
            ).arena() && final(self).waiting() == old(self).waiting(),
    {
        let ghost p = current_node.id as int;
        let ghost start = self.nodes@[0].field@;
        proof {
            assert(node_ok(self.nodes@, p, start));
            assert(cost_ok(self.nodes@, p));
            lemma_depth_bound(self.nodes@, p);
        }
        if current_node.previous_move.is_some() && current_node.previous_move.unwrap()
            == m.inverse() {
            proof {
                crate::path::lemma_inverse_twice(m);
            }
            return ;
        }
        if !current_node.field.is_valid_move(m) {
            return ;
        }
        assert(current_node.heu_g < self.nodes.len());
        let mut field: Field = current_node.field;
        let heu_g: u64 = current_node.heu_g + 1;
        let change = calculate_heuristic_change(&field, m);
        proof {
            lemma_heuristic_identity(current_node.field@, m);
            lemma_slide_permutation(current_node.field@, m);
            crate::heuristic::lemma_distance_sum_bound(slide(current_node.field@, m), 15);
            crate::heuristic::lemma_distance_sum_bound(current_node.field@, 15);
        }
        let heu_h: u64 = (current_node.heu_h as i64 + change as i64) as u64;
        let heu: u128 = heu_g as u128 + heu_h as u128;
        field.make_move(m);
        let state = field.unique_id();
        if self.added.contains(&state) {
            proof {
                assert(self.added@.contains(state));
            }
            return ;
        }
        proof {
            assert(!self.added@.contains(state));
            assert(!seen(self.nodes@, unpack(state)));
        }
        let mut node = AStarNode::from(field);
        node.id = self.nodes.len();
        node.parent_id = current_node.id;
        node.heu_g = heu_g;
        node.heu_h = heu_h;
        node.heu = heu;
        node.previous_move = Some(m);
        let ghost nodes_before = self.nodes@;
        self.nodes.push(node);
        assert(self.nodes@.len() == self.nodes.len());
        self.open.push(rank_of(&node), node.id);
        self.added.insert(state);
        proof {
            assert(is_child(node, current_node, m, nodes_before.len() as int));
            lemma_push_child(
                nodes_before,
                old(self).waiting(),
                old(self).added_ids(),
                old(self).closed_ids(),
                p,
                m,
                node,
            );
            assert(self.nodes@.last() == node);
        }
    }

    /// One step of the search: takes a waiting node of least cost. If
    /// nothing waits, the search has failed. If the node holds the solved
    /// board, the step gives the way to it. If not, the node is expanded,
    /// and the step has no result yet.
    ///
    /// A state is expanded once only: that the node taken has not been
    /// expanded before follows from the order that the engine keeps.
    pub fn step(&mut self) -> (r: Option<Result<AStarSolution, ()>>)
        requires
            old(self).wf(),
        ensures
            final(self).wf(),
            final(self).start() == old(self).start(),
            AStar::step_takes(*old(self), *final(self), r),
            r matches Some(Ok(sol)) ==> sol.solves(old(self).start()) && at_least(
                old(self).start(),
                sol.moves@.len() as int,
            ),
            r matches Some(Err(_)) ==> old(self).exhausted() && (old(self).reached() || no_way(
                old(self).start(),
            )),
            final(self).expanded_count() == old(self).expanded_count() + if r is None {
                1nat
            } else {
                0nat
            },
    {
        let ghost pre_nodes = self.nodes@;
        let ghost pre_waiting = self.open@;
        let ghost start = self.nodes@[0].field@;
        assert(self.nodes@.len() == self.nodes.len());
        proof {
            self.open.lemma_count();
        }
        let popped = self.open.pop();
        let (key, id) = match popped {
            None => {
                proof {
                    assert(pre_waiting =~= Map::<usize, u128>::empty());
                    if !old(self).reached() {
                        assert forall|ms: Seq<Move>| !#[trigger] reaches_goal(start, ms) by {
                            if reaches_goal(start, ms) {
                                old(self).lemma_fails_only_without_way(ms);
                            }
                        }
                    }
                }
                return Some(Err(()));
            },
            Some(e) => e,
        };
        proof {
            assert(pre_waiting.contains_key(id));
            assert(old(self).best(id));
            assert(!old(self).exhausted());
        }
        let current_node = self.nodes[id];
        proof {
            assert(node_ok(pre_nodes, id as int, start));
        }
        if current_node.field.is_solved() {
            let (moves, states) = trace(&self.nodes, id, Ghost(start));
            proof {
                lemma_path_walk(pre_nodes, id as int, start);
            }
            let sol = AStarSolution { moves, states };
            proof {
                let bs = boards(sol.states@);
                assert(bs[bs.len() - 1] == current_node.field@);
                assert(AStar::stepped(*old(self), id, *self, Some(Ok(sol))));
                assert(!old(self).reached()) by {
                    if old(self).reached() {
                        let i = choose|i: int|
                            0 <= i < pre_nodes.len() && (#[trigger] pre_nodes[i]).field@
                                == goal_cells() && !pre_waiting.contains_key(i as usize);
                        if i < id {
                            assert(pre_nodes[i].field@ != pre_nodes[id as int].field@);
                        } else if id < i {
                            assert(pre_nodes[id as int].field@ != pre_nodes[i].field@);
                        }
                    }
                }
                assert(cost_ok(pre_nodes, id as int));
                assert(shortest(start, pre_nodes[id as int].field@, current_node.heu_g as int));
                assert forall|ms: Seq<Move>| #[trigger] reaches_goal(start, ms) implies ms.len()
                    >= sol.moves@.len() by {
                    assert(leads(start, ms, pre_nodes[id as int].field@));
                }
                assert(pre_nodes[id as int].field@ == goal_cells() && !self.open@.contains_key(id));
                assert(self.reached());
                assert forall|i: int| 0 <= i < pre_nodes.len() implies #[trigger] placed(
                    pre_nodes,
                    self.open@,
                    self.closed@,
                    i,
                ) by {
                    assert(placed(old(self).arena(), old(self).waiting(), old(self).closed_ids(), i));
                    if i != id && pre_waiting.contains_key(i as usize) {
                        assert(self.open@.contains_key(i as usize));
                    }
                }
            }
            return Some(Ok(sol));
        }
        let state = current_node.field.unique_id();
        proof {
            if self.closed@.contains_key(state) {
                let c = self.closed@[state];
                assert(pre_nodes[c as int].field@ == unpack(state));
                if c < id {
                    assert(pre_nodes[c as int].field@ != pre_nodes[id as int].field@);
                } else if id < c {
                    assert(pre_nodes[id as int].field@ != pre_nodes[c as int].field@);
                }
                assert(false);
            }
        }
        let ghost pre_closed = self.closed@;
        self.closed.insert(state, current_node.id);
        let ghost target_closed = self.closed@;
        proof {
            assert(target_closed.dom() =~= old(self).closed_ids().dom().insert(state));
            assert forall|i: int| 0 <= i < pre_nodes.len() implies #[trigger] placed(
                pre_nodes,
                self.open@,
                target_closed,
                i,
            ) by {
                assert(placed(old(self).arena(), old(self).waiting(), old(self).closed_ids(), i));
                if i != id && pre_waiting.contains_key(i as usize) {
                    assert(self.open@.contains_key(i as usize));
                }
                if i == id {
                    assert(is_expanded(pre_nodes, target_closed, i));
                }
                if i != id && is_expanded(pre_nodes, pre_closed, i) {
                    if pre_nodes[i].field.packed() == state {
                        if i < id {
                            assert(pre_nodes[i].field@ != pre_nodes[id as int].field@);
                        } else {
                            assert(pre_nodes[id as int].field@ != pre_nodes[i].field@);
                        }
                    }
                }
            }
            assert forall|s: u64| #[trigger] self.closed@.contains_key(s) implies self.closed@[s]
                < pre_nodes.len() && pre_nodes[self.closed@[s] as int].field@ == unpack(s)
                && !self.open@.contains_key(self.closed@[s]) by {
                if s != state {
                    assert(old(self).closed_ids().contains_key(s));
                }
            }
            assert(self.sound());
        }
        let moves = Move::iter();
        let mut k: usize = 0;
        while k < 4
            invariant
                k <= 4,
                moves@ == all_moves(),
                self.sound(),
                old(self).wf(),
                pre_closed == old(self).closed_ids(),
                forall|i: int|
                    0 <= i < self.nodes@.len() ==> #[trigger] placed(
                        self.nodes@,
                        self.open@,
                        target_closed,
                        i,
                    ),
                forall|s: u64| #[trigger]
                    pre_closed.contains_key(s) ==> node_done(self.nodes@, pre_closed[s] as int),
                forall|j: int|
                    0 <= j < k ==> move_done(self.nodes@, id as int, #[trigger] all_moves()[j]),
                old(self).reached() || depths_least(self.nodes@, start),
                start == old(self).start(),
                old(self).best(id),
                pre_nodes == old(self).arena(),
                pre_waiting == old(self).waiting(),
                id < pre_nodes.len(),
                current_node == pre_nodes[id as int],
                current_node.id == id,
                expanded(pre_nodes, id as int, k as int, self.nodes@),
                self.closed@ == target_closed,
                self.expanded_count() == old(self).expanded_count() + 1,
                forall|w: usize| #[trigger]
                    self.open@.contains_key(w) <==> (pre_waiting.contains_key(w) && w != id)
                        || pre_nodes.len() <= w < self.nodes@.len(),
            decreases 4 - k,
        {
            let m = moves[k];
            let ghost now = self.nodes@;
            let ghost now_waiting = self.open@;
            proof {
                assert(node_ok(pre_nodes, id as int, pre_nodes[0].field@));
                lemma_keeps_unchanged(pre_nodes, id as int, k as int, now);
                assert(now[id as int] == current_node);
            }
            self.add_child(current_node, m);
            proof {
                let ms = new_moves(pre_nodes, id as int, k as int);
                let after = self.nodes@;
                assert(now.len() <= after.len());
                assert forall|i: int| 0 <= i < now.len() implies now[i] == after[i] by {
                    if keeps(pre_nodes, id as int, m) {
                        assert(after == now.push(after.last()));
                    }
                }
                assert forall|i: int| 0 <= i < after.len() implies #[trigger] placed(
                    after,
                    self.open@,
                    target_closed,
                    i,
                ) by {
                    if i < now.len() {
                        assert(placed(now, now_waiting, target_closed, i));
                    }
                }
                assert forall|s: u64| #[trigger] pre_closed.contains_key(s) implies node_done(
                    after,
                    pre_closed[s] as int,
                ) by {
                    lemma_done_kept(now, after, pre_closed[s] as int);
                }
                lemma_done_kept(now, after, id as int);
                if !old(self).reached() {
                    if keeps(pre_nodes, id as int, m) {
                        old(self).lemma_child_depth(id, m);
                    }
                    assert forall|i: int| 0 <= i < after.len() implies shortest(
                        start,
                        (#[trigger] after[i]).field@,
                        after[i].heu_g as int,
                    ) by {
                        if i < now.len() {
                            assert(shortest(start, now[i].field@, now[i].heu_g as int));
                        }
                    }
                }
                assert forall|j: int| 0 <= j < k + 1 implies move_done(
                    after,
                    id as int,
                    #[trigger] all_moves()[j],
                ) by {
                    if j < k {
                        assert(move_done(now, id as int, all_moves()[j]));
                    } else if legal(current_node.field@, m) {
                        let next = slide(current_node.field@, m);
                        if keeps(pre_nodes, id as int, m) {
                            assert(after[now.len() as int].field@ == next);
                        } else if current_node.previous_move == Some(m.inverse_spec()) {
                            crate::path::lemma_inverse_twice(m);
                            let parent = pre_nodes[current_node.parent_id as int];
                            assert(node_ok(pre_nodes, id as int, pre_nodes[0].field@));
                            assert(node_ok(
                                pre_nodes,
                                current_node.parent_id as int,
                                pre_nodes[0].field@,
                            ));
                            crate::path::lemma_undo(
                                parent.field@,
                                current_node.previous_move.unwrap(),
                            );
                            assert(after[current_node.parent_id as int].field@ == next);
                        } else {
                            lemma_seen_kept(pre_nodes, after, next);
                        }
                    }
                }
                if keeps(pre_nodes, id as int, m) {
                    let n = after.last();
                    assert(after == now.push(n));
                    assert(new_moves(pre_nodes, id as int, k + 1) == ms.push(m));
                    assert forall|j: int| 0 <= j < ms.len() + 1 implies is_child(
                        #[trigger] after[pre_nodes.len() + j],
                        pre_nodes[id as int],
                        ms.push(m)[j],
                        pre_nodes.len() + j,
                    ) by {
                        if j < ms.len() {
                            assert(after[pre_nodes.len() + j] == now[pre_nodes.len() + j]);
                        }
                    }
                    assert forall|w: usize| #[trigger]
                        self.open@.contains_key(w) <==> (pre_waiting.contains_key(w) && w != id)
                            || pre_nodes.len() <= w < after.len() by {
                        assert(now_waiting.contains_key(w) <==> (pre_waiting.contains_key(w) && w
                            != id) || pre_nodes.len() <= w < now.len());
                    }
                } else {
                    assert(new_moves(pre_nodes, id as int, k + 1) == ms);
                }
            }
            k += 1;
        }
        proof {
            assert(AStar::stepped(*old(self), id, *self, None));
            if old(self).reached() {
                let i = choose|i: int|
                    0 <= i < pre_nodes.len() && (#[trigger] pre_nodes[i]).field@ == goal_cells()
                        && !pre_waiting.contains_key(i as usize);
                assert(self.nodes@[i] == pre_nodes[i]);
                assert(!self.open@.contains_key(i as usize));
                assert(self.reached());
            }
            assert(all_moves()[0] == Move::Up && all_moves()[1] == Move::Down && all_moves()[2]
                == Move::Left && all_moves()[3] == Move::Right);
            assert(node_done(self.nodes@, id as int));
            assert forall|s: u64| #[trigger] target_closed.contains_key(s) implies node_done(
                self.nodes@,
                target_closed[s] as int,
            ) && self.nodes@[target_closed[s] as int].field@ != goal_cells() by {
                if s != state {
                    assert(pre_closed.contains_key(s));
                    assert(self.nodes@[pre_closed[s] as int] == pre_nodes[pre_closed[s] as int]);
                }
            }
        }
        None
    }

    /// Takes steps until one of them has a result, but no more than
    /// `max_steps`. No result means that the steps were used up: that
    /// many states were expanded, and the search can go on.
    pub fn solve(&mut self, max_steps: i32) -> (r: Option<Result<AStarSolution, ()>>)
        requires
            old(self).wf(),
        ensures
            final(self).wf(),
            final(self).start() == old(self).start(),
            r matches Some(Ok(sol)) ==> sol.solves(old(self).start()) && at_least(
                old(self).start(),
                sol.moves@.len() as int,
            ),
            r matches Some(Err(_)) ==> final(self).exhausted() && (final(self).reached() || no_way(
                old(self).start(),
            )),
            r is Some ==> max_steps > 0 && final(self).expanded_count() < old(
                self,
            ).expanded_count() + max_steps,
            r is None ==> final(self).expanded_count() == old(self).expanded_count() + if max_steps
                > 0 {
                max_steps as nat
            } else {
                0nat
            },
            exists|trail: Seq<AStar>| #[trigger]
                AStar::ran(*old(self), *final(self), trail, r) && (max_steps > 0 ==> trail.len()
                    <= max_steps + 1) && (max_steps <= 0 ==> trail.len() == 1) && (r is None
                    && max_steps > 0 ==> trail.len() == max_steps + 1),
    {
        let mut result_option: Option<Result<AStarSolution, ()>> = None;
        let mut steps: i32 = 0;
        let ghost mut trail: Seq<AStar> = seq![*self];
        while result_option.is_none() && steps < max_steps
            invariant
                0 <= steps,
                steps <= max_steps || steps == 0,
                self.wf(),
                self.start() == old(self).start(),
                result_option matches Some(Ok(sol)) ==> sol.solves(old(self).start()) && at_least(
                    old(self).start(),
                    sol.moves@.len() as int,
                ),
                result_option matches Some(Err(_)) ==> self.exhausted() && (self.reached()
                    || no_way(old(self).start())),
                result_option is None ==> self.expanded_count() == old(self).expanded_count()
                    + steps,
                result_option is Some ==> steps > 0 && self.expanded_count() == old(
                    self,
                ).expanded_count() + steps - 1,
                AStar::ran(*old(self), *self, trail, result_option),
                trail.len() == steps + 1,
            decreases max_steps - steps,
        {
            let ghost mid = *self;
            let ghost before = trail;
            result_option = self.step();
            steps += 1;
            proof {
                trail = before.push(*self);
                assert forall|i: int| 0 <= i < trail.len() - 1 implies AStar::step_takes(
                    #[trigger] trail[i],
                    trail[i + 1],
                    if i == trail.len() - 2 {
                        result_option
                    } else {
                        None
                    },
                ) by {
                    if i < before.len() - 1 {
                        assert(AStar::step_takes(
                            before[i],
                            before[i + 1],
                            None,
                        ));
                    } else {
                        assert(trail[i] == mid);
                    }
                }
            }
        }
        proof {
            assert(AStar::ran(*old(self), *self, trail, result_option));
        }
        result_option
    }
}

} // verus!
