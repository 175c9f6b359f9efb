use vstd::prelude::*;
use crate::board::{legal, slide};
use crate::field::{Field, Move};
use crate::path::{boards, is_walk};

verus! {

/// One node of a search tree. Nodes live in a vector that only grows, and
/// a node's number is its place there. The root is its own parent.
#[derive(Clone, Copy)]
pub struct AStarNode {
    pub id: usize,
    pub parent_id: usize,
    pub field: Field,
    /// The number of moves from the root.
    pub heu_g: u64,
    /// The estimate of the moves still to make.
    pub heu_h: u64,
    /// The sum of the two.
    pub heu: u128,
    /// The move that led here from the parent; none for the root.
    pub previous_move: Option<Move>,
}

impl AStarNode {
    /// A node for the solved board that is not yet part of any tree.
    pub fn new() -> (r: AStarNode)
        ensures
            r.id == usize::MAX,
            r.parent_id == usize::MAX,
            r.field == Field::new_spec(),
            r.heu_g == 0,
            r.heu_h == 0,
            r.heu == 0,
            r.previous_move is None,
    {
        AStarNode {
            id: usize::MAX,
            parent_id: usize::MAX,
            field: Field::new(),
            heu_g: 0,
            heu_h: 0,
            heu: 0,
            previous_move: None,
        }
    }

    /// A node for `field` that is not yet part of any tree.
    pub fn from(field: Field) -> (r: AStarNode)
        ensures
            r.id == usize::MAX,
            r.parent_id == usize::MAX,
            r.field == field,
            r.heu_g == 0,
            r.heu_h == 0,
            r.heu == 0,
            r.previous_move is None,
    {
        AStarNode {
            id: usize::MAX,
            parent_id: usize::MAX,
            field,
            heu_g: 0,
            heu_h: 0,
            heu: 0,
            previous_move: None,
        }
    }
}

/// Node `i` is the root of a tree.
pub open spec fn is_root(nodes: Seq<AStarNode>, i: int) -> bool {
    nodes[i].parent_id == i
}

/// Node `i` is in its place, and it is either a root that holds `start`
/// or what a legal move makes of an earlier node.
pub open spec fn node_ok(nodes: Seq<AStarNode>, i: int, start: Seq<u8>) -> bool {
    let n = nodes[i];
    let parent = nodes[n.parent_id as int];
    &&& n.id == i
    &&& n.field.wf()
    &&& n.parent_id <= i
    &&& n.parent_id == i ==> n.previous_move is None && n.field@ == start
    &&& n.parent_id < i ==> {
        &&& n.previous_move is Some
        &&& legal(parent.field@, n.previous_move.unwrap())
        &&& n.field@ == slide(parent.field@, n.previous_move.unwrap())
    }
}

/// Every node of the arena is in order: the arena is a forest of trees
/// rooted in `start`.
pub open spec fn tree_ok(nodes: Seq<AStarNode>, start: Seq<u8>) -> bool {
    forall|i: int| 0 <= i < nodes.len() ==> #[trigger] node_ok(nodes, i, start)
}

/// The moves that lead from the root to node `i`.
pub open spec fn path_moves(nodes: Seq<AStarNode>, i: int) -> Seq<Move>
    decreases i,
{
    if 0 <= i < nodes.len() && nodes[i].parent_id < i && nodes[i].previous_move is Some {
        path_moves(nodes, nodes[i].parent_id as int).push(nodes[i].previous_move.unwrap())
    } else {
        Seq::empty()
    }
}

/// The states on the way from the root to node `i`, both included.
pub open spec fn path_states(nodes: Seq<AStarNode>, i: int) -> Seq<Field>
    decreases i,
{
    if 0 <= i < nodes.len() && nodes[i].parent_id < i && nodes[i].previous_move is Some {
        path_states(nodes, nodes[i].parent_id as int).push(nodes[i].field)
    } else {
        seq![nodes[i].field]
    }
}

/// The way to a node is a walk from `start` to the node's own board, one
/// state longer than it has moves.
pub proof fn lemma_path_walk(nodes: Seq<AStarNode>, i: int, start: Seq<u8>)
    requires
        tree_ok(nodes, start),
        0 <= i < nodes.len(),
    ensures
        is_walk(path_moves(nodes, i), boards(path_states(nodes, i))),
        path_states(nodes, i).len() == path_moves(nodes, i).len() + 1,
        boards(path_states(nodes, i))[0] == start,
        path_states(nodes, i)[path_moves(nodes, i).len() as int] == nodes[i].field,
    decreases i,
{
    assert(node_ok(nodes, i, start));
    let n = nodes[i];
    if n.parent_id < i {
        let p = n.parent_id as int;
        lemma_path_walk(nodes, p, start);
        let moves = path_moves(nodes, i);
        let states = boards(path_states(nodes, i));
        let before = boards(path_states(nodes, p));
        assert(moves == path_moves(nodes, p).push(n.previous_move.unwrap()));
        assert(path_states(nodes, i) == path_states(nodes, p).push(n.field));
        assert forall|k: int| 0 <= k < moves.len() implies legal(#[trigger] states[k], moves[k])
            && states[k + 1] == slide(states[k], moves[k]) by {
            if k < moves.len() - 1 {
                assert(states[k] == before[k]);
                assert(states[k + 1] == before[k + 1]);
                assert(legal(before[k], path_moves(nodes, p)[k]));
            } else {
                assert(states[k] == nodes[p].field@);
                assert(states[k + 1] == n.field@);
            }
        }
        assert(states[0] == before[0]);
    }
}

/// Nodes added at the end change no way that was there before.
pub proof fn lemma_path_kept(a: Seq<AStarNode>, b: Seq<AStarNode>, i: int, start: Seq<u8>)
    requires
        tree_ok(a, start),
        a.len() <= b.len(),
        forall|k: int| 0 <= k < a.len() ==> a[k] == b[k],
        0 <= i < a.len(),
    ensures
        path_moves(b, i) == path_moves(a, i),
        path_states(b, i) == path_states(a, i),
    decreases i,
{
    assert(node_ok(a, i, start));
    if a[i].parent_id < i {
        lemma_path_kept(a, b, a[i].parent_id as int, start);
    }
}

/// The elements of `v` from the last to the first.
pub fn reversed<T: Copy>(v: &Vec<T>) -> (r: Vec<T>)
    ensures
        r@ == v@.reverse(),
{
    let mut out: Vec<T> = Vec::new();
    let mut k: usize = v.len();
    while k > 0
        invariant
            k <= v.len(),
            out@.len() == v.len() - k,
            forall|j: int| 0 <= j < out@.len() ==> out@[j] == v@[v.len() - 1 - j],
        decreases k,
    {
        k -= 1;
        out.push(v[k]);
    }
    assert(out@ =~= v@.reverse());
    out
}

/// Walks from node `id` up to its root and gives the moves and the states
/// of the way down again, root first.
pub(crate) fn trace(nodes: &Vec<AStarNode>, id: usize, Ghost(start): Ghost<Seq<u8>>) -> (r: (
    Vec<Move>,
    Vec<Field>,
))
    requires
        tree_ok(nodes@, start),
        id < nodes.len(),
    ensures
        r.0@ == path_moves(nodes@, id as int),
        r.1@ == path_states(nodes@, id as int),
{
    let mut moves: Vec<Move> = Vec::new();
    let mut states: Vec<Field> = Vec::new();
    let mut current: usize = id;
    loop
        invariant_except_break
            path_moves(nodes@, id as int) == path_moves(nodes@, current as int)
                + moves@.reverse(),
            path_states(nodes@, id as int) == path_states(nodes@, current as int)
                + states@.reverse(),
        invariant
            tree_ok(nodes@, start),
            current < nodes.len(),
        ensures
            moves@.reverse() == path_moves(nodes@, id as int),
            states@.reverse() == path_states(nodes@, id as int),
        decreases current,
    {
        let node = nodes[current];
        proof {
            assert(node_ok(nodes@, current as int, start));
        }
        if node.parent_id == current {
            let ghost done = states@;
            states.push(node.field);
            proof {
                assert(path_moves(nodes@, current as int) =~= Seq::<Move>::empty());
                assert(path_moves(nodes@, id as int) =~= moves@.reverse());
                assert(path_states(nodes@, current as int) =~= seq![node.field]);
                assert(states@.reverse() =~= seq![node.field] + done.reverse());
            }
            break ;
        }
        let ghost done_states = states@;
        let ghost done_moves = moves@;
        states.push(node.field);
        moves.push(node.previous_move.unwrap());
        proof {
            let p = node.parent_id as int;
            let m = node.previous_move.unwrap();
            assert(states@.reverse() =~= seq![node.field] + done_states.reverse());
            assert(moves@.reverse() =~= seq![m] + done_moves.reverse());
            assert(path_moves(nodes@, current as int) == path_moves(nodes@, p).push(m));
            assert(path_states(nodes@, current as int) == path_states(nodes@, p).push(
                node.field,
            ));
            assert(path_moves(nodes@, p).push(m) + done_moves.reverse() =~= path_moves(nodes@, p)
                + (seq![m] + done_moves.reverse()));
            assert(path_states(nodes@, p).push(node.field) + done_states.reverse()
                =~= path_states(nodes@, p) + (seq![node.field] + done_states.reverse()));
        }
        current = node.parent_id;
    }
    let moves_down = reversed(&moves);
    let states_down = reversed(&states);
    proof {
        assert(moves@.reverse().reverse() =~= moves@);
        assert(states@.reverse().reverse() =~= states@);
    }
    (moves_down, states_down)
}

} // verus!
