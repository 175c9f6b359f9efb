use vstd::prelude::*;
use crate::field::Move;

verus! {

/// The four moves in the order in which the search engines try them.
pub open spec fn all_moves() -> Seq<Move> {
    seq![Move::Up, Move::Down, Move::Left, Move::Right]
}

/// A board holds every value from 0 to 15 exactly once.
pub open spec fn is_permutation(cells: Seq<u8>) -> bool {
    &&& cells.len() == 16
    &&& forall|i: int| 0 <= i < 16 ==> #[trigger] cells[i] < 16
    &&& forall|i: int, j: int| 0 <= i < j < 16 ==> cells[i] != cells[j]
    &&& forall|v: u8| 0 <= v < 16 ==> #[trigger] occurs(cells, v)
}

/// Some cell of the board holds `v`.
pub open spec fn occurs(cells: Seq<u8>, v: u8) -> bool {
    exists|i: int| 0 <= i < 16 && #[trigger] cells[i] == v
}

/// The cell that holds the blank.
pub open spec fn blank_of(cells: Seq<u8>) -> int {
    choose|i: int| 0 <= i < 16 && cells[i] == 0
}

/// The solved board: 1, 2, ..., 15 and the blank last.
pub open spec fn goal_cells() -> Seq<u8> {
    Seq::new(16, |i: int| ((i + 1) % 16) as u8)
}

/// Whether the blank of `cells` can slide in direction `m`.
pub open spec fn legal(cells: Seq<u8>, m: Move) -> bool {
    m.legal_at(blank_of(cells))
}

/// The board after the blank of `cells` has changed places with cell `t`.
pub open spec fn swap_blank(cells: Seq<u8>, t: int) -> Seq<u8> {
    let b = blank_of(cells);
    cells.update(b, cells[t]).update(t, 0u8)
}

/// The board after the blank of `cells` has changed places with its
/// neighbour in direction `m`.
pub open spec fn slide(cells: Seq<u8>, m: Move) -> Seq<u8> {
    swap_blank(cells, m.target(blank_of(cells)))
}

/// On a permutation the blank is where a zero is found.
pub proof fn lemma_blank_unique(cells: Seq<u8>, k: int)
    requires
        is_permutation(cells),
        0 <= k < 16,
        cells[k] == 0,
    ensures
        blank_of(cells) == k,
{
    let b = blank_of(cells);
    assert(0 <= b < 16 && cells[b] == 0);
    if b < k {
        assert(cells[b] != cells[k]);
    } else if k < b {
        assert(cells[k] != cells[b]);
    }
}

/// On a permutation the blank exists.
pub proof fn lemma_blank_exists(cells: Seq<u8>)
    requires
        is_permutation(cells),
    ensures
        0 <= blank_of(cells) < 16,
        cells[blank_of(cells)] == 0,
{
    assert(occurs(cells, 0u8));
    let i = choose|i: int| 0 <= i < 16 && #[trigger] cells[i] == 0u8;
    assert(0 <= i < 16 && cells[i] == 0);
}

/// A legal slide stays on the board.
pub proof fn lemma_target_in_range(b: int, m: Move)
    requires
        0 <= b < 16,
        m.legal_at(b),
    ensures
        0 <= m.target(b) < 16,
        m.target(b) != b,
{
}

/// Exchanging the blank of a permutation with another cell gives a
/// permutation whose blank is that cell.
pub proof fn lemma_swap_blank_permutation(cells: Seq<u8>, t: int)
    requires
        is_permutation(cells),
        0 <= t < 16,
    ensures
        is_permutation(swap_blank(cells, t)),
        blank_of(swap_blank(cells, t)) == t,
{
    lemma_blank_exists(cells);
    let b = blank_of(cells);
    let next = swap_blank(cells, t);
    assert(next.len() == 16);
    assert forall|i: int| 0 <= i < 16 implies #[trigger] next[i] < 16 by {
        let pi = if i == b { t } else if i == t { b } else { i };
        assert(next[i] == cells[pi]);
    }
    assert forall|i: int, j: int| 0 <= i < j < 16 implies next[i] != next[j] by {
        let pi = if i == b { t } else if i == t { b } else { i };
        let pj = if j == b { t } else if j == t { b } else { j };
        assert(next[i] == cells[pi]);
        assert(next[j] == cells[pj]);
        assert(pi != pj);
        if pi < pj {
            assert(cells[pi] != cells[pj]);
        } else {
            assert(cells[pj] != cells[pi]);
        }
    }
    assert forall|v: u8| 0 <= v < 16 implies #[trigger] occurs(next, v) by {
        assert(occurs(cells, v));
        let k = choose|k: int| 0 <= k < 16 && #[trigger] cells[k] == v;
        let pk = if k == b { t } else if k == t { b } else { k };
        assert(0 <= pk < 16 && next[pk] == v);
    }
    assert(next[t] == 0);
    lemma_blank_unique(next, t);
}

/// A legal slide of a permutation is a permutation, and its blank is the
/// cell that the move aimed at.
pub proof fn lemma_slide_permutation(cells: Seq<u8>, m: Move)
    requires
        is_permutation(cells),
        legal(cells, m),
    ensures
        is_permutation(slide(cells, m)),
        blank_of(slide(cells, m)) == m.target(blank_of(cells)),
        0 <= m.target(blank_of(cells)) < 16,
{
    lemma_blank_exists(cells);
    lemma_target_in_range(blank_of(cells), m);
    lemma_swap_blank_permutation(cells, m.target(blank_of(cells)));
}

/// The solved board is a permutation with its blank in the last cell.
pub proof fn lemma_goal_permutation()
    ensures
        is_permutation(goal_cells()),
        blank_of(goal_cells()) == 15,
{
    let g = goal_cells();
    assert forall|v: u8| 0 <= v < 16 implies #[trigger] occurs(g, v) by {
        let k = if v == 0 { 15int } else { v as int - 1 };
        assert(0 <= k < 16 && g[k] == v);
    }
    assert(g[15] == 0);
    lemma_blank_unique(g, 15);
}

/// The characters that stand for a cell: `0` to `9` and `A` to `F`.
pub open spec fn is_hex_char(c: char) -> bool {
    ('0' <= c && c <= '9') || ('A' <= c && c <= 'F')
}

/// The cell value that the character `c` stands for.
pub open spec fn hex_value(c: char) -> u8 {
    if c <= '9' {
        (c as int - '0' as int) as u8
    } else {
        (c as int - 'A' as int + 10) as u8
    }
}

/// The character that stands for the cell value `v`.
pub open spec fn hex_char(v: u8) -> char {
    if v < 10 {
        ('0' as int + v) as char
    } else {
        ('A' as int + v - 10) as char
    }
}

/// Sixteen characters, each of which stands for a cell.
pub open spec fn is_hex_string(s: Seq<char>) -> bool {
    &&& s.len() == 16
    &&& forall|i: int| 0 <= i < 16 ==> is_hex_char(#[trigger] s[i])
}

/// The cells that the characters of `s` stand for.
pub open spec fn decode(s: Seq<char>) -> Seq<u8> {
    Seq::new(s.len(), |i: int| hex_value(s[i]))
}

/// The characters that stand for `cells`.
pub open spec fn encode(cells: Seq<u8>) -> Seq<char> {
    Seq::new(cells.len(), |i: int| hex_char(cells[i]))
}

/// The strings that describe a state: sixteen cell characters that hold
/// every value once.
pub open spec fn is_encoding(s: Seq<char>) -> bool {
    is_hex_string(s) && is_permutation(decode(s))
}

/// Writing out the cells that a string of cell characters stands for gives
/// the string back.
pub proof fn lemma_encode_decode(s: Seq<char>)
    requires
        is_hex_string(s),
    ensures
        encode(decode(s)) == s,
{
    assert forall|i: int| 0 <= i < 16 implies encode(decode(s))[i] == s[i] by {
        assert(is_hex_char(s[i]));
    }
    assert(encode(decode(s)) =~= s);
}

/// Reading back the characters written for a board gives the board, and
/// what was written is a string of cell characters.
pub proof fn lemma_decode_encode(cells: Seq<u8>)
    requires
        cells.len() == 16,
        forall|i: int| 0 <= i < 16 ==> #[trigger] cells[i] < 16,
    ensures
        is_hex_string(encode(cells)),
        decode(encode(cells)) == cells,
{
    assert forall|i: int| 0 <= i < 16 implies is_hex_char(#[trigger] encode(cells)[i])
        && decode(encode(cells))[i] == cells[i] by {
        assert(cells[i] < 16);
    }
    assert(decode(encode(cells)) =~= cells);
}

} // verus!
