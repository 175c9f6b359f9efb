use vstd::prelude::*;
use vstd::string::{StrSliceExecFns, StringExecFns};
use crate::board::{blank_of, goal_cells, is_permutation, legal, occurs, slide, swap_blank};
use crate::board::{decode, encode, hex_char, hex_value, is_encoding, is_hex_char, is_hex_string};
use crate::board::{lemma_blank_exists, lemma_blank_unique, lemma_goal_permutation};
use crate::board::lemma_swap_blank_permutation;
use crate::nibbles::{nibble, shift_of, swap_nibbles, unpack};
use crate::nibbles::{lemma_nibble_bound, lemma_nibbles_determine, lemma_or_into_empty};
use crate::nibbles::lemma_swap_nibbles;
use crate::parity::{rising_pairs, smaller_before, solvable};
use crate::parity::lemma_rising_pairs_bound;

verus! {

/// The packed form of the solved board.
pub const GOAL: u64 = 0x123456789ABCDEF0;

/// A direction in which the blank cell can slide.
#[derive(Clone, Copy, PartialEq, Eq, Structural, Debug, Hash)]
pub enum Move {
    Up,
    Down,
    Left,
    Right,
}

impl Move {
    /// The move that undoes this one.
    pub open spec fn inverse_spec(self) -> Move {
        match self {
            Move::Up => Move::Down,
            Move::Down => Move::Up,
            Move::Left => Move::Right,
            Move::Right => Move::Left,
        }
    }

    /// Whether a blank at cell `blank` can slide this way and stay on the
    /// board.
    pub open spec fn legal_at(self, blank: int) -> bool {
        match self {
            Move::Up => blank > 3,
            Move::Down => blank < 12,
            Move::Left => blank % 4 > 0,
            Move::Right => blank % 4 < 3,
        }
    }

    /// The cell a blank at `blank` reaches by sliding this way.
    pub open spec fn target(self, blank: int) -> int {
        match self {
            Move::Up => blank - 4,
            Move::Down => blank + 4,
            Move::Left => blank - 1,
            Move::Right => blank + 1,
        }
    }
}

impl Move {
    /// The four moves, in the order in which the search engines try them.
    pub fn iter() -> (r: [Move; 4])
        ensures
            r@ == crate::board::all_moves(),
    {
        let r = [Move::Up, Move::Down, Move::Left, Move::Right];
        assert(r@ =~= crate::board::all_moves());
        r
    }

    /// The sign that stands for this move in a printed solution.
    pub open spec fn symbol_spec(self) -> Seq<char> {
        match self {
            Move::Up => seq!['^'],
            Move::Down => seq!['v'],
            Move::Left => seq!['<'],
            Move::Right => seq!['>'],
        }
    }

    /// The sign that stands for this move in a printed solution.
    pub fn symbol(&self) -> (r: &'static str)
        ensures
            r@ == self.symbol_spec(),
    {
        proof {
            reveal_strlit("^");
            reveal_strlit("v");
            reveal_strlit("<");
            reveal_strlit(">");
        }
        let r = match self {
            Move::Up => "^",
            Move::Down => "v",
            Move::Left => "<",
            Move::Right => ">",
        };
        assert(r@ =~= self.symbol_spec());
        r
    }

    /// The move that undoes this one.
    pub fn inverse(&self) -> (r: Move)
        ensures
            r == self.inverse_spec(),
    {
        match self {
            Move::Up => Move::Down,
            Move::Down => Move::Up,
            Move::Left => Move::Right,
            Move::Right => Move::Left,
        }
    }
}

/// One arrangement of the fifteen tiles and the blank, packed four bits a
/// cell into one word, with the place of the blank kept beside it.
#[derive(Clone, Copy, PartialEq, Eq, Structural, Debug, Hash)]
pub struct Field {
    data: u64,
    empty_index: u8,
}

impl View for Field {
    type V = Seq<u8>;

    /// The sixteen cells in row-major order.
    open spec fn view(&self) -> Seq<u8> {
        unpack(self.packed())
    }
}

impl Default for Field {
    /// The solved board.
    fn default() -> (r: Field)
        ensures
            r == Field::new_spec(),
            r@ == goal_cells(),
    {
        Field::new()
    }
}

/// A tile as it is drawn: its number and the place of its upper left
/// corner in the window.
#[derive(Clone, Copy, PartialEq, Eq, Structural, Debug)]
pub struct Sprite {
    pub value: u8,
    pub x: i32,
    pub y: i32,
}

/// The tile in cell `i` as it is drawn: cells are 64 wide and high, and
/// the first begins at 20, 20.
pub open spec fn sprite_of(cells: Seq<u8>, i: int) -> Sprite {
    Sprite { value: cells[i], x: (20 + 64 * (i % 4)) as i32, y: (20 + 64 * (i / 4)) as i32 }
}

/// The tiles of the first `n` cells as they are drawn, in the order of
/// the cells. The blank is not drawn.
pub open spec fn sprites_of(cells: Seq<u8>, n: int) -> Seq<Sprite>
    decreases n,
{
    if n <= 0 {
        Seq::empty()
    } else if cells[n - 1] == 0 {
        sprites_of(cells, n - 1)
    } else {
        sprites_of(cells, n - 1).push(sprite_of(cells, n - 1))
    }
}

/// Every cell of the solved board, read from its packed form.
pub proof fn lemma_goal_unpack()
    ensures
        unpack(GOAL) == goal_cells(),
{
    assert(forall|i: u64| i < 16 ==> nibble(0x123456789ABCDEF0u64, i) == (i + 1) % 16)
        by (bit_vector);
    assert forall|i: int| 0 <= i < 16 implies unpack(GOAL)[i] == goal_cells()[i] by {
        assert(nibble(0x123456789ABCDEF0u64, i as u64) == (i as u64 + 1) % 16);
    }
    assert(unpack(GOAL) =~= goal_cells());
}

/// Two packed boards with the same cells agree on cell `k`.
proof fn lemma_same_cell(a: u64, b: u64, k: u64)
    requires
        unpack(a) == unpack(b),
        k < 16,
    ensures
        nibble(a, k) == nibble(b, k),
{
    lemma_nibble_bound(a, k);
    lemma_nibble_bound(b, k);
    assert(unpack(a)[k as int] == nibble(a, k as int as u64) as u8);
    assert(unpack(b)[k as int] == nibble(b, k as int as u64) as u8);
}

/// Two packed boards with the same cells are the same word.
pub proof fn lemma_unpack_injective(a: u64, b: u64)
    requires
        unpack(a) == unpack(b),
    ensures
        a == b,
{
    lemma_same_cell(a, b, 0);
    lemma_same_cell(a, b, 1);
    lemma_same_cell(a, b, 2);
    lemma_same_cell(a, b, 3);
    lemma_same_cell(a, b, 4);
    lemma_same_cell(a, b, 5);
    lemma_same_cell(a, b, 6);
    lemma_same_cell(a, b, 7);
    lemma_same_cell(a, b, 8);
    lemma_same_cell(a, b, 9);
    lemma_same_cell(a, b, 10);
    lemma_same_cell(a, b, 11);
    lemma_same_cell(a, b, 12);
    lemma_same_cell(a, b, 13);
    lemma_same_cell(a, b, 14);
    lemma_same_cell(a, b, 15);
    lemma_nibbles_determine(a, b);
}

/// Reads cell `i` of a packed board.
fn nibble_at(d: u64, i: u8) -> (v: u8)
    requires
        i < 16,
    ensures
        v < 16,
        v == nibble(d, i as u64),
        v == unpack(d)[i as int],
{
    let shift: u64 = (4 * (15 - i)) as u64;
    proof {
        assert(shift == shift_of(i as u64));
        lemma_nibble_bound(d, i as u64);
    }
    ((d >> shift) & 0xF) as u8
}

/// The one-character string that stands for the cell value `v`.
fn hex_digit(v: u8) -> (r: &'static str)
    requires
        v < 16,
    ensures
        r@ == seq![hex_char(v)],
{
    proof {
        reveal_strlit("0");
        reveal_strlit("1");
        reveal_strlit("2");
        reveal_strlit("3");
        reveal_strlit("4");
        reveal_strlit("5");
        reveal_strlit("6");
        reveal_strlit("7");
        reveal_strlit("8");
        reveal_strlit("9");
        reveal_strlit("A");
        reveal_strlit("B");
        reveal_strlit("C");
        reveal_strlit("D");
        reveal_strlit("E");
        reveal_strlit("F");
    }
    let r = match v {
        0 => "0",
        1 => "1",
        2 => "2",
        3 => "3",
        4 => "4",
        5 => "5",
        6 => "6",
        7 => "7",
        8 => "8",
        9 => "9",
        10 => "A",
        11 => "B",
        12 => "C",
        13 => "D",
        14 => "E",
        _ => "F",
    };
    assert(r@ =~= seq![hex_char(v)]);
    r
}

/// Packs the cells that sixteen cell characters stand for, the first
/// character in the highest four bits.
fn parse_hex(s: &str) -> (r: Option<u64>)
    ensures
        r is Some <==> is_hex_string(s@),
        r is Some ==> unpack(r.unwrap()) == decode(s@),
{
    if !s.is_ascii() {
        proof {
            if is_hex_string(s@) {
                assert forall|i: int| 0 <= i < s@.len() implies '\0' <= #[trigger] s@[i]
                    <= '\u{7f}' by {
                    assert(is_hex_char(s@[i]));
                }
            }
        }
        return None;
    }
    if s.unicode_len() != 16 {
        return None;
    }
    let mut data: u64 = 0;
    let mut i: u8 = 0;
    proof {
        assert(forall|j: u64| j < 16 ==> nibble(0u64, j) == 0) by (bit_vector);
    }
    while i < 16
        invariant
            i <= 16,
            s.is_ascii(),
            s@.len() == 16,
            forall|j: int| 0 <= j < i ==> is_hex_char(#[trigger] s@[j]),
            forall|j: u64| j < i ==> #[trigger] nibble(data, j) == hex_value(s@[j as int]),
            forall|j: u64| i <= j < 16 ==> #[trigger] nibble(data, j) == 0,
        decreases 16 - i,
    {
        let byte = s.get_ascii(i as usize);
        let value: u8 = if byte >= 48 && byte <= 57 {
            byte - 48
        } else if byte >= 65 && byte <= 70 {
            byte - 65 + 10
        } else {
            proof {
                assert(!is_hex_char(s@[i as int]));
            }
            return None;
        };
        proof {
            assert(is_hex_char(s@[i as int]));
            assert(value == hex_value(s@[i as int]));
        }
        let shift: u64 = (4 * (15 - i)) as u64;
        let ghost before = data;
        data = data | ((value as u64) << shift);
        proof {
            assert(shift == shift_of(i as u64));
            assert forall|j: u64| j < 16 implies #[trigger] nibble(data, j) == if j == i {
                value as u64
            } else {
                nibble(before, j)
            } by {
                lemma_or_into_empty(before, i as u64, value as u64, j);
            }
        }
        i += 1;
    }
    proof {
        assert forall|j: int| 0 <= j < 16 implies unpack(data)[j] == decode(s@)[j] by {
            assert(nibble(data, j as u64) == hex_value(s@[j]));
        }
        assert(unpack(data) =~= decode(s@));
    }
    Some(data)
}

/// Some cell before cell `n` holds `v`.
pub open spec fn occurs_before(cells: Seq<u8>, v: u8, n: int) -> bool {
    exists|j: int| 0 <= j < n && #[trigger] cells[j] == v
}

impl Field {
    /// The packed word: the canonical identifier of the state.
    pub closed spec fn packed(&self) -> u64 {
        self.data
    }

    /// The remembered place of the blank.
    pub closed spec fn blank_index(&self) -> int {
        self.empty_index as int
    }

    /// The cells are a permutation of 0..15 and the remembered blank is the
    /// cell that holds zero.
    #[verifier::type_invariant]
    pub open spec fn wf(&self) -> bool {
        &&& is_permutation(self@)
        &&& self.blank_index() == blank_of(self@)
    }

    /// Two states are the same exactly if their packed words are the
    /// same, and exactly if their cells are.
    pub proof fn lemma_same_state(a: Field, b: Field)
        requires
            a.wf(),
            b.wf(),
        ensures
            (a == b) <==> (a.packed() == b.packed()),
            (a == b) <==> (a@ == b@),
    {
        if a@ == b@ {
            lemma_unpack_injective(a.data, b.data);
        }
    }

    /// The solved board.
    pub closed spec fn new_spec() -> Field {
        Field { data: GOAL, empty_index: 15 }
    }

    /// The solved board.
    pub fn new() -> (r: Field)
        ensures
            r == Field::new_spec(),
            r.wf(),
            r@ == goal_cells(),
            r.packed() == GOAL,
    {
        proof {
            lemma_goal_unpack();
            lemma_goal_permutation();
        }
        Field { data: GOAL, empty_index: 15 }
    }

    /// The state with the packed word `state`, if its sixteen cells hold
    /// every value from 0 to 15 once.
    pub fn from(state: u64) -> (r: Result<Field, ()>)
        ensures
            r is Ok <==> is_permutation(unpack(state)),
            r is Ok ==> r.unwrap().wf() && r.unwrap().packed() == state,
    {
        let ghost cells = unpack(state);
        let mut found: [bool; 16] = [false; 16];
        let mut empty: u8 = 16;
        let mut i: u8 = 0;
        while i < 16
            invariant
                i <= 16,
                cells == unpack(state),
                forall|v: u8| 0 <= v < 16 ==> (#[trigger] found[v as int] <==> occurs_before(cells, v, i as int)),
                forall|j: int, k: int| 0 <= j < k < i ==> cells[j] != cells[k],
                empty <= 16,
                empty < 16 ==> cells[empty as int] == 0,
                empty == 16 ==> !found[0],
            decreases 16 - i,
        {
            let v = nibble_at(state, i);
            if found[v as usize] {
                proof {
                    assert(occurs_before(cells, v, i as int));
                    let j = choose|j: int| 0 <= j < i && #[trigger] cells[j] == v;
                    assert(cells[j] == cells[i as int]);
                }
                return Err(());
            }
            let ghost before = found;
            found[v as usize] = true;
            if v == 0 {
                empty = i;
            }
            proof {
                assert forall|w: u8| 0 <= w < 16 implies (#[trigger] found[w as int]
                    <==> occurs_before(cells, w, i + 1)) by {
                    if w == v {
                        assert(cells[i as int] == w);
                    } else {
                        assert(found[w as int] == before[w as int]);
                        if occurs_before(cells, w, i + 1) {
                            let j = choose|j: int| 0 <= j < i + 1 && #[trigger] cells[j] == w;
                            assert(j < i);
                        }
                        if occurs_before(cells, w, i as int) {
                            let j = choose|j: int| 0 <= j < i && #[trigger] cells[j] == w;
                            assert(0 <= j < i + 1 && cells[j] == w);
                        }
                    }
                }
                assert forall|j: int, k: int| 0 <= j < k < i + 1 implies cells[j] != cells[k] by {
                    if k == i && cells[j] == cells[k] {
                        assert(occurs_before(cells, v, i as int));
                    }
                }
            }
            i += 1;
        }
        let mut w: u8 = 0;
        while w < 16
            invariant
                w <= 16,
                cells == unpack(state),
                forall|v: u8| 0 <= v < 16 ==> (#[trigger] found[v as int] <==> occurs_before(cells, v, 16)),
                forall|v: u8| 0 <= v < w ==> #[trigger] found[v as int],
            decreases 16 - w,
        {
            if !found[w as usize] {
                proof {
                    if occurs(cells, w) {
                        let j = choose|j: int| 0 <= j < 16 && #[trigger] cells[j] == w;
                        assert(occurs_before(cells, w, 16));
                    }
                }
                return Err(());
            }
            w += 1;
        }
        proof {
            assert forall|k: int| 0 <= k < 16 implies #[trigger] cells[k] < 16 by {
                lemma_nibble_bound(state, k as u64);
            }
            assert forall|v: u8| 0 <= v < 16 implies #[trigger] occurs(cells, v) by {
                assert(found[v as int]);
                assert(occurs_before(cells, v, 16));
                let j = choose|j: int| 0 <= j < 16 && #[trigger] cells[j] == v;
                assert(0 <= j < 16 && cells[j] == v);
            }
            assert(found[0u8 as int]);
            assert(empty < 16);
            lemma_blank_unique(cells, empty as int);
        }
        Ok(Field { data: state, empty_index: empty })
    }

    /// The value in cell `i`.
    pub fn get_linear(&self, i: u8) -> (r: u8)
        requires
            i < 16,
        ensures
            r == self@[i as int],
            r < 16,
    {
        nibble_at(self.data, i)
    }

    /// The cell that holds the blank.
    pub fn get_empty_index(&self) -> (r: u8)
        ensures
            r == blank_of(self@),
            r < 16,
            self@[r as int] == 0,
    {
        proof {
            use_type_invariant(self);
            lemma_blank_exists(self@);
        }
        self.empty_index
    }

    /// Whether this is the solved board.
    pub fn is_solved(&self) -> (r: bool)
        ensures
            r == (self@ == goal_cells()),
    {
        proof {
            lemma_goal_unpack();
            if self@ == goal_cells() {
                lemma_unpack_injective(self.data, GOAL);
            }
        }
        self.data == GOAL
    }

    /// The packed word, which tells states apart.
    pub fn unique_id(&self) -> (r: u64)
        ensures
            r == self.packed(),
            unpack(r) == self@,
    {
        self.data
    }

    /// Exchanges the contents of two cells of a packed board.
    fn swap(data: u64, i1: u8, i2: u8) -> (r: u64)
        requires
            i1 < 16,
            i2 < 16,
        ensures
            r == swap_nibbles(data, i1 as u64, i2 as u64),
    {
        let shift1: u64 = (4 * (15 - i1)) as u64;
        let shift2: u64 = (4 * (15 - i2)) as u64;
        let mask1: u64 = 0xF << shift1;
        let mask2: u64 = 0xF << shift2;
        let bits1: u64 = data & mask1;
        let bits2: u64 = data & mask2;
        let mut d: u64 = data;
        d = d & !mask1;
        d = d & !mask2;
        d = d | ((bits1 >> shift1) << shift2);
        d = d | ((bits2 >> shift2) << shift1);
        d
    }

    /// Moves the blank to cell `move_index` and the tile found there to
    /// where the blank was.
    fn swap_with_empty(&mut self, move_index: u8) -> (r: bool)
        requires
            move_index < 16,
        ensures
            r,
            final(self).wf(),
            final(self)@ == swap_blank(old(self)@, move_index as int),
    {
        proof {
            use_type_invariant(&*self);
            lemma_blank_exists(self@);
            lemma_swap_blank_permutation(self@, move_index as int);
        }
        let data = Field::swap(self.data, self.empty_index, move_index);
        proof {
            let e = self.empty_index as u64;
            let t = move_index as u64;
            assert forall|k: int| 0 <= k < 16 implies unpack(data)[k] == swap_blank(
                self@,
                move_index as int,
            )[k] by {
                lemma_swap_nibbles(self.data, e, t, k as u64);
                lemma_nibble_bound(self.data, e);
                lemma_nibble_bound(self.data, t);
                lemma_nibble_bound(self.data, k as u64);
                assert(self@[e as int] == 0);
                assert(self@[e as int] == nibble(self.data, e) as u8);
                assert(self@[t as int] == nibble(self.data, t) as u8);
                assert(self@[k] == nibble(self.data, k as u64) as u8);
            }
            assert(unpack(data) =~= swap_blank(self@, move_index as int));
        }
        *self = Field { data, empty_index: move_index };
        true
    }

    /// Whether the blank can slide in direction `m` and stay on the board.
    pub fn is_valid_move(&self, m: Move) -> (r: bool)
        ensures
            r == legal(self@, m),
    {
        proof {
            use_type_invariant(self);
        }
        match m {
            Move::Up => self.empty_index > 3,
            Move::Down => self.empty_index < 12,
            Move::Left => self.empty_index % 4 > 0,
            Move::Right => self.empty_index % 4 < 3,
        }
    }

    /// Slides the blank up if it can; says whether it did.
    pub fn up(&mut self) -> (r: bool)
        ensures
            r == legal(old(self)@, Move::Up),
            r ==> final(self)@ == slide(old(self)@, Move::Up),
            !r ==> *final(self) == *old(self),
            final(self).wf(),
    {
        proof {
            use_type_invariant(&*self);
            lemma_blank_exists(self@);
        }
        if !self.is_valid_move(Move::Up) {
            return false;
        }
        self.swap_with_empty(self.empty_index - 4)
    }

    /// Slides the blank down if it can; says whether it did.
    pub fn down(&mut self) -> (r: bool)
        ensures
            r == legal(old(self)@, Move::Down),
            r ==> final(self)@ == slide(old(self)@, Move::Down),
            !r ==> *final(self) == *old(self),
            final(self).wf(),
    {
        proof {
            use_type_invariant(&*self);
            lemma_blank_exists(self@);
        }
        if !self.is_valid_move(Move::Down) {
            return false;
        }
        self.swap_with_empty(self.empty_index + 4)
    }

    /// Slides the blank left if it can; says whether it did.
    pub fn left(&mut self) -> (r: bool)
        ensures
            r == legal(old(self)@, Move::Left),
            r ==> final(self)@ == slide(old(self)@, Move::Left),
            !r ==> *final(self) == *old(self),
            final(self).wf(),
    {
        proof {
            use_type_invariant(&*self);
            lemma_blank_exists(self@);
        }
        if !self.is_valid_move(Move::Left) {
            return false;
        }
        self.swap_with_empty(self.empty_index - 1)
    }

    /// Slides the blank right if it can; says whether it did.
    pub fn right(&mut self) -> (r: bool)
        ensures
            r == legal(old(self)@, Move::Right),
            r ==> final(self)@ == slide(old(self)@, Move::Right),
            !r ==> *final(self) == *old(self),
            final(self).wf(),
    {
        proof {
            use_type_invariant(&*self);
            lemma_blank_exists(self@);
        }
        if !self.is_valid_move(Move::Right) {
            return false;
        }
        self.swap_with_empty(self.empty_index + 1)
    }

    /// Slides the blank in direction `m` if it can; says whether it did.
    /// An illegal move leaves the state as it was.
    pub fn make_move(&mut self, m: Move) -> (r: bool)
        ensures
            r == legal(old(self)@, m),
            r ==> final(self)@ == slide(old(self)@, m),
            !r ==> *final(self) == *old(self),
            final(self).wf(),
    {
        match m {
            Move::Up => self.up(),
            Move::Down => self.down(),
            Move::Left => self.left(),
            Move::Right => self.right(),
        }
    }

    /// The state that the sixteen characters of `s` describe, row by row,
    /// `0` for the blank. Anything but sixteen characters from `0-9A-F`
    /// that hold every value once is refused.
    pub fn from_string(s: &str) -> (r: Result<Field, ()>)
        ensures
            r is Ok <==> is_encoding(s@),
            r is Ok ==> r.unwrap().wf() && r.unwrap()@ == decode(s@),
    {
        let mut f = Field::new();
        f.set_string(s)
    }

    /// Replaces this state by the one that `s` describes and returns it. A
    /// string that is refused leaves the state as it was.
    pub fn set_string(&mut self, s: &str) -> (r: Result<Field, ()>)
        ensures
            r is Ok <==> is_encoding(s@),
            r is Ok ==> *final(self) == r.unwrap() && final(self)@ == decode(s@),
            r is Err ==> *final(self) == *old(self),
            final(self).wf(),
    {
        proof {
            use_type_invariant(&*self);
        }
        match parse_hex(s) {
            None => Err(()),
            Some(data) => match Field::from(data) {
                Err(e) => Err(e),
                Ok(f) => {
                    *self = f;
                    Ok(f)
                },
            },
        }
    }

    /// The sixteen characters that describe this state.
    pub fn get_string(&self) -> (r: String)
        ensures
            r@ == encode(self@),
    {
        let mut s = String::new();
        let mut i: u8 = 0;
        while i < 16
            invariant
                i <= 16,
                s@.len() == i,
                forall|j: int| 0 <= j < i ==> s@[j] == hex_char(self@[j]),
            decreases 16 - i,
        {
            let v = self.get_linear(i);
            s.append(hex_digit(v));
            i += 1;
        }
        assert(s@ =~= encode(self@));
        s
    }

    /// Whether the solved board can be reached from this state by legal
    /// moves, decided by the parity rule.
    pub fn is_solvable(&self) -> (r: bool)
        ensures
            r == solvable(self@),
    {
        proof {
            use_type_invariant(self);
            lemma_blank_exists(self@);
        }
        let mut sum: u32 = 0;
        let mut i: u8 = 0;
        while i < 16
            invariant
                i <= 16,
                sum == rising_pairs(self@, i as int),
                sum <= i * i,
            decreases 16 - i,
        {
            let value_i = self.get_linear(i);
            let mut j: u8 = 0;
            let mut count: u32 = 0;
            while j < i
                invariant
                    j <= i,
                    i < 16,
                    value_i == self@[i as int],
                    count == smaller_before(self@, i as int, j as int),
                    count <= j,
                decreases i - j,
            {
                let value_j = self.get_linear(j);
                if value_j != 0 && value_j < value_i {
                    count += 1;
                }
                j += 1;
            }
            proof {
                lemma_rising_pairs_bound(self@, i + 1);
                assert(i * i <= 225 && (i + 1) * (i + 1) <= 256) by (nonlinear_arith)
                    requires
                        0 <= i < 16,
                ;
            }
            sum += count;
            i += 1;
        }
        sum += (self.empty_index / 4) as u32;
        sum % 2 == 0
    }

    /// The tiles as they are drawn, in the order of the cells.
    pub fn sprites(&self) -> (r: Vec<Sprite>)
        ensures
            r@ == sprites_of(self@, 16),
    {
        let mut out: Vec<Sprite> = Vec::new();
        let mut i: u8 = 0;
        while i < 16
            invariant
                i <= 16,
                out@ == sprites_of(self@, i as int),
            decreases 16 - i,
        {
            let value = self.get_linear(i);
            if value != 0 {
                let x: i32 = 20 + 64 * ((i % 4) as i32);
                let y: i32 = 20 + 64 * ((i / 4) as i32);
                out.push(Sprite { value, x, y });
            }
            i += 1;
        }
        out
    }
}

} // verus!
