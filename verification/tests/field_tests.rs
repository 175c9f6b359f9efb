use fifteen_puzzle::field::{Field, Move, Sprite, GOAL};

const ALL: [Move; 4] = [Move::Up, Move::Down, Move::Left, Move::Right];

#[test]
fn new_is_the_solved_board() {
    let f = Field::new();
    assert_eq!(f.unique_id(), 0x123456789ABCDEF0);
    assert_eq!(f.unique_id(), GOAL);
    assert_eq!(f.get_empty_index(), 15);
    assert!(f.is_solved());
    assert!(f.is_solvable());
    for i in 0..16u8 {
        assert_eq!(f.get_linear(i), (i + 1) % 16);
    }
}

#[test]
fn default_is_the_solved_board() {
    let f: Field = Default::default();
    assert_eq!(f, Field::new());
    assert_eq!(f.get_string(), "123456789ABCDEF0");
}

#[test]
fn from_keeps_the_packed_word_and_finds_the_blank() {
    let f = Field::from(0x5134207896ACDEBF).ok().unwrap();
    assert_eq!(f.unique_id(), 0x5134207896ACDEBF);
    assert_eq!(f.get_empty_index(), 5);
    assert_eq!(f.get_linear(0), 5);
    assert_eq!(f.get_linear(4), 2);
    assert_eq!(f.get_linear(5), 0);
    assert_eq!(f.get_linear(15), 15);
    assert!(!f.is_solved());
}

#[test]
fn from_refuses_what_is_no_permutation() {
    assert!(Field::from(0).is_err());
    assert!(Field::from(0x1111111111111110).is_err());
    assert!(Field::from(0x123456789ABCDEFF).is_err());
    assert!(Field::from(0x123456789ABCDE00).is_err());
    assert!(Field::from(0x023456789ABCDEF0).is_err());
    assert!(Field::from(0x123456789ABCDEF0).is_ok());
    assert!(Field::from(0x0123456789ABCDEF).is_ok());
}

#[test]
fn from_string_reads_sixteen_cells() {
    let f = Field::from_string("5134207896ACDEBF").ok().unwrap();
    assert_eq!(f.unique_id(), 0x5134207896ACDEBF);
    assert_eq!(f.get_empty_index(), 5);
    assert_eq!(f, Field::from(0x5134207896ACDEBF).ok().unwrap());
}

#[test]
fn from_string_refuses_a_wrong_length() {
    assert!(Field::from_string("").is_err());
    assert!(Field::from_string("123456789ABCDEF").is_err());
    assert!(Field::from_string("123456789ABCDEF01").is_err());
}

#[test]
fn from_string_refuses_a_character_outside_the_alphabet() {
    assert!(Field::from_string("123456789abcdef0").is_err());
    assert!(Field::from_string("123456789ABCDEG0").is_err());
    assert!(Field::from_string("123456789ABCDE 0").is_err());
    assert!(Field::from_string("123456789ABCDE:0").is_err());
    assert!(Field::from_string("123456789ABCDE@0").is_err());
    assert!(Field::from_string("123456789ABCDE/0").is_err());
    assert!(Field::from_string("123456789ABCD\u{e9}0").is_err());
    assert!(Field::from_string("\u{4e00}23456789ABCDEF0").is_err());
}

#[test]
fn from_string_refuses_what_is_no_permutation() {
    assert!(Field::from_string("1234567891BCDEF0").is_err());
    assert!(Field::from_string("0000000000000000").is_err());
    assert!(Field::from_string("123456789ABCDEFF").is_err());
}

#[test]
fn set_string_replaces_the_state() {
    let mut f = Field::new();
    let r = f.set_string("1234067859ACDEBF");
    assert_eq!(r.ok().unwrap().unique_id(), 0x1234067859ACDEBF);
    assert_eq!(f.unique_id(), 0x1234067859ACDEBF);
    assert_eq!(f.get_empty_index(), 4);
}

#[test]
fn set_string_leaves_the_state_when_it_refuses() {
    let mut f = Field::from(0x1234067859ACDEBF).ok().unwrap();
    assert!(f.set_string("0234067859ACDEBF").is_err());
    assert_eq!(f.unique_id(), 0x1234067859ACDEBF);
    assert_eq!(f.get_empty_index(), 4);
    assert!(f.set_string("nonsense").is_err());
    assert_eq!(f.unique_id(), 0x1234067859ACDEBF);
}

#[test]
fn get_string_writes_sixteen_cells() {
    assert_eq!(Field::new().get_string(), "123456789ABCDEF0");
    let f = Field::from(0xFEDCBA9876543210).ok().unwrap();
    assert_eq!(f.get_string(), "FEDCBA9876543210");
    assert_eq!(f.get_string().len(), 16);
}

#[test]
fn encoding_round_trip() {
    for s in [
        "123456789ABCDEF0",
        "1234067859ACDEBF",
        "5134207896ACDEBF",
        "16245A3709C8DEBF",
        "123456789AFB0EDC",
        "0FEDCBA987654321",
    ] {
        let f = Field::from_string(s).ok().unwrap();
        assert_eq!(f.get_string(), s);
        let again = Field::from_string(&f.get_string()).ok().unwrap();
        assert_eq!(again, f);
        assert_eq!(again.unique_id(), f.unique_id());
    }
}

#[test]
fn legal_moves_depend_on_the_blank() {
    let corner = Field::new();
    assert!(corner.is_valid_move(Move::Up));
    assert!(!corner.is_valid_move(Move::Down));
    assert!(corner.is_valid_move(Move::Left));
    assert!(!corner.is_valid_move(Move::Right));

    let first = Field::from(0x0123456789ABCDEF).ok().unwrap();
    assert!(!first.is_valid_move(Move::Up));
    assert!(first.is_valid_move(Move::Down));
    assert!(!first.is_valid_move(Move::Left));
    assert!(first.is_valid_move(Move::Right));

    let inner = Field::from(0x5134207896ACDEBF).ok().unwrap();
    for m in ALL {
        assert!(inner.is_valid_move(m));
    }

    let row_start = Field::from(0x1234067859ACDEBF).ok().unwrap();
    assert!(row_start.is_valid_move(Move::Up));
    assert!(row_start.is_valid_move(Move::Down));
    assert!(!row_start.is_valid_move(Move::Left));
    assert!(row_start.is_valid_move(Move::Right));

    let row_end = Field::from(0x1234567089ABCDEF).ok().unwrap();
    assert!(!row_end.is_valid_move(Move::Right));
    assert!(row_end.is_valid_move(Move::Left));
}

#[test]
fn moves_exchange_the_blank_and_its_neighbour() {
    let mut f = Field::new();
    assert!(f.up());
    assert_eq!(f.unique_id(), 0x123456789AB0DEFC);
    assert_eq!(f.get_empty_index(), 11);
    assert!(f.left());
    assert_eq!(f.unique_id(), 0x123456789A0BDEFC);
    assert_eq!(f.get_empty_index(), 10);
    assert!(f.down());
    assert_eq!(f.unique_id(), 0x123456789AFBDE0C);
    assert_eq!(f.get_empty_index(), 14);
    assert!(f.right());
    assert_eq!(f.unique_id(), 0x123456789AFBDEC0);
    assert_eq!(f.get_empty_index(), 15);
}

#[test]
fn an_illegal_move_changes_nothing() {
    let mut f = Field::new();
    assert!(!f.down());
    assert_eq!(f, Field::new());
    assert!(!f.right());
    assert_eq!(f, Field::new());
    assert!(!f.make_move(Move::Down));
    assert!(!f.make_move(Move::Right));
    assert_eq!(f.unique_id(), GOAL);
    assert_eq!(f.get_empty_index(), 15);

    let mut g = Field::from(0x0123456789ABCDEF).ok().unwrap();
    assert!(!g.up());
    assert!(!g.left());
    assert_eq!(g.unique_id(), 0x0123456789ABCDEF);
}

#[test]
fn make_move_does_what_the_four_moves_do() {
    let start = Field::from(0x5134207896ACDEBF).ok().unwrap();
    let mut a = start;
    let mut b = start;
    assert!(a.make_move(Move::Up));
    assert!(b.up());
    assert_eq!(a, b);
    assert_eq!(a.unique_id(), 0x5034217896ACDEBF);
    let mut a = start;
    let mut b = start;
    assert!(a.make_move(Move::Down));
    assert!(b.down());
    assert_eq!(a, b);
    assert_eq!(a.unique_id(), 0x5134267890ACDEBF);
    let mut a = start;
    let mut b = start;
    assert!(a.make_move(Move::Left));
    assert!(b.left());
    assert_eq!(a, b);
    assert_eq!(a.unique_id(), 0x5134027896ACDEBF);
    let mut a = start;
    let mut b = start;
    assert!(a.make_move(Move::Right));
    assert!(b.right());
    assert_eq!(a, b);
    assert_eq!(a.unique_id(), 0x5134270896ACDEBF);
}

#[test]
fn a_move_and_its_inverse_lead_back() {
    let start = Field::from(0x5134207896ACDEBF).ok().unwrap();
    for m in ALL {
        let mut f = start;
        assert!(f.make_move(m));
        assert_ne!(f, start);
        assert!(f.make_move(m.inverse()));
        assert_eq!(f, start);
    }
}

#[test]
fn inverse_pairs_the_moves() {
    assert!(Move::Up.inverse() == Move::Down);
    assert!(Move::Down.inverse() == Move::Up);
    assert!(Move::Left.inverse() == Move::Right);
    assert!(Move::Right.inverse() == Move::Left);
    for m in ALL {
        assert!(m.inverse().inverse() == m);
    }
}

#[test]
fn iter_gives_the_four_moves_in_order() {
    let moves = Move::iter();
    assert_eq!(moves.len(), 4);
    assert!(moves[0] == Move::Up);
    assert!(moves[1] == Move::Down);
    assert!(moves[2] == Move::Left);
    assert!(moves[3] == Move::Right);
}

#[test]
fn symbols_of_the_moves() {
    assert_eq!(Move::Up.symbol(), "^");
    assert_eq!(Move::Down.symbol(), "v");
    assert_eq!(Move::Left.symbol(), "<");
    assert_eq!(Move::Right.symbol(), ">");
}

#[test]
fn the_solved_board_passes_the_parity_rule() {
    assert!(Field::new().is_solvable());
    assert!(Field::from_string("123456789ABCDEF0").ok().unwrap().is_solvable());
}

#[test]
fn an_unsolvable_state_is_told_before_any_search() {
    let f = Field::from_string("123456789AFB0EDC").ok().unwrap();
    assert!(!f.is_solvable());
}

#[test]
fn moves_keep_the_parity() {
    for state in [0x123456789ABCDEF0u64, 0x5134207896ACDEBF, 0x123456789AFB0EDC, 0xF2345678A0BE91CD] {
        let start = Field::from(state).ok().unwrap();
        for m in ALL {
            let mut f = start;
            if f.make_move(m) {
                assert_eq!(f.is_solvable(), start.is_solvable());
            }
        }
    }
}

#[test]
fn exchanging_two_tiles_flips_the_parity() {
    assert!(!Field::from(0x213456789ABCDEF0).ok().unwrap().is_solvable());
    assert!(Field::from(0x5234107896ACDEBF).ok().unwrap().is_solvable() != Field::from(0x5134207896ACDEBF).ok().unwrap().is_solvable());
    assert!(Field::from(0x213456789AFB0EDC).ok().unwrap().is_solvable());
}

#[test]
fn exchanging_any_two_tiles_flips_the_parity() {
    assert!(Field::from(0x5134207896ACDEBF).ok().unwrap().is_solvable());
    assert!(!Field::from(0xF134207896ACDEB5).ok().unwrap().is_solvable());
    assert!(!Field::from(0x5134207896ACEDBF).ok().unwrap().is_solvable());
    assert!(!Field::from(0x5134208796ACDEBF).ok().unwrap().is_solvable());
    assert!(!Field::from(0x123456789ABCEDF0).ok().unwrap().is_solvable());
    assert!(!Field::from(0xF23456789ABCDE10).ok().unwrap().is_solvable());
}

#[test]
fn equal_states_have_equal_ids() {
    let a = Field::from_string("1234067859ACDEBF").ok().unwrap();
    let b = Field::from(0x1234067859ACDEBF).ok().unwrap();
    let c = Field::from(0x5134207896ACDEBF).ok().unwrap();
    assert_eq!(a, b);
    assert_eq!(a.unique_id(), b.unique_id());
    assert_ne!(a, c);
    assert_ne!(a.unique_id(), c.unique_id());
}

#[test]
fn sprites_leave_out_the_blank() {
    let sprites = Field::new().sprites();
    assert_eq!(sprites.len(), 15);
    assert_eq!(sprites[0], Sprite { value: 1, x: 20, y: 20 });
    assert_eq!(sprites[1], Sprite { value: 2, x: 84, y: 20 });
    assert_eq!(sprites[4], Sprite { value: 5, x: 20, y: 84 });
    assert_eq!(sprites[14], Sprite { value: 15, x: 148, y: 212 });

    let sprites = Field::from(0x5134207896ACDEBF).ok().unwrap().sprites();
    assert_eq!(sprites.len(), 15);
    assert_eq!(sprites[4], Sprite { value: 2, x: 20, y: 84 });
    assert_eq!(sprites[5], Sprite { value: 7, x: 148, y: 84 });
    assert_eq!(sprites[14], Sprite { value: 15, x: 212, y: 212 });
}
