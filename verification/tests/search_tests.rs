use fifteen_puzzle::arena::{reversed, AStarNode};
use fifteen_puzzle::astar::{calculate_heuristic, calculate_heuristic_change, AStar, AStarSolution};
use fifteen_puzzle::field::{Field, Move};
use fifteen_puzzle::frontier::Frontier;
use fifteen_puzzle::idastar::IDAStar;

const ALL: [Move; 4] = [Move::Up, Move::Down, Move::Left, Move::Right];

fn a_star(s: &str) -> AStarSolution {
    let field = Field::from_string(s).ok().unwrap();
    assert!(field.is_solvable());
    let mut star = AStar::new(&field);
    let mut result = None;
    while result.is_none() {
        result = star.step();
    }
    result.unwrap().ok().unwrap()
}

fn ida_star(s: &str) -> AStarSolution {
    let field = Field::from_string(s).ok().unwrap();
    assert!(field.is_solvable());
    let mut ida = IDAStar::new(&field);
    ida.run().ok().unwrap()
}

fn replay(s: &str, solution: &AStarSolution) {
    let start = Field::from_string(s).ok().unwrap();
    assert_eq!(solution.states.len(), solution.moves.len() + 1);
    assert_eq!(solution.states[0], start);
    let mut f = start;
    for (i, m) in solution.moves.iter().enumerate() {
        assert!(f.is_valid_move(*m));
        assert!(f.make_move(*m));
        assert_eq!(f, solution.states[i + 1]);
    }
    assert!(f.is_solved());
    assert!(solution.states[solution.states.len() - 1].is_solved());
}

#[test]
fn heuristic_of_the_solved_board_is_zero() {
    assert_eq!(calculate_heuristic(&Field::new()), 0);
}

#[test]
fn heuristic_exact_values() {
    assert_eq!(calculate_heuristic(&Field::from(0x1234067859ACDEBF).ok().unwrap()), 5);
    assert_eq!(calculate_heuristic(&Field::from(0x5134207896ACDEBF).ok().unwrap()), 8);
    assert_eq!(calculate_heuristic(&Field::from(0x16245A3709C8DEBF).ok().unwrap()), 10);
    assert_eq!(calculate_heuristic(&Field::from(0x1723068459ACDEBF).ok().unwrap()), 11);
    assert_eq!(calculate_heuristic(&Field::from(0x12345678EABC0D9F).ok().unwrap()), 7);
    assert_eq!(calculate_heuristic(&Field::from(0x123456789AB0DEFC).ok().unwrap()), 1);
}

#[test]
fn heuristic_does_not_count_the_blank() {
    assert_eq!(calculate_heuristic(&Field::from(0x123456789ABCDE0F).ok().unwrap()), 1);
    assert_eq!(calculate_heuristic(&Field::from(0x123456789ABC0DEF).ok().unwrap()), 3);
}

#[test]
fn heuristic_identity_on_every_legal_move() {
    for state in [
        0x123456789ABCDEF0u64,
        0x1234067859ACDEBF,
        0x5134207896ACDEBF,
        0x16245A3709C8DEBF,
        0x1723068459ACDEBF,
        0x12345678EABC0D9F,
        0x0FEDCBA987654321,
        0x75AB2C416D389F0E,
    ] {
        let start = Field::from(state).ok().unwrap();
        let mut legal = 0;
        for m in ALL {
            if start.is_valid_move(m) {
                legal += 1;
                let change = calculate_heuristic_change(&start, m);
                assert!(change == 1 || change == -1);
                let mut next = start;
                assert!(next.make_move(m));
                assert_eq!(
                    calculate_heuristic(&next) as i32,
                    calculate_heuristic(&start) as i32 + change
                );
            }
        }
        assert!(legal >= 2);
    }
}

#[test]
fn solved_board_takes_no_moves() {
    let solution = a_star("123456789ABCDEF0");
    assert_eq!(solution.moves.len(), 0);
    assert_eq!(solution.states.len(), 1);
    assert!(solution.states[0].is_solved());
    let solution = ida_star("123456789ABCDEF0");
    assert_eq!(solution.moves.len(), 0);
    assert_eq!(solution.states.len(), 1);
}

#[test]
fn five_moves() {
    let solution = a_star("1234067859ACDEBF");
    assert_eq!(solution.moves.len(), 5);
    assert!(solution.moves[0] == Move::Down);
    assert!(solution.moves[1] == Move::Right);
    assert!(solution.moves[2] == Move::Right);
    assert!(solution.moves[3] == Move::Down);
    assert!(solution.moves[4] == Move::Right);
    replay("1234067859ACDEBF", &solution);
    assert_eq!(ida_star("1234067859ACDEBF").moves.len(), 5);
}

#[test]
fn eight_moves() {
    assert_eq!(a_star("5134207896ACDEBF").moves.len(), 8);
    assert_eq!(ida_star("5134207896ACDEBF").moves.len(), 8);
    assert_eq!(calculate_heuristic(&Field::from_string("5134207896ACDEBF").ok().unwrap()), 8);
}

#[test]
fn ten_moves() {
    assert_eq!(a_star("16245A3709C8DEBF").moves.len(), 10);
    assert_eq!(ida_star("16245A3709C8DEBF").moves.len(), 10);
}

#[test]
fn a_star_solutions_replay() {
    for s in ["123456789ABCDEF0", "1234067859ACDEBF", "5134207896ACDEBF", "16245A3709C8DEBF", "1723068459ACDEBF", "12345678A0BE9FCD", "51247308A6BE9FCD"] {
        replay(s, &a_star(s));
    }
}

#[test]
fn ida_star_solutions_replay() {
    for s in ["123456789ABCDEF0", "1234067859ACDEBF", "5134207896ACDEBF", "16245A3709C8DEBF", "1723068459ACDEBF", "12345678A0BE9FCD"] {
        replay(s, &ida_star(s));
    }
}

#[test]
fn both_engines_agree_on_these() {
    for (s, n) in [
        ("123456789ABCDEF0", 0),
        ("1234067859ACDEBF", 5),
        ("5134207896ACDEBF", 8),
        ("16245A3709C8DEBF", 10),
        ("1723068459ACDEBF", 13),
        ("12345678A0BE9FCD", 19),
    ] {
        assert_eq!(a_star(s).moves.len(), n);
        assert_eq!(ida_star(s).moves.len(), n);
    }
}

#[test]
fn equal_costs_are_taken_by_depth() {
    for (s, n) in [("123456809ABFDCE7", 18), ("6384271B590EDACF", 28)] {
        let deepening = ida_star(s);
        let best_first = a_star(s);
        replay(s, &deepening);
        replay(s, &best_first);
        assert_eq!(deepening.moves.len(), n);
        assert_eq!(best_first.moves.len(), n);
    }
}

#[test]
fn a_solution_never_undoes_its_last_move() {
    let solution = ida_star("1723068459ACDEBF");
    for i in 1..solution.moves.len() {
        assert!(solution.moves[i] != solution.moves[i - 1].inverse());
    }
}

#[test]
fn step_has_no_result_while_the_search_goes_on() {
    let field = Field::from_string("5134207896ACDEBF").ok().unwrap();
    let mut star = AStar::new(&field);
    assert!(star.step().is_none());
    assert!(star.step().is_none());
}

#[test]
fn step_fails_when_nothing_waits() {
    let mut star = AStar::new(&Field::new());
    let first = star.step();
    assert!(matches!(first, Some(Ok(_))));
    let second = star.step();
    assert!(matches!(second, Some(Err(()))));
    let third = star.step();
    assert!(matches!(third, Some(Err(()))));
}

#[test]
fn solve_stops_when_the_steps_are_used_up() {
    let field = Field::from_string("75AB2C416D389F0E").ok().unwrap();
    let mut star = AStar::new(&field);
    assert!(star.solve(0).is_none());
    assert!(star.solve(-5).is_none());
    assert!(star.solve(100).is_none());
}

#[test]
fn solve_goes_on_where_it_stopped() {
    let field = Field::from_string("51247308A6BE9FCD").ok().unwrap();
    let mut star = AStar::new(&field);
    let mut rounds = 0;
    let mut result = star.solve(50);
    while result.is_none() {
        rounds += 1;
        result = star.solve(50);
    }
    assert!(rounds > 0);
    let solution = result.unwrap().ok().unwrap();
    assert_eq!(solution.moves.len(), 27);
    replay("51247308A6BE9FCD", &solution);
}

#[test]
fn solve_finds_the_way_within_its_steps() {
    let field = Field::from_string("16245A3709C8DEBF").ok().unwrap();
    let mut star = AStar::new(&field);
    let solution = star.solve(160000000).unwrap().ok().unwrap();
    assert_eq!(solution.moves.len(), 10);
}

#[test]
fn run_twice_gives_the_same_length() {
    let field = Field::from_string("1723068459ACDEBF").ok().unwrap();
    let mut ida = IDAStar::new(&field);
    let first = ida.run().ok().unwrap();
    let second = ida.run().ok().unwrap();
    assert_eq!(first.moves.len(), 13);
    assert_eq!(second.moves.len(), 13);
}

#[test]
fn frontier_gives_the_lowest_cost_first() {
    let mut frontier = Frontier::new();
    assert!(frontier.pop().is_none());
    for (key, id) in [(5u128, 0usize), (3, 1), (8, 2), (1, 3), (9, 4), (4, 5), (7, 6), (2, 7), (6, 8)] {
        frontier.push(key, id);
    }
    let mut keys = Vec::new();
    let mut ids = Vec::new();
    while let Some((key, id)) = frontier.pop() {
        keys.push(key);
        ids.push(id);
    }
    assert_eq!(keys, vec![1, 2, 3, 4, 5, 6, 7, 8, 9]);
    assert_eq!(ids, vec![3, 7, 1, 5, 0, 8, 6, 2, 4]);
    assert!(frontier.pop().is_none());
}

#[test]
fn frontier_keeps_equal_costs() {
    let mut frontier = Frontier::new();
    frontier.push(4, 10);
    frontier.push(4, 11);
    frontier.push(4, 12);
    frontier.push(2, 13);
    let mut ids = Vec::new();
    while let Some((key, id)) = frontier.pop() {
        assert!(key == 2 || key == 4);
        ids.push(id);
    }
    assert_eq!(ids[0], 13);
    ids.sort();
    assert_eq!(ids, vec![10, 11, 12, 13]);
}

#[test]
fn a_fresh_node_belongs_to_no_tree() {
    let node = AStarNode::new();
    assert_eq!(node.id, usize::MAX);
    assert_eq!(node.parent_id, usize::MAX);
    assert!(node.field.is_solved());
    assert_eq!(node.heu_g, 0);
    assert_eq!(node.heu_h, 0);
    assert_eq!(node.heu, 0);
    assert!(node.previous_move.is_none());

    let field = Field::from(0x5134207896ACDEBF).ok().unwrap();
    let node = AStarNode::from(field);
    assert_eq!(node.id, usize::MAX);
    assert_eq!(node.parent_id, usize::MAX);
    assert_eq!(node.field, field);
    assert_eq!(node.heu, 0);
    assert!(node.previous_move.is_none());
}

#[test]
fn reversed_turns_a_vector_round() {
    assert_eq!(reversed(&vec![1u8, 2, 3, 4]), vec![4u8, 3, 2, 1]);
    assert_eq!(reversed(&Vec::<u8>::new()), Vec::<u8>::new());
    assert_eq!(reversed(&vec![7u64]), vec![7u64]);
}
