use fifteen_puzzle::astar::{calculate_heuristic, calculate_heuristic_change, AStar, AStarSolution};
use fifteen_puzzle::field::{Field, Move};

fn solvable(state: u64, expected: bool) {
    let field = Field::from(state).ok().unwrap();
    let result: bool = field.is_solvable();
    assert_eq!(result, expected, "{:#018X} is {}, should be {}", state, result, expected);
}

fn solve(state: u64, expected: usize) {
    let field = Field::from(state).ok().unwrap();
    let mut star = AStar::new(&field);
    let mut result_option: Option<Result<AStarSolution, ()>> = Default::default();
    while result_option.is_none() {
        result_option = star.step();
    }
    let solution = result_option.unwrap().ok().unwrap();
    let length = solution.moves.len();
    assert_eq!(length, expected, "{:#018X} is {}, should be {}", state, length, expected);
}

#[test]
fn test_calculate_heuristic() {
    let field = Field::from(0x5134207896ACDEBF).ok().unwrap();
    let result: f32 = calculate_heuristic(&field) as f32;
    assert_eq!(result, 8 as f32, "is {}, should be {}", result, 8 as f32);
}

fn heuristic_change(state: u64, m: Move, expected: i32) {
    let field = Field::from(state).ok().unwrap();
    let result: f32 = calculate_heuristic_change(&field, m) as f32;
    assert_eq!(result, expected as f32, "{:#018X} is {}, should be {}", state, result, expected as f32);
}

#[test]
fn test_calculate_heuristic_change() {
    heuristic_change(0x5134207896ACDEBF, Move::Up, 1);
    heuristic_change(0x5134207896ACDEBF, Move::Down, -1);
    heuristic_change(0x5134207896ACDEBF, Move::Left, -1);
    heuristic_change(0x5134207896ACDEBF, Move::Right, 1);

    heuristic_change(0x1723068459ACDEBF, Move::Up, 1);
    heuristic_change(0x1723068459ACDEBF, Move::Down, -1);
    heuristic_change(0x1723068459ACDEBF, Move::Right, 1);

    heuristic_change(0x123456789ABCDEF0, Move::Up, 1);
    heuristic_change(0x123456789ABCDEF0, Move::Left, 1);

    heuristic_change(0x12345678EABC0D9F, Move::Up, -1);
    heuristic_change(0x12345678EABC0D9F, Move::Right, -1);
}

#[test]
fn test_is_solvable() {
    solvable(0x123456789AFB0EDC, false);
    solvable(0x123456789AFB0EDC, false);
    solvable(0xF2345678A0BE91CD, false);
    solvable(0x123456789ABCDEF0, true);
    solvable(0x1234067859ACDEBF, true);
    solvable(0x5134207896ACDEBF, true);
    solvable(0x16245A3709C8DEBF, true);
    solvable(0x1723068459ACDEBF, true);
    solvable(0x12345678A0BE9FCD, true);
    solvable(0x51247308A6BE9FCD, true);
    solvable(0xF2345678A0BE91DC, true);
    solvable(0x75123804A6BE9FCD, true);
    solvable(0x75AB2C416D389F0E, true);
    solvable(0x04582E1DF79BCA36, true);
    solvable(0xFE169B4C0A73D852, true);
    solvable(0xD79F2E8A45106C3B, true);
    solvable(0xDBE87A2C91F65034, true);
    solvable(0xBAC0F478E19623D5, true);
}

#[test]
fn test_solver() {
    solve(0x123456789ABCDEF0, 0);
    solve(0x1234067859ACDEBF, 5);
    solve(0x5134207896ACDEBF, 8);
    solve(0x16245A3709C8DEBF, 10);
    solve(0x1723068459ACDEBF, 13);
    solve(0x12345678A0BE9FCD, 19);
    solve(0x51247308A6BE9FCD, 27);
    solve(0xF2345678A0BE91DC, 33);
    solve(0x75123804A6BE9FCD, 35);
    solve(0x75AB2C416D389F0E, 45);
}
