use local_search::board::{Board, BoardCreationError};
use local_search::solver;
use local_search::tsp_tabu_search::{Solver, SolverCreationError};

fn bytes(s: &str) -> Vec<u8> {
    s.as_bytes().to_vec()
}

#[test]
fn tsp_tabu_search_create_ok1() {
    let input = bytes("1 1\n0");
    assert!(Solver::try_from_bytes(&input).is_ok());
}

#[test]
fn tsp_tabu_search_create_ok2() {
    let input = bytes("1 2\n0 1\n1 0");
    assert!(Solver::try_from_bytes(&input).is_ok());
}

#[test]
fn tsp_tabu_search_create_err_parse_time() {
    let input = bytes("a 2\n0 1\n1 0");
    let res = Solver::try_from_bytes(&input);
    assert_eq!(res.err(), Some(SolverCreationError::InvalidHeader));
}

#[test]
fn tsp_tabu_search_create_err_parse_n() {
    let input = bytes("1 a\n0 1\n1 0");
    let res = Solver::try_from_bytes(&input);
    assert_eq!(res.err(), Some(SolverCreationError::InvalidHeader));
}

#[test]
fn tsp_tabu_search_create_err_0_seconds() {
    let input = bytes("0 2\n0 1\n1 0");
    let res = Solver::try_from_bytes(&input);
    assert_eq!(res.err(), Some(SolverCreationError::InvalidHeader));
}

#[test]
fn tsp_tabu_search_create_err_not_enough_lines() {
    let input = bytes("1 2\n0 1");
    let res = Solver::try_from_bytes(&input);
    assert_eq!(res.err(), Some(SolverCreationError::NotEnoughLines));
}

#[test]
fn tsp_tabu_search_create_err_too_many_lines() {
    let input = bytes("1 2\n0 1\n1 0\n1 1");
    let res = Solver::try_from_bytes(&input);
    assert_eq!(res.err(), Some(SolverCreationError::TooManyLines));
}

#[test]
fn tsp_tabu_search_create_err_line_parse() {
    let input = bytes("1 2\na 1\n1 0");
    let res = Solver::try_from_bytes(&input);
    assert_eq!(res.err(), Some(SolverCreationError::InvalidLine));
}

#[test]
fn tsp_tabu_search_create_err_line_too_many() {
    let input = bytes("1 2\n0 1 2\n1 0");
    let res = Solver::try_from_bytes(&input);
    assert_eq!(res.err(), Some(SolverCreationError::InvalidLine));
}

#[test]
fn tsp_tabu_search_create_err_line_not_enough() {
    let input = bytes("1 2\n0\n1 0");
    let res = Solver::try_from_bytes(&input);
    assert_eq!(res.err(), Some(SolverCreationError::InvalidLine));
}

#[test]
fn solver_create_ok1() {
    let input = bytes("1 1 1 1\n0");
    assert!(solver::Solver::try_from_bytes(&input).is_ok());
}

#[test]
fn solver_create_ok2() {
    let input = bytes("1 2 2 1\n0 1\n1 0");
    assert!(solver::Solver::try_from_bytes(&input).is_ok());
}

#[test]
fn solver_create_err_parse_time() {
    let input = bytes("a 2 2 1\n0 1\n1 0");
    let res = solver::Solver::try_from_bytes(&input);
    assert_eq!(res.err(), Some(solver::SolverCreationError::InvalidHeader));
}

#[test]
fn solver_create_err_parse_n() {
    let input = bytes("1 a 2 1\n0 1\n1 0");
    let res = solver::Solver::try_from_bytes(&input);
    assert_eq!(res.err(), Some(solver::SolverCreationError::InvalidHeader));
}

#[test]
fn create_err_parse_m() {
    let input = bytes("1 2 a 1\n0 1\n1 0");
    let res = solver::Solver::try_from_bytes(&input);
    assert_eq!(res.err(), Some(solver::SolverCreationError::InvalidHeader));
}

#[test]
fn solver_create_err_0_seconds() {
    let input = bytes("0 2 2 1\n0 1\n1 0");
    let res = solver::Solver::try_from_bytes(&input);
    assert_eq!(res.err(), Some(solver::SolverCreationError::InvalidHeader));
}

#[test]
fn solver_create_err_not_enough_lines() {
    let input = bytes("1 2 2 1\n0 1");
    let res = solver::Solver::try_from_bytes(&input);
    assert_eq!(res.err(), Some(solver::SolverCreationError::NotEnoughLines));
}

#[test]
fn solver_create_err_too_many_lines() {
    let input = bytes("1 2 2 1\n0 1\n1 0\n1 1");
    let res = solver::Solver::try_from_bytes(&input);
    assert_eq!(res.err(), Some(solver::SolverCreationError::TooManyLines));
}

#[test]
fn solver_create_err_line_parse() {
    let input = bytes("1 2 2 1\na 1\n1 0");
    let res = solver::Solver::try_from_bytes(&input);
    assert_eq!(res.err(), Some(solver::SolverCreationError::InvalidLine));
}

#[test]
fn solver_create_err_line_too_many() {
    let input = bytes("1 2 2 1\n0 1 2\n1 0");
    let res = solver::Solver::try_from_bytes(&input);
    assert_eq!(res.err(), Some(solver::SolverCreationError::InvalidLine));
}

#[test]
fn solver_create_err_line_not_enough() {
    let input = bytes("1 2 2 1\n0\n1 0");
    let res = solver::Solver::try_from_bytes(&input);
    assert_eq!(res.err(), Some(solver::SolverCreationError::InvalidLine));
}

#[test]
fn board_create_ok_minimal() {
    let input = bytes("5 3 3\n181\n151\n111");
    let res = Board::try_from_bytes(&input);
    assert!(res.is_ok());
    let (board, millis) = res.unwrap();
    assert_eq!(millis, 5000);
    assert_eq!(board.height, 3);
    assert_eq!(board.width, 3);
    assert_eq!(board.agent_position.x, 1);
    assert_eq!(board.agent_position.y, 1);
}

#[test]
fn board_create_err_goal_in_corner() {
    let input = bytes("5 3 3\n811\n151\n111");
    let res = Board::try_from_bytes(&input);
    assert_eq!(res.err(), Some(BoardCreationError::InvalidGoal));
}

#[test]
fn board_create_err_goal_in_interior() {
    let input = bytes("5 3 4\n1111\n1851\n1111");
    let res = Board::try_from_bytes(&input);
    assert_eq!(res.err(), Some(BoardCreationError::InvalidGoal));
}

#[test]
fn board_create_err_empty_on_edge() {
    let input = bytes("5 3 3\n181\n051\n111");
    let res = Board::try_from_bytes(&input);
    assert_eq!(res.err(), Some(BoardCreationError::InvalidLine));
}

#[test]
fn board_create_err_agent_missing() {
    let input = bytes("5 3 3\n181\n111\n111");
    let res = Board::try_from_bytes(&input);
    assert_eq!(res.err(), Some(BoardCreationError::InvalidAgent));
}

#[test]
fn board_create_err_agent_on_edge() {
    let input = bytes("5 3 3\n181\n511\n111");
    let res = Board::try_from_bytes(&input);
    assert_eq!(res.err(), Some(BoardCreationError::InvalidAgent));
}

#[test]
fn board_create_err_short_line() {
    let input = bytes("5 3 3\n181\n15\n111");
    let res = Board::try_from_bytes(&input);
    assert_eq!(res.err(), Some(BoardCreationError::InvalidLine));
}

#[test]
fn board_create_err_missing_lines() {
    let input = bytes("5 3 3\n181\n151");
    let res = Board::try_from_bytes(&input);
    assert_eq!(res.err(), Some(BoardCreationError::NotEnoughLines));
}

#[test]
fn board_create_ignores_extra_lines() {
    let input = bytes("5 3 3\n181\n151\n111\nwhatever");
    assert!(Board::try_from_bytes(&input).is_ok());
}
