use local_search::annealing;
use local_search::board::Board;
use local_search::direction::Direction;
use local_search::genetic;
use local_search::path::Path;
use local_search::rng::RandomSource;
use local_search::tabu_search;
use local_search::tabu_search::{gather_neighbours, TabuMemory};
use local_search::tsp_tabu_search::{CostMatrix, NeighbourSwapNodes, PathWithCost, Solver, TabuCollection};
use local_search::tsp_tabu_search::Path as TourPath;

fn tiny_board() -> Board {
    // A three-by-three maze: walls all around except one exit above the
    // agent, who starts on the single interior cell.
    let input = "5 3 3\n181\n151\n111".as_bytes().to_vec();
    Board::try_from_bytes(&input).unwrap().0
}

fn bigger_board() -> Board {
    // A five-by-five maze with an exit on the right border.
    let input = "5 5 5\n11111\n10001\n10008\n15001\n11111".as_bytes().to_vec();
    Board::try_from_bytes(&input).unwrap().0
}

#[test]
fn maze_scenario_immediate_exit_tabu() {
    let board = tiny_board();
    let mut rng = RandomSource::new_seeded(7);
    let moves = tabu_search::search(&board, 50, 6, &mut rng);
    assert_eq!(moves.len(), 1);
    assert_eq!(moves[0], Direction::Up);
}

#[test]
fn maze_scenario_immediate_exit_annealing() {
    let board = tiny_board();
    let mut rng = RandomSource::new_seeded(11);
    let moves = annealing::search(&board, 50, 6, &mut rng);
    assert_eq!(moves.len(), 1);
    assert_eq!(moves[0], Direction::Up);
}

#[test]
fn maze_scenario_immediate_exit_genetic() {
    let board = tiny_board();
    let mut rng = RandomSource::new_seeded(13);
    let moves = genetic::search(&board, None, 50, &mut rng);
    assert_eq!(moves.len(), 1);
    assert_eq!(moves[0], Direction::Up);
}

#[test]
fn maze_search_finds_a_real_escape() {
    let board = bigger_board();
    let mut rng = RandomSource::new_seeded(3);
    let moves = tabu_search::search(&board, 200, 20, &mut rng);
    // Walk the returned moves by hand; they must reach the exit cell.
    let mut x: i64 = board.agent_position.x as i64;
    let mut y: i64 = board.agent_position.y as i64;
    for m in &moves {
        match m {
            Direction::Up => y += 1,
            Direction::Down => y -= 1,
            Direction::Right => x += 1,
            Direction::Left => x -= 1,
        }
    }
    assert_eq!((x, y), (4, 2));
}

#[test]
fn new_to_exit_reaches_an_exit() {
    let board = bigger_board();
    let mut rng = RandomSource::new_seeded(5);
    let path = Path::new_to_exit(&board, &mut rng);
    let cost = path.get_cost();
    assert!(cost < u64::MAX);
    assert_eq!(cost as usize, path.moves.len());
    let mut x: i64 = board.agent_position.x as i64;
    let mut y: i64 = board.agent_position.y as i64;
    for m in &path.moves {
        match m {
            Direction::Up => y += 1,
            Direction::Down => y -= 1,
            Direction::Right => x += 1,
            Direction::Left => x -= 1,
        }
    }
    assert_eq!((x, y), (4, 2));
}

#[test]
fn remove_redundancies_is_idempotent_on_examples() {
    let (up, down, right) = (Direction::Up, Direction::Down, Direction::Right);
    let mut moves = vec![up, right, up, down, down];
    Direction::remove_redundancies(&mut moves);
    assert_eq!(moves, vec![right]);
    let again = moves.clone();
    Direction::remove_redundancies(&mut moves);
    assert_eq!(moves, again);

    let mut pair = vec![up, down, right];
    Direction::remove_redundancies(&mut pair);
    assert_eq!(pair, vec![right]);
    let again = pair.clone();
    Direction::remove_redundancies(&mut pair);
    assert_eq!(pair, again);

    let mut triple = vec![up, right, down, up];
    Direction::remove_redundancies(&mut triple);
    let again = triple.clone();
    Direction::remove_redundancies(&mut triple);
    assert_eq!(triple, again);
}

fn matrix3() -> CostMatrix {
    CostMatrix { values: vec![0, 1, 2, 1, 0, 1, 2, 1, 0], n: 3 }
}

#[test]
fn tsp_scenario_three_nodes_optimal() {
    let solver = Solver::new(matrix3(), 100);
    let mut rng = RandomSource::new_seeded(17);
    let solution = solver.search(&mut rng);
    assert_eq!(solution.cost, 4);
    assert_eq!(solution.path.len(), 4);
    assert_eq!(solution.path[0], 1);
    assert_eq!(solution.path[3], 1);
}

#[test]
fn tsp_incremental_cost_matches_full_recomputation() {
    // A five-node asymmetric matrix with distinctive entries.
    let mut values: Vec<u32> = Vec::new();
    for a in 0..5u32 {
        for b in 0..5u32 {
            values.push(if a == b { 0 } else { 3 * a + 7 * b + 1 });
        }
    }
    let costs = CostMatrix { values, n: 5 };
    let tour = TourPath { nodes: vec![0, 2, 4, 1, 3, 0] };
    let evaluated = PathWithCost::from_path(tour, &costs);
    // Both the adjacent and the general swap case.
    for (i, j) in [(1usize, 2usize), (1, 3), (2, 3), (1, 4), (3, 4)] {
        let candidate = NeighbourSwapNodes::from_path_with_cost(&evaluated, i, j);
        let incremental = candidate.into_path_with_cost(&costs);
        let recomputed = PathWithCost::from_path(
            TourPath { nodes: incremental.path.nodes.clone() },
            &costs,
        );
        assert_eq!(incremental.cost, recomputed.cost);
    }
}

#[test]
fn tsp_random_tour_is_a_permutation() {
    let mut rng = RandomSource::new_seeded(23);
    let tour = TourPath::new_random(6, &mut rng);
    assert_eq!(tour.nodes.len(), 7);
    assert_eq!(tour.nodes[0], 0);
    assert_eq!(tour.nodes[6], 0);
    let mut sorted = tour.nodes[..6].to_vec();
    sorted.sort();
    assert_eq!(sorted, vec![0, 1, 2, 3, 4, 5]);
}

#[test]
fn annealing_acceptance_limits() {
    let mut rng = RandomSource::new_seeded(29);
    // A strictly better candidate is always taken.
    assert!(annealing::anneal_accept(10, 9, 1, &mut rng));
    // Far below the cutoff temperature a worse candidate is never taken.
    assert!(!annealing::anneal_accept(10, 11, 1, &mut rng));
    // With the temperature dwarfing the difference it is always taken.
    assert!(annealing::anneal_accept(10, 11, 2_000_000, &mut rng));
}

#[test]
fn annealing_threshold_endpoints_and_monotonicity() {
    // Zero difference gives probability one.
    assert_eq!(annealing::acceptance_threshold(0, 1000), annealing::PROB_ONE);
    // Far past the cutoff the probability is exactly zero.
    assert_eq!(annealing::acceptance_threshold(1000, 1), 0);
    // Falling temperature never raises the probability.
    let mut previous = annealing::PROB_ONE;
    for temperature in [4_000_000u64, 2_000_000, 1_000_000, 500_000, 100_000, 1_000, 10] {
        let y = annealing::acceptance_threshold(3, temperature);
        assert!(y <= previous);
        previous = y;
    }
}

#[test]
fn tabu_collection_remembers_keys() {
    let mut tabu = TabuCollection::new();
    assert!(!tabu.contains(&vec![0, 1, 2, 0]));
    tabu.insert(vec![0, 1, 2, 0]);
    assert!(tabu.contains(&vec![0, 1, 2, 0]));
    assert!(!tabu.contains(&vec![0, 2, 1, 0]));
    tabu.clear();
    assert!(!tabu.contains(&vec![0, 1, 2, 0]));
}

#[test]
fn path_recombine_splice_rebuilds_feasible_paths() {
    let board = bigger_board();
    let mut rng = RandomSource::new_seeded(31);
    let p1 = Path::new_to_exit(&board, &mut rng);
    let p2 = Path::new_to_exit(&board, &mut rng);
    let start1 = p1.moves.len() / 2;
    let end2 = p2.moves.len();
    let child = Path::recombine_splice(&p1, &p2, start1, 0, end2, &board);
    // The child is verified from scratch, so a cached cost means a real
    // escape of that many moves.
    if child.get_cost() < u64::MAX {
        assert_eq!(child.get_cost() as usize, child.moves.len());
    }
}

#[test]
fn tabu_memory_excludes_gathered_neighbours() {
    let board = tiny_board();
    let mut rng = RandomSource::new_seeded(37);
    let current = Path::new_to_exit(&board, &mut rng);
    // On this board every repaired neighbour canonicalizes to the single
    // exit step; once that move list is excluded, nothing survives.
    let mut tabu = TabuMemory::new();
    tabu.insert(vec![Direction::Up]);
    let survivors = gather_neighbours(&current, &board, &tabu, 2, 16, 4, &mut rng);
    assert_eq!(survivors.len(), 0);
    // With an empty memory the same round produces survivors.
    let empty = TabuMemory::new();
    let survivors = gather_neighbours(&current, &board, &empty, 2, 16, 4, &mut rng);
    assert!(survivors.len() > 0);
    for s in &survivors {
        assert_eq!(s.moves, vec![Direction::Up]);
    }
}

#[test]
fn path_recombine_splice_exact_on_the_tiny_board() {
    // Both parents are the single exit step; the splice of an empty prefix,
    // the whole second parent and nothing else re-verifies to that step.
    let board = tiny_board();
    let mut rng = RandomSource::new_seeded(71);
    let p1 = Path::new_to_exit(&board, &mut rng);
    let p2 = Path::new_to_exit(&board, &mut rng);
    assert_eq!(p1.moves, vec![Direction::Up]);
    let child = Path::recombine_splice(&p1, &p2, 0, 0, 1, &board);
    assert_eq!(child.moves, vec![Direction::Up]);
    assert_eq!(child.get_cost(), 1);
}
