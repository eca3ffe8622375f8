use crate::board::Board;
use crate::clock;
use crate::direction::Direction;
use crate::path::{spec_reaches_exit, spec_valid_walk, Path};
use crate::rng::RandomSource;
use vstd::arithmetic::div_mod::lemma_div_is_ordered_by_denominator;
use vstd::prelude::*;

verus! {

/// Fixed-point probability scale: this value stands for probability one.
pub const PROB_ONE: u64 = 0x1_0000_0000;

/// `exp(-1/1000)` in the same fixed-point scale, rounded down.
pub const EXP_NEG_MILLI: u64 = 4290674475;

/// Past this many thousandths of `delta / temperature`, the acceptance
/// probability is below one part in the probability scale and is taken as
/// zero outright.
pub const DECAY_CUTOFF: u64 = 33000;

/// The fixed-point acceptance probability after `k` factors of
/// `exp(-1/1000)`, each applied with the scale divided back out.
pub open spec fn spec_decay(k: nat) -> int
    decreases k,
{
    if k == 0 {
        PROB_ONE as int
    } else {
        spec_decay((k - 1) as nat) * (EXP_NEG_MILLI as int) / (PROB_ONE as int)
    }
}

/// The decay stays a probability: between zero and one on the fixed-point
/// scale, and each further factor only shrinks it.
pub proof fn lemma_decay_bounds(k: nat)
    ensures
        0 <= spec_decay(k) <= PROB_ONE,
        k > 0 ==> spec_decay(k) <= spec_decay((k - 1) as nat),
    decreases k,
{
    if k > 0 {
        lemma_decay_bounds((k - 1) as nat);
        let prev = spec_decay((k - 1) as nat);
        assert(0 <= prev * (EXP_NEG_MILLI as int) <= prev * (PROB_ONE as int)) by (nonlinear_arith)
            requires
                0 <= prev,
                0 < EXP_NEG_MILLI <= PROB_ONE,
        ;
        assert(prev * (EXP_NEG_MILLI as int) / (PROB_ONE as int) <= prev) by (nonlinear_arith)
            requires
                0 <= prev * (EXP_NEG_MILLI as int) <= prev * (PROB_ONE as int),
                0 < PROB_ONE,
        ;
        assert(prev * (EXP_NEG_MILLI as int) / (PROB_ONE as int) >= 0) by (nonlinear_arith)
            requires
                0 <= prev * (EXP_NEG_MILLI as int),
                0 < PROB_ONE,
        ;
    }
}

/// More decay factors never raise the probability.
pub proof fn lemma_decay_antitone(k1: nat, k2: nat)
    requires
        k1 <= k2,
    ensures
        spec_decay(k2) <= spec_decay(k1),
    decreases k2,
{
    if k1 < k2 {
        lemma_decay_bounds(k2);
        lemma_decay_antitone(k1, (k2 - 1) as nat);
    }
}

/// The Metropolis acceptance probability of a candidate worse by `delta`
/// at temperature `temperature_milli` thousandths, on the fixed-point
/// scale: `exp(-delta / temperature)` with the exponent rounded down to
/// thousandths, and zero outright beyond the decay cutoff.
pub open spec fn spec_acceptance_threshold(delta: u64, temperature_milli: u64) -> int {
    let x = (delta as int) * 1000000 / (temperature_milli as int);
    if x < DECAY_CUTOFF {
        spec_decay(x as nat)
    } else {
        0
    }
}

/// Annealing limits, staticly: for a fixed positive cost difference the
/// acceptance probability is exactly one whenever the temperature
/// dominates the difference, exactly zero once the temperature is small
/// enough against it, and it never grows as the temperature falls.
pub proof fn lemma_acceptance_limits(delta: u64, t1: u64, t2: u64)
    requires
        1 <= t1 <= t2,
    ensures
        spec_acceptance_threshold(delta, t1) <= spec_acceptance_threshold(delta, t2),
        (delta as int) * 1000000 < t1 ==> spec_acceptance_threshold(delta, t1) == PROB_ONE,
        (delta as int) * 1000000 >= (DECAY_CUTOFF as int) * t1 ==> spec_acceptance_threshold(
            delta,
            t1,
        ) == 0,
{
    let d = (delta as int) * 1000000;
    let x1 = d / (t1 as int);
    let x2 = d / (t2 as int);
    lemma_div_is_ordered_by_denominator(d, t1 as int, t2 as int);
    lemma_decay_bounds(x2 as nat);
    if x1 < DECAY_CUTOFF {
        lemma_decay_antitone(x2 as nat, x1 as nat);
    }
    if d < t1 {
        assert(x1 == 0) by (nonlinear_arith)
            requires
                0 <= d < t1,
                1 <= t1,
                x1 == d / (t1 as int),
        ;
    }
    if d >= (DECAY_CUTOFF as int) * t1 {
        assert(x1 >= DECAY_CUTOFF) by (nonlinear_arith)
            requires
                d >= (DECAY_CUTOFF as int) * t1,
                1 <= t1,
                x1 == d / (t1 as int),
        ;
    }
}

/// The acceptance probability of a candidate worse by `delta`, computed on
/// the fixed-point scale in integer arithmetic.
pub fn acceptance_threshold(delta: u64, temperature_milli: u64) -> (y: u64)
    requires
        temperature_milli >= 1,
    ensures
        y as int == spec_acceptance_threshold(delta, temperature_milli),
{
    let x_wide: u128 = (delta as u128) * 1000000 / (temperature_milli as u128);
    if x_wide >= DECAY_CUTOFF as u128 {
        return 0;
    }
    let x: u64 = x_wide as u64;
    let mut y: u64 = PROB_ONE;
    let mut k: u64 = 0;
    while k < x
        invariant
            k <= x,
            y <= PROB_ONE,
            y as int == spec_decay(k as nat),
        decreases x - k,
    {
        let wide: u128 = (y as u128) * (EXP_NEG_MILLI as u128);
        proof {
            assert((y as int) * (EXP_NEG_MILLI as int) <= (PROB_ONE as int) * (
            EXP_NEG_MILLI as int)) by (nonlinear_arith)
                requires
                    y <= PROB_ONE,
                    0 <= EXP_NEG_MILLI,
            ;
            lemma_decay_bounds((k + 1) as nat);
        }
        y = (wide / (PROB_ONE as u128)) as u64;
        k = k + 1;
    }
    y
}

/// The Metropolis acceptance decision.  A strictly better candidate is
/// always taken.  A worse one is taken with the fixed-point acceptance
/// probability: certainly when the temperature dwarfs the cost difference,
/// never once the difference is past the decay cutoff for the temperature,
/// and in between according to a uniform random draw.
pub fn anneal_accept(
    current_cost: u64,
    next_cost: u64,
    temperature_milli: u64,
    rng: &mut RandomSource,
) -> (accept: bool)
    requires
        temperature_milli >= 1,
    ensures
        next_cost < current_cost ==> accept == true,
        next_cost >= current_cost && ((next_cost - current_cost) as int) * 1000000
            < temperature_milli ==> accept == true,
        next_cost >= current_cost && ((next_cost - current_cost) as int) * 1000000 >= (
        DECAY_CUTOFF as int) * (temperature_milli as int) ==> accept == false,
{
    if next_cost < current_cost {
        return true;
    }
    let delta = next_cost - current_cost;
    let y = acceptance_threshold(delta, temperature_milli);
    proof {
        lemma_acceptance_limits(delta, temperature_milli, temperature_milli);
    }
    let u = rng.gen_u32() as u64;
    u < y
}

/// The initial temperature, in thousandths.
pub const INITIAL_TEMPERATURE_MILLI: u64 = 273150;

/// The geometric cooling ratio, applied as a fraction each round.
pub const COOLING_NUMERATOR: u64 = 98;

/// Denominator of the cooling ratio.
pub const COOLING_DENOMINATOR: u64 = 100;

/// A bound on the rounds of one run; the wall-clock budget and the failure
/// threshold end the loop long before it.
pub const ROUND_LIMIT: u64 = 0x1000_0000_0000;

/// Simulated annealing over maze paths: each round perturbs the current
/// path by swap-and-repair, canonicalizes it, and accepts it by the
/// Metropolis rule under a geometrically cooling temperature; the best path
/// seen is tracked separately and its moves are returned.  Walking the
/// returned moves from the agent start stays on valid cells, and reaches an
/// exit whenever the run found any feasible path.  The failure threshold
/// caps the consecutive non-improving rounds, as a configuration choice of
/// the caller.
pub fn search(
    board: &Board,
    time_limit_millis: u64,
    fail_threshold: u64,
    rng: &mut RandomSource,
) -> (r: Vec<Direction>)
    requires
        board.wf(),
    ensures
        spec_valid_walk(*board, board.agent_position, r@) || spec_reaches_exit(
            *board,
            board.agent_position,
            r@,
        ),
        r@.len() >= 1 ==> spec_reaches_exit(*board, board.agent_position, r@),
        board.spec_exit_move(board.agent_position) is Some ==> r@ == seq![
            (board.spec_exit_move(board.agent_position)->Some_0).0,
        ],
{
    let start = clock::instant_now();
    let mut current = Path::new_to_exit(board, rng);
    proof {
        if board.spec_exit_move(board.agent_position) is Some {
            crate::direction::lemma_canon_short(current.moves@);
        }
    }
    current.remove_redundancies();
    let mut best_global = current.duplicate();

    let mut fails: u64 = 0;
    let mut temperature: u64 = INITIAL_TEMPERATURE_MILLI;
    let mut rounds: u64 = ROUND_LIMIT;

    while rounds > 0 && clock::elapsed_millis(&start) < time_limit_millis
        invariant
            board.wf(),
            current.wf(*board),
            current.starting_point == board.agent_position,
            (current.cost is None) ==> current.moves@.len() == 0,
            best_global.wf(*board),
            best_global.starting_point == board.agent_position,
            (best_global.cost is None) ==> best_global.moves@.len() == 0,
            board.spec_exit_move(board.agent_position) is Some ==> best_global.cost == Some(1u64)
                && best_global.moves@ == seq![
                (board.spec_exit_move(board.agent_position)->Some_0).0,
            ],
            1 <= temperature <= INITIAL_TEMPERATURE_MILLI,
        ensures
            best_global.wf(*board),
            best_global.starting_point == board.agent_position,
            (best_global.cost is None) ==> best_global.moves@.len() == 0,
            board.spec_exit_move(board.agent_position) is Some ==> best_global.cost == Some(1u64)
                && best_global.moves@ == seq![
                (board.spec_exit_move(board.agent_position)->Some_0).0,
            ],
        decreases rounds,
    {
        let mut next = current.neighbour_by_swap_extend(best_global.get_cost(), board, rng);
        let ghost before_canon: Path = next;
        next.remove_redundancies();
        proof {
            if next.cost is None {
                assert(before_canon.moves@.len() == 0);
                assert(crate::direction::spec_canon(before_canon.moves@) == before_canon.moves@);
            }
        }

        if anneal_accept(current.get_cost(), next.get_cost(), temperature, rng) {
            current = next;
            fails = fails / 2;
            if current.get_cost() < best_global.get_cost() {
                proof {
                    if board.spec_exit_move(board.agent_position) is Some {
                        // No feasible path undercuts the single exit step.
                        assert(crate::tabu_search::spec_path_cost(current) >= 1);
                        assert(false);
                    }
                }
                best_global = current.duplicate();
                fails = fails / 4;
            }
        } else {
            if fails < u64::MAX {
                fails = fails + 1;
            }
        }

        if fails > fail_threshold {
            break;
        }

        temperature = temperature * COOLING_NUMERATOR / COOLING_DENOMINATOR;
        if temperature < 1 {
            temperature = 1;
        }
        rounds = rounds - 1;
    }

    let result = best_global;
    result.moves
}

} // verus!
