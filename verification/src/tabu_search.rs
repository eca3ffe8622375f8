use crate::board::Board;
use crate::clock;
use crate::direction::Direction;
use crate::path::{spec_reaches_exit, spec_valid_walk, Path};
use crate::rng::RandomSource;
use vstd::prelude::*;

verus! {

fn dirs_eq(a: &Vec<Direction>, b: &Vec<Direction>) -> (r: bool)
    ensures
        r == (a@ == b@),
{
    if a.len() != b.len() {
        return false;
    }
    let mut i: usize = 0;
    while i < a.len()
        invariant
            i <= a@.len(),
            a@.len() == b@.len(),
            forall|t: int| 0 <= t < i ==> a@[t] == b@[t],
        decreases a@.len() - i,
    {
        if a[i] != b[i] {
            return false;
        }
        i = i + 1;
    }
    proof {
        assert(a@ =~= b@);
    }
    true
}

/// The bounded recency memory of the maze search: the canonical move lists
/// seen this round.  It is cleared and refilled once per round, so it stays
/// bounded by the round's batch size.
pub struct TabuMemory {
    pub keys: Vec<Vec<Direction>>,
}

impl TabuMemory {
    /// The move lists currently excluded.
    pub open spec fn spec_contains(self, key: Seq<Direction>) -> bool {
        exists|i: int| 0 <= i < self.keys@.len() && self.keys@[i]@ == key
    }

    pub fn new() -> (r: TabuMemory)
        ensures
            forall|k: Seq<Direction>| !r.spec_contains(k),
    {
        TabuMemory { keys: Vec::new() }
    }

    pub fn contains(&self, key: &Vec<Direction>) -> (r: bool)
        ensures
            r == self.spec_contains(key@),
    {
        let mut i: usize = 0;
        while i < self.keys.len()
            invariant
                i <= self.keys@.len(),
                forall|t: int| 0 <= t < i ==> self.keys@[t]@ != key@,
            decreases self.keys@.len() - i,
        {
            if dirs_eq(&self.keys[i], key) {
                return true;
            }
            i = i + 1;
        }
        false
    }

    pub fn insert(&mut self, key: Vec<Direction>)
        ensures
            forall|k: Seq<Direction>| #[trigger]
                final(self).spec_contains(k) == (old(self).spec_contains(k) || k == key@),
    {
        self.keys.push(key);
        proof {
            assert forall|k: Seq<Direction>| #[trigger]
                self.spec_contains(k) == (old(self).spec_contains(k) || k == key@) by {
                if old(self).spec_contains(k) {
                    let i = choose|i: int|
                        0 <= i < old(self).keys@.len() && old(self).keys@[i]@ == k;
                    assert(self.keys@[i]@ == k);
                }
                if k == key@ {
                    assert(self.keys@[self.keys@.len() - 1]@ == k);
                }
                if self.spec_contains(k) {
                    let i = choose|i: int| 0 <= i < self.keys@.len() && self.keys@[i]@ == k;
                    if i < self.keys@.len() - 1 {
                        assert(old(self).keys@[i]@ == k);
                    }
                }
            }
        }
    }

    pub fn clear(&mut self)
        ensures
            forall|k: Seq<Direction>| !final(self).spec_contains(k),
    {
        self.keys.clear();
    }
}

/// The cost key a candidate is ranked by: its cached cost, with a path
/// that does not reach an exit ranking strictly above every feasible one.
pub open spec fn spec_path_cost(p: Path) -> int {
    match p.cost {
        Some(n) => n as int,
        None => u64::MAX as int + 1,
    }
}

/// The cost key of `a` ranks strictly below that of `b`.
pub fn path_cost_below(a: &Path, b: &Path) -> (r: bool)
    ensures
        r == (spec_path_cost(*a) < spec_path_cost(*b)),
{
    match (&a.cost, &b.cost) {
        (Option::Some(x), Option::Some(y)) => x < y,
        (Option::Some(_), Option::None) => true,
        _ => false,
    }
}

/// Up to `cap_out` canonicalized swap-and-repair neighbours of `current`.
/// Generation is lazy and capped at `cap_raw` raw draws, and the memory
/// acts as the filter: no candidate whose canonical move list is excluded
/// survives into the result.
pub fn gather_neighbours(
    current: &Path,
    board: &Board,
    tabu: &TabuMemory,
    num_mean: u64,
    cap_raw: usize,
    cap_out: usize,
    rng: &mut RandomSource,
) -> (v: Vec<Path>)
    requires
        board.wf(),
        current.wf(*board),
    ensures
        v@.len() <= cap_out,
        forall|k: int|
            0 <= k < v@.len() ==> (#[trigger] v@[k]).wf(*board) && !tabu.spec_contains(
                v@[k].moves@,
            ) && v@[k].starting_point == current.starting_point && ((v@[k].cost is None)
                ==> v@[k].moves@.len() == 0),
{
    let mut v: Vec<Path> = Vec::new();
    let mut raw: usize = 0;
    while raw < cap_raw && v.len() < cap_out
        invariant
            board.wf(),
            current.wf(*board),
            v@.len() <= cap_out,
            forall|k: int|
                0 <= k < v@.len() ==> (#[trigger] v@[k]).wf(*board) && !tabu.spec_contains(
                    v@[k].moves@,
                ) && v@[k].starting_point == current.starting_point && ((v@[k].cost is None)
                    ==> v@[k].moves@.len() == 0),
        decreases cap_raw - raw,
    {
        let mut cand = current.neighbour_by_swap_extend(num_mean, board, rng);
        let ghost before_canon: Path = cand;
        cand.remove_redundancies();
        proof {
            if cand.cost is None {
                assert(before_canon.moves@.len() == 0);
                assert(crate::direction::spec_canon(before_canon.moves@)
                    == before_canon.moves@);
            }
        }
        if !tabu.contains(&cand.moves) {
            v.push(cand);
        }
        raw = raw + 1;
    }
    v
}

/// The position of a cheapest candidate, by cached cost.
fn cheapest(v: &Vec<Path>) -> (r: Option<usize>)
    ensures
        match r {
            Some(k) => k < v@.len() && forall|t: int|
                0 <= t < v@.len() ==> spec_path_cost(v@[k as int]) <= spec_path_cost(
                    #[trigger] v@[t],
                ),
            None => v@.len() == 0,
        },
{
    if v.len() == 0 {
        return None;
    }
    let mut best: usize = 0;
    let mut i: usize = 1;
    while i < v.len()
        invariant
            best < i <= v@.len(),
            forall|t: int|
                0 <= t < i ==> spec_path_cost(v@[best as int]) <= spec_path_cost(#[trigger] v@[t]),
        decreases v@.len() - i,
    {
        if path_cost_below(&v[i], &v[best]) {
            best = i;
        }
        i = i + 1;
    }
    Some(best)
}

/// A bound on the rounds of one run; the wall-clock budget and the failure
/// threshold end the loop long before it.
pub const ROUND_LIMIT: u64 = 0x1000_0000_0000;

/// Tabu search over maze paths.  Each round draws a capped batch of
/// swap-and-repair neighbours of the current path, canonicalizes them,
/// filters them through the recency memory, adopts the cheapest survivor
/// (a worse one probabilistically, for diversification), updates the best
/// path on strict improvement, and refills the memory from the round's
/// batch.  Walking the returned moves from the agent start stays on valid
/// cells, and reaches an exit whenever the run found any feasible path.
/// The failure threshold caps the consecutive non-improving rounds, as a
/// configuration choice of the caller.
pub fn search(
    board: &Board,
    time_limit_millis: u64,
    fail_threshold: u64,
    rng: &mut RandomSource,
) -> (r: Vec<Direction>)
    requires
        board.wf(),
    ensures
        spec_valid_walk(*board, board.agent_position, r@) || spec_reaches_exit(
            *board,
            board.agent_position,
            r@,
        ),
        r@.len() >= 1 ==> spec_reaches_exit(*board, board.agent_position, r@),
        board.spec_exit_move(board.agent_position) is Some ==> r@ == seq![
            (board.spec_exit_move(board.agent_position)->Some_0).0,
        ],
{
    let start = clock::instant_now();
    let _grid_len = board.fields.len();
    let tabu_size: usize = if board.height < board.width {
        board.height
    } else {
        board.width
    };
    proof {
        assert((tabu_size as int) * (tabu_size as int) <= (board.height as int) * (
        board.width as int)) by (nonlinear_arith)
            requires
                0 <= tabu_size,
                tabu_size <= board.height,
                tabu_size <= board.width,
        ;
    }
    let mut tabu = TabuMemory::new();

    let mut current = Path::new_to_exit(board, rng);
    proof {
        if board.spec_exit_move(board.agent_position) is Some {
            crate::direction::lemma_canon_short(current.moves@);
        }
    }
    current.remove_redundancies();
    let mut best_global = current.duplicate();

    let mut fails: u64 = 0;
    let mut rounds: u64 = ROUND_LIMIT;

    while rounds > 0 && clock::elapsed_millis(&start) < time_limit_millis
        invariant
            board.wf(),
            current.wf(*board),
            current.starting_point == board.agent_position,
            (current.cost is None) ==> current.moves@.len() == 0,
            best_global.wf(*board),
            best_global.starting_point == board.agent_position,
            (best_global.cost is None) ==> best_global.moves@.len() == 0,
            board.spec_exit_move(board.agent_position) is Some ==> best_global.cost == Some(1u64)
                && best_global.moves@ == seq![
                (board.spec_exit_move(board.agent_position)->Some_0).0,
            ],
            (tabu_size as int) * (tabu_size as int) <= board.fields@.len(),
            _grid_len == board.fields@.len(),
        ensures
            best_global.wf(*board),
            best_global.starting_point == board.agent_position,
            (best_global.cost is None) ==> best_global.moves@.len() == 0,
            board.spec_exit_move(board.agent_position) is Some ==> best_global.cost == Some(1u64)
                && best_global.moves@ == seq![
                (board.spec_exit_move(board.agent_position)->Some_0).0,
            ],
        decreases rounds,
    {
        // The batch cap shrinks as the best cost grows, but stays at least one.
        let ts2: u64 = (tabu_size as u64) * (tabu_size as u64);
        let bc = best_global.get_cost();
        let denom: u64 = if bc == 0 {
            1
        } else {
            bc
        };
        let mut cap: u64 = ts2 / denom;
        if cap < 1 {
            cap = 1;
        }
        let cap_out: usize = if cap > (usize::MAX as u64) {
            usize::MAX
        } else {
            cap as usize
        };
        proof {
            assert((cap as int) * (cap as int)
                < 0x1_0000_0000_0000_0000_0000_0000_0000_0000) by (nonlinear_arith)
                requires
                    cap <= 0xffff_ffff_ffff_ffff,
            ;
        }
        let cap_raw_wide: u128 = (cap as u128) * (cap as u128);
        let cap_raw: usize = if cap_raw_wide > (usize::MAX as u128) {
            usize::MAX
        } else {
            cap_raw_wide as usize
        };

        let gathered = gather_neighbours(&current, board, &tabu, cap, cap_raw, cap_out, rng);

        match cheapest(&gathered) {
            Some(k) => {
                let best_cand = &gathered[k];
                if best_cand.get_cost() < current.get_cost() || (best_cand.get_cost()
                    == current.get_cost() && rng.gen_ratio(3, 10)) {
                    current = best_cand.duplicate();
                }
                if current.get_cost() < best_global.get_cost() {
                    proof {
                        if board.spec_exit_move(board.agent_position) is Some {
                            // No feasible path undercuts the single exit step.
                            assert(spec_path_cost(current) >= 1);
                            assert(false);
                        }
                    }
                    fails = fails / 2;
                    best_global = current.duplicate();
                } else {
                    if fails < u64::MAX {
                        fails = fails + 1;
                    }
                }
                tabu.clear();
            },
            None => {
                if fails < u64::MAX - 5 {
                    fails = fails + 5;
                } else {
                    fails = u64::MAX;
                }
            },
        }

        if fails > fail_threshold {
            break;
        }

        let mut drained = gathered;
        while drained.len() > 0
            decreases drained@.len(),
        {
            match drained.pop() {
                Some(p) => {
                    tabu.insert(p.moves);
                },
                None => {},
            }
        }
        rounds = rounds - 1;
    }

    let result = best_global;
    result.moves
}

} // verus!
