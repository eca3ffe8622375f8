use crate::board::Board;
use crate::clock;
use crate::direction::Direction;
use crate::path::{spec_reaches_exit, spec_valid_walk, Path};
use crate::rng::RandomSource;
use crate::tabu_search::{path_cost_below, spec_path_cost};
use vstd::prelude::*;

verus! {

/// `p` is one of the elements of `s`.
pub open spec fn came_from(p: Path, s: Seq<Path>) -> bool {
    exists|t: int| 0 <= t < s.len() && p == s[t]
}

/// Sorts the population by cached cost, cheapest first.  The result and
/// the input hold the same members: each is an element of the other.
fn sort_paths_by_cost(v: &mut Vec<Path>)
    ensures
        final(v)@.len() == old(v)@.len(),
        forall|a: int, b: int|
            0 <= a <= b < final(v)@.len() ==> spec_path_cost(#[trigger] final(v)@[a])
                <= spec_path_cost(#[trigger] final(v)@[b]),
        forall|k: int| 0 <= k < final(v)@.len() ==> came_from(#[trigger] final(v)@[k], old(v)@),
        forall|k: int| 0 <= k < old(v)@.len() ==> came_from(#[trigger] old(v)@[k], final(v)@),
{
    let ghost orig: Seq<Path> = v@;
    let len = v.len();
    proof {
        assert forall|k: int| 0 <= k < len implies came_from(#[trigger] v@[k], orig) && came_from(
            #[trigger] orig[k],
            v@,
        ) by {
            assert(v@[k] == orig[k]);
        }
    }
    let mut i: usize = 0;
    while i < len
        invariant
            i <= len,
            v@.len() == len,
            orig.len() == len,
            forall|a: int, b: int|
                0 <= a <= b < i ==> spec_path_cost(#[trigger] v@[a]) <= spec_path_cost(
                    #[trigger] v@[b],
                ),
            forall|a: int, b: int|
                0 <= a < i && i <= b < len ==> spec_path_cost(#[trigger] v@[a]) <= spec_path_cost(
                    #[trigger] v@[b],
                ),
            forall|k: int| 0 <= k < len ==> came_from(#[trigger] v@[k], orig),
            forall|k: int| 0 <= k < len ==> came_from(#[trigger] orig[k], v@),
        decreases len - i,
    {
        let mut m: usize = i;
        let mut j: usize = i + 1;
        while j < len
            invariant
                i <= m < j <= len,
                v@.len() == len,
                forall|t: int|
                    i <= t < j ==> spec_path_cost(v@[m as int]) <= spec_path_cost(
                        #[trigger] v@[t],
                    ),
            decreases len - j,
        {
            if path_cost_below(&v[j], &v[m]) {
                m = j;
            }
            j = j + 1;
        }
        let ghost before: Seq<Path> = v@;
        if m != i {
            let pm = v.remove(m);
            let pi = v.remove(i);
            v.insert(i, pm);
            v.insert(m, pi);
            proof {
                assert(v@ =~= before.update(i as int, before[m as int]).update(
                    m as int,
                    before[i as int],
                ));
            }
        }
        proof {
            assert forall|k: int| 0 <= k < len implies came_from(#[trigger] v@[k], orig) by {
                let src: int = if k == i {
                    m as int
                } else if k == m {
                    i as int
                } else {
                    k
                };
                assert(v@[k] == before[src]);
                assert(came_from(before[src], orig));
                let t = choose|t: int| 0 <= t < orig.len() && before[src] == orig[t];
                assert(v@[k] == orig[t]);
            }
            assert forall|k: int| 0 <= k < len implies came_from(#[trigger] orig[k], v@) by {
                assert(came_from(orig[k], before));
                let t = choose|t: int| 0 <= t < before.len() && orig[k] == before[t];
                let dst: int = if t == i {
                    m as int
                } else if t == m {
                    i as int
                } else {
                    t
                };
                assert(v@[dst] == before[t]);
            }
        }
        i = i + 1;
    }
}

/// Whether two paths carry the same move list.
fn same_moves(a: &Path, b: &Path) -> (r: bool)
    ensures
        r == (a.moves@ == b.moves@),
{
    if a.moves.len() != b.moves.len() {
        return false;
    }
    let mut i: usize = 0;
    while i < a.moves.len()
        invariant
            i <= a.moves@.len(),
            a.moves@.len() == b.moves@.len(),
            forall|t: int| 0 <= t < i ==> a.moves@[t] == b.moves@[t],
        decreases a.moves@.len() - i,
    {
        if a.moves[i] != b.moves[i] {
            return false;
        }
        i = i + 1;
    }
    proof {
        assert(a.moves@ =~= b.moves@);
    }
    true
}

/// Drops every member whose move list already occurs earlier in the
/// population, which must arrive sorted by cost key.  Every survivor is a
/// member of the input, the first member is kept, and every dropped member
/// leaves behind an earlier survivor with the same move list and a cost
/// key no larger than its own.
#[verifier::rlimit(60)]
fn dedup_population(v: &mut Vec<Path>)
    requires
        forall|a: int, b: int|
            0 <= a <= b < old(v)@.len() ==> spec_path_cost(#[trigger] old(v)@[a])
                <= spec_path_cost(#[trigger] old(v)@[b]),
    ensures
        final(v)@.len() <= old(v)@.len(),
        old(v)@.len() >= 1 ==> final(v)@.len() >= 1 && final(v)@[0] == old(v)@[0],
        forall|k: int| 0 <= k < final(v)@.len() ==> came_from(#[trigger] final(v)@[k], old(v)@),
        forall|t: int|
            0 <= t < old(v)@.len() ==> exists|q: int|
                0 <= q < final(v)@.len() && (#[trigger] final(v)@[q]).moves@ == (
                #[trigger] old(v)@[t]).moves@ && spec_path_cost(final(v)@[q]) <= spec_path_cost(
                    old(v)@[t],
                ),
{
    let ghost orig: Seq<Path> = v@;
    let mut kept: Vec<Path> = Vec::new();
    while v.len() > 0
        invariant
            forall|a: int, b: int|
                0 <= a <= b < orig.len() ==> spec_path_cost(#[trigger] orig[a])
                    <= spec_path_cost(#[trigger] orig[b]),
            v@.len() <= orig.len(),
            v@ == orig.subrange(orig.len() - v@.len(), orig.len() as int),
            kept@.len() <= orig.len() - v@.len(),
            orig.len() > v@.len() ==> kept@.len() >= 1 && kept@[0] == orig[0],
            forall|q: int| 0 <= q < kept@.len() ==> came_from(#[trigger] kept@[q], orig),
            forall|q: int, t: int|
                0 <= q < kept@.len() && orig.len() - v@.len() <= t < orig.len()
                    ==> spec_path_cost(#[trigger] kept@[q]) <= spec_path_cost(#[trigger] orig[t]),
            forall|t: int|
                0 <= t < orig.len() - v@.len() ==> exists|q: int|
                    0 <= q < kept@.len() && (#[trigger] kept@[q]).moves@ == (
                    #[trigger] orig[t]).moves@ && spec_path_cost(kept@[q]) <= spec_path_cost(
                        orig[t],
                    ),
        decreases v@.len(),
    {
        let ghost taken: int = orig.len() - v@.len();
        let member = v.remove(0);
        proof {
            assert(member == orig[taken]);
            assert(v@ =~= orig.subrange(orig.len() - v@.len(), orig.len() as int));
        }
        let mut seen = false;
        let mut witness: usize = 0;
        let mut t: usize = 0;
        while t < kept.len()
            invariant
                t <= kept@.len(),
                seen ==> witness < kept@.len() && kept@[witness as int].moves@ == member.moves@,
            decreases kept@.len() - t,
        {
            if same_moves(&kept[t], &member) {
                seen = true;
                witness = t;
            }
            t = t + 1;
        }
        let ghost kept_before: Seq<Path> = kept@;
        if !seen || kept.len() == 0 {
            kept.push(member);
            proof {
                assert(kept@[kept@.len() - 1] == orig[taken]);
                assert forall|t: int| 0 <= t < taken + 1 implies exists|q: int|
                    0 <= q < kept@.len() && (#[trigger] kept@[q]).moves@ == (
                    #[trigger] orig[t]).moves@ && spec_path_cost(kept@[q]) <= spec_path_cost(
                        orig[t],
                    ) by {
                    if t < taken {
                        let q0 = choose|q0: int|
                            0 <= q0 < kept_before.len() && kept_before[q0].moves@
                                == orig[t].moves@ && spec_path_cost(kept_before[q0])
                                <= spec_path_cost(orig[t]);
                        assert(kept@[q0].moves@ == orig[t].moves@);
                    } else {
                        assert(kept@[kept@.len() - 1].moves@ == orig[t].moves@);
                    }
                }
            }
        } else {
            proof {
                assert(spec_path_cost(kept_before[witness as int]) <= spec_path_cost(
                    orig[taken],
                ));
                assert forall|t: int| 0 <= t < taken + 1 implies exists|q: int|
                    0 <= q < kept@.len() && (#[trigger] kept@[q]).moves@ == (
                    #[trigger] orig[t]).moves@ && spec_path_cost(kept@[q]) <= spec_path_cost(
                        orig[t],
                    ) by {
                    if t < taken {
                        let q0 = choose|q0: int|
                            0 <= q0 < kept_before.len() && kept_before[q0].moves@
                                == orig[t].moves@ && spec_path_cost(kept_before[q0])
                                <= spec_path_cost(orig[t]);
                        assert(kept@[q0].moves@ == orig[t].moves@);
                    } else {
                        assert(kept@[witness as int].moves@ == orig[t].moves@);
                    }
                }
            }
        }
    }
    proof {
        assert(v@.len() == 0);
    }
    *v = kept;
}

/// What every population member satisfies: well-formed on the board, the
/// agent's start, and, when an exit sits next to the start, either exactly
/// the single exit step or the empty path.
pub open spec fn member_ok(b: Board, p: Path) -> bool {
    &&& p.wf(b)
    &&& p.starting_point == b.agent_position
    &&& b.spec_exit_move(b.agent_position) is Some ==> (p.cost == Some(1u64) && p.moves@ == seq![
        (b.spec_exit_move(b.agent_position)->Some_0).0,
    ]) || (p.cost is None && p.moves@.len() == 0)
}

/// Exchanging positions inside a single-move list changes nothing.
proof fn lemma_swaps_on_singleton(s: Seq<Direction>, ps: Seq<(usize, usize)>)
    requires
        s.len() == 1,
        forall|t: int| 0 <= t < ps.len() ==> (#[trigger] ps[t]).0 < 1 && ps[t].1 < 1,
    ensures
        crate::path::spec_swapped_moves(s, ps) == s,
    decreases ps.len(),
{
    if ps.len() > 0 {
        assert(s.update(ps[0].0 as int, s[ps[0].1 as int]).update(
            ps[0].1 as int,
            s[ps[0].0 as int],
        ) =~= s);
        assert(forall|t: int|
            0 <= t < ps.skip(1).len() ==> (#[trigger] ps.skip(1)[t]).0 < 1 && ps.skip(1)[t].1
                < 1);
        lemma_swaps_on_singleton(s, ps.skip(1));
    }
}

/// The default population size.
pub const GENERATION_SIZE: usize = 100;

/// A bound on the rounds of one run; the wall-clock budget ends the loop
/// long before it.
pub const ROUND_LIMIT: u64 = 0x1000_0000_0000;

/// Genetic search over maze paths: the population is sorted by cost and
/// truncated each round, random parent pairs are spliced into children,
/// and survivors are probabilistically perturbed by swap mutations; on the
/// deadline the cheapest member's moves are returned.  Walking the
/// returned moves from the agent start stays on valid cells, and reaches
/// an exit whenever the population held any feasible path.
/// The population invariants the round phases preserve: every member is
/// well-formed from the agent start (and pinned to the exit step or the
/// empty path next to an exit), and an unseeded population either holds a
/// feasible member or consists of empty paths only.
pub open spec fn population_ok(b: Board, s: Seq<Path>, no_seeds: bool) -> bool {
    &&& forall|k: int| 0 <= k < s.len() ==> member_ok(b, #[trigger] s[k])
    &&& no_seeds ==> (exists|k: int| 0 <= k < s.len() && (#[trigger] s[k]).cost is Some) || (
    forall|k: int| 0 <= k < s.len() ==> (#[trigger] s[k]).moves@.len() == 0)
    &&& no_seeds && b.spec_exit_move(b.agent_position) is Some ==> exists|k: int|
        0 <= k < s.len() && (#[trigger] s[k]).cost is Some
}

/// Membership facts carry over any reshuffling whose members all stem
/// from the old population.
proof fn lemma_members_carry(b: Board, before: Seq<Path>, after: Seq<Path>)
    requires
        forall|k: int| 0 <= k < before.len() ==> member_ok(b, #[trigger] before[k]),
        forall|k: int| 0 <= k < after.len() ==> came_from(#[trigger] after[k], before),
    ensures
        forall|k: int| 0 <= k < after.len() ==> member_ok(b, #[trigger] after[k]),
{
    assert forall|k: int| 0 <= k < after.len() implies member_ok(b, #[trigger] after[k]) by {
        let t = choose|t: int| 0 <= t < before.len() && after[k] == before[t];
    }
}

/// An all-empty population stays all-empty over such a reshuffling.
proof fn lemma_empties_carry(before: Seq<Path>, after: Seq<Path>)
    requires
        forall|k: int| 0 <= k < before.len() ==> (#[trigger] before[k]).moves@.len() == 0,
        forall|k: int| 0 <= k < after.len() ==> came_from(#[trigger] after[k], before),
    ensures
        forall|k: int| 0 <= k < after.len() ==> (#[trigger] after[k]).moves@.len() == 0,
{
    assert forall|k: int| 0 <= k < after.len() implies (#[trigger] after[k]).moves@.len()
        == 0 by {
        let t = choose|t: int| 0 <= t < before.len() && after[k] == before[t];
    }
}

/// A feasible member survives when every old member reappears.
proof fn lemma_some_carries_by_inclusion(before: Seq<Path>, after: Seq<Path>)
    requires
        exists|k: int| 0 <= k < before.len() && (#[trigger] before[k]).cost is Some,
        forall|k: int| 0 <= k < before.len() ==> came_from(#[trigger] before[k], after),
    ensures
        exists|q: int| 0 <= q < after.len() && (#[trigger] after[q]).cost is Some,
{
    let k0 = choose|k0: int| 0 <= k0 < before.len() && (#[trigger] before[k0]).cost is Some;
    assert(came_from(before[k0], after));
    let q0 = choose|q0: int| 0 <= q0 < after.len() && before[k0] == after[q0];
    assert(after[q0].cost is Some);
}

/// A feasible member survives when every old member leaves a twin with a
/// cost key no larger than its own: the twin's key stays inside the
/// feasible band.
proof fn lemma_some_carries_by_twin(before: Seq<Path>, after: Seq<Path>)
    requires
        exists|k: int| 0 <= k < before.len() && (#[trigger] before[k]).cost is Some,
        forall|t: int|
            0 <= t < before.len() ==> exists|q: int|
                0 <= q < after.len() && (#[trigger] after[q]).moves@ == (
                #[trigger] before[t]).moves@ && spec_path_cost(after[q]) <= spec_path_cost(
                    before[t],
                ),
    ensures
        exists|q: int| 0 <= q < after.len() && (#[trigger] after[q]).cost is Some,
{
    let k0 = choose|k0: int| 0 <= k0 < before.len() && (#[trigger] before[k0]).cost is Some;
    assert(spec_path_cost(before[k0]) <= u64::MAX as int);
    let q0 = choose|q0: int|
        0 <= q0 < after.len() && (#[trigger] after[q0]).moves@ == before[k0].moves@
            && spec_path_cost(after[q0]) <= spec_path_cost(before[k0]);
    assert(after[q0].cost is Some);
}

/// Sorts the population by cost key, keeping the population invariants.
#[verifier::rlimit(100)]
fn sort_phase(board: &Board, population: &mut Vec<Path>, Ghost(no_seeds): Ghost<bool>)
    requires
        board.wf(),
        old(population)@.len() >= 1,
        population_ok(*board, old(population)@, no_seeds),
    ensures
        final(population)@.len() == old(population)@.len(),
        population_ok(*board, final(population)@, no_seeds),
        forall|a: int, b: int|
            0 <= a <= b < final(population)@.len() ==> spec_path_cost(
                #[trigger] final(population)@[a],
            ) <= spec_path_cost(#[trigger] final(population)@[b]),
{
    let ghost before_sort: Seq<Path> = population@;
    sort_paths_by_cost(population);
    proof {
        lemma_members_carry(*board, before_sort, population@);
        if no_seeds {
            if exists|k: int|
                0 <= k < before_sort.len() && (#[trigger] before_sort[k]).cost is Some {
                lemma_some_carries_by_inclusion(before_sort, population@);
            } else {
                lemma_empties_carry(before_sort, population@);
            }
        }
    }
}

/// Drops duplicate move lists from a sorted population, keeping the
/// population invariants; afterwards, if any member is feasible, the
/// front member is.
#[verifier::rlimit(100)]
fn dedup_phase(board: &Board, population: &mut Vec<Path>, Ghost(no_seeds): Ghost<bool>)
    requires
        board.wf(),
        old(population)@.len() >= 1,
        population_ok(*board, old(population)@, no_seeds),
        forall|a: int, b: int|
            0 <= a <= b < old(population)@.len() ==> spec_path_cost(
                #[trigger] old(population)@[a],
            ) <= spec_path_cost(#[trigger] old(population)@[b]),
    ensures
        final(population)@.len() >= 1,
        population_ok(*board, final(population)@, no_seeds),
        (exists|k: int|
            0 <= k < final(population)@.len() && (#[trigger] final(population)@[k]).cost
                is Some) ==> final(population)@[0].cost is Some,
{
    let ghost before_dedup: Seq<Path> = population@;
    dedup_population(population);
    proof {
        lemma_members_carry(*board, before_dedup, population@);
        if no_seeds {
            if exists|k: int|
                0 <= k < before_dedup.len() && (#[trigger] before_dedup[k]).cost is Some {
                lemma_some_carries_by_twin(before_dedup, population@);
            } else {
                lemma_empties_carry(before_dedup, population@);
            }
        }
        // If any member is feasible, so is the front: it sorted no worse
        // than the feasible member's deduplicated twin.
        if exists|k: int|
            0 <= k < population@.len() && (#[trigger] population@[k]).cost is Some {
            let k0 = choose|k0: int|
                0 <= k0 < population@.len() && (#[trigger] population@[k0]).cost is Some;
            assert(population@[0] == before_dedup[0]);
            assert(came_from(population@[k0], before_dedup));
            let t0 = choose|t0: int|
                0 <= t0 < before_dedup.len() && population@[k0] == before_dedup[t0];
            assert(spec_path_cost(before_dedup[0]) <= spec_path_cost(before_dedup[t0]));
            assert(population@[0].cost is Some);
        }
    }
}

/// One settling phase: sort by cost key, drop duplicate move lists, and
/// truncate to the generation size, keeping the population invariants.
#[verifier::rlimit(100)]
fn settle_population(
    board: &Board,
    population: &mut Vec<Path>,
    generation_size: usize,
    Ghost(no_seeds): Ghost<bool>,
)
    requires
        board.wf(),
        generation_size >= 1,
        old(population)@.len() >= 1,
        population_ok(*board, old(population)@, no_seeds),
    ensures
        final(population)@.len() >= 1,
        population_ok(*board, final(population)@, no_seeds),
{
    sort_phase(board, population, Ghost(no_seeds));
    dedup_phase(board, population, Ghost(no_seeds));
    let ghost before_truncate: Seq<Path> = population@;
    population.truncate(generation_size);
    proof {
        assert forall|k: int|
            0 <= k < population@.len() implies member_ok(*board, #[trigger] population@[k]) by {
            assert(population@[k] == before_truncate[k]);
        }
        if no_seeds {
            if exists|k: int|
                0 <= k < before_truncate.len() && (#[trigger] before_truncate[k]).cost is Some {
                // The front is feasible after the ordering phases and it
                // survives truncation.
                assert(before_truncate[0].cost is Some);
                assert(population@[0] == before_truncate[0]);
                assert(population@[0].cost is Some);
            } else {
                assert forall|k: int|
                    0 <= k < population@.len() implies (#[trigger] population@[k]).moves@.len()
                    == 0 by {
                    assert(population@[k] == before_truncate[k]);
                }
            }
        }
    }
}

/// Genetic search over maze paths: each round sorts the population by
/// cost, drops duplicate move lists, truncates to the generation size,
/// splices random parent pairs into children and probabilistically
/// perturbs survivors by swap mutations; on the deadline the cheapest
/// member's moves are returned.  Walking the returned moves from the
/// agent start stays on valid cells; in an unseeded run a non-empty
/// result reaches an exit, and next to an adjacent exit the run returns
/// the single exit step (or nothing, when every seeded path was empty).
#[verifier::rlimit(100)]
pub fn search(
    board: &Board,
    initial_solutions: Option<(u64, Vec<Vec<Direction>>)>,
    time_limit_millis: u64,
    rng: &mut RandomSource,
) -> (r: Vec<Direction>)
    requires
        board.wf(),
    ensures
        spec_valid_walk(*board, board.agent_position, r@) || spec_reaches_exit(
            *board,
            board.agent_position,
            r@,
        ),
        initial_solutions is None ==> (r@.len() >= 1 ==> spec_reaches_exit(
            *board,
            board.agent_position,
            r@,
        )),
        board.spec_exit_move(board.agent_position) is Some ==> r@ == seq![
            (board.spec_exit_move(board.agent_position)->Some_0).0,
        ] || r@.len() == 0,
        initial_solutions is None && board.spec_exit_move(board.agent_position) is Some ==> r@
            == seq![(board.spec_exit_move(board.agent_position)->Some_0).0],
{
    let start = clock::instant_now();
    let ghost no_seeds: bool = initial_solutions is None;
    let mut population: Vec<Path> = Vec::new();
    let mut generation_size: usize = GENERATION_SIZE;

    match initial_solutions {
        Some((cap, initial)) => {
            if (cap as u64) < (GENERATION_SIZE as u64) {
                generation_size = cap as usize;
            }
            if generation_size < 1 {
                generation_size = 1;
            }
            let mut moves_list = initial;
            while moves_list.len() > 0
                invariant
                    board.wf(),
                    forall|k: int|
                        0 <= k < population@.len() ==> member_ok(
                            *board,
                            #[trigger] population@[k],
                        ),
                decreases moves_list@.len(),
            {
                match moves_list.pop() {
                    Some(moves) => {
                        let ghost mv: Seq<Direction> = moves@;
                        let member = Path::new(board.agent_position, moves, board);
                        proof {
                            if board.spec_exit_move(board.agent_position) is Some {
                                let d = (board.spec_exit_move(board.agent_position)->Some_0).0;
                                if mv.len() == 0 {
                                    assert(mv.take(0) =~= Seq::<Direction>::empty());
                                    assert(member.moves@.len() == 0);
                                } else {
                                    assert(mv.take(0) =~= Seq::<Direction>::empty());
                                    assert(member.moves@ =~= seq![d]);
                                }
                            }
                        }
                        population.push(member);
                    },
                    None => {},
                }
            }
        },
        None => {},
    }

    if population.len() == 0 {
        let mut first = Path::new_to_exit(board, rng);
        proof {
            if board.spec_exit_move(board.agent_position) is Some || first.cost is None {
                crate::direction::lemma_canon_short(first.moves@);
            }
        }
        first.remove_redundancies();
        population.push(first);
        proof {
            if no_seeds {
                if population@[0].cost is Some {
                    assert(exists|k: int|
                        0 <= k < population@.len() && (#[trigger] population@[k]).cost is Some);
                } else {
                    assert forall|k: int|
                        0 <= k < population@.len() implies (
                    #[trigger] population@[k]).moves@.len() == 0 by {
                    }
                }
            }
        }
    }

    let mut rounds: u64 = ROUND_LIMIT;
    while rounds > 0 && clock::elapsed_millis(&start) < time_limit_millis
        invariant
            board.wf(),
            1 <= generation_size <= GENERATION_SIZE,
            population@.len() >= 1,
            population_ok(*board, population@, no_seeds),
        decreases rounds,
    {
        settle_population(board, &mut population, generation_size, Ghost(no_seeds));

        // Splice random parent pairs into children.
        let mut made: usize = 0;
        while made < generation_size * 2
            invariant
                board.wf(),
                generation_size <= GENERATION_SIZE,
                population@.len() >= 1,
                population_ok(*board, population@, no_seeds),
            decreases generation_size * 2 - made,
        {
            let a = rng.gen_index(population.len());
            let b = rng.gen_index(population.len());
            let len1 = population[a].moves.len();
            let len2 = population[b].moves.len();
            if len1 >= 1 && len2 >= 2 {
                let start1 = rng.gen_index(len1);
                let start2 = rng.gen_index(len2 - 1);
                let end2 = start2 + 1 + rng.gen_index(len2 - start2 - 1);
                let child = Path::recombine_splice(
                    &population[a],
                    &population[b],
                    start1,
                    start2,
                    end2,
                    board,
                );
                proof {
                    if board.spec_exit_move(board.agent_position) is Some {
                        // Every member is the exit step or empty, so no
                        // parent can offer two moves here.
                        assert(member_ok(*board, population@[b as int]));
                        assert(false);
                    }
                }
                let ghost pre: Seq<Path> = population@;
                population.push(child);
                proof {
                    if no_seeds {
                        // A parent with a move refutes the all-empty case,
                        // so a feasible member exists and persists.
                        assert(pre[a as int].moves@.len() >= 1);
                        let k0 = choose|k0: int|
                            0 <= k0 < pre.len() && (#[trigger] pre[k0]).cost is Some;
                        assert(population@[k0].cost is Some);
                    }
                }
            }
            made = made + 1;
        }

        // Probabilistically perturb survivors.
        let mut idx: usize = 0;
        let settled = population.len();
        while idx < settled
            invariant
                board.wf(),
                settled <= population@.len(),
                population@.len() >= 1,
                population_ok(*board, population@, no_seeds),
            decreases settled - idx,
        {
            let len = population[idx].moves.len();
            if len >= 1 && rng.gen_ratio(1, 20) {
                let mean: u64 = if (len as u64) / 2 > 0xffff_ffff {
                    0xffff_ffff
                } else {
                    (len as u64) / 2
                };
                let mut count = rng.normal_sample(mean, 3);
                if count < 1 {
                    count = 1;
                }
                let mut positions: Vec<(usize, usize)> = Vec::new();
                let mut c: u64 = 0;
                while c < count
                    invariant
                        len >= 1,
                        population@.len() > idx,
                        population@[idx as int].moves@.len() == len,
                        forall|t: int|
                            0 <= t < positions@.len() ==> (#[trigger] positions@[t]).0 < len
                                && positions@[t].1 < len,
                    decreases count - c,
                {
                    positions.push((rng.gen_index(len), rng.gen_index(len)));
                    c = c + 1;
                }
                let mutated = Path::mutate_swap(&population[idx], board, &positions);
                proof {
                    if board.spec_exit_move(board.agent_position) is Some {
                        let d = (board.spec_exit_move(board.agent_position)->Some_0).0;
                        let source = population@[idx as int];
                        assert(member_ok(*board, source));
                        assert(source.moves@ == seq![d]);
                        lemma_swaps_on_singleton(source.moves@, positions@);
                        let swapped = crate::path::spec_swapped_moves(source.moves@, positions@);
                        assert(swapped.take(0) =~= Seq::<Direction>::empty());
                        assert(mutated.moves@ =~= seq![d]);
                    }
                }
                let ghost pre: Seq<Path> = population@;
                population.push(mutated);
                proof {
                    if no_seeds {
                        assert(pre[idx as int].moves@.len() >= 1);
                        let k0 = choose|k0: int|
                            0 <= k0 < pre.len() && (#[trigger] pre[k0]).cost is Some;
                        assert(population@[k0].cost is Some);
                    }
                }
            }
            idx = idx + 1;
        }
        rounds = rounds - 1;
    }

    // Return the best member, by cost key.
    let mut best: usize = 0;
    let mut i: usize = 1;
    while i < population.len()
        invariant
            population@.len() >= 1,
            best < i <= population@.len(),
            board.wf(),
            population_ok(*board, population@, no_seeds),
            forall|t: int|
                0 <= t < i ==> spec_path_cost(population@[best as int]) <= spec_path_cost(
                    #[trigger] population@[t],
                ),
        decreases population@.len() - i,
    {
        if path_cost_below(&population[i], &population[best]) {
            best = i;
        }
        i = i + 1;
    }
    proof {
        if no_seeds {
            if exists|k: int|
                0 <= k < population@.len() && (#[trigger] population@[k]).cost is Some {
                let k0 = choose|k0: int|
                    0 <= k0 < population@.len() && (#[trigger] population@[k0]).cost is Some;
                assert(spec_path_cost(population@[best as int]) <= spec_path_cost(
                    population@[k0],
                ));
                assert(population@[best as int].cost is Some);
            }
        }
    }
    let winner = population[best].duplicate();
    winner.moves
}

} // verus!
