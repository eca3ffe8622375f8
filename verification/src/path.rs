use crate::board::Board;
use crate::direction::{
    collapse_triple_at, remove_pair_at, spec_canon, spec_dx, spec_dy, spec_inverse,
    spec_pass, spec_pass_from, Direction,
};
use crate::point::Point;
use crate::rng::RandomSource;
use vstd::prelude::*;

verus! {

/// The cell one step from `p` in direction `d`, as the walk specification
/// sees it.
pub open spec fn spec_moved(d: Direction, p: Point) -> Point {
    Point { x: (p.x + spec_dx(d)) as u64, y: (p.y + spec_dy(d)) as u64 }
}

/// The cell reached by walking `moves` from `p`.
pub open spec fn spec_walk(p: Point, moves: Seq<Direction>) -> Point
    decreases moves.len(),
{
    if moves.len() == 0 {
        p
    } else {
        spec_walk(spec_moved(moves[0], p), moves.skip(1))
    }
}

/// Every step of `moves` from `p` lands on a valid interior cell.
pub open spec fn spec_valid_walk(b: Board, p: Point, moves: Seq<Direction>) -> bool
    decreases moves.len(),
{
    moves.len() == 0 || {
        let q = spec_moved(moves[0], p);
        b.spec_valid(q) && spec_valid_walk(b, q, moves.skip(1))
    }
}

/// Walking `moves` from `p` stays on valid cells up to the last step, and
/// the last step enters an exit cell.
pub open spec fn spec_reaches_exit(b: Board, p: Point, moves: Seq<Direction>) -> bool {
    &&& moves.len() >= 1
    &&& spec_valid_walk(b, p, moves.take(moves.len() - 1))
    &&& b.spec_is_exit(spec_walk(p, moves))
}

/// Walking a concatenation is walking the parts in turn, both for the
/// endpoint and for validity of every step.
pub proof fn lemma_walk_append(b: Board, p: Point, s1: Seq<Direction>, s2: Seq<Direction>)
    ensures
        spec_walk(p, s1 + s2) == spec_walk(spec_walk(p, s1), s2),
        spec_valid_walk(b, p, s1 + s2) == (spec_valid_walk(b, p, s1) && spec_valid_walk(
            b,
            spec_walk(p, s1),
            s2,
        )),
    decreases s1.len(),
{
    if s1.len() == 0 {
        assert(s1 + s2 =~= s2);
    } else {
        let q = spec_moved(s1[0], p);
        assert((s1 + s2).skip(1) =~= s1.skip(1) + s2);
        lemma_walk_append(b, q, s1.skip(1), s2);
    }
}

/// Pushing one move onto a walk moves the endpoint by that one step.
pub proof fn lemma_walk_push(b: Board, p: Point, s: Seq<Direction>, d: Direction)
    ensures
        spec_walk(p, s.push(d)) == spec_moved(d, spec_walk(p, s)),
        spec_valid_walk(b, p, s.push(d)) == (spec_valid_walk(b, p, s) && b.spec_valid(
            spec_moved(d, spec_walk(p, s)),
        )),
{
    let q0 = spec_walk(p, s);
    let one = seq![d];
    assert(s.push(d) =~= s + one);
    lemma_walk_append(b, p, s, one);
    assert(one.skip(1) =~= Seq::<Direction>::empty());
    assert(spec_walk(spec_moved(d, q0), one.skip(1)) == spec_moved(d, q0));
    assert(spec_valid_walk(b, spec_moved(d, q0), one.skip(1)));
    assert(spec_walk(q0, one) == spec_moved(d, q0));
    assert(spec_valid_walk(b, q0, one) == b.spec_valid(spec_moved(d, q0)));
}

/// A valid walk of at least one step ends on a valid cell.
pub proof fn lemma_valid_walk_last(b: Board, p: Point, s: Seq<Direction>)
    requires
        spec_valid_walk(b, p, s),
        s.len() >= 1,
    ensures
        b.spec_valid(spec_walk(p, s)),
    decreases s.len(),
{
    let q = spec_moved(s[0], p);
    if s.len() > 1 {
        lemma_valid_walk_last(b, q, s.skip(1));
    } else {
        assert(s.skip(1).len() == 0);
        assert(spec_walk(q, s.skip(1)) == q);
    }
}

/// A prefix of a valid walk is a valid walk.
pub proof fn lemma_valid_walk_prefix(b: Board, p: Point, s: Seq<Direction>, n: int)
    requires
        spec_valid_walk(b, p, s),
        0 <= n <= s.len(),
    ensures
        spec_valid_walk(b, p, s.take(n)),
    decreases s.len(),
{
    if n > 0 && s.len() > 0 {
        let q = spec_moved(s[0], p);
        assert(s.take(n).skip(1) =~= s.skip(1).take(n - 1));
        lemma_valid_walk_prefix(b, q, s.skip(1), n - 1);
    }
}

/// Stepping off a valid cell and stepping straight back returns to it.
pub proof fn lemma_moved_cancel(b: Board, q: Point, d: Direction)
    requires
        b.spec_valid(q),
    ensures
        spec_moved(spec_inverse(d), spec_moved(d, q)) == q,
{
}

/// Walking a two-move sequence, spelled out.
pub proof fn lemma_walk_two(b: Board, q: Point, d1: Direction, d2: Direction)
    ensures
        spec_walk(q, seq![d1, d2]) == spec_moved(d2, spec_moved(d1, q)),
        spec_valid_walk(b, q, seq![d1, d2]) == (b.spec_valid(spec_moved(d1, q)) && b.spec_valid(
            spec_moved(d2, spec_moved(d1, q)),
        )),
{
    let a = spec_moved(d1, q);
    assert(seq![d1, d2].skip(1) =~= seq![d2]);
    assert(seq![d2].skip(1) =~= Seq::<Direction>::empty());
    assert(spec_walk(spec_moved(d2, a), seq![d2].skip(1)) == spec_moved(d2, a));
    assert(spec_walk(a, seq![d2]) == spec_moved(d2, a));
    assert(spec_valid_walk(b, spec_moved(d2, a), seq![d2].skip(1)));
    assert(spec_valid_walk(b, a, seq![d2]) == b.spec_valid(spec_moved(d2, a)));
}

/// Walking a three-move sequence, spelled out.
pub proof fn lemma_walk_three(b: Board, q: Point, d1: Direction, d2: Direction, d3: Direction)
    ensures
        spec_walk(q, seq![d1, d2, d3]) == spec_moved(
            d3,
            spec_moved(d2, spec_moved(d1, q)),
        ),
        spec_valid_walk(b, q, seq![d1, d2, d3]) == (b.spec_valid(spec_moved(d1, q))
            && b.spec_valid(spec_moved(d2, spec_moved(d1, q))) && b.spec_valid(
            spec_moved(d3, spec_moved(d2, spec_moved(d1, q))),
        )),
{
    let a = spec_moved(d1, q);
    assert(seq![d1, d2, d3].skip(1) =~= seq![d2, d3]);
    lemma_walk_two(b, a, d2, d3);
}

/// Dropping a move and its inverse, standing somewhere in a walk whose
/// steps all land on valid cells, changes neither the endpoint nor the
/// validity of the walk.
pub proof fn lemma_pair_rewrite_valid(b: Board, p: Point, s: Seq<Direction>, i: int)
    requires
        b.spec_valid(p),
        0 <= i,
        i + 2 <= s.len(),
        s[i + 1] == spec_inverse(s[i]),
        spec_valid_walk(b, p, s),
    ensures
        spec_valid_walk(b, p, remove_pair_at(s, i)),
        spec_walk(p, remove_pair_at(s, i)) == spec_walk(p, s),
{
    let front = s.take(i);
    let rest = s.skip(i + 2);
    let d = s[i];
    let q = spec_walk(p, front);
    assert(s =~= front + (seq![d, spec_inverse(d)] + rest));
    lemma_walk_append(b, p, front, seq![d, spec_inverse(d)] + rest);
    lemma_walk_append(b, q, seq![d, spec_inverse(d)], rest);
    assert((seq![d, spec_inverse(d)] + rest).take(2) =~= seq![d, spec_inverse(d)]);
    lemma_walk_two(b, q, d, spec_inverse(d));
    if i > 0 {
        lemma_valid_walk_prefix(b, p, s, i);
        lemma_valid_walk_last(b, p, front);
    } else {
        assert(front =~= Seq::<Direction>::empty());
        assert(spec_walk(p, front) == p);
    }
    lemma_moved_cancel(b, q, d);
    assert(remove_pair_at(s, i) =~= front + rest);
    lemma_walk_append(b, p, front, rest);
}

/// Collapsing a move, one other move and the inverse of the first to just
/// the middle move, inside a walk whose steps all land on valid cells,
/// changes neither the endpoint nor the validity of the walk.
pub proof fn lemma_triple_rewrite_valid(b: Board, p: Point, s: Seq<Direction>, i: int)
    requires
        b.spec_valid(p),
        0 <= i,
        i + 3 <= s.len(),
        s[i + 2] == spec_inverse(s[i]),
        spec_valid_walk(b, p, s),
    ensures
        spec_valid_walk(b, p, collapse_triple_at(s, i)),
        spec_walk(p, collapse_triple_at(s, i)) == spec_walk(p, s),
{
    let front = s.take(i);
    let rest = s.skip(i + 3);
    let d = s[i];
    let x = s[i + 1];
    let q = spec_walk(p, front);
    assert(s =~= front + (seq![d, x, spec_inverse(d)] + rest));
    lemma_walk_append(b, p, front, seq![d, x, spec_inverse(d)] + rest);
    lemma_walk_append(b, q, seq![d, x, spec_inverse(d)], rest);
    lemma_walk_three(b, q, d, x, spec_inverse(d));
    if i > 0 {
        lemma_valid_walk_prefix(b, p, s, i);
        lemma_valid_walk_last(b, p, front);
    } else {
        assert(front =~= Seq::<Direction>::empty());
        assert(spec_walk(p, front) == p);
    }
    let a = spec_moved(d, q);
    let e = spec_moved(x, a);
    let c = spec_moved(spec_inverse(d), e);
    assert(c == spec_moved(x, q));
    assert(collapse_triple_at(s, i) =~= front + (seq![x] + rest));
    lemma_walk_append(b, p, front, seq![x] + rest);
    lemma_walk_append(b, q, seq![x], rest);
    assert(seq![x].skip(1) =~= Seq::<Direction>::empty());
    assert(spec_walk(spec_moved(x, q), seq![x].skip(1)) == spec_moved(x, q));
    assert(spec_walk(q, seq![x]) == spec_moved(x, q));
    assert(spec_valid_walk(b, spec_moved(x, q), seq![x].skip(1)));
}

/// The pair rewrite keeps a path that reaches an exit reaching it, with the
/// same endpoint.
pub proof fn lemma_pair_rewrite_reaches(b: Board, p: Point, s: Seq<Direction>, i: int)
    requires
        b.spec_valid(p),
        0 <= i,
        i + 2 < s.len(),
        s[i + 1] == spec_inverse(s[i]),
        spec_reaches_exit(b, p, s),
    ensures
        spec_reaches_exit(b, p, remove_pair_at(s, i)),
        spec_walk(p, remove_pair_at(s, i)) == spec_walk(p, s),
{
    let n = s.len() as int;
    let body = s.take(n - 1);
    let last = s[n - 1];
    lemma_pair_rewrite_valid(b, p, body, i);
    let new_body = remove_pair_at(body, i);
    assert(remove_pair_at(s, i) =~= new_body.push(last));
    assert(s =~= body.push(last));
    lemma_walk_push(b, p, body, last);
    lemma_walk_push(b, p, new_body, last);
    assert(new_body.push(last).take(new_body.push(last).len() - 1) =~= new_body);
}

/// The triple rewrite keeps a path that reaches an exit reaching it, with
/// the same endpoint.
pub proof fn lemma_triple_rewrite_reaches(b: Board, p: Point, s: Seq<Direction>, i: int)
    requires
        b.spec_valid(p),
        0 <= i,
        i + 2 < s.len(),
        s[i + 2] == spec_inverse(s[i]),
        spec_reaches_exit(b, p, s),
    ensures
        spec_reaches_exit(b, p, collapse_triple_at(s, i)),
        spec_walk(p, collapse_triple_at(s, i)) == spec_walk(p, s),
{
    let n = s.len() as int;
    let body = s.take(n - 1);
    let last = s[n - 1];
    if i + 3 <= n - 1 {
        lemma_triple_rewrite_valid(b, p, body, i);
        let new_body = collapse_triple_at(body, i);
        assert(collapse_triple_at(s, i) =~= new_body.push(last));
        assert(s =~= body.push(last));
        lemma_walk_push(b, p, body, last);
        lemma_walk_push(b, p, new_body, last);
        assert(new_body.push(last).take(new_body.push(last).len() - 1) =~= new_body);
    } else {
        // The triple ends exactly at the final, exit-entering move.
        let d = s[i];
        let x = s[i + 1];
        let front = s.take(i);
        let q = spec_walk(p, front);
        assert(body =~= front + seq![d, x]);
        lemma_walk_append(b, p, front, seq![d, x]);
        lemma_walk_two(b, q, d, x);
        if i > 0 {
            lemma_valid_walk_prefix(b, p, body, i);
            assert(body.take(i) =~= front);
            lemma_valid_walk_last(b, p, front);
        } else {
            assert(front =~= Seq::<Direction>::empty());
            assert(spec_walk(p, front) == p);
        }
        let a = spec_moved(d, q);
        let e = spec_moved(x, a);
        let c = spec_moved(spec_inverse(d), e);
        assert(s =~= body.push(last));
        lemma_walk_push(b, p, body, last);
        assert(spec_walk(p, s) == c);
        assert(c == spec_moved(x, q));
        assert(collapse_triple_at(s, i) =~= front.push(x));
        lemma_walk_push(b, p, front, x);
        assert(front.push(x).take(front.push(x).len() - 1) =~= front);
        if i > 0 {
        } else {
            assert(spec_valid_walk(b, p, front));
        }
    }
}

/// One full redundancy-removal pass keeps the endpoint of a walk, keeps a
/// walk over valid cells valid, and keeps a path that reaches an exit
/// reaching it.
pub proof fn lemma_pass_from_preserves(b: Board, p: Point, s: Seq<Direction>, i: int)
    requires
        b.spec_valid(p),
        0 <= i,
    ensures
        spec_valid_walk(b, p, s) ==> spec_valid_walk(b, p, spec_pass_from(s, i))
            && spec_walk(p, spec_pass_from(s, i)) == spec_walk(p, s),
        spec_reaches_exit(b, p, s) ==> spec_reaches_exit(b, p, spec_pass_from(s, i))
            && spec_walk(p, spec_pass_from(s, i)) == spec_walk(p, s),
    decreases s.len(), s.len() - i,
{
    if i + 2 >= s.len() {
    } else if spec_inverse(s[i]) == s[i + 1] {
        if spec_valid_walk(b, p, s) {
            lemma_pair_rewrite_valid(b, p, s, i);
        }
        if spec_reaches_exit(b, p, s) {
            lemma_pair_rewrite_reaches(b, p, s, i);
        }
        lemma_pass_from_preserves(b, p, remove_pair_at(s, i), i);
    } else if spec_inverse(s[i]) == s[i + 2] {
        if spec_valid_walk(b, p, s) {
            lemma_triple_rewrite_valid(b, p, s, i);
        }
        if spec_reaches_exit(b, p, s) {
            lemma_triple_rewrite_reaches(b, p, s, i);
        }
        lemma_pass_from_preserves(b, p, collapse_triple_at(s, i), i);
    } else {
        lemma_pass_from_preserves(b, p, s, i + 1);
    }
}

/// Canonicalization keeps the endpoint of a walk, keeps a walk over valid
/// cells valid, and keeps a path that reaches an exit reaching it.
pub proof fn lemma_canon_preserves(b: Board, p: Point, s: Seq<Direction>)
    requires
        b.spec_valid(p),
    ensures
        spec_valid_walk(b, p, s) ==> spec_valid_walk(b, p, spec_canon(s)) && spec_walk(
            p,
            spec_canon(s),
        ) == spec_walk(p, s),
        spec_reaches_exit(b, p, s) ==> spec_reaches_exit(b, p, spec_canon(s)) && spec_walk(
            p,
            spec_canon(s),
        ) == spec_walk(p, s),
    decreases s.len(),
{
    if spec_pass(s) == s {
    } else {
        lemma_pass_from_preserves(b, p, s, 0);
        crate::direction::lemma_pass_shrinks(s, 0);
        lemma_canon_preserves(b, p, spec_pass(s));
    }
}

/// What one verification scan over a move suffix finds: either an exit step
/// after consuming `used` moves, or the cell where it ran out of valid moves.
pub enum ScanOutcome {
    Found { used: nat, step: Direction, cell: Point },
    Stopped { used: nat, cell: Point },
}

/// The same outcome with `extra` more consumed moves in front of it.
pub open spec fn shift_scan(o: ScanOutcome, extra: nat) -> ScanOutcome {
    match o {
        ScanOutcome::Found { used, step, cell } => ScanOutcome::Found {
            used: (used + extra) as nat,
            step,
            cell,
        },
        ScanOutcome::Stopped { used, cell } => ScanOutcome::Stopped {
            used: (used + extra) as nat,
            cell,
        },
    }
}

/// The verification scan itself.  Standing on `p` with `rest` still to walk:
/// with no moves left it stops where it is; otherwise it first looks for an
/// adjacent exit, then tries the next move, stopping where that move would
/// leave the valid cells.
pub open spec fn spec_scan(b: Board, p: Point, rest: Seq<Direction>) -> ScanOutcome
    decreases rest.len(),
{
    if rest.len() == 0 {
        ScanOutcome::Stopped { used: 0, cell: p }
    } else {
        match b.spec_exit_move(p) {
            Some(dq) => ScanOutcome::Found { used: 0, step: dq.0, cell: dq.1 },
            None => {
                let q = spec_moved(rest[0], p);
                if !b.spec_valid(q) {
                    ScanOutcome::Stopped { used: 0, cell: p }
                } else {
                    shift_scan(spec_scan(b, q, rest.skip(1)), 1)
                }
            },
        }
    }
}

/// The spliced move list of two parents: a prefix of the first, an infix
/// of the second, and whatever of the first parent's tail lies beyond the
/// replaced stretch.
pub open spec fn spec_spliced(
    m1: Seq<Direction>,
    m2: Seq<Direction>,
    start1: int,
    start2: int,
    end2: int,
) -> Seq<Direction> {
    let infix = m2.subrange(start2, end2);
    let tail = if start1 + infix.len() <= m1.len() {
        m1.skip(start1 + infix.len())
    } else {
        Seq::empty()
    };
    m1.take(start1) + infix + tail
}

/// The listed position pairs exchanged in order.
pub open spec fn spec_swapped_moves(s: Seq<Direction>, ps: Seq<(usize, usize)>) -> Seq<Direction>
    decreases ps.len(),
{
    if ps.len() == 0 {
        s
    } else {
        spec_swapped_moves(
            s.update(ps[0].0 as int, s[ps[0].1 as int]).update(ps[0].1 as int, s[ps[0].0 as int]),
            ps.skip(1),
        )
    }
}

/// A move list for escaping the maze: the ordered moves, the cached cell
/// they end on, and the cached cost, present exactly when the moves reach an
/// exit.
#[derive(Debug, Clone)]
pub struct Path {
    pub starting_point: Point,
    pub ending_point: Point,
    pub moves: Vec<Direction>,
    pub cost: Option<u64>,
}

impl Path {
    /// The path invariant on board `b`: the cached ending point and cost
    /// agree with walking the moves from the starting point.
    pub open spec fn wf(self, b: Board) -> bool {
        &&& b.spec_valid(self.starting_point)
        &&& self.ending_point == spec_walk(self.starting_point, self.moves@)
        &&& match self.cost {
            Some(n) => n == self.moves@.len() && spec_reaches_exit(
                b,
                self.starting_point,
                self.moves@,
            ),
            None => spec_valid_walk(b, self.starting_point, self.moves@),
        }
    }

    /// What `verify(from_index, ..)` leaves behind, given the scan outcome
    /// over the suffix it walked.
    pub open spec fn spec_after_scan(
        self,
        before_moves: Seq<Direction>,
        from_index: int,
        o: ScanOutcome,
    ) -> bool {
        match o {
            ScanOutcome::Found { used, step, cell } => {
                &&& self.moves@ == before_moves.take(from_index + used).push(step)
                &&& self.ending_point == cell
                &&& self.cost == Some((from_index + used + 1) as u64)
            },
            ScanOutcome::Stopped { used, cell } => {
                &&& self.moves@ == before_moves.take(from_index + used)
                &&& self.ending_point == cell
                &&& self.cost is None
            },
        }
    }

    /// One linear scan over `moves[from_index..]` from the appropriate
    /// anchor: truncates at the first exit opportunity and appends the
    /// entering step, or truncates where the walk first leaves the valid
    /// cells.
    #[verifier::loop_isolation(false)]
    pub fn verify(&mut self, from_index: usize, board: &Board) -> (found: bool)
        requires
            board.wf(),
            board.spec_valid(old(self).starting_point),
            from_index <= old(self).moves@.len(),
            spec_valid_walk(
                *board,
                old(self).starting_point,
                old(self).moves@.take(from_index as int),
            ),
            from_index > 0 ==> old(self).ending_point == spec_walk(
                old(self).starting_point,
                old(self).moves@.take(from_index as int),
            ),
        ensures
            final(self).starting_point == old(self).starting_point,
            final(self).wf(*board),
            found == (final(self).cost is Some),
            final(self).spec_after_scan(
                old(self).moves@,
                from_index as int,
                spec_scan(
                    *board,
                    spec_walk(
                        old(self).starting_point,
                        old(self).moves@.take(from_index as int),
                    ),
                    old(self).moves@.skip(from_index as int),
                ),
            ),
    {
        let ghost ms: Seq<Direction> = self.moves@;
        let ghost start: Point = self.starting_point;
        let ghost anchor: Point = spec_walk(start, ms.take(from_index as int));
        let ghost outcome: ScanOutcome = spec_scan(*board, anchor, ms.skip(from_index as int));

        let mut current_pos: Point = if from_index == 0 {
            self.starting_point
        } else {
            self.ending_point
        };
        proof {
            if from_index > 0 {
                lemma_valid_walk_last(*board, start, ms.take(from_index as int));
            }
        }
        let mut idx: usize = from_index;
        while idx < self.moves.len()
            invariant
                board.wf(),
                self.moves@ == ms,
                self.starting_point == start,
                board.spec_valid(start),
                from_index <= idx <= ms.len(),
                board.spec_valid(current_pos),
                spec_valid_walk(*board, start, ms.take(idx as int)),
                current_pos == spec_walk(start, ms.take(idx as int)),
                outcome == shift_scan(
                    spec_scan(*board, current_pos, ms.skip(idx as int)),
                    (idx - from_index) as nat,
                ),
            decreases ms.len() - idx,
        {
            let ghost rest: Seq<Direction> = ms.skip(idx as int);
            proof {
                assert(rest.len() > 0);
                assert(rest[0] == ms[idx as int]);
            }
            match board.move_into_exit(current_pos) {
                Some((exit_dir, exit_cell)) => {
                    self.moves.truncate(idx);
                    self.moves.push(exit_dir);
                    self.ending_point = exit_cell;
                    self.cost = Some((idx as u64) + 1);
                    proof {
                        assert(ms.subrange(0, idx as int) =~= ms.take(idx as int));
                        assert(outcome == ScanOutcome::Found {
                            used: (idx - from_index) as nat,
                            step: exit_dir,
                            cell: exit_cell,
                        });
                        lemma_walk_push(*board, start, ms.take(idx as int), exit_dir);
                        assert(spec_moved(exit_dir, current_pos) == exit_cell);
                        assert(self.moves@.take(self.moves@.len() - 1) =~= ms.take(idx as int));
                    }
                    return true;
                },
                None => {
                    let d = self.moves[idx];
                    let q = d.move_point(current_pos);
                    proof {
                        assert(q == spec_moved(d, current_pos));
                    }
                    if !board.is_valid_position(q) {
                        self.moves.truncate(idx);
                        self.ending_point = current_pos;
                        self.cost = None;
                        proof {
                            assert(ms.subrange(0, idx as int) =~= ms.take(idx as int));
                            assert(outcome == ScanOutcome::Stopped {
                                used: (idx - from_index) as nat,
                                cell: current_pos,
                            });
                        }
                        return false;
                    }
                    proof {
                        assert(rest.skip(1) =~= ms.skip(idx + 1));
                        assert(ms.take(idx + 1) =~= ms.take(idx as int).push(ms[idx as int]));
                        lemma_walk_push(*board, start, ms.take(idx as int), ms[idx as int]);
                    }
                    current_pos = q;
                    idx = idx + 1;
                },
            }
        }
        self.ending_point = current_pos;
        self.cost = None;
        proof {
            assert(ms.take(ms.len() as int) =~= ms);
            assert(outcome == ScanOutcome::Stopped {
                used: (idx - from_index) as nat,
                cell: current_pos,
            });
        }
        false
    }
}

/// How many random extension batches a repair may try before giving up; far
/// beyond anything a reachable exit can need, this only bounds the loop.
pub const REPAIR_ATTEMPT_LIMIT: u64 = 0x1000_0000_0000;

fn clone_moves(v: &Vec<Direction>) -> (r: Vec<Direction>)
    ensures
        r@ == v@,
{
    let mut r: Vec<Direction> = Vec::new();
    let mut i: usize = 0;
    while i < v.len()
        invariant
            i <= v@.len(),
            r@ == v@.take(i as int),
        decreases v@.len() - i,
    {
        r.push(v[i]);
        proof {
            assert(r@ =~= v@.take(i + 1));
        }
        i = i + 1;
    }
    proof {
        assert(v@.take(v@.len() as int) =~= v@);
    }
    r
}

impl Path {
    /// Appends `new_moves` and re-verifies only the new suffix, anchored on
    /// the cached ending point.
    pub fn extend(&mut self, new_moves: Vec<Direction>, board: &Board) -> (found: bool)
        requires
            board.wf(),
            old(self).wf(*board),
            old(self).cost is None,
        ensures
            final(self).wf(*board),
            final(self).starting_point == old(self).starting_point,
            found == (final(self).cost is Some),
            found == (spec_scan(*board, old(self).ending_point, new_moves@) is Found),
            final(self).spec_after_scan(
                old(self).moves@ + new_moves@,
                old(self).moves@.len() as int,
                spec_scan(*board, old(self).ending_point, new_moves@),
            ),
    {
        let current_length = self.moves.len();
        let mut tail = new_moves;
        self.moves.append(&mut tail);
        proof {
            assert(self.moves@.take(current_length as int) =~= old(self).moves@);
            assert(self.moves@.skip(current_length as int) =~= new_moves@);
        }
        self.verify(current_length, board)
    }

    /// Grows the path with batches of `height + width` random moves,
    /// re-verifying only each new suffix, until a pass finds an exit.  The
    /// attempt bound only makes the loop finite; on a board with a
    /// reachable exit the loop ends long before it.
    #[verifier::loop_isolation(false)]
    pub fn extend_to_exit(&mut self, board: &Board, rng: &mut RandomSource)
        requires
            board.wf(),
            board.spec_valid(old(self).starting_point),
        ensures
            final(self).wf(*board),
            final(self).starting_point == old(self).starting_point,
            (final(self).cost is None) ==> final(self).moves@.len() == 0,
            board.spec_exit_move(old(self).starting_point) is Some ==> final(self).cost == Some(
                1u64,
            ) && final(self).moves@ == seq![
                (board.spec_exit_move(old(self).starting_point)->Some_0).0,
            ],
    {
        let ghost start: Point = old(self).starting_point;
        proof {
            assert(old(self).moves@.take(0) =~= Seq::<Direction>::empty());
        }
        if self.verify(0, board) {
            proof {
                if board.spec_exit_move(start) is Some {
                    // The scan looks for an adjacent exit before reading any
                    // move, so it finds this one immediately.
                    let d = (board.spec_exit_move(start)->Some_0).0;
                    assert(old(self).moves@.len() >= 1);
                    assert(self.moves@ =~= seq![d]);
                }
            }
            return;
        }
        proof {
            if board.spec_exit_move(start) is Some {
                // A failed scan next to an exit is only possible with no
                // moves to walk at all.
                assert(self.moves@.len() == 0);
                assert(self.ending_point == start);
            }
        }
        let _grid_len = board.fields.len();
        proof {
            assert(board.height + board.width <= board.height * board.width)
                by (nonlinear_arith)
                requires
                    board.height >= 2,
                    board.width >= 2,
            ;
        }
        let batch_len: usize = board.height + board.width;
        let mut attempts: u64 = REPAIR_ATTEMPT_LIMIT;
        while attempts > 0
            invariant
                self.wf(*board),
                self.cost is None,
                self.starting_point == start,
                board.spec_exit_move(start) is Some ==> self.moves@.len() == 0
                    && self.ending_point == start,
                board.spec_exit_move(start) is Some ==> attempts == REPAIR_ATTEMPT_LIMIT,
            decreases attempts,
        {
            let mut batch: Vec<Direction> = Vec::new();
            let mut k: usize = 0;
            while k < batch_len
                invariant
                    k <= batch_len,
                    batch@.len() == k,
                decreases batch_len - k,
            {
                batch.push(Direction::random(rng));
                k = k + 1;
            }
            let ghost pre: Path = *self;
            let ghost batch_view: Seq<Direction> = batch@;
            let found = self.extend(batch, board);
            proof {
                if board.spec_exit_move(start) is Some {
                    let d = (board.spec_exit_move(start)->Some_0).0;
                    assert(batch_view.len() >= 1);
                    assert(found);
                    assert((pre.moves@ + batch_view).take(0) =~= Seq::<Direction>::empty());
                    assert(self.moves@ =~= seq![d]);
                }
            }
            if found {
                return;
            }
            attempts = attempts - 1;
        }
        // The attempt bound ran out without an exit: reset to the bare
        // start, so that an unfinished path is never mistaken for a route.
        self.moves.truncate(0);
        self.ending_point = self.starting_point;
        self.cost = None;
    }

    /// A path from explicit moves: they are verified from the given start,
    /// truncated at the first exit opportunity or at the first invalid step.
    pub fn new(starting_point: Point, moves: Vec<Direction>, board: &Board) -> (r: Path)
        requires
            board.wf(),
            board.spec_valid(starting_point),
        ensures
            r.wf(*board),
            r.starting_point == starting_point,
            (r.cost is Some) == (spec_scan(*board, starting_point, moves@) is Found),
            r.spec_after_scan(moves@, 0, spec_scan(*board, starting_point, moves@)),
    {
        let mut path = Path { starting_point, ending_point: starting_point, moves, cost: None };
        proof {
            assert(path.moves@.take(0) =~= Seq::<Direction>::empty());
            assert(path.moves@.skip(0) =~= path.moves@);
        }
        path.verify(0, board);
        path
    }

    /// Builds a feasible path from the board's agent start by repeated
    /// random extension and repair.  Whenever the cost is present (on a
    /// board with a reachable exit the repair loop does not give up), it
    /// counts the moves, and walking them from the start enters an exit on
    /// the last step.
    pub fn new_to_exit(board: &Board, rng: &mut RandomSource) -> (r: Path)
        requires
            board.wf(),
        ensures
            r.wf(*board),
            r.starting_point == board.agent_position,
            (r.cost is Some) ==> spec_reaches_exit(*board, board.agent_position, r.moves@),
            (r.cost is Some) ==> r.cost == Some(r.moves@.len() as u64),
            (r.cost is None) ==> r.moves@.len() == 0,
            board.spec_exit_move(board.agent_position) is Some ==> r.cost == Some(1u64)
                && r.moves@ == seq![(board.spec_exit_move(board.agent_position)->Some_0).0],
    {
        let mut path = Path {
            starting_point: board.agent_position,
            ending_point: board.agent_position,
            moves: Vec::new(),
            cost: None,
        };
        path.extend_to_exit(board, rng);
        path
    }

    /// An explicit copy, field by field.
    pub fn duplicate(&self) -> (r: Path)
        ensures
            r.starting_point == self.starting_point,
            r.ending_point == self.ending_point,
            r.moves@ == self.moves@,
            r.cost == self.cost,
    {
        Path {
            starting_point: self.starting_point,
            ending_point: self.ending_point,
            moves: clone_moves(&self.moves),
            cost: self.cost,
        }
    }

    /// The cached cost; an infeasible path counts as infinitely expensive.
    pub fn get_cost(&self) -> (c: u64)
        ensures
            c == (match self.cost {
                Some(n) => n,
                None => u64::MAX,
            }),
    {
        match self.cost {
            Some(n) => n,
            None => u64::MAX,
        }
    }

    /// Collapses redundant move pairs and triples to the canonical taut
    /// form.  The endpoint of the walk does not change, so the cached
    /// ending point stays right; a cached cost is refreshed to the new
    /// length, and the path stays well-formed on every board it was
    /// well-formed on.
    pub fn remove_redundancies(&mut self)
        ensures
            final(self).moves@ == spec_canon(old(self).moves@),
            final(self).starting_point == old(self).starting_point,
            final(self).ending_point == old(self).ending_point,
            (final(self).cost is Some) == (old(self).cost is Some),
            (final(self).cost is Some) ==> final(self).cost == Some(
                final(self).moves@.len() as u64,
            ),
            forall|b: Board| old(self).wf(b) ==> final(self).wf(b),
    {
        Direction::remove_redundancies(&mut self.moves);
        if self.cost.is_some() {
            self.cost = Some(self.moves.len() as u64);
        }
        proof {
            assert forall|b: Board| old(self).wf(b) implies self.wf(b) by {
                lemma_canon_preserves(b, old(self).starting_point, old(self).moves@);
                if old(self).cost is Some {
                    assert(spec_reaches_exit(b, self.starting_point, self.moves@));
                }
            }
        }
    }

    /// A perturbed copy: a swap count is drawn from the integer normal
    /// approximation around `num_mean` (draws of one or less rejected),
    /// that many random position pairs are exchanged, and the damaged
    /// suffix is repaired by extending to an exit again.
    pub fn neighbour_by_swap_extend(
        &self,
        num_mean: u64,
        board: &Board,
        rng: &mut RandomSource,
    ) -> (r: Path)
        requires
            board.wf(),
            self.wf(*board),
        ensures
            r.wf(*board),
            r.starting_point == self.starting_point,
            (r.cost is None) ==> r.moves@.len() == 0,
            board.spec_exit_move(self.starting_point) is Some ==> r.cost == Some(1u64)
                && r.moves@ == seq![(board.spec_exit_move(self.starting_point)->Some_0).0],
    {
        let mut new_moves = clone_moves(&self.moves);
        let mean = if num_mean > 0xffff_ffff {
            0xffff_ffff
        } else {
            num_mean
        };
        let mut num: u64 = 0;
        let mut tries: usize = 0;
        while num < 2 && tries < 64
            invariant
                mean <= 0xffff_ffff,
                num <= 0xffff_ffff + 6 * 4,
            decreases 64 - tries,
        {
            num = rng.normal_sample(mean, 4);
            tries = tries + 1;
        }
        if num < 2 {
            num = 2;
        }
        let len = new_moves.len();
        if len >= 1 {
            let mut k: u64 = 0;
            while k < num
                invariant
                    new_moves@.len() == len,
                    len >= 1,
                decreases num - k,
            {
                let a = rng.gen_index(len);
                let bpos = rng.gen_index(len);
                let va = new_moves[a];
                let vb = new_moves[bpos];
                new_moves[a] = vb;
                new_moves[bpos] = va;
                k = k + 1;
            }
        }
        let mut result = Path {
            starting_point: self.starting_point,
            ending_point: self.starting_point,
            moves: new_moves,
            cost: None,
        };
        result.extend_to_exit(board, rng);
        result
    }

    /// A mutated copy: the given position pairs are exchanged in order and
    /// the whole result is re-verified from the start, truncating at the
    /// first exit opportunity or at the first invalid step.
    pub fn mutate_swap(path: &Path, board: &Board, positions: &Vec<(usize, usize)>) -> (r: Path)
        requires
            board.wf(),
            path.wf(*board),
            forall|j: int|
                0 <= j < positions@.len() ==> (#[trigger] positions@[j]).0 < path.moves@.len()
                    && positions@[j].1 < path.moves@.len(),
        ensures
            r.wf(*board),
            r.starting_point == path.starting_point,
            (r.cost is Some) == (spec_scan(
                *board,
                path.starting_point,
                spec_swapped_moves(path.moves@, positions@),
            ) is Found),
            r.spec_after_scan(
                spec_swapped_moves(path.moves@, positions@),
                0,
                spec_scan(
                    *board,
                    path.starting_point,
                    spec_swapped_moves(path.moves@, positions@),
                ),
            ),
    {
        let mut moves = clone_moves(&path.moves);
        proof {
            assert(positions@.skip(0) =~= positions@);
        }
        let mut j: usize = 0;
        while j < positions.len()
            invariant
                moves@.len() == path.moves@.len(),
                forall|t: int|
                    0 <= t < positions@.len() ==> (#[trigger] positions@[t]).0
                        < path.moves@.len() && positions@[t].1 < path.moves@.len(),
                j <= positions@.len(),
                spec_swapped_moves(moves@, positions@.skip(j as int)) == spec_swapped_moves(
                    path.moves@,
                    positions@,
                ),
            decreases positions@.len() - j,
        {
            let ghost rest: Seq<(usize, usize)> = positions@.skip(j as int);
            proof {
                assert(rest[0] == positions@[j as int]);
                assert(rest.skip(1) =~= positions@.skip(j + 1));
            }
            let (a, bpos) = positions[j];
            let va = moves[a];
            let vb = moves[bpos];
            moves[a] = vb;
            moves[bpos] = va;
            j = j + 1;
        }
        proof {
            assert(positions@.skip(positions@.len() as int) =~= Seq::<(usize, usize)>::empty());
        }
        Path::new(path.starting_point, moves, board)
    }

    /// The splice recombination of two parents: a prefix of the first, an
    /// infix of the second, and whatever of the first parent's tail lies
    /// beyond the replaced stretch, re-verified from the start, truncating
    /// at the first exit opportunity or at the first invalid step.
    pub fn recombine_splice(
        p1: &Path,
        p2: &Path,
        start1: usize,
        start2: usize,
        end2: usize,
        board: &Board,
    ) -> (r: Path)
        requires
            board.wf(),
            p1.wf(*board),
            p2.wf(*board),
            start1 <= p1.moves@.len(),
            start2 <= end2 <= p2.moves@.len(),
        ensures
            r.wf(*board),
            r.starting_point == p1.starting_point,
            (r.cost is Some) == (spec_scan(
                *board,
                p1.starting_point,
                spec_spliced(p1.moves@, p2.moves@, start1 as int, start2 as int, end2 as int),
            ) is Found),
            r.spec_after_scan(
                spec_spliced(p1.moves@, p2.moves@, start1 as int, start2 as int, end2 as int),
                0,
                spec_scan(
                    *board,
                    p1.starting_point,
                    spec_spliced(
                        p1.moves@,
                        p2.moves@,
                        start1 as int,
                        start2 as int,
                        end2 as int,
                    ),
                ),
            ),
    {
        let ghost spliced: Seq<Direction> = spec_spliced(
            p1.moves@,
            p2.moves@,
            start1 as int,
            start2 as int,
            end2 as int,
        );
        let mut moves: Vec<Direction> = Vec::new();
        let mut i: usize = 0;
        while i < start1
            invariant
                i <= start1 <= p1.moves@.len(),
                moves@ == p1.moves@.take(i as int),
            decreases start1 - i,
        {
            moves.push(p1.moves[i]);
            proof {
                assert(moves@ =~= p1.moves@.take(i + 1));
            }
            i = i + 1;
        }
        let mut j: usize = start2;
        while j < end2
            invariant
                start2 <= j <= end2 <= p2.moves@.len(),
                start1 <= p1.moves@.len(),
                moves@ == p1.moves@.take(start1 as int) + p2.moves@.subrange(
                    start2 as int,
                    j as int,
                ),
            decreases end2 - j,
        {
            moves.push(p2.moves[j]);
            proof {
                assert(moves@ =~= p1.moves@.take(start1 as int) + p2.moves@.subrange(
                    start2 as int,
                    j + 1,
                ));
            }
            j = j + 1;
        }
        let infix_len = end2 - start2;
        if infix_len <= p1.moves.len() - start1 {
            let mut k: usize = start1 + infix_len;
            while k < p1.moves.len()
                invariant
                    start1 + infix_len <= k <= p1.moves@.len(),
                    infix_len == end2 - start2,
                    start2 <= end2 <= p2.moves@.len(),
                    moves@ == p1.moves@.take(start1 as int) + p2.moves@.subrange(
                        start2 as int,
                        end2 as int,
                    ) + p1.moves@.subrange(start1 + infix_len, k as int),
                decreases p1.moves@.len() - k,
            {
                moves.push(p1.moves[k]);
                proof {
                    assert(moves@ =~= p1.moves@.take(start1 as int) + p2.moves@.subrange(
                        start2 as int,
                        end2 as int,
                    ) + p1.moves@.subrange(start1 + infix_len, k + 1));
                }
                k = k + 1;
            }
            proof {
                assert(p1.moves@.subrange(start1 + infix_len, p1.moves@.len() as int)
                    =~= p1.moves@.skip(start1 + infix_len));
                assert(moves@ =~= spliced);
            }
        } else {
            proof {
                assert(moves@ =~= spliced);
            }
        }
        Path::new(p1.starting_point, moves, board)
    }
}

} // verus!
