use crate::point::Point;
use crate::rng::RandomSource;
use vstd::prelude::*;

verus! {

/// One unit step on the maze grid.
#[derive(Debug, Clone, Copy, PartialEq, Eq, Hash, Structural)]
pub enum Direction {
    Up,
    Down,
    Right,
    Left,
}

/// The direction that undoes `d`.
pub open spec fn spec_inverse(d: Direction) -> Direction {
    match d {
        Direction::Up => Direction::Down,
        Direction::Down => Direction::Up,
        Direction::Right => Direction::Left,
        Direction::Left => Direction::Right,
    }
}

/// Horizontal displacement of one step in direction `d`.
pub open spec fn spec_dx(d: Direction) -> int {
    match d {
        Direction::Up => 0,
        Direction::Down => 0,
        Direction::Right => 1,
        Direction::Left => -1,
    }
}

/// Vertical displacement of one step in direction `d`.
pub open spec fn spec_dy(d: Direction) -> int {
    match d {
        Direction::Up => 1,
        Direction::Down => -1,
        Direction::Right => 0,
        Direction::Left => 0,
    }
}

impl Direction {
    pub fn inverse(self) -> (r: Direction)
        ensures
            r == spec_inverse(self),
    {
        match self {
            Direction::Up => Direction::Down,
            Direction::Down => Direction::Up,
            Direction::Right => Direction::Left,
            Direction::Left => Direction::Right,
        }
    }

    /// Moves `point` one step in direction `self`.
    pub fn move_point(self, point: Point) -> (q: Point)
        requires
            self == Direction::Down ==> point.y >= 1,
            self == Direction::Left ==> point.x >= 1,
            self == Direction::Up ==> point.y < u64::MAX,
            self == Direction::Right ==> point.x < u64::MAX,
        ensures
            q.x as int == point.x as int + spec_dx(self),
            q.y as int == point.y as int + spec_dy(self),
    {
        match self {
            Direction::Up => Point { x: point.x, y: point.y + 1 },
            Direction::Down => Point { x: point.x, y: point.y - 1 },
            Direction::Right => Point { x: point.x + 1, y: point.y },
            Direction::Left => Point { x: point.x - 1, y: point.y },
        }
    }

    /// Reads the one-letter encoding (the ASCII letters U, D, R, L) used by
    /// the move-list text format.
    pub fn parse(c: u8) -> (r: Option<Direction>)
        ensures
            r == (if c == 85 {
                Some(Direction::Up)
            } else if c == 68 {
                Some(Direction::Down)
            } else if c == 82 {
                Some(Direction::Right)
            } else if c == 76 {
                Some(Direction::Left)
            } else {
                None::<Direction>
            }),
    {
        if c == 85 {
            Some(Direction::Up)
        } else if c == 68 {
            Some(Direction::Down)
        } else if c == 82 {
            Some(Direction::Right)
        } else if c == 76 {
            Some(Direction::Left)
        } else {
            None
        }
    }
}

impl Direction {
    /// One of the four directions, drawn uniformly.
    pub fn random(rng: &mut RandomSource) -> Direction {
        let k = rng.gen_index(4);
        if k == 0 {
            Direction::Up
        } else if k == 1 {
            Direction::Down
        } else if k == 2 {
            Direction::Right
        } else {
            Direction::Left
        }
    }
}

/// `s` with the adjacent pair at `i`, `i + 1` removed.
pub open spec fn remove_pair_at(s: Seq<Direction>, i: int) -> Seq<Direction> {
    s.take(i) + s.skip(i + 2)
}

/// `s` with the triple at `i` collapsed to its middle element.
pub open spec fn collapse_triple_at(s: Seq<Direction>, i: int) -> Seq<Direction> {
    s.take(i).push(s[i + 1]) + s.skip(i + 3)
}

/// One left-to-right pass over `s` starting at position `i`: a move followed
/// by its inverse is dropped, and a move, one other move and the inverse of
/// the first collapse to the middle move.
pub open spec fn spec_pass_from(s: Seq<Direction>, i: int) -> Seq<Direction>
    decreases s.len(), s.len() - i when 0 <= i
{
    if i + 2 >= s.len() {
        s
    } else if spec_inverse(s[i]) == s[i + 1] {
        spec_pass_from(remove_pair_at(s, i), i)
    } else if spec_inverse(s[i]) == s[i + 2] {
        spec_pass_from(collapse_triple_at(s, i), i)
    } else {
        spec_pass_from(s, i + 1)
    }
}

/// One full left-to-right redundancy-removal pass.
pub open spec fn spec_pass(s: Seq<Direction>) -> Seq<Direction> {
    spec_pass_from(s, 0)
}

/// A pass never grows the sequence, and a pass that keeps the length kept the
/// sequence itself.
pub proof fn lemma_pass_shrinks(s: Seq<Direction>, i: int)
    requires
        0 <= i,
    ensures
        spec_pass_from(s, i).len() <= s.len(),
        spec_pass_from(s, i).len() == s.len() ==> spec_pass_from(s, i) == s,
    decreases s.len(), s.len() - i,
{
    if i + 2 >= s.len() {
    } else if spec_inverse(s[i]) == s[i + 1] {
        lemma_pass_shrinks(remove_pair_at(s, i), i);
    } else if spec_inverse(s[i]) == s[i + 2] {
        lemma_pass_shrinks(collapse_triple_at(s, i), i);
    } else {
        lemma_pass_shrinks(s, i + 1);
    }
}

#[via_fn]
proof fn spec_canon_decreases(s: Seq<Direction>) {
    lemma_pass_shrinks(s, 0);
}

/// The canonical "taut" form of a move list: passes are repeated until none
/// of them changes anything.
pub open spec fn spec_canon(s: Seq<Direction>) -> Seq<Direction>
    decreases s.len(),
    via spec_canon_decreases
{
    if spec_pass(s) == s {
        s
    } else {
        spec_canon(spec_pass(s))
    }
}

/// A pass leaves the canonical form unchanged.
pub proof fn lemma_canon_fixpoint(s: Seq<Direction>)
    ensures
        spec_pass(spec_canon(s)) == spec_canon(s),
    decreases s.len(),
{
    if spec_pass(s) == s {
    } else {
        lemma_pass_shrinks(s, 0);
        lemma_canon_fixpoint(spec_pass(s));
    }
}

/// A move list of at most two moves has nothing to collapse: it is its own
/// canonical form.
pub proof fn lemma_canon_short(s: Seq<Direction>)
    requires
        s.len() <= 2,
    ensures
        spec_canon(s) == s,
{
    assert(spec_pass_from(s, 0) == s);
}

/// Removing redundancies is idempotent: canonicalizing a canonical move list
/// changes nothing.
pub proof fn lemma_remove_redundancies_idempotent(s: Seq<Direction>)
    ensures
        spec_canon(spec_canon(s)) == spec_canon(s),
{
    lemma_canon_fixpoint(s);
}

impl Direction {
    /// One redundancy-removal pass, in place.
    fn one_pass(moves: &mut Vec<Direction>) -> (changed: bool)
        ensures
            final(moves)@ == spec_pass(old(moves)@),
            changed == (final(moves)@.len() < old(moves)@.len()),
    {
        let ghost orig: Seq<Direction> = moves@;
        let n0 = moves.len();
        let mut i: usize = 0;
        while moves.len() >= 3 && i < moves.len() - 2
            invariant
                i <= moves@.len(),
                moves@.len() <= orig.len(),
                spec_pass_from(moves@, i as int) == spec_pass(orig),
            decreases moves@.len(), moves@.len() - i,
        {
            let ghost before: Seq<Direction> = moves@;
            if moves[i].inverse() == moves[i + 1] {
                moves.remove(i);
                moves.remove(i);
                proof {
                    assert(moves@ =~= remove_pair_at(before, i as int));
                }
            } else if moves[i].inverse() == moves[i + 2] {
                moves.remove(i);
                moves.remove(i + 1);
                proof {
                    assert(moves@ =~= collapse_triple_at(before, i as int));
                }
            } else {
                i = i + 1;
            }
        }
        proof {
            assert(spec_pass_from(moves@, i as int) == moves@);
        }
        moves.len() < n0
    }

    /// Collapses every move followed by its inverse, and every move, one
    /// other move and the inverse of the first, until the list is taut.
    pub fn remove_redundancies(moves: &mut Vec<Direction>)
        ensures
            final(moves)@ == spec_canon(old(moves)@),
    {
        let ghost orig: Seq<Direction> = moves@;
        loop
            invariant
                spec_canon(moves@) == spec_canon(orig),
            ensures
                moves@ == spec_canon(orig),
            decreases moves@.len(),
        {
            let ghost at_entry: Seq<Direction> = moves@;
            let changed = Direction::one_pass(moves);
            if !changed {
                proof {
                    lemma_pass_shrinks(at_entry, 0);
                }
                break;
            }
        }
    }
}

} // verus!
