use crate::direction::Direction;
use crate::parse::{
    parse_u64, spec_is_u64_token, spec_lines, spec_tokens, spec_u64_value, split_lines,
    split_tokens,
};
use crate::point::Point;
use vstd::prelude::*;

verus! {

/// What a maze cell holds.
#[derive(Debug, Clone, Copy, PartialEq, Eq, Structural)]
pub enum Field {
    Empty,
    Wall,
    Exit,
}

/// A rectangular maze: a row-major grid of fields and the agent's start
/// cell.  Row `y`, column `x` is `fields[y * width + x]`.
#[derive(Debug, Clone)]
pub struct Board {
    pub fields: Vec<Field>,
    pub height: usize,
    pub width: usize,
    pub agent_position: Point,
}

/// The flat index of column `x`, row `y` lies inside a `w` by `h` grid.
pub proof fn lemma_grid_index(x: int, y: int, w: int, h: int)
    requires
        0 <= x < w,
        0 <= y < h,
    ensures
        0 <= y * w + x < h * w,
{
    assert(y * w + x < h * w) by (nonlinear_arith)
        requires
            0 <= x < w,
            0 <= y < h,
    ;
}

impl Board {
    /// Where the field of `p` sits in the flat grid vector.
    pub open spec fn spec_index_of(self, p: Point) -> int {
        p.y * self.width + p.x
    }

    /// `p` lies somewhere on the grid, border included.
    pub open spec fn spec_in_grid(self, p: Point) -> bool {
        p.x < self.width && p.y < self.height
    }

    /// The field at `p`; meaningful when `p` is on the grid.
    pub open spec fn spec_field_at(self, p: Point) -> Field {
        self.fields@[self.spec_index_of(p)]
    }

    /// `p` lies strictly inside the border.
    pub open spec fn spec_in_bounds(self, p: Point) -> bool {
        0 < p.x && p.x < self.width - 1 && 0 < p.y && p.y < self.height - 1
    }

    /// `p` is an interior cell the agent may stand on.
    pub open spec fn spec_valid(self, p: Point) -> bool {
        self.spec_in_bounds(p) && self.spec_field_at(p) != Field::Wall
    }

    /// `p` is on the grid and holds an exit.
    pub open spec fn spec_is_exit(self, p: Point) -> bool {
        self.spec_in_grid(p) && self.spec_field_at(p) == Field::Exit
    }

    /// A board the searches can run on: the grid vector matches the stated
    /// dimensions and the agent starts on a valid cell.
    pub open spec fn wf(self) -> bool {
        &&& self.height >= 3
        &&& self.width >= 3
        &&& self.fields@.len() == self.height * self.width
        &&& self.spec_valid(self.agent_position)
    }

    fn field_at(&self, p: Point) -> (f: Field)
        requires
            self.wf(),
            self.spec_in_grid(p),
        ensures
            f == self.spec_field_at(p),
    {
        let _grid_len = self.fields.len();
        proof {
            lemma_grid_index(p.x as int, p.y as int, self.width as int, self.height as int);
        }
        self.fields[(p.y as usize) * self.width + (p.x as usize)]
    }

    pub fn in_bounds(&self, point: Point) -> (r: bool)
        requires
            self.wf(),
        ensures
            r == self.spec_in_bounds(point),
    {
        point.x > 0 && point.x < (self.width as u64) - 1 && point.y > 0 && point.y < (
        self.height as u64) - 1
    }

    /// `point` touches the innermost ring of interior cells.
    pub fn is_next_to_edge(&self, point: Point) -> (r: bool)
        requires
            self.wf(),
        ensures
            r == (point.x == self.width - 2 || point.x == 1 || point.y == self.height - 2
                || point.y == 1),
    {
        point.x == 1 || point.x == (self.width as u64) - 2 || point.y == 1 || point.y == (
        self.height as u64) - 2
    }

    pub fn is_valid_position(&self, point: Point) -> (r: bool)
        requires
            self.wf(),
        ensures
            r == self.spec_valid(point),
    {
        if self.in_bounds(point) {
            let f = self.field_at(point);
            !matches!(f, Field::Wall)
        } else {
            false
        }
    }

    pub fn is_exit(&self, point: Point) -> (r: bool)
        requires
            self.wf(),
        ensures
            r == self.spec_is_exit(point),
    {
        if point.x < (self.width as u64) && point.y < (self.height as u64) {
            let f = self.field_at(point);
            matches!(f, Field::Exit)
        } else {
            false
        }
    }
}

impl Board {
    /// The first direction, in the fixed order left, up, right, down, whose
    /// one-step target from `p` is an exit cell, with that target.
    pub open spec fn spec_exit_move(self, p: Point) -> Option<(Direction, Point)> {
        let l = Point { x: (p.x - 1) as u64, y: p.y };
        let u = Point { x: p.x, y: (p.y + 1) as u64 };
        let r = Point { x: (p.x + 1) as u64, y: p.y };
        let d = Point { x: p.x, y: (p.y - 1) as u64 };
        if self.spec_is_exit(l) {
            Some((Direction::Left, l))
        } else if self.spec_is_exit(u) {
            Some((Direction::Up, u))
        } else if self.spec_is_exit(r) {
            Some((Direction::Right, r))
        } else if self.spec_is_exit(d) {
            Some((Direction::Down, d))
        } else {
            None
        }
    }

    /// The step that walks from `point` straight into an adjacent exit, if
    /// one exists.
    pub fn move_into_exit(&self, point: Point) -> (r: Option<(Direction, Point)>)
        requires
            self.wf(),
            self.spec_valid(point),
        ensures
            r == self.spec_exit_move(point),
    {
        let l = Direction::Left.move_point(point);
        if self.is_exit(l) {
            return Some((Direction::Left, l));
        }
        let u = Direction::Up.move_point(point);
        if self.is_exit(u) {
            return Some((Direction::Up, u));
        }
        let rp = Direction::Right.move_point(point);
        if self.is_exit(rp) {
            return Some((Direction::Right, rp));
        }
        let d = Direction::Down.move_point(point);
        if self.is_exit(d) {
            return Some((Direction::Down, d));
        }
        None
    }

    /// The four one-step targets around an interior point, in the fixed
    /// direction order.
    pub fn adjacent_positions(&self, point: Point) -> (r: Vec<(Direction, Point)>)
        requires
            self.wf(),
            self.spec_in_bounds(point),
        ensures
            r@.len() == 4,
            r@[0] == (Direction::Left, (Point { x: (point.x - 1) as u64, y: point.y })),
            r@[1] == (Direction::Up, (Point { x: point.x, y: (point.y + 1) as u64 })),
            r@[2] == (Direction::Right, (Point { x: (point.x + 1) as u64, y: point.y })),
            r@[3] == (Direction::Down, (Point { x: point.x, y: (point.y - 1) as u64 })),
    {
        let mut r: Vec<(Direction, Point)> = Vec::new();
        r.push((Direction::Left, Direction::Left.move_point(point)));
        r.push((Direction::Up, Direction::Up.move_point(point)));
        r.push((Direction::Right, Direction::Right.move_point(point)));
        r.push((Direction::Down, Direction::Down.move_point(point)));
        r
    }

    /// The four neighbours of an interior point together with their fields.
    pub fn adjacent(&self, point: Point) -> (r: Vec<(Direction, Point, Field)>)
        requires
            self.wf(),
            self.spec_in_bounds(point),
        ensures
            r@.len() == 4,
            forall|i: int|
                0 <= i < 4 ==> #[trigger] r@[i].2 == self.spec_field_at(r@[i].1),
            r@[0].0 == Direction::Left && r@[0].1 == (Point { x: (point.x - 1) as u64, y: point.y }),
            r@[1].0 == Direction::Up && r@[1].1 == (Point { x: point.x, y: (point.y + 1) as u64 }),
            r@[2].0 == Direction::Right && r@[2].1 == (Point { x: (point.x + 1) as u64, y: point.y }),
            r@[3].0 == Direction::Down && r@[3].1 == (Point { x: point.x, y: (point.y - 1) as u64 }),
    {
        let ps = self.adjacent_positions(point);
        let mut r: Vec<(Direction, Point, Field)> = Vec::new();
        let mut i: usize = 0;
        while i < ps.len()
            invariant
                self.wf(),
                self.spec_in_bounds(point),
                ps@.len() == 4,
                i <= 4,
                r@.len() == i,
                forall|j: int| 0 <= j < i ==> #[trigger] r@[j].0 == ps@[j].0,
                forall|j: int| 0 <= j < i ==> #[trigger] r@[j].1 == ps@[j].1,
                forall|j: int|
                    0 <= j < i ==> #[trigger] r@[j].2 == self.spec_field_at(ps@[j].1),
                forall|j: int| 0 <= j < 4 ==> self.spec_in_grid(#[trigger] ps@[j].1),
            decreases ps@.len() - i,
        {
            let (d, p) = ps[i];
            let f = self.field_at(p);
            r.push((d, p, f));
            i = i + 1;
        }
        r
    }

    /// Same as `adjacent`: every neighbour of an interior point lies on the
    /// grid, so nothing is filtered away.
    pub fn adjacent_in_bounds(&self, point: Point) -> (r: Vec<(Direction, Point, Field)>)
        requires
            self.wf(),
            self.spec_in_bounds(point),
        ensures
            r@.len() == 4,
            forall|i: int|
                0 <= i < 4 ==> #[trigger] r@[i].2 == self.spec_field_at(r@[i].1),
    {
        self.adjacent(point)
    }
}

} // verus!

verus! {

/// Why building a board from instance text failed.
#[derive(Debug, Clone, PartialEq, Eq, Structural)]
pub enum BoardCreationError {
    InvalidHeader,
    InvalidLine,
    NotEnoughLines,
    InvalidGoal,
    InvalidAgent,
    IOError,
}

/// What one cell byte means at grid row `i`, column `j`: the field it
/// becomes and whether it places the agent, or the failure it causes.
/// Exits must sit on the border but not in a corner; the agent must sit in
/// the interior and only once; walls may sit anywhere; empty cells only in
/// the interior.
pub open spec fn spec_cell(c: u8, i: int, j: int, n: int, m: int, have_agent: bool) -> Result<
    (Field, bool),
    BoardCreationError,
> {
    let edge = i == 0 || i == n - 1 || j == 0 || j == m - 1;
    let corner = (i == 0 || i == n - 1) && (j == 0 || j == m - 1);
    if c == 56 {
        if !edge {
            Err(BoardCreationError::InvalidGoal)
        } else if corner {
            Err(BoardCreationError::InvalidGoal)
        } else {
            Ok((Field::Exit, false))
        }
    } else if c == 53 {
        if edge {
            Err(BoardCreationError::InvalidAgent)
        } else if have_agent {
            Err(BoardCreationError::InvalidAgent)
        } else {
            Ok((Field::Empty, true))
        }
    } else if c == 49 {
        Ok((Field::Wall, false))
    } else if c == 48 {
        if !edge {
            Ok((Field::Empty, false))
        } else {
            Err(BoardCreationError::InvalidLine)
        }
    } else {
        Err(BoardCreationError::InvalidLine)
    }
}

/// The fields of grid row `i` from column `j` on, read from one text line,
/// together with the agent position once one is seen.
pub open spec fn spec_board_row(
    line: Seq<u8>,
    i: int,
    j: int,
    n: int,
    m: int,
    agent: Option<Point>,
) -> Result<(Seq<Field>, Option<Point>), BoardCreationError>
    decreases m - j when 0 <= j <= m
{
    if j >= m {
        Ok((Seq::empty(), agent))
    } else {
        match spec_cell(line[j], i, j, n, m, agent is Some) {
            Err(e) => Err(e),
            Ok(cell) => {
                let agent2 = if cell.1 {
                    Some(Point { x: j as u64, y: i as u64 })
                } else {
                    agent
                };
                match spec_board_row(line, i, j + 1, n, m, agent2) {
                    Ok(rest) => Ok((seq![cell.0] + rest.0, rest.1)),
                    Err(e) => Err(e),
                }
            },
        }
    }
}

/// The grid rows read from data line `t` on, in file order: file line
/// `t + 1` holds grid row `n - 1 - t`, and each line must hold exactly `m`
/// cell bytes.  Lines beyond the `n` data lines are ignored.
pub open spec fn spec_board_lines(
    lines: Seq<Seq<u8>>,
    t: int,
    n: int,
    m: int,
    agent: Option<Point>,
) -> Result<(Seq<Seq<Field>>, Option<Point>), BoardCreationError>
    decreases n - t when 0 <= t <= n
{
    if t >= n {
        Ok((Seq::empty(), agent))
    } else if t + 1 >= lines.len() {
        Err(BoardCreationError::NotEnoughLines)
    } else if lines[t + 1].len() != m {
        Err(BoardCreationError::InvalidLine)
    } else {
        match spec_board_row(lines[t + 1], n - 1 - t, 0, n, m, agent) {
            Err(e) => Err(e),
            Ok(row) => match spec_board_lines(lines, t + 1, n, m, row.1) {
                Ok(rest) => Ok((seq![row.0] + rest.0, rest.1)),
                Err(e) => Err(e),
            },
        }
    }
}

/// The flat row-major grid assembled from the file-order rows: grid row
/// `y` is file-order row `n - 1 - y`.
pub open spec fn spec_assemble(rows: Seq<Seq<Field>>, y: int, n: int) -> Seq<Field>
    decreases n - y when 0 <= y <= n
{
    if y >= n {
        Seq::empty()
    } else {
        rows[n - 1 - y] + spec_assemble(rows, y + 1, n)
    }
}

/// What parsing the board text yields: the time budget in seconds, the
/// dimensions, the assembled grid and the agent cell, or the first
/// failure.  The header must hold exactly three decimal tokens, a positive
/// time budget and dimensions whose grid fits in memory; the data lines
/// follow as `spec_board_lines` reads them, and an agent cell must exist.
pub open spec fn spec_parse_board(input: Seq<u8>) -> Result<
    (int, int, int, Seq<Field>, Point),
    BoardCreationError,
> {
    let lines = spec_lines(input);
    if lines.len() == 0 {
        Err(BoardCreationError::NotEnoughLines)
    } else {
        let toks = spec_tokens(lines[0]);
        if exists|k: int| 0 <= k < toks.len() && !spec_is_u64_token(#[trigger] toks[k]) {
            Err(BoardCreationError::InvalidHeader)
        } else if toks.len() != 3 {
            Err(BoardCreationError::InvalidHeader)
        } else {
            let time = spec_u64_value(toks[0]);
            let n = spec_u64_value(toks[1]);
            let m = spec_u64_value(toks[2]);
            if time == 0 {
                Err(BoardCreationError::InvalidHeader)
            } else if n > usize::MAX || m > usize::MAX {
                Err(BoardCreationError::InvalidHeader)
            } else if n * m > usize::MAX {
                Err(BoardCreationError::InvalidHeader)
            } else {
                match spec_board_lines(lines, 0, n, m, None) {
                    Err(e) => Err(e),
                    Ok(parsed) => match parsed.1 {
                        None => Err(BoardCreationError::InvalidAgent),
                        Some(agent) => Ok((time, n, m, spec_assemble(parsed.0, 0, n), agent)),
                    },
                }
            }
        }
    }
}

/// A successful row read yields one field per remaining column, and its
/// agent is the incoming one or a newly placed interior agent whose cell
/// is empty.
pub proof fn lemma_board_row_shape(
    line: Seq<u8>,
    i: int,
    j: int,
    n: int,
    m: int,
    agent: Option<Point>,
)
    requires
        0 <= j <= m,
        0 <= i < n,
        i <= u64::MAX,
        m <= u64::MAX,
        spec_board_row(line, i, j, n, m, agent) is Ok,
    ensures
        spec_board_row(line, i, j, n, m, agent)->Ok_0.0.len() == m - j,
        ({
            let out = spec_board_row(line, i, j, n, m, agent)->Ok_0;
            match out.1 {
                None => agent is None,
                Some(ag) => agent == Some(ag) || {
                    &&& ag.y == i
                    &&& j <= ag.x < m
                    &&& 0 < ag.x < m - 1
                    &&& 0 < i < n - 1
                    &&& out.0[ag.x - j] == Field::Empty
                },
            }
        }),
    decreases m - j,
{
    if j < m {
        let cell = spec_cell(line[j], i, j, n, m, agent is Some)->Ok_0;
        let agent2 = if cell.1 {
            Some(Point { x: j as u64, y: i as u64 })
        } else {
            agent
        };
        lemma_board_row_shape(line, i, j + 1, n, m, agent2);
        let out = spec_board_row(line, i, j, n, m, agent)->Ok_0;
        let rest = spec_board_row(line, i, j + 1, n, m, agent2)->Ok_0;
        assert(out.0 == seq![cell.0] + rest.0);
        assert(out.1 == rest.1);
        match rest.1 {
            None => {},
            Some(ag) => {
                if agent2 == Some(ag) {
                    if cell.1 {
                        assert(ag == Point { x: j as u64, y: i as u64 });
                        assert(cell.0 == Field::Empty);
                        assert(out.0[ag.x - j] == cell.0);
                    }
                } else {
                    assert(out.0[ag.x - j] == rest.0[ag.x - (j + 1)]);
                }
            },
        }
    }
}

/// A successful read of the data lines yields one row per remaining line,
/// each `m` wide, and its agent is the incoming one or sits in the
/// interior of one of those rows, on an empty cell.
pub proof fn lemma_board_lines_shape(
    lines: Seq<Seq<u8>>,
    t: int,
    n: int,
    m: int,
    agent: Option<Point>,
)
    requires
        0 <= t <= n,
        n <= u64::MAX,
        0 <= m <= u64::MAX,
        spec_board_lines(lines, t, n, m, agent) is Ok,
    ensures
        spec_board_lines(lines, t, n, m, agent)->Ok_0.0.len() == n - t,
        forall|q: int|
            0 <= q < n - t ==> (#[trigger] spec_board_lines(lines, t, n, m, agent)->Ok_0.0[q]).len()
                == m,
        ({
            let out = spec_board_lines(lines, t, n, m, agent)->Ok_0;
            match out.1 {
                None => agent is None,
                Some(ag) => agent == Some(ag) || {
                    &&& 0 < ag.x < m - 1
                    &&& 0 < ag.y < n - 1
                    &&& n - 1 - ag.y >= t
                    &&& out.0[n - 1 - ag.y - t][ag.x as int] == Field::Empty
                },
            }
        }),
    decreases n - t,
{
    if t < n {
        let row = spec_board_row(lines[t + 1], n - 1 - t, 0, n, m, agent)->Ok_0;
        lemma_board_row_shape(lines[t + 1], n - 1 - t, 0, n, m, agent);
        lemma_board_lines_shape(lines, t + 1, n, m, row.1);
        let out = spec_board_lines(lines, t, n, m, agent)->Ok_0;
        match out.1 {
            None => {},
            Some(ag) => {
                if agent != Some(ag) {
                    let rest = spec_board_lines(lines, t + 1, n, m, row.1)->Ok_0;
                    if row.1 == Some(ag) && agent != Some(ag) {
                        assert(out.0[0] == row.0);
                    }
                }
            },
        }
    }
}

/// Indexing the assembled grid: position `y * m + x` is column `x` of
/// file-order row `n - 1 - y`.
pub proof fn lemma_assemble_index(rows: Seq<Seq<Field>>, y0: int, n: int, m: int, y: int, x: int)
    requires
        0 <= y0 <= y < n,
        0 <= x < m,
        rows.len() == n,
        forall|q: int| 0 <= q < n ==> (#[trigger] rows[q]).len() == m,
    ensures
        spec_assemble(rows, y0, n).len() == (n - y0) * m,
        spec_assemble(rows, y0, n)[(y - y0) * m + x] == rows[n - 1 - y][x],
    decreases n - y0,
{
    lemma_assemble_len(rows, y0 + 1, n, m);
    if y0 < y {
        lemma_assemble_index(rows, y0 + 1, n, m, y, x);
        assert((y - y0) * m == (y - y0 - 1) * m + m) by (nonlinear_arith);
        assert((y - y0 - 1) * m >= 0 && (y - y0 - 1) * m + x < (n - y0 - 1) * m)
            by (nonlinear_arith)
            requires
                0 <= x < m,
                0 <= y - y0 - 1,
                y < n,
                (y - y0 - 1) < (n - y0 - 1),
        ;
    } else {
        assert((y - y0) * m == 0) by (nonlinear_arith)
            requires
                y == y0,
        ;
    }
    assert((n - y0 - 1) * m + m == (n - y0) * m) by (nonlinear_arith);
}

/// The assembled grid's length.
pub proof fn lemma_assemble_len(rows: Seq<Seq<Field>>, y0: int, n: int, m: int)
    requires
        0 <= y0 <= n,
        rows.len() == n,
        forall|q: int| 0 <= q < n ==> (#[trigger] rows[q]).len() == m,
    ensures
        spec_assemble(rows, y0, n).len() == (n - y0) * m,
    decreases n - y0,
{
    if y0 < n {
        lemma_assemble_len(rows, y0 + 1, n, m);
        assert((n - y0 - 1) * m + m == (n - y0) * m) by (nonlinear_arith);
    } else {
        assert((n - y0) * m == 0) by (nonlinear_arith)
            requires
                y0 == n,
        ;
    }
}

} // verus!

verus! {

impl Board {
    /// Reads a board from the instance text: a header line of time budget
    /// and dimensions, then the rows of cell bytes, topmost grid row
    /// first.  The result and every failure agree exactly with the parse
    /// specification; on success the board is well-formed (the agent
    /// stands on a valid interior cell) and the returned budget is the
    /// header's seconds in milliseconds, saturated.
    pub fn try_from_bytes(input: &Vec<u8>) -> (r: Result<(Board, u64), BoardCreationError>)
        ensures
            match spec_parse_board(input@) {
                Ok(parsed) => match r {
                    Ok(out) => {
                        &&& out.0.height as int == parsed.1
                        &&& out.0.width as int == parsed.2
                        &&& out.0.fields@ == parsed.3
                        &&& out.0.agent_position == parsed.4
                        &&& out.0.wf()
                        &&& out.1 as int == (if parsed.0 * 1000 <= u64::MAX {
                            parsed.0 * 1000
                        } else {
                            u64::MAX as int
                        })
                    },
                    Err(_) => false,
                },
                Err(e) => r == Err::<(Board, u64), BoardCreationError>(e),
            },
    {
        let lines = split_lines(input);
        let ghost ls: Seq<Seq<u8>> = spec_lines(input@);
        if lines.len() == 0 {
            return Err(BoardCreationError::NotEnoughLines);
        }
        let header_toks = split_tokens(&lines[0]);
        let ghost hts: Seq<Seq<u8>> = spec_tokens(ls[0]);
        let mut header_vals: Vec<u64> = Vec::new();
        let mut k: usize = 0;
        while k < header_toks.len()
            invariant
                ls == spec_lines(input@),
                ls.len() >= 1,
                hts == spec_tokens(ls[0]),
                header_toks@.len() == hts.len(),
                forall|t: int| 0 <= t < hts.len() ==> (#[trigger] header_toks@[t])@ == hts[t],
                k <= hts.len(),
                header_vals@.len() == k,
                forall|t: int| 0 <= t < k ==> spec_is_u64_token(#[trigger] hts[t]),
                forall|t: int|
                    0 <= t < k ==> (#[trigger] header_vals@[t]) as int == spec_u64_value(hts[t]),
            decreases header_toks@.len() - k,
        {
            match parse_u64(&header_toks[k]) {
                Some(v) => {
                    header_vals.push(v);
                },
                None => {
                    return Err(BoardCreationError::InvalidHeader);
                },
            }
            k = k + 1;
        }
        if header_vals.len() != 3 {
            return Err(BoardCreationError::InvalidHeader);
        }
        let time = header_vals[0];
        let n_value = header_vals[1];
        let m_value = header_vals[2];
        if time == 0 {
            return Err(BoardCreationError::InvalidHeader);
        }
        if n_value > usize::MAX as u64 || m_value > usize::MAX as u64 {
            return Err(BoardCreationError::InvalidHeader);
        }
        let n = n_value as usize;
        let m = m_value as usize;
        proof {
            assert((n as int) * (m as int) < 0x1_0000_0000_0000_0000_0000_0000_0000_0000)
                by (nonlinear_arith)
                requires
                    n <= 0xffff_ffff_ffff_ffff,
                    m <= 0xffff_ffff_ffff_ffff,
            ;
        }
        let area: u128 = (n as u128) * (m as u128);
        if area > usize::MAX as u128 {
            return Err(BoardCreationError::InvalidHeader);
        }
        let ghost parse_goal: Result<(int, int, int, Seq<Field>, Point), BoardCreationError> =
            spec_parse_board(input@);
        proof {
            assert(parse_goal == (match spec_board_lines(ls, 0, n as int, m as int, None) {
                Err(e) => Err::<(int, int, int, Seq<Field>, Point), BoardCreationError>(e),
                Ok(parsed) => match parsed.1 {
                    None => Err::<(int, int, int, Seq<Field>, Point), BoardCreationError>(
                        BoardCreationError::InvalidAgent,
                    ),
                    Some(agent) => Ok::<(int, int, int, Seq<Field>, Point), BoardCreationError>(
                        (time as int, n as int, m as int, spec_assemble(parsed.0, 0, n as int),
                        agent),
                    ),
                },
            }));
        }
        let mut rows: Vec<Vec<Field>> = Vec::new();
        let mut agent: Option<Point> = None;
        let mut t: usize = 0;
        while t < n
            invariant
                ls == spec_lines(input@),
                lines@.len() == ls.len(),
                forall|q: int| 0 <= q < ls.len() ==> (#[trigger] lines@[q])@ == ls[q],
                t <= n,
                n <= usize::MAX,
                m <= usize::MAX,
                (n as int) * (m as int) <= usize::MAX,
                rows@.len() == t,
                parse_goal == spec_parse_board(input@),
                parse_goal == (match spec_board_lines(ls, 0, n as int, m as int, None) {
                    Err(e) => Err::<(int, int, int, Seq<Field>, Point), BoardCreationError>(e),
                    Ok(parsed) => match parsed.1 {
                        None => Err::<(int, int, int, Seq<Field>, Point), BoardCreationError>(
                            BoardCreationError::InvalidAgent,
                        ),
                        Some(ag) => Ok::<(int, int, int, Seq<Field>, Point), BoardCreationError>(
                            (time as int, n as int, m as int, spec_assemble(parsed.0, 0, n as int),
                            ag),
                        ),
                    },
                }),
                match spec_board_lines(ls, t as int, n as int, m as int, agent) {
                    Ok(rest) => spec_board_lines(ls, 0, n as int, m as int, None) == Ok::<
                        (Seq<Seq<Field>>, Option<Point>),
                        BoardCreationError,
                    >((rows@.map_values(|v: Vec<Field>| v@) + rest.0, rest.1)),
                    Err(e) => spec_board_lines(ls, 0, n as int, m as int, None) == Err::<
                        (Seq<Seq<Field>>, Option<Point>),
                        BoardCreationError,
                    >(e),
                },
            decreases n - t,
        {
            if t + 1 >= lines.len() {
                return Err(BoardCreationError::NotEnoughLines);
            }
            let line = &lines[t + 1];
            let ghost lv: Seq<u8> = ls[t + 1];
            if line.len() != m {
                return Err(BoardCreationError::InvalidLine);
            }
            let i = n - 1 - t;
            let ghost agent_at_row: Option<Point> = agent;
            let ghost rows_before_map: Seq<Seq<Field>> = rows@.map_values(|v: Vec<Field>| v@);
            let mut row: Vec<Field> = Vec::new();
            let mut j: usize = 0;
            while j < m
                invariant
                    ls == spec_lines(input@),
                    lv == ls[t + 1],
                    line@ == lv,
                    lv.len() == m,
                    j <= m,
                    t < n,
                    t + 1 < ls.len(),
                    i == n - 1 - t,
                    n <= usize::MAX,
                    m <= usize::MAX,
                    row@.len() == j,
                    parse_goal == spec_parse_board(input@),
                    parse_goal == (match spec_board_lines(ls, 0, n as int, m as int, None) {
                        Err(e) => Err::<(int, int, int, Seq<Field>, Point), BoardCreationError>(
                            e,
                        ),
                        Ok(parsed) => match parsed.1 {
                            None => Err::<
                                (int, int, int, Seq<Field>, Point),
                                BoardCreationError,
                            >(BoardCreationError::InvalidAgent),
                            Some(ag) => Ok::<
                                (int, int, int, Seq<Field>, Point),
                                BoardCreationError,
                            >(
                                (time as int, n as int, m as int, spec_assemble(
                                    parsed.0,
                                    0,
                                    n as int,
                                ), ag),
                            ),
                        },
                    }),
                    match spec_board_lines(ls, t as int, n as int, m as int, agent_at_row) {
                        Ok(rest) => spec_board_lines(ls, 0, n as int, m as int, None) == Ok::<
                            (Seq<Seq<Field>>, Option<Point>),
                            BoardCreationError,
                        >((rows_before_map + rest.0, rest.1)),
                        Err(e) => spec_board_lines(ls, 0, n as int, m as int, None) == Err::<
                            (Seq<Seq<Field>>, Option<Point>),
                            BoardCreationError,
                        >(e),
                    },
                    match spec_board_row(lv, i as int, j as int, n as int, m as int, agent) {
                        Ok(rest) => spec_board_row(
                            lv,
                            i as int,
                            0,
                            n as int,
                            m as int,
                            agent_at_row,
                        ) == Ok::<(Seq<Field>, Option<Point>), BoardCreationError>(
                            (row@ + rest.0, rest.1),
                        ),
                        Err(e) => spec_board_row(
                            lv,
                            i as int,
                            0,
                            n as int,
                            m as int,
                            agent_at_row,
                        ) == Err::<(Seq<Field>, Option<Point>), BoardCreationError>(e),
                    },
                decreases m - j,
            {
                let c = line[j];
                let on_horizontal = i == 0 || i == n - 1;
                let on_vertical = j == 0 || j == m - 1;
                let edge = on_horizontal || on_vertical;
                let corner = on_horizontal && on_vertical;
                let ghost have_agent: bool = agent is Some;
                let field: Field;
                if c == 56 {
                    if !edge || corner {
                        return Err(BoardCreationError::InvalidGoal);
                    }
                    field = Field::Exit;
                } else if c == 53 {
                    if edge || agent.is_some() {
                        return Err(BoardCreationError::InvalidAgent);
                    }
                    field = Field::Empty;
                    agent = Some(Point { x: j as u64, y: i as u64 });
                } else if c == 49 {
                    field = Field::Wall;
                } else if c == 48 {
                    if edge {
                        return Err(BoardCreationError::InvalidLine);
                    }
                    field = Field::Empty;
                } else {
                    return Err(BoardCreationError::InvalidLine);
                }
                let ghost row_before: Seq<Field> = row@;
                row.push(field);
                proof {
                    assert(spec_cell(lv[j as int], i as int, j as int, n as int, m as int,
                        have_agent) == Ok::<(Field, bool), BoardCreationError>(
                        (field, c == 53),
                    ));
                    let rest2 = spec_board_row(lv, i as int, j + 1, n as int, m as int, agent);
                    match rest2 {
                        Ok(rr) => {
                            assert(row_before + (seq![field] + rr.0) =~= row@ + rr.0);
                        },
                        Err(e) => {},
                    }
                }
                j = j + 1;
            }
            let ghost rows_before: Seq<Seq<Field>> = rows@.map_values(|v: Vec<Field>| v@);
            let ghost this_row: Seq<Field> = row@;
            rows.push(row);
            proof {
                assert(spec_board_row(lv, i as int, m as int, n as int, m as int, agent)
                    == Ok::<(Seq<Field>, Option<Point>), BoardCreationError>(
                    (Seq::empty(), agent),
                ));
                assert(this_row + Seq::<Field>::empty() =~= this_row);
                assert(rows@.map_values(|v: Vec<Field>| v@) =~= rows_before.push(this_row));
                match spec_board_lines(ls, t + 1, n as int, m as int, agent) {
                    Ok(rest) => {
                        assert(rows_before + (seq![this_row] + rest.0) =~= rows_before.push(
                            this_row) + rest.0);
                    },
                    Err(e) => {},
                }
            }
            t = t + 1;
        }
        let agent_point: Point;
        match agent {
            Some(p) => {
                agent_point = p;
            },
            None => {
                return Err(BoardCreationError::InvalidAgent);
            },
        }
        proof {
            assert(spec_board_lines(ls, n as int, n as int, m as int, agent)
                == Ok::<(Seq<Seq<Field>>, Option<Point>), BoardCreationError>(
                (Seq::empty(), agent),
            ));
            assert(rows@.map_values(|v: Vec<Field>| v@) + Seq::<Seq<Field>>::empty()
                =~= rows@.map_values(|v: Vec<Field>| v@));
        }
        let ghost rows_spec: Seq<Seq<Field>> = rows@.map_values(|v: Vec<Field>| v@);
        proof {
            lemma_board_lines_shape(ls, 0, n as int, m as int, None);
        }
        // Assemble the flat grid: grid row zero is the last data line.
        let mut fields: Vec<Field> = Vec::new();
        let mut y: usize = 0;
        proof {
            lemma_assemble_len(rows_spec, 0, n as int, m as int);
        }
        while y < n
            invariant
                n <= usize::MAX,
                m <= usize::MAX,
                (n as int) * (m as int) <= usize::MAX,
                y <= n,
                rows@.len() == n,
                rows_spec == rows@.map_values(|v: Vec<Field>| v@),
                forall|q: int| 0 <= q < n ==> (#[trigger] rows_spec[q]).len() == m,
                fields@.len() == (y as int) * (m as int),
                spec_assemble(rows_spec, 0, n as int) == fields@ + spec_assemble(
                    rows_spec,
                    y as int,
                    n as int,
                ),
            decreases n - y,
        {
            let source = &rows[n - 1 - y];
            let ghost fields_before: Seq<Field> = fields@;
            let mut x: usize = 0;
            while x < source.len()
                invariant
                    x <= source@.len(),
                    fields@ == fields_before + source@.take(x as int),
                decreases source@.len() - x,
            {
                fields.push(source[x]);
                proof {
                    assert(fields@ =~= fields_before + source@.take(x + 1));
                }
                x = x + 1;
            }
            proof {
                assert(source@.take(source@.len() as int) =~= source@);
                assert(source@ == rows_spec[n - 1 - y]);
                assert((y as int) * (m as int) + m == (y + 1) * (m as int)) by (nonlinear_arith);
                assert((y + 1) * (m as int) <= (n as int) * (m as int)) by (nonlinear_arith)
                    requires
                        y + 1 <= n,
                        m >= 0,
                ;
                assert(fields_before + (rows_spec[n - 1 - y] + spec_assemble(
                    rows_spec,
                    y + 1,
                    n as int,
                )) =~= (fields_before + rows_spec[n - 1 - y]) + spec_assemble(
                    rows_spec,
                    y + 1,
                    n as int,
                ));
            }
            y = y + 1;
        }
        proof {
            assert(spec_assemble(rows_spec, n as int, n as int) =~= Seq::<Field>::empty());
            assert(fields@ + Seq::<Field>::empty() =~= fields@);
            lemma_assemble_index(
                rows_spec,
                0,
                n as int,
                m as int,
                agent_point.y as int,
                agent_point.x as int,
            );
        }
        proof {
            if time <= u64::MAX / 1000 {
                assert((time as int) * 1000 <= u64::MAX) by (nonlinear_arith)
                    requires
                        0 <= time as int <= (u64::MAX as int) / 1000,
                ;
            }
        }
        let millis: u64 = if time > u64::MAX / 1000 {
            u64::MAX
        } else {
            time * 1000
        };
        proof {
            if time > u64::MAX / 1000 {
                assert((time as int) * 1000 > u64::MAX) by (nonlinear_arith)
                    requires
                        time as int > (u64::MAX as int) / 1000,
                ;
            }
        }
        let board = Board { fields, height: n, width: m, agent_position: agent_point };
        Ok((board, millis))
    }
}

} // verus!
