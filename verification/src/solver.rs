use crate::parse::{
    parse_u64, spec_is_u64_token, spec_lines, spec_tokens, spec_u64_value, split_lines,
    split_tokens,
};
use vstd::prelude::*;

verus! {

/// Why building the block solver from instance text failed.
#[derive(Debug, Clone, PartialEq, Eq, Structural)]
pub enum SolverCreationError {
    InvalidHeader,
    InvalidLine,
    NotEnoughLines,
    TooManyLines,
    IOError,
}

/// The block-approximation solver's instance: a grid of 8-bit values to
/// approximate, the smallest block size allowed, and the time budget.
#[derive(Debug, Clone)]
pub struct Solver {
    pub values: Vec<u8>,
    pub height: usize,
    pub width: usize,
    pub minimal_block_size: usize,
    pub time_limit_millis: u64,
}

impl Solver {
    /// The flat grid really is `height` rows of `width` values.
    pub open spec fn wf(self) -> bool {
        self.values@.len() == self.height * self.width
    }

    pub fn new(
        values: Vec<u8>,
        height: usize,
        width: usize,
        minimal_block_size: usize,
        time_limit_millis: u64,
    ) -> (r: Solver)
        requires
            values@.len() == height * width,
        ensures
            r.values == values,
            r.height == height,
            r.width == width,
            r.minimal_block_size == minimal_block_size,
            r.time_limit_millis == time_limit_millis,
            r.wf(),
    {
        Solver { values, height, width, minimal_block_size, time_limit_millis }
    }
}

/// One grid line is well-formed: exactly `m` decimal tokens, each at most
/// 255.
pub open spec fn spec_grid_row_ok(line: Seq<u8>, m: int) -> bool {
    let toks = spec_tokens(line);
    &&& toks.len() == m
    &&& forall|k: int|
        0 <= k < m ==> spec_is_u64_token(#[trigger] toks[k]) && spec_u64_value(toks[k]) <= 255
}

/// The cell values a well-formed grid line holds.
pub open spec fn spec_grid_row_values(line: Seq<u8>, m: int) -> Seq<u8> {
    Seq::new(m as nat, |k: int| spec_u64_value(spec_tokens(line)[k]) as u8)
}

/// The grid rows from row `i` on, read from the data lines, or the first
/// failure.
pub open spec fn spec_grid_rows(lines: Seq<Seq<u8>>, i: int, n: int, m: int) -> Result<
    Seq<u8>,
    SolverCreationError,
>
    decreases n - i when 0 <= i <= n
{
    if i >= n {
        if lines.len() > n + 1 {
            Err(SolverCreationError::TooManyLines)
        } else {
            Ok(Seq::empty())
        }
    } else if i + 1 >= lines.len() {
        Err(SolverCreationError::NotEnoughLines)
    } else if !spec_grid_row_ok(lines[i + 1], m) {
        Err(SolverCreationError::InvalidLine)
    } else {
        match spec_grid_rows(lines, i + 1, n, m) {
            Ok(rest) => Ok(spec_grid_row_values(lines[i + 1], m) + rest),
            Err(e) => Err(e),
        }
    }
}

/// What parsing the instance text yields: the time budget in seconds, the
/// grid dimensions, the block size and the flattened grid, or the first
/// failure.  The header must hold exactly four decimal tokens: a positive
/// time budget, the two dimensions, and a positive block size no larger
/// than either dimension; the grid must fit in memory.
pub open spec fn spec_parse_block_solver(input: Seq<u8>) -> Result<
    (int, int, int, int, Seq<u8>),
    SolverCreationError,
> {
    let lines = spec_lines(input);
    if lines.len() == 0 {
        Err(SolverCreationError::NotEnoughLines)
    } else {
        let toks = spec_tokens(lines[0]);
        if exists|k: int| 0 <= k < toks.len() && !spec_is_u64_token(#[trigger] toks[k]) {
            Err(SolverCreationError::InvalidHeader)
        } else if toks.len() != 4 {
            Err(SolverCreationError::InvalidHeader)
        } else {
            let time = spec_u64_value(toks[0]);
            let n = spec_u64_value(toks[1]);
            let m = spec_u64_value(toks[2]);
            let block = spec_u64_value(toks[3]);
            if time == 0 || block == 0 || block > n || block > m {
                Err(SolverCreationError::InvalidHeader)
            } else if n > usize::MAX || m > usize::MAX {
                Err(SolverCreationError::InvalidHeader)
            } else if n * m > usize::MAX {
                Err(SolverCreationError::InvalidHeader)
            } else {
                match spec_grid_rows(lines, 0, n, m) {
                    Ok(vals) => Ok((time, n, m, block, vals)),
                    Err(e) => Err(e),
                }
            }
        }
    }
}

impl Solver {
    /// Reads a block solver from the instance text: a header line of time
    /// budget, grid dimensions and block size, then the grid, one row per
    /// line.  The result and every failure agree exactly with the parse
    /// specification; on success the grid is well-formed and the time
    /// budget is the header's seconds in milliseconds, saturated.
    pub fn try_from_bytes(input: &Vec<u8>) -> (r: Result<Solver, SolverCreationError>)
        ensures
            match spec_parse_block_solver(input@) {
                Ok(parsed) => match r {
                    Ok(solver) => {
                        &&& solver.height as int == parsed.1
                        &&& solver.width as int == parsed.2
                        &&& solver.minimal_block_size as int == parsed.3
                        &&& solver.values@ == parsed.4
                        &&& solver.wf()
                        &&& solver.time_limit_millis as int == (if parsed.0 * 1000 <= u64::MAX {
                            parsed.0 * 1000
                        } else {
                            u64::MAX as int
                        })
                    },
                    Err(_) => false,
                },
                Err(e) => r == Err::<Solver, SolverCreationError>(e),
            },
    {
        let lines = split_lines(input);
        let ghost ls: Seq<Seq<u8>> = spec_lines(input@);
        if lines.len() == 0 {
            return Err(SolverCreationError::NotEnoughLines);
        }
        let header_toks = split_tokens(&lines[0]);
        let ghost hts: Seq<Seq<u8>> = spec_tokens(ls[0]);
        let mut header_vals: Vec<u64> = Vec::new();
        let mut k: usize = 0;
        while k < header_toks.len()
            invariant
                ls == spec_lines(input@),
                ls.len() >= 1,
                hts == spec_tokens(ls[0]),
                header_toks@.len() == hts.len(),
                forall|t: int| 0 <= t < hts.len() ==> (#[trigger] header_toks@[t])@ == hts[t],
                k <= hts.len(),
                header_vals@.len() == k,
                forall|t: int| 0 <= t < k ==> spec_is_u64_token(#[trigger] hts[t]),
                forall|t: int|
                    0 <= t < k ==> (#[trigger] header_vals@[t]) as int == spec_u64_value(hts[t]),
            decreases header_toks@.len() - k,
        {
            match parse_u64(&header_toks[k]) {
                Some(v) => {
                    header_vals.push(v);
                },
                None => {
                    return Err(SolverCreationError::InvalidHeader);
                },
            }
            k = k + 1;
        }
        if header_vals.len() != 4 {
            return Err(SolverCreationError::InvalidHeader);
        }
        let time = header_vals[0];
        let n_value = header_vals[1];
        let m_value = header_vals[2];
        let block_value = header_vals[3];
        if time == 0 || block_value == 0 || block_value > n_value || block_value > m_value {
            return Err(SolverCreationError::InvalidHeader);
        }
        if n_value > usize::MAX as u64 || m_value > usize::MAX as u64 {
            return Err(SolverCreationError::InvalidHeader);
        }
        let n = n_value as usize;
        let m = m_value as usize;
        proof {
            assert((n as int) * (m as int) < 0x1_0000_0000_0000_0000_0000_0000_0000_0000)
                by (nonlinear_arith)
                requires
                    n <= 0xffff_ffff_ffff_ffff,
                    m <= 0xffff_ffff_ffff_ffff,
            ;
        }
        let area: u128 = (n as u128) * (m as u128);
        if area > usize::MAX as u128 {
            return Err(SolverCreationError::InvalidHeader);
        }
        let mut values: Vec<u8> = Vec::new();
        let mut i: usize = 0;
        let ghost parse_goal: Result<(int, int, int, int, Seq<u8>), SolverCreationError> =
            spec_parse_block_solver(input@);
        proof {
            assert(parse_goal == (match spec_grid_rows(ls, 0, n as int, m as int) {
                Ok(vals) => Ok::<(int, int, int, int, Seq<u8>), SolverCreationError>(
                    (time as int, n as int, m as int, block_value as int, vals),
                ),
                Err(e) => Err::<(int, int, int, int, Seq<u8>), SolverCreationError>(e),
            }));
        }
        while i < n
            invariant
                ls == spec_lines(input@),
                lines@.len() == ls.len(),
                forall|t: int| 0 <= t < ls.len() ==> (#[trigger] lines@[t])@ == ls[t],
                i <= n,
                n <= usize::MAX,
                (n as int) * (m as int) <= usize::MAX,
                values@.len() == (i as int) * (m as int),
                parse_goal == spec_parse_block_solver(input@),
                parse_goal == (match spec_grid_rows(ls, 0, n as int, m as int) {
                    Ok(vals) => Ok::<(int, int, int, int, Seq<u8>), SolverCreationError>(
                        (time as int, n as int, m as int, block_value as int, vals),
                    ),
                    Err(e) => Err::<(int, int, int, int, Seq<u8>), SolverCreationError>(e),
                }),
                match spec_grid_rows(ls, i as int, n as int, m as int) {
                    Ok(rest) => spec_grid_rows(ls, 0, n as int, m as int) == Ok::<
                        Seq<u8>,
                        SolverCreationError,
                    >(values@ + rest),
                    Err(e) => spec_grid_rows(ls, 0, n as int, m as int) == Err::<
                        Seq<u8>,
                        SolverCreationError,
                    >(e),
                },
            decreases n - i,
        {
            if i + 1 >= lines.len() {
                return Err(SolverCreationError::NotEnoughLines);
            }
            let row_toks = split_tokens(&lines[i + 1]);
            let ghost rts: Seq<Seq<u8>> = spec_tokens(ls[i + 1]);
            if row_toks.len() != m {
                return Err(SolverCreationError::InvalidLine);
            }
            let ghost values_before: Seq<u8> = values@;
            let mut t: usize = 0;
            while t < m
                invariant
                    ls == spec_lines(input@),
                    i < n,
                    i + 1 < ls.len(),
                    parse_goal == spec_parse_block_solver(input@),
                    parse_goal == (match spec_grid_rows(ls, 0, n as int, m as int) {
                        Ok(vals) => Ok::<(int, int, int, int, Seq<u8>), SolverCreationError>(
                            (time as int, n as int, m as int, block_value as int, vals),
                        ),
                        Err(e) => Err::<(int, int, int, int, Seq<u8>), SolverCreationError>(e),
                    }),
                    match spec_grid_rows(ls, i as int, n as int, m as int) {
                        Ok(rest) => spec_grid_rows(ls, 0, n as int, m as int) == Ok::<
                            Seq<u8>,
                            SolverCreationError,
                        >(values_before + rest),
                        Err(e) => spec_grid_rows(ls, 0, n as int, m as int) == Err::<
                            Seq<u8>,
                            SolverCreationError,
                        >(e),
                    },
                    rts == spec_tokens(ls[i + 1]),
                    row_toks@.len() == rts.len(),
                    rts.len() == m,
                    forall|q: int| 0 <= q < rts.len() ==> (#[trigger] row_toks@[q])@ == rts[q],
                    t <= m,
                    values@.len() == values_before.len() + t,
                    values@.take(values_before.len() as int) == values_before,
                    forall|q: int|
                        0 <= q < t ==> spec_is_u64_token(#[trigger] rts[q]) && 0 <= spec_u64_value(
                            rts[q],
                        ) <= 255,
                    forall|q: int|
                        0 <= q < t ==> (#[trigger] values@[values_before.len() + q]) as int
                            == spec_u64_value(rts[q]),
                decreases m - t,
            {
                match parse_u64(&row_toks[t]) {
                    Some(v) => {
                        if v > 255 {
                            return Err(SolverCreationError::InvalidLine);
                        }
                        values.push(v as u8);
                        proof {
                            assert(values@.take(values_before.len() as int) =~= values_before);
                        }
                    },
                    None => {
                        return Err(SolverCreationError::InvalidLine);
                    },
                }
                t = t + 1;
            }
            proof {
                assert(spec_grid_row_ok(ls[i + 1], m as int));
                assert forall|j: int|
                    values_before.len() <= j < values_before.len() + m implies #[trigger] values@[j]
                    == spec_grid_row_values(ls[i + 1], m as int)[j - values_before.len()] by {
                    let q = j - values_before.len();
                    assert((values@[values_before.len() + q]) as int == spec_u64_value(rts[q]));
                    assert(spec_grid_row_values(ls[i + 1], m as int)[q] == spec_u64_value(rts[q])
                        as u8);
                }
                assert forall|j: int| 0 <= j < values_before.len() implies #[trigger] values@[j]
                    == values_before[j] by {
                    assert(values@.take(values_before.len() as int)[j] == values@[j]);
                }
                assert(values@ =~= values_before + spec_grid_row_values(ls[i + 1], m as int));
                assert((i as int) * (m as int) + m == (i + 1) * (m as int)) by (nonlinear_arith);
                assert((i + 1) * (m as int) <= (n as int) * (m as int)) by (nonlinear_arith)
                    requires
                        i + 1 <= n,
                        m >= 0,
                ;
                let ghost rowvals = spec_grid_row_values(ls[i + 1], m as int);
                match spec_grid_rows(ls, i + 1, n as int, m as int) {
                    Ok(rest) => {
                        assert(values_before + (rowvals + rest) =~= (values_before + rowvals)
                            + rest);
                    },
                    Err(e) => {},
                }
            }
            i = i + 1;
        }
        if lines.len() - 1 > n {
            return Err(SolverCreationError::TooManyLines);
        }
        proof {
            if time <= u64::MAX / 1000 {
                assert((time as int) * 1000 <= u64::MAX) by (nonlinear_arith)
                    requires
                        0 <= time as int <= (u64::MAX as int) / 1000,
                ;
            }
        }
        let millis: u64 = if time > u64::MAX / 1000 {
            u64::MAX
        } else {
            time * 1000
        };
        proof {
            if time > u64::MAX / 1000 {
                assert((time as int) * 1000 > u64::MAX) by (nonlinear_arith)
                    requires
                        time as int > (u64::MAX as int) / 1000,
                ;
            }
            assert(values@ =~= values@ + spec_grid_rows(ls, n as int, n as int, m as int)->Ok_0);
        }
        Ok(
            Solver {
                values,
                height: n,
                width: m,
                minimal_block_size: block_value as usize,
                time_limit_millis: millis,
            },
        )
    }
}

} // verus!
