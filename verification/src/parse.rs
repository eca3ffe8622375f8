use vstd::prelude::*;

verus! {

/// ASCII whitespace, as the instance text formats use it.
pub open spec fn spec_is_ws(b: u8) -> bool {
    b == 9 || b == 10 || b == 12 || b == 13 || b == 32
}

fn is_ws(b: u8) -> (r: bool)
    ensures
        r == spec_is_ws(b),
{
    b == 9 || b == 10 || b == 12 || b == 13 || b == 32
}

/// The first newline at or after `from`, or the end of the input.
pub open spec fn spec_find_newline(s: Seq<u8>, from: int) -> int
    decreases s.len() - from when 0 <= from <= s.len()
{
    if from >= s.len() {
        s.len() as int
    } else if s[from] == 10 {
        from
    } else {
        spec_find_newline(s, from + 1)
    }
}

pub proof fn lemma_find_newline_bounds(s: Seq<u8>, from: int)
    requires
        0 <= from <= s.len(),
    ensures
        from <= spec_find_newline(s, from) <= s.len(),
        forall|k: int| from <= k < spec_find_newline(s, from) ==> s[k] != 10,
        spec_find_newline(s, from) < s.len() ==> s[spec_find_newline(s, from)] == 10,
    decreases s.len() - from,
{
    if from < s.len() && s[from] != 10 {
        lemma_find_newline_bounds(s, from + 1);
    }
}

/// A line as the reader hands it out: the trailing carriage return of a
/// newline-terminated line is dropped.
pub open spec fn spec_strip_cr(line: Seq<u8>) -> Seq<u8> {
    if line.len() > 0 && line[line.len() - 1] == 13 {
        line.take(line.len() - 1)
    } else {
        line
    }
}

/// The lines of the input from position `from` on: split at newlines, each
/// newline-terminated line with a trailing carriage return dropped, and no
/// final empty line after a terminating newline.
pub open spec fn spec_lines_from(s: Seq<u8>, from: int) -> Seq<Seq<u8>>
    decreases s.len() - from when 0 <= from <= s.len()
{
    if from >= s.len() {
        Seq::empty()
    } else {
        proof {
            lemma_find_newline_bounds(s, from);
        }
        let j = spec_find_newline(s, from);
        let raw = s.subrange(from, j);
        if j >= s.len() {
            seq![raw]
        } else {
            seq![spec_strip_cr(raw)] + spec_lines_from(s, j + 1)
        }
    }
}

/// The lines of the whole input.
pub open spec fn spec_lines(s: Seq<u8>) -> Seq<Seq<u8>> {
    spec_lines_from(s, 0)
}

/// Splits the input into its lines.
pub fn split_lines(input: &Vec<u8>) -> (r: Vec<Vec<u8>>)
    ensures
        r@.len() == spec_lines(input@).len(),
        forall|k: int| 0 <= k < r@.len() ==> (#[trigger] r@[k])@ == spec_lines(input@)[k],
{
    let s = input;
    let n = s.len();
    let mut r: Vec<Vec<u8>> = Vec::new();
    let ghost target: Seq<Seq<u8>> = spec_lines(s@);
    let mut pos: usize = 0;
    while pos < n
        invariant
            n == s@.len(),
            pos <= n,
            target == spec_lines(s@),
            r@.len() <= target.len(),
            forall|k: int| 0 <= k < r@.len() ==> (#[trigger] r@[k])@ == target[k],
            target == r@.map_values(|v: Vec<u8>| v@) + spec_lines_from(s@, pos as int),
        decreases n - pos,
    {
        // Find the next newline.
        let mut j: usize = pos;
        while j < n && s[j] != 10
            invariant
                pos <= j <= n,
                n == s@.len(),
                forall|k: int| pos <= k < j ==> s@[k] != 10,
            decreases n - j,
        {
            j = j + 1;
        }
        proof {
            lemma_find_newline_bounds(s@, pos as int);
            assert(spec_find_newline(s@, pos as int) == j) by {
                if j < n {
                    assert(s@[j as int] == 10);
                }
            }
        }
        // Copy the raw line, dropping a trailing carriage return of a
        // terminated line.
        let mut stop: usize = j;
        if j < n && stop > pos && s[stop - 1] == 13 {
            stop = stop - 1;
        }
        let mut line: Vec<u8> = Vec::new();
        let mut k: usize = pos;
        while k < stop
            invariant
                pos <= k <= stop,
                stop <= n,
                n == s@.len(),
                line@ == s@.subrange(pos as int, k as int),
            decreases stop - k,
        {
            line.push(s[k]);
            proof {
                assert(line@ =~= s@.subrange(pos as int, k + 1));
            }
            k = k + 1;
        }
        proof {
            let raw = s@.subrange(pos as int, j as int);
            if j < n {
                assert(line@ =~= spec_strip_cr(raw)) by {
                    if raw.len() > 0 && raw[raw.len() - 1] == 13 {
                        assert(s@[j - 1] == 13);
                        assert(stop == j - 1);
                        assert(spec_strip_cr(raw) =~= s@.subrange(pos as int, j - 1));
                    } else {
                        if j > pos {
                            assert(raw[raw.len() - 1] == s@[j - 1]);
                        }
                        assert(stop == j);
                    }
                }
            } else {
                assert(stop == j);
                assert(line@ == raw);
            }
        }
        let ghost prev_map: Seq<Seq<u8>> = r@.map_values(|v: Vec<u8>| v@);
        let ghost head: Seq<u8> = line@;
        let ghost next_pos: int = if j < n {
            j + 1
        } else {
            n as int
        };
        let ghost rest: Seq<Seq<u8>> = spec_lines_from(s@, next_pos);
        r.push(line);
        proof {
            assert(spec_lines_from(s@, pos as int) =~= seq![head] + rest);
            assert(r@.map_values(|v: Vec<u8>| v@) =~= prev_map.push(head));
            assert(prev_map + (seq![head] + rest) =~= prev_map.push(head) + rest);
            assert(target =~= r@.map_values(|v: Vec<u8>| v@) + rest);
        }
        if j < n {
            pos = j + 1;
        } else {
            pos = n;
        }
    }
    proof {
        assert(target =~= r@.map_values(|v: Vec<u8>| v@));
        assert forall|k: int| 0 <= k < r@.len() implies (#[trigger] r@[k])@ == target[k] by {
            assert(target[k] == r@.map_values(|v: Vec<u8>| v@)[k]);
        }
    }
    r
}

/// The first non-whitespace position at or after `from`, or the end.
pub open spec fn spec_skip_ws(s: Seq<u8>, from: int) -> int
    decreases s.len() - from when 0 <= from <= s.len()
{
    if from >= s.len() {
        s.len() as int
    } else if spec_is_ws(s[from]) {
        spec_skip_ws(s, from + 1)
    } else {
        from
    }
}

/// The first whitespace position at or after `from`, or the end.
pub open spec fn spec_find_ws(s: Seq<u8>, from: int) -> int
    decreases s.len() - from when 0 <= from <= s.len()
{
    if from >= s.len() {
        s.len() as int
    } else if spec_is_ws(s[from]) {
        from
    } else {
        spec_find_ws(s, from + 1)
    }
}

pub proof fn lemma_ws_scan_bounds(s: Seq<u8>, from: int)
    requires
        0 <= from <= s.len(),
    ensures
        from <= spec_skip_ws(s, from) <= s.len(),
        from <= spec_find_ws(s, from) <= s.len(),
        forall|k: int| from <= k < spec_skip_ws(s, from) ==> spec_is_ws(s[k]),
        spec_skip_ws(s, from) < s.len() ==> !spec_is_ws(s[spec_skip_ws(s, from)]),
        forall|k: int| from <= k < spec_find_ws(s, from) ==> !spec_is_ws(s[k]),
        spec_find_ws(s, from) < s.len() ==> spec_is_ws(s[spec_find_ws(s, from)]),
    decreases s.len() - from,
{
    if from < s.len() {
        lemma_ws_scan_bounds(s, from + 1);
    }
}

/// The whitespace-separated tokens of `s` from position `from` on.
pub open spec fn spec_tokens_from(s: Seq<u8>, from: int) -> Seq<Seq<u8>>
    decreases s.len() - from when 0 <= from <= s.len()
{
    if from >= s.len() {
        Seq::empty()
    } else {
        proof {
            lemma_ws_scan_bounds(s, from);
        }
        let a = spec_skip_ws(s, from);
        if a >= s.len() {
            Seq::empty()
        } else {
            proof {
                lemma_ws_scan_bounds(s, a);
            }
            let b = spec_find_ws(s, a);
            seq![s.subrange(a, b)] + spec_tokens_from(s, b)
        }
    }
}

/// The whitespace-separated tokens of `s`.
pub open spec fn spec_tokens(s: Seq<u8>) -> Seq<Seq<u8>> {
    spec_tokens_from(s, 0)
}

/// Splits a line into its whitespace-separated tokens.
pub fn split_tokens(line: &Vec<u8>) -> (r: Vec<Vec<u8>>)
    ensures
        r@.len() == spec_tokens(line@).len(),
        forall|k: int| 0 <= k < r@.len() ==> (#[trigger] r@[k])@ == spec_tokens(line@)[k],
{
    let s = line;
    let n = s.len();
    let mut r: Vec<Vec<u8>> = Vec::new();
    let ghost target: Seq<Seq<u8>> = spec_tokens(s@);
    let mut pos: usize = 0;
    proof {
        lemma_ws_scan_bounds(s@, 0);
    }
    while pos < n
        invariant
            n == s@.len(),
            pos <= n,
            target == spec_tokens(s@),
            forall|k: int| 0 <= k < r@.len() ==> (#[trigger] r@[k])@ == target[k],
            target == r@.map_values(|v: Vec<u8>| v@) + spec_tokens_from(s@, pos as int),
        decreases n - pos,
    {
        let mut a: usize = pos;
        while a < n && is_ws(s[a])
            invariant
                pos <= a <= n,
                n == s@.len(),
                forall|k: int| pos <= k < a ==> spec_is_ws(s@[k]),
            decreases n - a,
        {
            a = a + 1;
        }
        proof {
            lemma_ws_scan_bounds(s@, pos as int);
            assert(spec_skip_ws(s@, pos as int) == a) by {
                if a < n {
                    assert(!spec_is_ws(s@[a as int]));
                }
            }
        }
        if a >= n {
            proof {
                assert(spec_tokens_from(s@, pos as int) =~= Seq::<Seq<u8>>::empty());
                assert(target =~= r@.map_values(|v: Vec<u8>| v@));
            }
            pos = n;
        } else {
            let mut b: usize = a;
            while b < n && !is_ws(s[b])
                invariant
                    a <= b <= n,
                    n == s@.len(),
                    forall|k: int| a <= k < b ==> !spec_is_ws(s@[k]),
                decreases n - b,
            {
                b = b + 1;
            }
            proof {
                lemma_ws_scan_bounds(s@, a as int);
                assert(spec_find_ws(s@, a as int) == b) by {
                    if b < n {
                        assert(spec_is_ws(s@[b as int]));
                    }
                }
            }
            let mut token: Vec<u8> = Vec::new();
            let mut k: usize = a;
            while k < b
                invariant
                    a <= k <= b,
                    b <= n,
                    n == s@.len(),
                    token@ == s@.subrange(a as int, k as int),
                decreases b - k,
            {
                token.push(s[k]);
                proof {
                    assert(token@ =~= s@.subrange(a as int, k + 1));
                }
                k = k + 1;
            }
            let ghost prev_map: Seq<Seq<u8>> = r@.map_values(|v: Vec<u8>| v@);
            let ghost head: Seq<u8> = token@;
            let ghost rest: Seq<Seq<u8>> = spec_tokens_from(s@, b as int);
            r.push(token);
            proof {
                assert(spec_tokens_from(s@, pos as int) =~= seq![head] + rest);
                assert(r@.map_values(|v: Vec<u8>| v@) =~= prev_map.push(head));
                assert(prev_map + (seq![head] + rest) =~= prev_map.push(head) + rest);
                assert(target =~= r@.map_values(|v: Vec<u8>| v@) + rest);
            }
            pos = b;
        }
    }
    proof {
        assert(target =~= r@.map_values(|v: Vec<u8>| v@));
        assert forall|k: int| 0 <= k < r@.len() implies (#[trigger] r@[k])@ == target[k] by {
            assert(target[k] == r@.map_values(|v: Vec<u8>| v@)[k]);
        }
    }
    r
}

/// The digits of a token, after an optional leading plus sign.
pub open spec fn spec_digits_of(s: Seq<u8>) -> Seq<u8> {
    if s.len() > 0 && s[0] == 43 {
        s.skip(1)
    } else {
        s
    }
}

/// The value of a digit string, most significant first.
pub open spec fn spec_digits_value(d: Seq<u8>) -> int
    decreases d.len(),
{
    if d.len() == 0 {
        0
    } else {
        spec_digits_value(d.take(d.len() - 1)) * 10 + (d[d.len() - 1] - 48)
    }
}

/// `s` is a decimal token an unsigned 64-bit parse accepts: an optional
/// plus sign, then at least one digit, with a value that fits.
pub open spec fn spec_is_u64_token(s: Seq<u8>) -> bool {
    let d = spec_digits_of(s);
    &&& d.len() >= 1
    &&& forall|k: int| 0 <= k < d.len() ==> 48 <= #[trigger] d[k] <= 57
    &&& spec_digits_value(d) <= u64::MAX
}

/// The numeric value of a valid token.
pub open spec fn spec_u64_value(s: Seq<u8>) -> int {
    spec_digits_value(spec_digits_of(s))
}

/// Parses a decimal token the way an unsigned 64-bit parse does: `Some`
/// exactly on tokens of an optional plus sign and digits whose value fits
/// in 64 bits, with that value.
pub fn parse_u64(token: &Vec<u8>) -> (r: Option<u64>)
    ensures
        r == (if spec_is_u64_token(token@) {
            Some(spec_u64_value(token@) as u64)
        } else {
            None::<u64>
        }),
        spec_is_u64_token(token@) ==> 0 <= spec_u64_value(token@) <= u64::MAX,
{
    let n = token.len();
    let start: usize = if n > 0 && token[0] == 43 {
        1
    } else {
        0
    };
    let ghost d: Seq<u8> = spec_digits_of(token@);
    proof {
        assert(d =~= token@.skip(start as int));
    }
    if n == start {
        return None;
    }
    let mut acc: u64 = 0;
    let mut too_big = false;
    let mut k: usize = start;
    while k < n
        invariant
            start <= k <= n,
            n == token@.len(),
            d == spec_digits_of(token@),
            d == token@.skip(start as int),
            d.len() == n - start,
            forall|t: int| 0 <= t < k - start ==> 48 <= #[trigger] d[t] <= 57,
            !too_big ==> acc as int == spec_digits_value(d.take(k - start)),
            too_big ==> spec_digits_value(d.take(k - start)) > u64::MAX,
        decreases n - k,
    {
        let c = token[k];
        if c < 48 || c > 57 {
            proof {
                assert(spec_digits_of(token@)[k - start] == token@[k as int]);
            }
            return None;
        }
        proof {
            assert(d[k - start] == token@[k as int]);
            assert(d.take(k + 1 - start) =~= d.take(k - start).push(token@[k as int]));
            assert(spec_digits_value(d.take(k + 1 - start)) == spec_digits_value(d.take(k - start))
                * 10 + (token@[k as int] - 48)) by {
                assert(d.take(k + 1 - start).take(k - start) =~= d.take(k - start));
            }
        }
        let digit = (c - 48) as u64;
        if too_big {
            proof {
                assert(spec_digits_value(d.take(k - start)) * 10 + (token@[k as int] - 48)
                    > u64::MAX) by (nonlinear_arith)
                    requires
                        spec_digits_value(d.take(k - start)) > u64::MAX,
                        token@[k as int] >= 48,
                ;
            }
        } else {
            let wide: u128 = (acc as u128) * 10 + (digit as u128);
            if wide > u64::MAX as u128 {
                too_big = true;
            } else {
                acc = wide as u64;
            }
        }
        k = k + 1;
    }
    proof {
        assert(d.take(n - start) =~= d);
    }
    if too_big {
        return None;
    }
    Some(acc)
}

} // verus!
