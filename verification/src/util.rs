use vstd::arithmetic::div_mod::lemma_fundamental_div_mod;
use vstd::prelude::*;

verus! {

/// Division rounding up.
pub fn div_ceil(a: usize, b: usize) -> (r: usize)
    requires
        b >= 1,
    ensures
        a % b == 0 ==> r == a / b,
        a % b != 0 ==> r == a / b + 1,
{
    let div = a / b;
    let rem = a % b;
    if rem == 0 {
        div
    } else {
        proof {
            lemma_fundamental_div_mod(a as int, b as int);
            assert(div as int <= a - 1) by (nonlinear_arith)
                requires
                    a as int == (b as int) * (div as int) + (rem as int),
                    rem >= 1,
                    b >= 1,
                    div >= 0,
            ;
        }
        div + 1
    }
}

/// `value` forced into the closed interval from `min` to `max`.
pub fn clamp(value: i64, min: i64, max: i64) -> (r: i64)
    requires
        min <= max,
    ensures
        r == (if value < min {
            min
        } else if value > max {
            max
        } else {
            value
        }),
{
    if value < min {
        min
    } else if value > max {
        max
    } else {
        value
    }
}

/// The arithmetic progression from `start`, stepping by `step`, of every
/// value below `stop`.
pub fn iter_stop_step(start: usize, stop: usize, step: usize) -> (v: Vec<usize>)
    requires
        step >= 1,
    ensures
        forall|k: int| 0 <= k < v@.len() ==> (#[trigger] v@[k]) == start + k * step,
        forall|k: int| 0 <= k < v@.len() ==> (#[trigger] v@[k]) < stop,
        start >= stop ==> v@.len() == 0,
        start < stop ==> v@.len() as int == ((stop - start) + step - 1) / (step as int),
{
    let mut v: Vec<usize> = Vec::new();
    let mut i: usize = start;
    proof {
        assert(v@.len() * step == 0) by (nonlinear_arith)
            requires
                v@.len() == 0,
        ;
    }
    while i < stop
        invariant_except_break
            step >= 1,
            start <= i,
            start >= stop ==> v@.len() == 0,
            i as int == start + v@.len() * step,
            v@.len() >= 1 ==> (stop - start) > (v@.len() - 1) * step,
            forall|k: int| 0 <= k < v@.len() ==> (#[trigger] v@[k]) == start + k * step,
            forall|k: int| 0 <= k < v@.len() ==> (#[trigger] v@[k]) < stop,
        ensures
            forall|k: int| 0 <= k < v@.len() ==> (#[trigger] v@[k]) == start + k * step,
            forall|k: int| 0 <= k < v@.len() ==> (#[trigger] v@[k]) < stop,
            start >= stop ==> v@.len() == 0,
            start < stop ==> v@.len() >= 1 && (stop - start) <= v@.len() * step && (stop - start)
                > (v@.len() - 1) * step,
        decreases stop - i,
    {
        v.push(i);
        proof {
            assert((v@.len() - 1) * step + step == v@.len() * step) by (nonlinear_arith);
        }
        if stop - i <= step {
            break;
        }
        i = i + step;
    }
    proof {
        let n = v@.len() as int;
        let d = (stop - start) as int;
        if start < stop {
            assert(n == (d + step - 1) / (step as int)) by (nonlinear_arith)
                requires
                    step >= 1,
                    d > (n - 1) * step,
                    d <= n * step,
                    n >= 1,
            ;
        }
    }
    v
}

/// Each element of `v` paired with whether it is the last one.
pub fn iter_signal_last<T>(v: Vec<T>) -> (r: Vec<(bool, T)>)
    ensures
        r@.len() == v@.len(),
        forall|k: int| 0 <= k < r@.len() ==> (#[trigger] r@[k]).1 == v@[k],
        forall|k: int| 0 <= k < r@.len() ==> (#[trigger] r@[k]).0 == (k == r@.len() - 1),
{
    let ghost orig: Seq<T> = v@;
    let ghost n: int = orig.len() as int;
    let mut stack = v;
    let mut reversed: Vec<T> = Vec::new();
    while stack.len() > 0
        invariant
            stack@.len() + reversed@.len() == n,
            forall|k: int| 0 <= k < stack@.len() ==> (#[trigger] stack@[k]) == orig[k],
            forall|k: int| 0 <= k < reversed@.len() ==> (#[trigger] reversed@[k]) == orig[n - 1 - k],
        decreases stack@.len(),
    {
        let ghost t: int = stack@.len() as int;
        match stack.pop() {
            Some(x) => {
                proof {
                    assert(x == orig[t - 1]);
                }
                reversed.push(x);
            },
            None => {},
        }
    }
    let mut r: Vec<(bool, T)> = Vec::new();
    while reversed.len() > 0
        invariant
            reversed@.len() + r@.len() == n,
            forall|k: int| 0 <= k < reversed@.len() ==> (#[trigger] reversed@[k]) == orig[n - 1 - k],
            forall|k: int| 0 <= k < r@.len() ==> (#[trigger] r@[k]).1 == orig[k],
            forall|k: int| 0 <= k < r@.len() ==> (#[trigger] r@[k]).0 == (k == n - 1),
        decreases reversed@.len(),
    {
        match reversed.pop() {
            Some(x) => {
                let flag = reversed.len() == 0;
                r.push((flag, x));
            },
            None => {},
        }
    }
    r
}

} // verus!
