//! Executors: how independent units of work are scheduled, and the equal
//! division of units over a fixed number of workers.
use vstd::prelude::*;
use rayon::iter::{IndexedParallelIterator, IntoParallelIterator, ParallelIterator};

verus! {

/// Number of indices `start, start + step, ...` below `end`.
pub open spec fn num_steps(start: int, end: int, step: int) -> int {
    if end <= start {
        0
    } else {
        (end - start + step - 1) / step
    }
}

/// A scheduling strategy for independent units of work.
///
/// `execute` runs `work` once for each index `start, start + step, ...` below
/// `end`, in any order and possibly in parallel, and hands back the result of
/// each unit in index order. Every unit has finished when `execute` returns;
/// `synchronize` is the explicit barrier between two dispatches.
pub trait Executor {
    fn execute<R: Send, W: Fn(usize) -> R + Send + Sync>(
        &self,
        start: usize,
        end: usize,
        step: usize,
        work: W,
    ) -> (r: Vec<R>)
        requires
            0 < step,
            forall|t: int|
                0 <= t < num_steps(start as int, end as int, step as int) ==> #[trigger] work.requires(
                    ((start + t * step) as usize,),
                ),
        ensures
            r.len() == num_steps(start as int, end as int, step as int),
            forall|t: int|
                0 <= t < r.len() ==> work.ensures(((start + t * step) as usize,), #[trigger] r[t]),
    ;

    /// Waits until all work submitted to this executor has completed.
    fn synchronize(&self) {
    }
}

/// Runs every unit on the calling thread, in index order.
pub struct DefaultExecutor;

impl Executor for DefaultExecutor {
    fn execute<R: Send, W: Fn(usize) -> R + Send + Sync>(
        &self,
        start: usize,
        end: usize,
        step: usize,
        work: W,
    ) -> (r: Vec<R>) {
        let count = step_count(start, end, step);
        let mut out: Vec<R> = Vec::new();
        let mut i: usize = start;
        while out.len() < count
            invariant
                0 < step,
                count == num_steps(start as int, end as int, step as int),
                out.len() <= count,
                out.len() < count ==> i == start + out.len() * step,
                forall|t: int|
                    0 <= t < count ==> #[trigger] work.requires(((start + t * step) as usize,)),
                forall|t: int|
                    0 <= t < out.len() ==> work.ensures(((start + t * step) as usize,), #[trigger] out[t]),
            decreases count - out.len(),
        {
            let ghost t = out.len() as int;
            proof {
                assert(work.requires(((start + t * step) as usize,)));
            }
            let v = work(i);
            out.push(v);
            if out.len() < count {
                proof {
                    lemma_num_steps_next(start as int, end as int, step as int, t + 1);
                    assert(start + (t + 1) * step == i + step) by (nonlinear_arith)
                        requires
                            i == start + t * step,
                    ;
                }
                i = i + step;
            }
        }
        out
    }
}

/// Delegates partitioning and load balancing to rayon's work-stealing pool.
pub struct RayonExecutor;

/// Relies on rayon's `into_par_iter` on a `Vec`, `map` and
/// `collect_into_vec`: `work` runs once on each index, and result `t` is the
/// one for `indices[t]`.
#[verifier::external_body]
fn par_map<R: Send, W: Fn(usize) -> R + Send + Sync>(indices: Vec<usize>, work: W) -> (r: Vec<R>)
    requires
        forall|t: int| 0 <= t < indices.len() ==> #[trigger] work.requires((indices[t],)),
    ensures
        r.len() == indices.len(),
        forall|t: int| 0 <= t < r.len() ==> work.ensures((indices[t],), #[trigger] r[t]),
{
    let mut out = Vec::new();
    indices.into_par_iter().map(work).collect_into_vec(&mut out);
    out
}

impl Executor for RayonExecutor {
    fn execute<R: Send, W: Fn(usize) -> R + Send + Sync>(
        &self,
        start: usize,
        end: usize,
        step: usize,
        work: W,
    ) -> (r: Vec<R>) {
        let count = step_count(start, end, step);
        let mut indices: Vec<usize> = Vec::new();
        let mut i: usize = start;
        while indices.len() < count
            invariant
                0 < step,
                count == num_steps(start as int, end as int, step as int),
                indices.len() <= count,
                indices.len() < count ==> i == start + indices.len() * step,
                forall|t: int| 0 <= t < indices.len() ==> #[trigger] indices[t] == start + t * step,
                forall|t: int|
                    0 <= t < count ==> #[trigger] work.requires(((start + t * step) as usize,)),
            decreases count - indices.len(),
        {
            let ghost t = indices.len() as int;
            indices.push(i);
            if indices.len() < count {
                proof {
                    lemma_num_steps_next(start as int, end as int, step as int, t + 1);
                    assert(start + (t + 1) * step == i + step) by (nonlinear_arith)
                        requires
                            i == start + t * step,
                    ;
                }
                i = i + step;
            }
        }
        assert forall|t: int| 0 <= t < indices.len() implies #[trigger] work.requires((indices[t],)) by {
            assert(work.requires(((start + t * step) as usize,)));
        }
        let r = par_map(indices, work);
        assert forall|t: int| 0 <= t < r.len() implies work.ensures(((start + t * step) as usize,), #[trigger] r[t]) by {
            assert(work.ensures((indices[t],), r[t]));
        }
        r
    }
}

/// The count of indices below `end` is `t` or more exactly when the `t`-th
/// index is below `end`.
pub proof fn lemma_num_steps_next(start: int, end: int, step: int, t: int)
    requires
        0 < step,
        start <= end,
        0 <= t,
    ensures
        start + t * step < end <==> t < num_steps(start, end, step),
{
    let len = end - start;
    if len > 0 {
        assert(t * step < len <==> t < (len + step - 1) / step) by (nonlinear_arith)
            requires
                0 < step,
                0 < len,
                0 <= t,
        ;
    }
}

/// The number of units `execute` runs for `start`, `end` and `step`.
pub fn step_count(start: usize, end: usize, step: usize) -> (r: usize)
    requires
        0 < step,
    ensures
        r == num_steps(start as int, end as int, step as int),
{
    if end <= start {
        0
    } else {
        let len = end - start;
        let whole = len / step;
        if len % step == 0 {
            proof {
                assert((len + step - 1) / (step as int) == whole) by (nonlinear_arith)
                    requires
                        0 < step,
                        whole == len / step,
                        len % step == 0,
                ;
            }
            whole
        } else {
            proof {
                assert((len + step - 1) / (step as int) == whole + 1 && whole + 1 <= len) by (nonlinear_arith)
                    requires
                        0 < step,
                        whole == len / step,
                        len % step != 0,
                        0 < len,
                ;
            }
            whole + 1
        }
    }
}

/// First unit of worker `w` when `units` units are split over `workers`
/// workers: an equal share each, and one more for each of the first
/// `units % workers` workers.
pub open spec fn share_start(units: int, workers: int, w: int) -> int {
    w * (units / workers) + if w < units % workers {
        w
    } else {
        units % workers
    }
}

/// The fixed-pool division of `units` units of work over `workers` workers:
/// the half-open range of units of each worker, in worker order.
pub fn static_partition(units: usize, workers: usize) -> (r: Vec<(usize, usize)>)
    requires
        0 < workers,
    ensures
        r.len() == workers,
        forall|w: int|
            0 <= w < workers ==> #[trigger] r[w] == (
                share_start(units as int, workers as int, w) as usize,
                share_start(units as int, workers as int, w + 1) as usize,
            ),
        forall|w: int|
            0 <= w < workers ==> r[w].0 <= r[w].1 && r[w].1 - r[w].0 == units / workers + if w
                < units % workers {
                1int
            } else {
                0
            },
        share_start(units as int, workers as int, 0) == 0,
        share_start(units as int, workers as int, workers as int) == units,
{
    let job = units / workers;
    let mut left = units % workers;
    let mut out: Vec<(usize, usize)> = Vec::new();
    let mut prev: usize = 0;
    let mut w: usize = 0;
    proof {
        lemma_share_bounds(units as int, workers as int, 0);
    }
    while w < workers
        invariant
            0 < workers,
            job == units / workers,
            w <= workers,
            out.len() == w,
            prev == share_start(units as int, workers as int, w as int),
            left == if w < units % workers {
                units % workers - w
            } else {
                0
            },
            prev <= units,
            forall|v: int|
                0 <= v < w ==> #[trigger] out[v] == (
                    share_start(units as int, workers as int, v) as usize,
                    share_start(units as int, workers as int, v + 1) as usize,
                ),
            forall|v: int|
                0 <= v < w ==> out[v].0 <= out[v].1 && out[v].1 - out[v].0 == units / workers
                    + if v < units % workers {
                    1int
                } else {
                    0
                },
        decreases workers - w,
    {
        proof {
            lemma_share_bounds(units as int, workers as int, w as int + 1);
        }
        let mut now = prev + job;
        if left > 0 {
            now = now + 1;
            left = left - 1;
        }
        out.push((prev, now));
        prev = now;
        w = w + 1;
    }
    proof {
        lemma_share_bounds(units as int, workers as int, workers as int);
    }
    out
}

proof fn lemma_share_bounds(units: int, workers: int, w: int)
    requires
        0 < workers,
        0 <= units,
        0 <= w <= workers,
    ensures
        0 <= share_start(units, workers, w) <= units,
        w == workers ==> share_start(units, workers, w) == units,
        w > 0 ==> share_start(units, workers, w) == share_start(units, workers, w - 1) + units
            / workers + if w - 1 < units % workers {
            1int
        } else {
            0
        },
{
    let q = units / workers;
    let m = units % workers;
    assert(units == workers * q + m && 0 <= m < workers && 0 <= q) by (nonlinear_arith)
        requires
            0 < workers,
            0 <= units,
            q == units / workers,
            m == units % workers,
    ;
    assert(w * q <= workers * q) by (nonlinear_arith)
        requires
            0 <= w <= workers,
            0 <= q,
    ;
    assert(0 <= w * q) by (nonlinear_arith)
        requires
            0 <= w,
            0 <= q,
    ;
    if w > 0 {
        assert(w * q == (w - 1) * q + q) by (nonlinear_arith);
    }
    if w < workers && w >= m {
        assert(w * q + m <= units) by (nonlinear_arith)
            requires
                w < workers,
                units == workers * q + m,
                0 <= q,
        ;
    }
    if w < m {
        assert(w * q + w <= units) by (nonlinear_arith)
            requires
                w < m,
                w < workers,
                units == workers * q + m,
                0 <= q,
        ;
    }
}

} // verus!
