use vstd::prelude::*;

use crate::butcher::Butcher;
use crate::errors::SolverError;
use crate::euler::Euler;
use crate::rk4::{rk4_a_ratio, rk4_b_ratio, rk4_c_ratio};
use crate::runge_kutta::{
    failed, first_nan, full_step_at, lemma_stage_state_prefix, next_state, next_step_size, no_nan,
    running, solved, stage_time, stages_ok, step_fails, step_ok, weight_sum,
};
use crate::scalar::Scalar;

verus! {

/// After a solve, the times and the states are index-aligned, and the first
/// sample is the seed `(t_0, y_0)`.
pub proof fn lemma_history_aligned<T: Scalar, B: Butcher<T, S>, F, A, E, const S: usize, const Y: usize>(
    tab: B,
    f: F,
    args: A,
    h: T,
    t_0: T,
    t_max: T,
    y_0: [T; Y],
    ts: Seq<T>,
    ys: Seq<[T; Y]>,
) where F: Fn(T, [T; Y], &A) -> Result<[T; Y], E>
    requires
        solved::<T, B, F, A, E, S, Y>(tab, f, args, h, t_0, t_max, y_0, ts, ys),
    ensures
        ts.len() == ys.len(),
        ts.len() >= 2,
        ts[0] == t_0,
        ys[0] == y_0,
{
    assert(ts.drop_last()[0] == ts[0]);
    assert(ys.drop_last()[0] == ys[0]);
}

/// With exact integer arithmetic the last recorded time of a solve is `t_max`
/// itself, whatever the step size and whether or not the interval is a
/// multiple of it.
pub proof fn lemma_exact_endpoint<B: Butcher<i64, S>, F, A, E, const S: usize, const Y: usize>(
    tab: B,
    f: F,
    args: A,
    h: i64,
    t_0: i64,
    t_max: i64,
    y_0: [i64; Y],
    ts: Seq<i64>,
    ys: Seq<[i64; Y]>,
) where F: Fn(i64, [i64; Y], &A) -> Result<[i64; Y], E>
    requires
        solved::<i64, B, F, A, E, S, Y>(tab, f, args, h, t_0, t_max, y_0, ts, ys),
    ensures
        ts.last() == t_max,
{
    let t_n = ts[ts.len() - 2];
    lemma_plus_undoes_minus(t_n, t_max);
}

/// In `i64` arithmetic, adding `b - a` to `a` gives `b`.
pub proof fn lemma_plus_undoes_minus(a: i64, b: i64)
    ensures
        a.spec_plus(b.spec_minus(a)) == b,
{
    assert(a.wrapping_add(b.wrapping_sub(a)) == b) by (bit_vector);
}

/// Every call of `f` on equal arguments has the same result: `f` has no
/// hidden randomness or state.
pub open spec fn deterministic<T, F, A, E, const Y: usize>(f: F) -> bool where
    F: Fn(T, [T; Y], &A) -> Result<[T; Y], E>,
 {
    forall|t: T, y: [T; Y], a: A, r1: Result<[T; Y], E>, r2: Result<[T; Y], E>|
        #![trigger call_ensures(f, (t, y, &a), r1), call_ensures(f, (t, y, &a), r2)]
        call_ensures(f, (t, y, &a), r1) && call_ensures(f, (t, y, &a), r2) ==> r1 == r2
}

proof fn lemma_stages_agree<T: Scalar, B: Butcher<T, S>, F, A, E, const S: usize, const Y: usize>(
    tab: B,
    f: F,
    args: A,
    t_n: T,
    y_n: [T; Y],
    h: T,
    ins1: Seq<[T; Y]>,
    ks1: Seq<[T; Y]>,
    ins2: Seq<[T; Y]>,
    ks2: Seq<[T; Y]>,
    n: nat,
) where F: Fn(T, [T; Y], &A) -> Result<[T; Y], E>
    requires
        deterministic::<T, F, A, E, Y>(f),
        stages_ok::<T, B, F, A, E, S, Y>(tab, f, args, t_n, y_n, h, ins1, ks1),
        stages_ok::<T, B, F, A, E, S, Y>(tab, f, args, t_n, y_n, h, ins2, ks2),
        n <= ks1.len(),
        n <= ks2.len(),
    ensures
        forall|l: int| 0 <= l < n ==> ks1[l] == ks2[l] && ins1[l] == ins2[l],
    decreases n,
{
    if n > 0 {
        let i = n - 1;
        lemma_stages_agree(tab, f, args, t_n, y_n, h, ins1, ks1, ins2, ks2, i as nat);
        lemma_stage_state_prefix(y_n, tab.spec_a()@[i]@, ks1, ks2, h, i as nat);
        assert(ins1[i]@ == ins2[i]@);
        assert(ins1[i] =~= ins2[i]);
        let x = (stage_time(t_n, tab.spec_c()@[i], h), ins1[i], &args);
        assert(call_ensures(f, x, Ok::<[T; Y], E>(ks1[i])));
        assert(call_ensures(f, x, Ok::<[T; Y], E>(ks2[i])));
    }
}

/// With a deterministic `f`, a step from one time and state with one step
/// size has a single outcome.
pub proof fn lemma_step_deterministic<T: Scalar, B: Butcher<T, S>, F, A, E, const S: usize, const Y: usize>(
    tab: B,
    f: F,
    args: A,
    t_n: T,
    y_n: [T; Y],
    h: T,
    y1: [T; Y],
    y2: [T; Y],
) where F: Fn(T, [T; Y], &A) -> Result<[T; Y], E>
    requires
        deterministic::<T, F, A, E, Y>(f),
        step_ok::<T, B, F, A, E, S, Y>(tab, f, args, t_n, y_n, h, y1),
        step_ok::<T, B, F, A, E, S, Y>(tab, f, args, t_n, y_n, h, y2),
    ensures
        y1 == y2,
{
    let (ins1, ks1) = choose|ins: Seq<[T; Y]>, ks: Seq<[T; Y]>|
        {
            &&& #[trigger] stages_ok::<T, B, F, A, E, S, Y>(tab, f, args, t_n, y_n, h, ins, ks)
            &&& ks.len() == S
            &&& y1@ == next_state(y_n, tab.spec_b()@, ks, h)
        };
    let (ins2, ks2) = choose|ins: Seq<[T; Y]>, ks: Seq<[T; Y]>|
        {
            &&& #[trigger] stages_ok::<T, B, F, A, E, S, Y>(tab, f, args, t_n, y_n, h, ins, ks)
            &&& ks.len() == S
            &&& y2@ == next_state(y_n, tab.spec_b()@, ks, h)
        };
    lemma_stages_agree(tab, f, args, t_n, y_n, h, ins1, ks1, ins2, ks2, S as nat);
    assert(ks1 =~= ks2);
    assert(y1 =~= y2);
}

/// With a deterministic `f`, the stages of two runs of one step agree as far
/// as both were computed, and so do the stage states.
proof fn lemma_stage_inputs_agree<T: Scalar, B: Butcher<T, S>, F, A, E, const S: usize, const Y: usize>(
    tab: B,
    f: F,
    args: A,
    t_n: T,
    y_n: [T; Y],
    h: T,
    ins1: Seq<[T; Y]>,
    ks1: Seq<[T; Y]>,
    ins2: Seq<[T; Y]>,
    ks2: Seq<[T; Y]>,
    i: int,
) where F: Fn(T, [T; Y], &A) -> Result<[T; Y], E>
    requires
        deterministic::<T, F, A, E, Y>(f),
        stages_ok::<T, B, F, A, E, S, Y>(tab, f, args, t_n, y_n, h, ins1, ks1),
        stages_ok::<T, B, F, A, E, S, Y>(tab, f, args, t_n, y_n, h, ins2, ks2),
        0 <= i <= ks1.len(),
        i <= ks2.len(),
        i < ins1.len(),
        i < ins2.len(),
    ensures
        forall|l: int| 0 <= l < i ==> ks1[l] == ks2[l],
        ins1[i] == ins2[i],
{
    lemma_stages_agree(tab, f, args, t_n, y_n, h, ins1, ks1, ins2, ks2, i as nat);
    lemma_stage_state_prefix(y_n, tab.spec_a()@[i]@, ks1, ks2, h, i as nat);
    assert(ins1[i] =~= ins2[i]);
}

/// A stage that one run of a step completed cannot fail in another.
proof fn lemma_no_stage_both<T: Scalar, B: Butcher<T, S>, F, A, E, const S: usize, const Y: usize>(
    tab: B,
    f: F,
    args: A,
    t_n: T,
    y_n: [T; Y],
    h: T,
    ins1: Seq<[T; Y]>,
    ks1: Seq<[T; Y]>,
    ins2: Seq<[T; Y]>,
    ks2: Seq<[T; Y]>,
    err: E,
) where F: Fn(T, [T; Y], &A) -> Result<[T; Y], E>
    requires
        deterministic::<T, F, A, E, Y>(f),
        stages_ok::<T, B, F, A, E, S, Y>(tab, f, args, t_n, y_n, h, ins1, ks1),
        stages_ok::<T, B, F, A, E, S, Y>(tab, f, args, t_n, y_n, h, ins2, ks2),
        ins2.len() == ks2.len() + 1,
        ks2.len() < ks1.len(),
    ensures
        !call_ensures(
            f,
            (stage_time(t_n, tab.spec_c()@[ks2.len() as int], h), ins2[ks2.len() as int], &args),
            Err::<[T; Y], E>(err),
        ),
{
    let i = ks2.len() as int;
    lemma_stage_inputs_agree(tab, f, args, t_n, y_n, h, ins1, ks1, ins2, ks2, i);
    let x = (stage_time(t_n, tab.spec_c()@[i], h), ins1[i], &args);
    assert(call_ensures(f, x, Ok::<[T; Y], E>(ks1[i])));
}

/// With a deterministic `f`, a step that can end in a state cannot fail, and
/// a step that can fail fails with one error only.
pub proof fn lemma_step_outcome_unique<T: Scalar, B: Butcher<T, S>, F, A, E, const S: usize, const Y: usize>(
    tab: B,
    f: F,
    args: A,
    t_n: T,
    y_n: [T; Y],
    h: T,
    e1: SolverError<E>,
    e2: SolverError<E>,
) where F: Fn(T, [T; Y], &A) -> Result<[T; Y], E>
    requires
        deterministic::<T, F, A, E, Y>(f),
        step_fails::<T, B, F, A, E, S, Y>(tab, f, args, t_n, y_n, h, e1),
    ensures
        forall|y: [T; Y]| !step_ok::<T, B, F, A, E, S, Y>(tab, f, args, t_n, y_n, h, y),
        step_fails::<T, B, F, A, E, S, Y>(tab, f, args, t_n, y_n, h, e2) ==> e1 == e2,
{
    let b = tab.spec_b()@;
    let (ins1, ks1) = choose|ins: Seq<[T; Y]>, ks: Seq<[T; Y]>|
        {
            &&& #[trigger] stages_ok::<T, B, F, A, E, S, Y>(tab, f, args, t_n, y_n, h, ins, ks)
            &&& match e1 {
                SolverError::Convergence(d) => ks.len() == S && first_nan(
                    next_state(y_n, b, ks, h),
                    d as int,
                ),
                SolverError::Derivative(err) => ins.len() == ks.len() + 1 && call_ensures(
                    f,
                    (stage_time(t_n, tab.spec_c()@[ks.len() as int], h), ins[ks.len() as int], &args),
                    Err(err),
                ),
                SolverError::Uninitialised(_) => false,
            }
        };
    assert forall|y: [T; Y]| !step_ok::<T, B, F, A, E, S, Y>(tab, f, args, t_n, y_n, h, y) by {
        if step_ok::<T, B, F, A, E, S, Y>(tab, f, args, t_n, y_n, h, y) {
            let (ins2, ks2) = choose|ins: Seq<[T; Y]>, ks: Seq<[T; Y]>|
                {
                    &&& #[trigger] stages_ok::<T, B, F, A, E, S, Y>(tab, f, args, t_n, y_n, h, ins, ks)
                    &&& ks.len() == S
                    &&& y@ == next_state(y_n, b, ks, h)
                    &&& no_nan(y@)
                };
            match e1 {
                SolverError::Convergence(d) => {
                    lemma_stages_agree(tab, f, args, t_n, y_n, h, ins1, ks1, ins2, ks2, S as nat);
                    assert(ks1 =~= ks2);
                    assert(y@[d as int].spec_is_nan());
                },
                SolverError::Derivative(err) => {
                    lemma_no_stage_both(tab, f, args, t_n, y_n, h, ins2, ks2, ins1, ks1, err);
                },
                SolverError::Uninitialised(_) => {},
            }
        }
    }
    if step_fails::<T, B, F, A, E, S, Y>(tab, f, args, t_n, y_n, h, e2) {
        let (ins2, ks2) = choose|ins: Seq<[T; Y]>, ks: Seq<[T; Y]>|
            {
                &&& #[trigger] stages_ok::<T, B, F, A, E, S, Y>(tab, f, args, t_n, y_n, h, ins, ks)
                &&& match e2 {
                    SolverError::Convergence(d) => ks.len() == S && first_nan(
                        next_state(y_n, b, ks, h),
                        d as int,
                    ),
                    SolverError::Derivative(err) => ins.len() == ks.len() + 1 && call_ensures(
                        f,
                        (stage_time(t_n, tab.spec_c()@[ks.len() as int], h), ins[ks.len() as int], &args),
                        Err(err),
                    ),
                    SolverError::Uninitialised(_) => false,
                }
            };
        match (e1, e2) {
            (SolverError::Convergence(d1), SolverError::Convergence(d2)) => {
                lemma_stages_agree(tab, f, args, t_n, y_n, h, ins1, ks1, ins2, ks2, S as nat);
                assert(ks1 =~= ks2);
                let v = next_state(y_n, b, ks1, h);
                if d1 < d2 {
                    assert(!v[d1 as int].spec_is_nan());
                } else if d2 < d1 {
                    assert(!v[d2 as int].spec_is_nan());
                }
            },
            (SolverError::Convergence(_), SolverError::Derivative(err)) => {
                lemma_no_stage_both(tab, f, args, t_n, y_n, h, ins1, ks1, ins2, ks2, err);
            },
            (SolverError::Derivative(err), SolverError::Convergence(_)) => {
                lemma_no_stage_both(tab, f, args, t_n, y_n, h, ins2, ks2, ins1, ks1, err);
            },
            (SolverError::Derivative(err1), SolverError::Derivative(err2)) => {
                if ks1.len() < ks2.len() {
                    lemma_no_stage_both(tab, f, args, t_n, y_n, h, ins2, ks2, ins1, ks1, err1);
                } else if ks2.len() < ks1.len() {
                    lemma_no_stage_both(tab, f, args, t_n, y_n, h, ins1, ks1, ins2, ks2, err2);
                } else {
                    let i = ks1.len() as int;
                    lemma_stage_inputs_agree(tab, f, args, t_n, y_n, h, ins1, ks1, ins2, ks2, i);
                    let x = (stage_time(t_n, tab.spec_c()@[i], h), ins1[i], &args);
                    assert(call_ensures(f, x, Err::<[T; Y], E>(err1)));
                    assert(call_ensures(f, x, Err::<[T; Y], E>(err2)));
                }
            },
            _ => {},
        }
    }
}

/// What a solved history says of its step `j`.
proof fn lemma_solved_step<T: Scalar, B: Butcher<T, S>, F, A, E, const S: usize, const Y: usize>(
    tab: B,
    f: F,
    args: A,
    h: T,
    t_0: T,
    t_max: T,
    y_0: [T; Y],
    ts: Seq<T>,
    ys: Seq<[T; Y]>,
    j: int,
) where F: Fn(T, [T; Y], &A) -> Result<[T; Y], E>
    requires
        solved::<T, B, F, A, E, S, Y>(tab, f, args, h, t_0, t_max, y_0, ts, ys),
        0 <= j < ts.len() - 1,
    ensures
        j < ts.len() - 2 ==> full_step_at::<T, B, F, A, E, S, Y>(tab, f, args, h, t_max, ts, ys, j),
        j == ts.len() - 2 ==> {
            &&& !h.spec_less(t_max.spec_minus(ts[j]))
            &&& ts[j + 1] == ts[j].spec_plus(t_max.spec_minus(ts[j]))
            &&& step_ok::<T, B, F, A, E, S, Y>(
                tab,
                f,
                args,
                ts[j],
                ys[j],
                t_max.spec_minus(ts[j]),
                ys[j + 1],
            )
        },
{
    if j < ts.len() - 2 {
        assert(full_step_at::<T, B, F, A, E, S, Y>(
            tab,
            f,
            args,
            h,
            t_max,
            ts.drop_last(),
            ys.drop_last(),
            j,
        ));
        assert(ts.drop_last()[j] == ts[j] && ts.drop_last()[j + 1] == ts[j + 1]);
        assert(ys.drop_last()[j] == ys[j] && ys.drop_last()[j + 1] == ys[j + 1]);
    }
}

/// Two running histories of one problem, with a deterministic `f`, agree
/// wherever both have a sample.
proof fn lemma_running_agree<T: Scalar, B: Butcher<T, S>, F, A, E, const S: usize, const Y: usize>(
    tab: B,
    f: F,
    args: A,
    h: T,
    t_0: T,
    t_max: T,
    y_0: [T; Y],
    ts1: Seq<T>,
    ys1: Seq<[T; Y]>,
    ts2: Seq<T>,
    ys2: Seq<[T; Y]>,
    j: nat,
) where F: Fn(T, [T; Y], &A) -> Result<[T; Y], E>
    requires
        deterministic::<T, F, A, E, Y>(f),
        running::<T, B, F, A, E, S, Y>(tab, f, args, h, t_0, t_max, y_0, ts1, ys1),
        running::<T, B, F, A, E, S, Y>(tab, f, args, h, t_0, t_max, y_0, ts2, ys2),
        j < ts1.len(),
        j < ts2.len(),
    ensures
        ts1[j as int] == ts2[j as int],
        ys1[j as int] == ys2[j as int],
    decreases j,
{
    if j > 0 {
        let i = j - 1;
        lemma_running_agree(tab, f, args, h, t_0, t_max, y_0, ts1, ys1, ts2, ys2, i as nat);
        assert(full_step_at::<T, B, F, A, E, S, Y>(tab, f, args, h, t_max, ts1, ys1, i));
        assert(full_step_at::<T, B, F, A, E, S, Y>(tab, f, args, h, t_max, ts2, ys2, i));
        lemma_step_deterministic(tab, f, args, ts1[i], ys1[i], h, ys1[j as int], ys2[j as int]);
    }
}

/// A running history that reaches the last-step condition at index `m` has
/// no sample after `m`.
proof fn lemma_running_stops<T: Scalar, B: Butcher<T, S>, F, A, E, const S: usize, const Y: usize>(
    tab: B,
    f: F,
    args: A,
    h: T,
    t_0: T,
    t_max: T,
    y_0: [T; Y],
    ts: Seq<T>,
    ys: Seq<[T; Y]>,
    m: int,
) where F: Fn(T, [T; Y], &A) -> Result<[T; Y], E>
    requires
        running::<T, B, F, A, E, S, Y>(tab, f, args, h, t_0, t_max, y_0, ts, ys),
        0 <= m < ts.len(),
        !h.spec_less(t_max.spec_minus(ts[m])),
    ensures
        m == ts.len() - 1,
{
    if m < ts.len() - 1 {
        assert(full_step_at::<T, B, F, A, E, S, Y>(tab, f, args, h, t_max, ts, ys, m));
    }
}

/// Solving one problem twice, with a deterministic derivative function, gives
/// the same times and states when both solves succeed.
pub proof fn lemma_solve_deterministic<T: Scalar, B: Butcher<T, S>, F, A, E, const S: usize, const Y: usize>(
    tab: B,
    f: F,
    args: A,
    h: T,
    t_0: T,
    t_max: T,
    y_0: [T; Y],
    ts1: Seq<T>,
    ys1: Seq<[T; Y]>,
    ts2: Seq<T>,
    ys2: Seq<[T; Y]>,
) where F: Fn(T, [T; Y], &A) -> Result<[T; Y], E>
    requires
        deterministic::<T, F, A, E, Y>(f),
        solved::<T, B, F, A, E, S, Y>(tab, f, args, h, t_0, t_max, y_0, ts1, ys1),
        solved::<T, B, F, A, E, S, Y>(tab, f, args, h, t_0, t_max, y_0, ts2, ys2),
    ensures
        ts1 == ts2,
        ys1 == ys2,
{
    let (r1, q1, r2, q2) = (ts1.drop_last(), ys1.drop_last(), ts2.drop_last(), ys2.drop_last());
    if ts1.len() < ts2.len() {
        let m = ts1.len() - 2;
        lemma_running_agree(tab, f, args, h, t_0, t_max, y_0, r1, q1, r2, q2, m as nat);
        lemma_solved_step(tab, f, args, h, t_0, t_max, y_0, ts1, ys1, m);
        lemma_running_stops(tab, f, args, h, t_0, t_max, y_0, r2, q2, m);
    } else if ts2.len() < ts1.len() {
        let m = ts2.len() - 2;
        lemma_running_agree(tab, f, args, h, t_0, t_max, y_0, r1, q1, r2, q2, m as nat);
        lemma_solved_step(tab, f, args, h, t_0, t_max, y_0, ts2, ys2, m);
        lemma_running_stops(tab, f, args, h, t_0, t_max, y_0, r1, q1, m);
    }
    let n = ts1.len() - 2;
    lemma_running_agree(tab, f, args, h, t_0, t_max, y_0, r1, q1, r2, q2, n as nat);
    lemma_solved_step(tab, f, args, h, t_0, t_max, y_0, ts1, ys1, n);
    lemma_solved_step(tab, f, args, h, t_0, t_max, y_0, ts2, ys2, n);
    let rem = t_max.spec_minus(ts1[n]);
    lemma_step_deterministic(tab, f, args, ts1[n], ys1[n], rem, ys1[n + 1], ys2[n + 1]);
    assert forall|j: int| 0 <= j < ts1.len() implies #[trigger] ts1[j] == ts2[j] by {
        if j <= n {
            lemma_running_agree(tab, f, args, h, t_0, t_max, y_0, r1, q1, r2, q2, j as nat);
        }
    }
    assert forall|j: int| 0 <= j < ys1.len() implies #[trigger] ys1[j] == ys2[j] by {
        if j <= n {
            lemma_running_agree(tab, f, args, h, t_0, t_max, y_0, r1, q1, r2, q2, j as nat);
        }
    }
    assert(ts1 =~= ts2);
    assert(ys1 =~= ys2);
}

/// Solving one problem twice, with a deterministic derivative function, never
/// has one solve succeed and the other fail, and two failing solves fail with
/// the same error.
pub proof fn lemma_solve_outcome_deterministic<T: Scalar, B: Butcher<T, S>, F, A, E, const S: usize, const Y: usize>(
    tab: B,
    f: F,
    args: A,
    h: T,
    t_0: T,
    t_max: T,
    y_0: [T; Y],
    e1: SolverError<E>,
    e2: SolverError<E>,
) where F: Fn(T, [T; Y], &A) -> Result<[T; Y], E>
    requires
        deterministic::<T, F, A, E, Y>(f),
        failed::<T, B, F, A, E, S, Y>(tab, f, args, h, t_0, t_max, y_0, e1),
    ensures
        forall|ts: Seq<T>, ys: Seq<[T; Y]>|
            !solved::<T, B, F, A, E, S, Y>(tab, f, args, h, t_0, t_max, y_0, ts, ys),
        failed::<T, B, F, A, E, S, Y>(tab, f, args, h, t_0, t_max, y_0, e2) ==> e1 == e2,
{
    let (ts1, ys1) = choose|ts: Seq<T>, ys: Seq<[T; Y]>|
        {
            &&& #[trigger] running::<T, B, F, A, E, S, Y>(tab, f, args, h, t_0, t_max, y_0, ts, ys)
            &&& step_fails(tab, f, args, ts.last(), ys.last(), next_step_size(h, t_max, ts), e1)
        };
    let m = ts1.len() - 1;
    let hm = next_step_size(h, t_max, ts1);
    lemma_step_outcome_unique(tab, f, args, ts1[m], ys1[m], hm, e1, e2);
    assert forall|ts: Seq<T>, ys: Seq<[T; Y]>|
        !solved::<T, B, F, A, E, S, Y>(tab, f, args, h, t_0, t_max, y_0, ts, ys) by {
        if solved::<T, B, F, A, E, S, Y>(tab, f, args, h, t_0, t_max, y_0, ts, ys) {
            let (r, q) = (ts.drop_last(), ys.drop_last());
            let n = ts.len() - 2;
            if m <= n {
                lemma_running_agree(tab, f, args, h, t_0, t_max, y_0, ts1, ys1, r, q, m as nat);
                lemma_solved_step(tab, f, args, h, t_0, t_max, y_0, ts, ys, m);
                if m < n {
                    assert(!step_ok::<T, B, F, A, E, S, Y>(tab, f, args, ts1[m], ys1[m], hm, ys[m + 1]));
                } else {
                    assert(!step_ok::<T, B, F, A, E, S, Y>(tab, f, args, ts1[m], ys1[m], hm, ys[m + 1]));
                }
            } else {
                lemma_running_agree(tab, f, args, h, t_0, t_max, y_0, ts1, ys1, r, q, n as nat);
                lemma_solved_step(tab, f, args, h, t_0, t_max, y_0, ts, ys, n);
                lemma_running_stops(tab, f, args, h, t_0, t_max, y_0, ts1, ys1, n);
            }
        }
    }
    if failed::<T, B, F, A, E, S, Y>(tab, f, args, h, t_0, t_max, y_0, e2) {
        let (ts2, ys2) = choose|ts: Seq<T>, ys: Seq<[T; Y]>|
            {
                &&& #[trigger] running::<T, B, F, A, E, S, Y>(tab, f, args, h, t_0, t_max, y_0, ts, ys)
                &&& step_fails(tab, f, args, ts.last(), ys.last(), next_step_size(h, t_max, ts), e2)
            };
        let m2 = ts2.len() - 1;
        if m < m2 {
            lemma_running_agree(tab, f, args, h, t_0, t_max, y_0, ts1, ys1, ts2, ys2, m as nat);
            assert(full_step_at::<T, B, F, A, E, S, Y>(tab, f, args, h, t_max, ts2, ys2, m));
            assert(!step_ok::<T, B, F, A, E, S, Y>(tab, f, args, ts1[m], ys1[m], hm, ys2[m + 1]));
        } else if m2 < m {
            lemma_running_agree(tab, f, args, h, t_0, t_max, y_0, ts1, ys1, ts2, ys2, m2 as nat);
            let hm2 = next_step_size(h, t_max, ts2);
            lemma_step_outcome_unique(tab, f, args, ts2[m2], ys2[m2], hm2, e2, e1);
            assert(full_step_at::<T, B, F, A, E, S, Y>(tab, f, args, h, t_max, ts1, ys1, m2));
            assert(!step_ok::<T, B, F, A, E, S, Y>(tab, f, args, ts2[m2], ys2[m2], hm2, ys1[m2 + 1]));
        } else {
            lemma_running_agree(tab, f, args, h, t_0, t_max, y_0, ts1, ys1, ts2, ys2, m as nat);
        }
    }
}

/// One step of the forward Euler tableau, in `i64` arithmetic, takes
/// `y_1 = y_0 + h * f(t_0, y_0)` in every dimension.
pub proof fn lemma_euler_step<F, A, E, const Y: usize>(
    f: F,
    args: A,
    t_0: i64,
    y_0: [i64; Y],
    h: i64,
    y_1: [i64; Y],
) where F: Fn(i64, [i64; Y], &A) -> Result<[i64; Y], E>
    requires
        step_ok::<i64, Euler, F, A, E, 1, Y>(Euler {  }, f, args, t_0, y_0, h, y_1),
    ensures
        exists|k: [i64; Y]|
            {
                &&& call_ensures(f, (t_0, y_0, &args), Ok::<[i64; Y], E>(k))
                &&& forall|d: int|
                    0 <= d < Y ==> #[trigger] y_1@[d] == y_0@[d].wrapping_add(h.wrapping_mul(k@[d]))
            },
{
    let tab = Euler {  };
    let (ins, ks) = choose|ins: Seq<[i64; Y]>, ks: Seq<[i64; Y]>|
        {
            &&& #[trigger] stages_ok::<i64, Euler, F, A, E, 1, Y>(tab, f, args, t_0, y_0, h, ins, ks)
            &&& ks.len() == 1
            &&& y_1@ == next_state(y_0, <Euler as Butcher<i64, 1>>::spec_b(&tab)@, ks, h)
        };
    let k = ks[0];
    assert(<Euler as Butcher<i64, 1>>::spec_c(&tab)@[0] == 0i64);
    assert(h.wrapping_mul(0) == 0i64) by (bit_vector);
    assert(t_0.wrapping_add(0) == t_0) by (bit_vector);
    assert(ins[0] =~= y_0);
    assert(h.wrapping_mul(1) == h) by (bit_vector);
    assert(<Euler as Butcher<i64, 1>>::spec_b(&tab)@[0] == 1i64);
    assert forall|d: int| 0 <= d < Y implies #[trigger] y_1@[d] == y_0@[d].wrapping_add(
        h.wrapping_mul(k@[d]),
    ) by {
        let b = <Euler as Butcher<i64, 1>>::spec_b(&tab)@;
        assert(y_1@[d] == next_state(y_0, b, ks, h)[d]);
        assert(weight_sum(y_0@[d], b, ks, d, h, 0) == y_0@[d]);
        assert(weight_sum(y_0@[d], b, ks, d, h, 1) == y_0@[d].spec_plus(
            h.spec_times(b[0]).spec_times(k@[d]),
        ));
    }
    assert(call_ensures(f, (t_0, y_0, &args), Ok::<[i64; Y], E>(k)));
}

/// In a solve with `i64` arithmetic, `h > 0` and `t_0 < t_max` (with
/// `t_max - t_0` in range), every sample before the last is `t_0 + j * h`
/// and lies before `t_max`.
proof fn lemma_grid<B: Butcher<i64, S>, F, A, E, const S: usize, const Y: usize>(
    tab: B,
    f: F,
    args: A,
    h: i64,
    t_0: i64,
    t_max: i64,
    y_0: [i64; Y],
    ts: Seq<i64>,
    ys: Seq<[i64; Y]>,
    j: nat,
) where F: Fn(i64, [i64; Y], &A) -> Result<[i64; Y], E>
    requires
        h > 0,
        t_0 < t_max,
        t_max - t_0 <= i64::MAX,
        solved::<i64, B, F, A, E, S, Y>(tab, f, args, h, t_0, t_max, y_0, ts, ys),
        j <= ts.len() - 2,
    ensures
        ts[j as int] == t_0 + j * h,
        ts[j as int] < t_max,
    decreases j,
{
    lemma_history_aligned(tab, f, args, h, t_0, t_max, y_0, ts, ys);
    if j > 0 {
        let i = (j - 1) as int;
        lemma_grid(tab, f, args, h, t_0, t_max, y_0, ts, ys, (j - 1) as nat);
        lemma_solved_step(tab, f, args, h, t_0, t_max, y_0, ts, ys, i);
        assert(t_max.wrapping_sub(ts[i]) == t_max - ts[i]);
        assert(ts[i].wrapping_add(h) == ts[i] + h);
        assert(t_0 + j * h == t_0 + i * h + h) by (nonlinear_arith)
            requires
                i == j - 1,
        ;
    }
}

/// In a solve with `i64` arithmetic, `h > 0` and `t_0 < t_max` (with
/// `t_max - t_0` in range), the times strictly increase, every step but the
/// last has size `h`, the last has a size in `(0, h]` and ends on `t_max`, and
/// the number of steps is `t_max - t_0` divided by `h`, rounded up.
pub proof fn lemma_times_increase<B: Butcher<i64, S>, F, A, E, const S: usize, const Y: usize>(
    tab: B,
    f: F,
    args: A,
    h: i64,
    t_0: i64,
    t_max: i64,
    y_0: [i64; Y],
    ts: Seq<i64>,
    ys: Seq<[i64; Y]>,
) where F: Fn(i64, [i64; Y], &A) -> Result<[i64; Y], E>
    requires
        h > 0,
        t_0 < t_max,
        t_max - t_0 <= i64::MAX,
        solved::<i64, B, F, A, E, S, Y>(tab, f, args, h, t_0, t_max, y_0, ts, ys),
    ensures
        forall|j: int| 0 <= j < ts.len() - 1 ==> #[trigger] ts[j] < ts[j + 1],
        forall|j: int| 0 <= j < ts.len() - 2 ==> #[trigger] ts[j + 1] == ts[j] + h,
        0 < ts[ts.len() - 1] - ts[ts.len() - 2] <= h,
        ts[ts.len() - 1] == t_max,
        (ts.len() - 2) * h < t_max - t_0 <= (ts.len() - 1) * h,
{
    let n = ts.len() - 2;
    lemma_grid(tab, f, args, h, t_0, t_max, y_0, ts, ys, n as nat);
    lemma_solved_step(tab, f, args, h, t_0, t_max, y_0, ts, ys, n);
    lemma_exact_endpoint(tab, f, args, h, t_0, t_max, y_0, ts, ys);
    assert(t_max.wrapping_sub(ts[n]) == t_max - ts[n]);
    assert forall|j: int| 0 <= j < ts.len() - 2 implies #[trigger] ts[j + 1] == ts[j] + h by {
        lemma_grid(tab, f, args, h, t_0, t_max, y_0, ts, ys, j as nat);
        lemma_grid(tab, f, args, h, t_0, t_max, y_0, ts, ys, (j + 1) as nat);
        assert(t_0 + (j + 1) * h == t_0 + j * h + h) by (nonlinear_arith);
    }
    assert forall|j: int| 0 <= j < ts.len() - 1 implies #[trigger] ts[j] < ts[j + 1] by {
        if j < n {
            assert(ts[j + 1] == ts[j] + h);
        }
    }
    assert((n + 1) * h == n * h + h) by (nonlinear_arith);
}

/// A solve over an interval of exactly one step size, in `i64` arithmetic,
/// holds two samples: the seed and one step of size `h`, which lands on
/// `t_max`.
pub proof fn lemma_one_step_interval<B: Butcher<i64, S>, F, A, E, const S: usize, const Y: usize>(
    tab: B,
    f: F,
    args: A,
    h: i64,
    t_0: i64,
    y_0: [i64; Y],
    ts: Seq<i64>,
    ys: Seq<[i64; Y]>,
) where F: Fn(i64, [i64; Y], &A) -> Result<[i64; Y], E>
    requires
        h > 0,
        t_0 + h <= i64::MAX,
        solved::<i64, B, F, A, E, S, Y>(tab, f, args, h, t_0, (t_0 + h) as i64, y_0, ts, ys),
    ensures
        ts.len() == 2,
        ts[0] == t_0,
        ts[1] == t_0 + h,
{
    let t_max = (t_0 + h) as i64;
    lemma_times_increase(tab, f, args, h, t_0, t_max, y_0, ts, ys);
    lemma_history_aligned(tab, f, args, h, t_0, t_max, y_0, ts, ys);
    if ts.len() > 2 {
        assert((ts.len() - 2) * h >= h) by (nonlinear_arith)
            requires
                ts.len() > 2,
                h > 0,
        ;
    }
}

/// The coupling matrix of the fourth-order method is strictly lower
/// triangular: it is an explicit method.
pub proof fn lemma_rk4_explicit()
    ensures
        forall|i: int, j: int| 0 <= i <= j < 4 ==> #[trigger] rk4_a_ratio(i, j).0 == 0,
{
}

/// A coefficient given as (numerator, denominator), counted in sixths.
pub open spec fn in_sixths(p: (i64, i64)) -> int {
    (6 * p.0) / (p.1 as int)
}

/// The fourth-order method is consistent: each node is the sum of its row of
/// the coupling matrix, and the weights sum to one.
pub proof fn lemma_rk4_consistent()
    ensures
        forall|i: int|
            0 <= i < 4 ==> in_sixths(rk4_a_ratio(i, 0)) + in_sixths(rk4_a_ratio(i, 1)) + in_sixths(
                rk4_a_ratio(i, 2),
            ) + in_sixths(rk4_a_ratio(i, 3)) == #[trigger] in_sixths(rk4_c_ratio(i)),
        in_sixths(rk4_b_ratio(0)) + in_sixths(rk4_b_ratio(1)) + in_sixths(rk4_b_ratio(2))
            + in_sixths(rk4_b_ratio(3)) == 6,
{
    assert(in_sixths((1, 2)) == 3);
    assert(in_sixths((1, 1)) == 6);
    assert(in_sixths((0, 1)) == 0);
    assert(in_sixths((1, 6)) == 1);
    assert(in_sixths((1, 3)) == 2);
}

/// With `i64` arithmetic, which has no not-a-number, and a derivative function
/// that never fails, no solve can fail.
pub proof fn lemma_exact_solve_succeeds<B: Butcher<i64, S>, F, A, E, const S: usize, const Y: usize>(
    tab: B,
    f: F,
    args: A,
    h: i64,
    t_0: i64,
    t_max: i64,
    y_0: [i64; Y],
    e: SolverError<E>,
) where F: Fn(i64, [i64; Y], &A) -> Result<[i64; Y], E>
    requires
        forall|x: (i64, [i64; Y], &A), r: Result<[i64; Y], E>| #[trigger]
            call_ensures(f, x, r) ==> r is Ok,
    ensures
        !failed::<i64, B, F, A, E, S, Y>(tab, f, args, h, t_0, t_max, y_0, e),
{
    if failed::<i64, B, F, A, E, S, Y>(tab, f, args, h, t_0, t_max, y_0, e) {
        let (ts, ys) = choose|ts: Seq<i64>, ys: Seq<[i64; Y]>|
            {
                &&& #[trigger] running::<i64, B, F, A, E, S, Y>(tab, f, args, h, t_0, t_max, y_0, ts, ys)
                &&& step_fails(tab, f, args, ts.last(), ys.last(), next_step_size(h, t_max, ts), e)
            };
        assert(step_fails(tab, f, args, ts.last(), ys.last(), next_step_size(h, t_max, ts), e));
    }
}

/// No state after the seed of a running history holds a not-a-number.
proof fn lemma_running_no_nan<T: Scalar, B: Butcher<T, S>, F, A, E, const S: usize, const Y: usize>(
    tab: B,
    f: F,
    args: A,
    h: T,
    t_0: T,
    t_max: T,
    y_0: [T; Y],
    ts: Seq<T>,
    ys: Seq<[T; Y]>,
) where F: Fn(T, [T; Y], &A) -> Result<[T; Y], E>
    requires
        running::<T, B, F, A, E, S, Y>(tab, f, args, h, t_0, t_max, y_0, ts, ys),
    ensures
        forall|j: int| 0 < j < ys.len() ==> no_nan(#[trigger] ys[j]@),
{
    assert forall|j: int| 0 < j < ys.len() implies no_nan(#[trigger] ys[j]@) by {
        assert(full_step_at::<T, B, F, A, E, S, Y>(tab, f, args, h, t_max, ts, ys, j - 1));
    }
}

/// No state that a successful solve records after the seed holds a
/// not-a-number.
pub proof fn lemma_solution_has_no_nan<T: Scalar, B: Butcher<T, S>, F, A, E, const S: usize, const Y: usize>(
    tab: B,
    f: F,
    args: A,
    h: T,
    t_0: T,
    t_max: T,
    y_0: [T; Y],
    ts: Seq<T>,
    ys: Seq<[T; Y]>,
) where F: Fn(T, [T; Y], &A) -> Result<[T; Y], E>
    requires
        solved::<T, B, F, A, E, S, Y>(tab, f, args, h, t_0, t_max, y_0, ts, ys),
    ensures
        forall|j: int| 0 < j < ys.len() ==> no_nan(#[trigger] ys[j]@),
{
    let (r, q) = (ts.drop_last(), ys.drop_last());
    lemma_running_no_nan(tab, f, args, h, t_0, t_max, y_0, r, q);
    let n = ts.len() - 2;
    lemma_solved_step(tab, f, args, h, t_0, t_max, y_0, ts, ys, n);
    assert forall|j: int| 0 < j < ys.len() implies no_nan(#[trigger] ys[j]@) by {
        if j <= n {
            assert(ys[j] == q[j]);
        }
    }
}

/// A solve that fails with `Convergence(d)` reached a history whose states
/// after the seed hold no not-a-number, and its next step computed a state
/// whose first not-a-number is in dimension `d`; that state is not recorded.
pub proof fn lemma_divergence_detected<T: Scalar, B: Butcher<T, S>, F, A, E, const S: usize, const Y: usize>(
    tab: B,
    f: F,
    args: A,
    h: T,
    t_0: T,
    t_max: T,
    y_0: [T; Y],
    d: usize,
) where F: Fn(T, [T; Y], &A) -> Result<[T; Y], E>
    requires
        failed::<T, B, F, A, E, S, Y>(tab, f, args, h, t_0, t_max, y_0, SolverError::Convergence(d)),
    ensures
        exists|ts: Seq<T>, ys: Seq<[T; Y]>, ks: Seq<[T; Y]>|
            #![trigger running::<T, B, F, A, E, S, Y>(tab, f, args, h, t_0, t_max, y_0, ts, ys), next_state(ys.last(), tab.spec_b()@, ks, next_step_size(h, t_max, ts))]
            {
                &&& running::<T, B, F, A, E, S, Y>(tab, f, args, h, t_0, t_max, y_0, ts, ys)
                &&& forall|j: int| 0 < j < ys.len() ==> no_nan(#[trigger] ys[j]@)
                &&& ks.len() == S
                &&& first_nan(
                    next_state(ys.last(), tab.spec_b()@, ks, next_step_size(h, t_max, ts)),
                    d as int,
                )
            },
{
    let e = SolverError::<E>::Convergence(d);
    let (ts, ys) = choose|ts: Seq<T>, ys: Seq<[T; Y]>|
        {
            &&& #[trigger] running::<T, B, F, A, E, S, Y>(tab, f, args, h, t_0, t_max, y_0, ts, ys)
            &&& step_fails(tab, f, args, ts.last(), ys.last(), next_step_size(h, t_max, ts), e)
        };
    lemma_running_no_nan(tab, f, args, h, t_0, t_max, y_0, ts, ys);
    let hn = next_step_size(h, t_max, ts);
    let (ins, ks) = choose|ins: Seq<[T; Y]>, ks: Seq<[T; Y]>|
        {
            &&& #[trigger] stages_ok::<T, B, F, A, E, S, Y>(tab, f, args, ts.last(), ys.last(), hn, ins, ks)
            &&& ks.len() == S
            &&& first_nan(next_state(ys.last(), tab.spec_b()@, ks, hn), d as int)
        };
    assert(running::<T, B, F, A, E, S, Y>(tab, f, args, h, t_0, t_max, y_0, ts, ys));
    assert(first_nan(next_state(ys.last(), tab.spec_b()@, ks, hn), d as int));
}

} // verus!
