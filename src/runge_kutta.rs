use vstd::prelude::*;

use crate::butcher::{Butcher, Explicit};
use crate::errors::SolverError;
use crate::scalar::Scalar;
use crate::solution::IvpSolution;

verus! {

/// `y_d + (a_row[0] * k[0][d]) * h + ... + (a_row[n-1] * k[n-1][d]) * h`,
/// added from the left: the intra-step state of a stage in dimension `d`.
pub open spec fn stage_sum<T: Scalar, const Y: usize>(
    y_d: T,
    a_row: Seq<T>,
    k: Seq<[T; Y]>,
    d: int,
    h: T,
    n: nat,
) -> T
    decreases n,
{
    if n == 0 {
        y_d
    } else {
        stage_sum(y_d, a_row, k, d, h, (n - 1) as nat).spec_plus(
            a_row[n - 1].spec_times(k[n - 1]@[d]).spec_times(h),
        )
    }
}

/// `y_d + (h * b[0]) * k[0][d] + ... + (h * b[n-1]) * k[n-1][d]`, added from
/// the left: the new state of a step in dimension `d`.
pub open spec fn weight_sum<T: Scalar, const Y: usize>(
    y_d: T,
    b: Seq<T>,
    k: Seq<[T; Y]>,
    d: int,
    h: T,
    n: nat,
) -> T
    decreases n,
{
    if n == 0 {
        y_d
    } else {
        weight_sum(y_d, b, k, d, h, (n - 1) as nat).spec_plus(
            h.spec_times(b[n - 1]).spec_times(k[n - 1]@[d]),
        )
    }
}

/// The state at which stage `i` evaluates the derivative.
pub open spec fn stage_state<T: Scalar, const Y: usize>(
    y_n: [T; Y],
    a_row: Seq<T>,
    k: Seq<[T; Y]>,
    h: T,
    i: nat,
) -> Seq<T> {
    Seq::new(Y as nat, |d: int| stage_sum(y_n@[d], a_row, k, d, h, i))
}

/// The time at which a stage with node `c_i` evaluates the derivative.
pub open spec fn stage_time<T: Scalar>(t_n: T, c_i: T, h: T) -> T {
    t_n.spec_plus(c_i.spec_times(h))
}

/// The state that the stage derivatives `k` lead to.
pub open spec fn next_state<T: Scalar, const Y: usize>(
    y_n: [T; Y],
    b: Seq<T>,
    k: Seq<[T; Y]>,
    h: T,
) -> Seq<T> {
    Seq::new(Y as nat, |d: int| weight_sum(y_n@[d], b, k, d, h, k.len()))
}

pub open spec fn no_nan<T: Scalar>(v: Seq<T>) -> bool {
    forall|d: int| 0 <= d < v.len() ==> !(#[trigger] v[d]).spec_is_nan()
}

/// `d` is the first dimension of `v` that is not a number.
pub open spec fn first_nan<T: Scalar>(v: Seq<T>, d: int) -> bool {
    &&& 0 <= d < v.len()
    &&& v[d].spec_is_nan()
    &&& forall|e: int| 0 <= e < d ==> !(#[trigger] v[e]).spec_is_nan()
}

/// In a step from `(t_n, y_n)` with step size `h`, `ks` are the derivatives of
/// the first `ks.len()` stages, each a possible result of `f` at its stage's
/// time and state, and `ins` are the states of the first `ins.len()` stages.
pub open spec fn stages_ok<T: Scalar, B: Butcher<T, S>, F, A, E, const S: usize, const Y: usize>(
    tab: B,
    f: F,
    args: A,
    t_n: T,
    y_n: [T; Y],
    h: T,
    ins: Seq<[T; Y]>,
    ks: Seq<[T; Y]>,
) -> bool where F: Fn(T, [T; Y], &A) -> Result<[T; Y], E> {
    &&& ks.len() <= ins.len() <= S
    &&& ins.len() <= ks.len() + 1
    &&& forall|i: int|
        0 <= i < ins.len() ==> (#[trigger] ins[i])@ == stage_state(
            y_n,
            tab.spec_a()@[i]@,
            ks,
            h,
            i as nat,
        )
    &&& forall|i: int|
        0 <= i < ks.len() ==> call_ensures(
            f,
            (stage_time(t_n, tab.spec_c()@[i], h), ins[i], &args),
            Ok(#[trigger] ks[i]),
        )
}

/// One step from `(t_n, y_n)` with step size `h` can end in the state `y_next`.
pub open spec fn step_ok<T: Scalar, B: Butcher<T, S>, F, A, E, const S: usize, const Y: usize>(
    tab: B,
    f: F,
    args: A,
    t_n: T,
    y_n: [T; Y],
    h: T,
    y_next: [T; Y],
) -> bool where F: Fn(T, [T; Y], &A) -> Result<[T; Y], E> {
    exists|ins: Seq<[T; Y]>, ks: Seq<[T; Y]>|
        {
            &&& #[trigger] stages_ok(tab, f, args, t_n, y_n, h, ins, ks)
            &&& ks.len() == S
            &&& y_next@ == next_state(y_n, tab.spec_b()@, ks, h)
            &&& no_nan(y_next@)
        }
}

/// One step from `(t_n, y_n)` with step size `h` can fail with `e`.
pub open spec fn step_fails<T: Scalar, B: Butcher<T, S>, F, A, E, const S: usize, const Y: usize>(
    tab: B,
    f: F,
    args: A,
    t_n: T,
    y_n: [T; Y],
    h: T,
    e: SolverError<E>,
) -> bool where F: Fn(T, [T; Y], &A) -> Result<[T; Y], E> {
    match e {
        SolverError::Convergence(d) => exists|ins: Seq<[T; Y]>, ks: Seq<[T; Y]>|
            {
                &&& #[trigger] stages_ok(tab, f, args, t_n, y_n, h, ins, ks)
                &&& ks.len() == S
                &&& first_nan(next_state(y_n, tab.spec_b()@, ks, h), d as int)
            },
        SolverError::Derivative(err) => exists|ins: Seq<[T; Y]>, ks: Seq<[T; Y]>|
            {
                &&& #[trigger] stages_ok(tab, f, args, t_n, y_n, h, ins, ks)
                &&& ins.len() == ks.len() + 1
                &&& call_ensures(
                    f,
                    (stage_time(t_n, tab.spec_c()@[ks.len() as int], h), ins[ks.len() as int], &args),
                    Err(err),
                )
            },
        SolverError::Uninitialised(_) => false,
    }
}

/// Step `j` of the history `(ts, ys)` is a full step of size `h`: more than
/// `h` remained before `t_max`.
pub open spec fn full_step_at<T: Scalar, B: Butcher<T, S>, F, A, E, const S: usize, const Y: usize>(
    tab: B,
    f: F,
    args: A,
    h: T,
    t_max: T,
    ts: Seq<T>,
    ys: Seq<[T; Y]>,
    j: int,
) -> bool where F: Fn(T, [T; Y], &A) -> Result<[T; Y], E> {
    &&& h.spec_less(t_max.spec_minus(ts[j]))
    &&& ts[j + 1] == ts[j].spec_plus(h)
    &&& step_ok(tab, f, args, ts[j], ys[j], h, ys[j + 1])
}

/// `(ts, ys)` is a history that a solve from `(t_0, y_0)` towards `t_max` can
/// hold before its last step: the seed, then full steps only.
pub open spec fn running<T: Scalar, B: Butcher<T, S>, F, A, E, const S: usize, const Y: usize>(
    tab: B,
    f: F,
    args: A,
    h: T,
    t_0: T,
    t_max: T,
    y_0: [T; Y],
    ts: Seq<T>,
    ys: Seq<[T; Y]>,
) -> bool where F: Fn(T, [T; Y], &A) -> Result<[T; Y], E> {
    &&& ts.len() == ys.len()
    &&& ts.len() >= 1
    &&& ts[0] == t_0
    &&& ys[0] == y_0
    &&& forall|j: int|
        0 <= j < ts.len() - 1 ==> #[trigger] full_step_at::<T, B, F, A, E, S, Y>(
            tab,
            f,
            args,
            h,
            t_max,
            ts,
            ys,
            j,
        )
}

/// The step size of the step after the history `ts`: `h` where more than `h`
/// remains before `t_max`, else the remainder.
pub open spec fn next_step_size<T: Scalar>(h: T, t_max: T, ts: Seq<T>) -> T {
    if h.spec_less(t_max.spec_minus(ts.last())) {
        h
    } else {
        t_max.spec_minus(ts.last())
    }
}

/// `(ts, ys)` is a complete solution from `(t_0, y_0)` to `t_max`: a running
/// history, then one last step whose size is the remainder to `t_max`, taken
/// because that remainder was not more than `h`.
pub open spec fn solved<T: Scalar, B: Butcher<T, S>, F, A, E, const S: usize, const Y: usize>(
    tab: B,
    f: F,
    args: A,
    h: T,
    t_0: T,
    t_max: T,
    y_0: [T; Y],
    ts: Seq<T>,
    ys: Seq<[T; Y]>,
) -> bool where F: Fn(T, [T; Y], &A) -> Result<[T; Y], E> {
    let n = ts.len() - 2;
    let rem = t_max.spec_minus(ts[n]);
    &&& ts.len() >= 2
    &&& ys.len() == ts.len()
    &&& running::<T, B, F, A, E, S, Y>(
        tab,
        f,
        args,
        h,
        t_0,
        t_max,
        y_0,
        ts.drop_last(),
        ys.drop_last(),
    )
    &&& !h.spec_less(rem)
    &&& ts[n + 1] == ts[n].spec_plus(rem)
    &&& step_ok(tab, f, args, ts[n], ys[n], rem, ys[n + 1])
}

/// A solve from `(t_0, y_0)` to `t_max` can fail with `e`: some running
/// history was reached and its next step failed with `e`.
pub open spec fn failed<T: Scalar, B: Butcher<T, S>, F, A, E, const S: usize, const Y: usize>(
    tab: B,
    f: F,
    args: A,
    h: T,
    t_0: T,
    t_max: T,
    y_0: [T; Y],
    e: SolverError<E>,
) -> bool where F: Fn(T, [T; Y], &A) -> Result<[T; Y], E> {
    exists|ts: Seq<T>, ys: Seq<[T; Y]>|
        {
            &&& #[trigger] running::<T, B, F, A, E, S, Y>(tab, f, args, h, t_0, t_max, y_0, ts, ys)
            &&& step_fails(tab, f, args, ts.last(), ys.last(), next_step_size(h, t_max, ts), e)
        }
}

/// The state of the first `n` terms of `stage_sum` depends on the first `n`
/// stage derivatives only.
pub proof fn lemma_stage_sum_prefix<T: Scalar, const Y: usize>(
    y_d: T,
    a_row: Seq<T>,
    k1: Seq<[T; Y]>,
    k2: Seq<[T; Y]>,
    d: int,
    h: T,
    n: nat,
)
    requires
        n <= k1.len(),
        n <= k2.len(),
        forall|l: int| 0 <= l < n ==> k1[l] == k2[l],
    ensures
        stage_sum(y_d, a_row, k1, d, h, n) == stage_sum(y_d, a_row, k2, d, h, n),
    decreases n,
{
    if n > 0 {
        lemma_stage_sum_prefix(y_d, a_row, k1, k2, d, h, (n - 1) as nat);
    }
}

pub proof fn lemma_stage_state_prefix<T: Scalar, const Y: usize>(
    y_n: [T; Y],
    a_row: Seq<T>,
    k1: Seq<[T; Y]>,
    k2: Seq<[T; Y]>,
    h: T,
    i: nat,
)
    requires
        i <= k1.len(),
        i <= k2.len(),
        forall|l: int| 0 <= l < i ==> k1[l] == k2[l],
    ensures
        stage_state(y_n, a_row, k1, h, i) == stage_state(y_n, a_row, k2, h, i),
{
    assert forall|d: int| 0 <= d < Y implies stage_sum(y_n@[d], a_row, k1, d, h, i) == stage_sum(
        y_n@[d],
        a_row,
        k2,
        d,
        h,
        i,
    ) by {
        lemma_stage_sum_prefix(y_n@[d], a_row, k1, k2, d, h, i);
    }
    assert(stage_state(y_n, a_row, k1, h, i) =~= stage_state(y_n, a_row, k2, h, i));
}

/// An explicit Runge-Kutta integrator: a tableau, a derivative function `f`,
/// the arguments passed to every call of `f`, the step size, and the history
/// of times and states.
pub struct RungeKutta<T, B, F, A, const S: usize, const Y: usize> {
    f: F,
    args: A,
    tableau: B,
    t: Vec<T>,
    y: Vec<[T; Y]>,
    h: T,
}

impl<T: Scalar, B: Butcher<T, S>, F, A, E, const S: usize, const Y: usize> RungeKutta<
    T,
    B,
    F,
    A,
    S,
    Y,
> where F: Fn(T, [T; Y], &A) -> Result<[T; Y], E> {
    pub closed spec fn tableau(&self) -> B {
        self.tableau
    }

    pub closed spec fn derivative(&self) -> F {
        self.f
    }

    pub closed spec fn arguments(&self) -> A {
        self.args
    }

    pub closed spec fn step_size(&self) -> T {
        self.h
    }

    pub closed spec fn times(&self) -> Seq<T> {
        self.t@
    }

    pub closed spec fn states(&self) -> Seq<[T; Y]> {
        self.y@
    }

    /// `f` can be called on every time and state.
    pub open spec fn total(&self) -> bool {
        forall|t: T, y: [T; Y]| call_requires(self.derivative(), (t, y, &self.arguments()))
    }

    /// `self` equals `before`, whose history is not empty and ends in
    /// `(t_n, y_n)`, and whose parts are `tab`, `f`, `args` and `h`.
    closed spec fn unchanged_from(
        &self,
        before: &Self,
        tab: B,
        f: F,
        args: A,
        t_n: T,
        y_n: [T; Y],
        h: T,
    ) -> bool {
        &&& before.t@.len() > 0
        &&& before.y@.len() > 0
        &&& t_n == before.t@.last()
        &&& y_n == before.y@.last()
        &&& h == before.h
        &&& tab == before.tableau
        &&& f == before.f
        &&& args == before.args
        &&& self.t@ == before.t@
        &&& self.y@ == before.y@
        &&& self.tableau == before.tableau
        &&& self.f == before.f
        &&& self.args == before.args
        &&& self.h == before.h
    }

    pub fn new(tableau: B, f: F, args: A, h: T) -> (r: Self)
        ensures
            r.tableau() == tableau,
            r.derivative() == f,
            r.arguments() == args,
            r.step_size() == h,
            r.times().len() == 0,
            r.states().len() == 0,
    {
        RungeKutta { tableau, t: Vec::new(), y: Vec::new(), f, args, h }
    }

    fn into_solution(self) -> (r: IvpSolution<T, Y>)
        ensures
            r.times() == self.times(),
            r.states() == self.states(),
    {
        IvpSolution::new(self.t, self.y)
    }
}

impl<T: Scalar, B: Explicit<T, S>, F, A, E, const S: usize, const Y: usize> RungeKutta<
    T,
    B,
    F,
    A,
    S,
    Y,
> where F: Fn(T, [T; Y], &A) -> Result<[T; Y], E> {
    /// Advances the history by one step of the current step size.
    pub fn step(&mut self) -> (r: Result<(), SolverError<E>>)
        requires
            old(self).total(),
        ensures
            final(self).tableau() == old(self).tableau(),
            final(self).derivative() == old(self).derivative(),
            final(self).arguments() == old(self).arguments(),
            final(self).step_size() == old(self).step_size(),
            r is Ok ==> {
                &&& old(self).times().len() > 0
                &&& old(self).states().len() > 0
                &&& final(self).times() == old(self).times().push(
                    old(self).times().last().spec_plus(old(self).step_size()),
                )
                &&& final(self).states() == old(self).states().push(final(self).states().last())
                &&& step_ok(
                    old(self).tableau(),
                    old(self).derivative(),
                    old(self).arguments(),
                    old(self).times().last(),
                    old(self).states().last(),
                    old(self).step_size(),
                    final(self).states().last(),
                )
            },
            r is Err ==> final(self).times() == old(self).times() && final(self).states() == old(
                self,
            ).states(),
            r matches Err(SolverError::Uninitialised(s)) ==> if old(self).states().len() == 0 {
                s@ == seq!['y']
            } else {
                old(self).times().len() == 0 && s@ == seq!['t']
            },
            r matches Err(e) ==> (e is Uninitialised || {
                &&& old(self).times().len() > 0
                &&& old(self).states().len() > 0
                &&& step_fails(
                    old(self).tableau(),
                    old(self).derivative(),
                    old(self).arguments(),
                    old(self).times().last(),
                    old(self).states().last(),
                    old(self).step_size(),
                    e,
                )
            }),
    {
        let n = self.y.len();
        if n == 0 {
            let s = "y".to_owned();
            proof {
                reveal_strlit("y");
            }
            return Err(SolverError::Uninitialised(s));
        }
        let m = self.t.len();
        if m == 0 {
            let s = "t".to_owned();
            proof {
                reveal_strlit("t");
            }
            return Err(SolverError::Uninitialised(s));
        }
        let y_n: [T; Y] = self.y[n - 1];
        let t_n: T = self.t[m - 1];
        let h: T = self.h;
        let a = self.tableau.a();
        let b = self.tableau.b();
        let c = self.tableau.c();
        let zero = T::zero();
        let zero_row: [T; Y] = [zero; Y];
        let mut k: [[T; Y]; S] = [zero_row; S];
        let ghost tab = self.tableau;
        let ghost f = self.f;
        let ghost args = self.args;
        let ghost mut ks: Seq<[T; Y]> = Seq::empty();
        let ghost mut ins: Seq<[T; Y]> = Seq::empty();
        proof {
            assert(self.derivative() == f && self.arguments() == args);
            assert forall|tt: T, yy: [T; Y]| call_requires(f, (tt, yy, &args)) by {
                assert(call_requires(self.derivative(), (tt, yy, &self.arguments())));
            }
        }

        let mut i: usize = 0;
        while i < S
            invariant
                self.unchanged_from(old(self), tab, f, args, t_n, y_n, h),
                0 <= i <= S,
                ks.len() == i,
                ins.len() == i,
                forall|l: int| 0 <= l < i ==> k@[l] == ks[l],
                stages_ok(tab, f, args, t_n, y_n, h, ins, ks),
                a == tab.spec_a(),
                c == tab.spec_c(),
                f == self.f,
                args == self.args,
                forall|tt: T, yy: [T; Y]| call_requires(f, (tt, yy, &args)),
            decreases S - i,
        {
            let t_i = t_n.plus(c[i].times(h));
            let mut y_i: [T; Y] = [zero; Y];
            let mut d: usize = 0;
            while d < Y
                invariant
                    self.unchanged_from(old(self), tab, f, args, t_n, y_n, h),
                    0 <= d <= Y,
                    0 <= i < S,
                    ks.len() == i,
                    forall|l: int| 0 <= l < i ==> k@[l] == ks[l],
                    forall|e: int|
                        0 <= e < d ==> y_i@[e] == stage_sum(y_n@[e], a@[i as int]@, ks, e, h, i as nat),
                decreases Y - d,
            {
                let mut acc: T = y_n[d];
                let mut l: usize = 0;
                while l < i
                    invariant
                        0 <= l <= i,
                        0 <= i < S,
                        0 <= d < Y,
                        ks.len() == i,
                        forall|l2: int| 0 <= l2 < i ==> k@[l2] == ks[l2],
                        acc == stage_sum(y_n@[d as int], a@[i as int]@, ks, d as int, h, l as nat),
                    decreases i - l,
                {
                    acc = acc.plus(a[i][l].times(k[l][d]).times(h));
                    l += 1;
                }
                y_i[d] = acc;
                d += 1;
            }
            proof {
                assert(y_i@ =~= stage_state(y_n, a@[i as int]@, ks, h, i as nat));
            }
            match (self.f)(t_i, y_i, &self.args) {
                Ok(k_i) => {
                    k[i] = k_i;
                    proof {
                        let ghost ks2 = ks.push(k_i);
                        let ghost ins2 = ins.push(y_i);
                        assert forall|j: int| 0 <= j < ins2.len() implies (#[trigger] ins2[j])@
                            == stage_state(y_n, tab.spec_a()@[j]@, ks2, h, j as nat) by {
                            lemma_stage_state_prefix(y_n, tab.spec_a()@[j]@, ks, ks2, h, j as nat);
                        }
                        assert forall|j: int| 0 <= j < ks2.len() implies call_ensures(
                            f,
                            (stage_time(t_n, tab.spec_c()@[j], h), ins2[j], &args),
                            Ok(#[trigger] ks2[j]),
                        ) by {
                            if j < ks.len() {
                                assert(ks2[j] == ks[j]);
                                assert(ins2[j] == ins[j]);
                            }
                        }
                        ks = ks2;
                        ins = ins2;
                    }
                },
                Err(e) => {
                    proof {
                        let ghost ins2 = ins.push(y_i);
                        assert forall|j: int| 0 <= j < ins2.len() implies (#[trigger] ins2[j])@
                            == stage_state(y_n, tab.spec_a()@[j]@, ks, h, j as nat) by {}
                        assert(stages_ok(tab, f, args, t_n, y_n, h, ins2, ks));
                        assert(step_fails(tab, f, args, t_n, y_n, h, SolverError::Derivative(e)));
                    }
                    return Err(SolverError::Derivative(e));
                },
            }
            i += 1;
        }

        let t_next = t_n.plus(h);
        let mut y_next: [T; Y] = [zero; Y];
        let mut d: usize = 0;
        while d < Y
            invariant
                self.unchanged_from(old(self), tab, f, args, t_n, y_n, h),
                0 <= d <= Y,
                ks.len() == S,
                ins.len() == S,
                stages_ok(tab, f, args, t_n, y_n, h, ins, ks),
                forall|l: int| 0 <= l < S ==> k@[l] == ks[l],
                b == tab.spec_b(),
                forall|e: int|
                    0 <= e < d ==> y_next@[e] == weight_sum(y_n@[e], b@, ks, e, h, S as nat),
                forall|e: int| 0 <= e < d ==> !(#[trigger] y_next@[e]).spec_is_nan(),
            decreases Y - d,
        {
            let mut acc: T = y_n[d];
            let mut l: usize = 0;
            while l < S
                invariant
                    0 <= l <= S,
                    0 <= d < Y,
                    ks.len() == S,
                    forall|l2: int| 0 <= l2 < S ==> k@[l2] == ks[l2],
                    acc == weight_sum(y_n@[d as int], b@, ks, d as int, h, l as nat),
                decreases S - l,
            {
                acc = acc.plus(h.times(b[l]).times(k[l][d]));
                l += 1;
            }
            if acc.is_nan() {
                proof {
                    assert(next_state(y_n, tab.spec_b()@, ks, h)[d as int] == acc);
                    assert forall|e: int| 0 <= e < d implies next_state(y_n, tab.spec_b()@, ks, h)[e]
                        == y_next@[e] by {}
                    let v = next_state(y_n, tab.spec_b()@, ks, h);
                    assert forall|e: int| 0 <= e < d implies !(#[trigger] v[e]).spec_is_nan() by {
                        assert(v[e] == weight_sum(y_n@[e], b@, ks, e, h, S as nat));
                        assert(y_next@[e] == weight_sum(y_n@[e], b@, ks, e, h, S as nat));
                        assert(!y_next@[e].spec_is_nan());
                    }
                    assert(step_fails(tab, f, args, t_n, y_n, h, SolverError::<E>::Convergence(d)));
                }
                return Err(SolverError::Convergence(d));
            }
            y_next[d] = acc;
            d += 1;
        }
        proof {
            assert(y_next@ =~= next_state(y_n, tab.spec_b()@, ks, h));
            assert(no_nan(y_next@));
        }
        self.y.push(y_next);
        self.t.push(t_next);
        Ok(())
    }

    /// Integrates from `(t_0, y_0)` to `t_max`, and hands over the history.
    pub fn solve(self, t_0: T, t_max: T, y_0: [T; Y]) -> (r: Result<IvpSolution<T, Y>, SolverError<E>>)
        requires
            self.total(),
        ensures
            r matches Ok(sol) ==> solved::<T, B, F, A, E, S, Y>(
                self.tableau(),
                self.derivative(),
                self.arguments(),
                self.step_size(),
                t_0,
                t_max,
                y_0,
                sol.times(),
                sol.states(),
            ),
            r matches Err(e) ==> failed::<T, B, F, A, E, S, Y>(
                self.tableau(),
                self.derivative(),
                self.arguments(),
                self.step_size(),
                t_0,
                t_max,
                y_0,
                e,
            ),
    {
        let ghost tab = self.tableau;
        let ghost f = self.f;
        let ghost args = self.args;
        let ghost h0 = self.h;
        let mut rk = self;
        rk.t = vec![t_0];
        rk.y = vec![y_0];
        proof {
            assert(running::<T, B, F, A, E, S, Y>(tab, f, args, h0, t_0, t_max, y_0, rk.t@, rk.y@));
            assert forall|tt: T, yy: [T; Y]| call_requires(f, (tt, yy, &args)) by {
                assert(call_requires(self.derivative(), (tt, yy, &self.arguments())));
            }
        }
        let mut stop: bool = false;
        while !stop
            invariant
                tab == self.tableau(),
                f == self.derivative(),
                args == self.arguments(),
                h0 == self.step_size(),
                rk.tableau == tab,
                rk.f == f,
                rk.args == args,
                forall|tt: T, yy: [T; Y]| call_requires(f, (tt, yy, &args)),
                rk.t@.len() >= 1,
                !stop ==> rk.h == h0,
                !stop ==> running::<T, B, F, A, E, S, Y>(tab, f, args, h0, t_0, t_max, y_0, rk.t@, rk.y@),
                stop ==> solved::<T, B, F, A, E, S, Y>(tab, f, args, h0, t_0, t_max, y_0, rk.t@, rk.y@),
            decreases usize::MAX - rk.t@.len(),
        {
            let n = rk.t.len();
            let t_n = rk.t[n - 1];
            let rem = t_max.minus(t_n);
            let ghost ts = rk.t@;
            let ghost ys = rk.y@;
            if !rk.h.less(rem) {
                rk.h = rem;
                stop = true;
            }
            proof {
                assert(rk.h == next_step_size(h0, t_max, ts));
                assert(rk.derivative() == f && rk.arguments() == args);
                assert forall|tt: T, yy: [T; Y]| call_requires(rk.derivative(), (tt, yy, &rk.arguments())) by {
                    assert(call_requires(f, (tt, yy, &args)));
                }
            }
            let ghost h_n = rk.h;
            match rk.step() {
                Ok(()) => {},
                Err(e) => {
                    proof {
                        assert(running::<T, B, F, A, E, S, Y>(tab, f, args, h0, t_0, t_max, y_0, ts, ys));
                        assert(step_fails(tab, f, args, ts.last(), ys.last(), h_n, e));
                        assert(failed::<T, B, F, A, E, S, Y>(tab, f, args, h0, t_0, t_max, y_0, e));
                    }
                    return Err(e);
                },
            }
            // The history's length fits in a usize, which bounds the number of steps.
            let _ = rk.t.len();
            proof {
                assert(rk.t@.drop_last() =~= ts);
                assert(rk.y@.drop_last() =~= ys);
                if !stop {
                    assert forall|j: int| 0 <= j < rk.t@.len() - 1 implies #[trigger] full_step_at::<
                        T,
                        B,
                        F,
                        A,
                        E,
                        S,
                        Y,
                    >(tab, f, args, h0, t_max, rk.t@, rk.y@, j) by {
                        if j < ts.len() - 1 {
                            assert(full_step_at::<T, B, F, A, E, S, Y>(
                                tab,
                                f,
                                args,
                                h0,
                                t_max,
                                ts,
                                ys,
                                j,
                            ));
                        }
                    }
                }
            }
        }
        Ok(rk.into_solution())
    }
}

/// Solving an initial-value problem by consuming the solver.
pub trait SolveIVP<B, T, E, const S: usize, const Y: usize>: Sized {
    /// The solver accepts a solve.
    spec fn ready(&self) -> bool;

    /// `r` is a result that a solve from `(t_0, y_0)` to `t_max` can have.
    spec fn solves(&self, t_0: T, t_max: T, y_0: [T; Y], r: Result<IvpSolution<T, Y>, SolverError<E>>) -> bool;

    fn solve_ivp(self, t_0: T, t_max: T, y_0: [T; Y]) -> (r: Result<IvpSolution<T, Y>, SolverError<E>>)
        requires
            self.ready(),
        ensures
            self.solves(t_0, t_max, y_0, r),
    ;
}

impl<T: Scalar, B: Explicit<T, S>, F, A, E, const S: usize, const Y: usize> SolveIVP<B, T, E, S, Y> for RungeKutta<
    T,
    B,
    F,
    A,
    S,
    Y,
> where F: Fn(T, [T; Y], &A) -> Result<[T; Y], E> {
    open spec fn ready(&self) -> bool {
        self.total()
    }

    open spec fn solves(&self, t_0: T, t_max: T, y_0: [T; Y], r: Result<IvpSolution<T, Y>, SolverError<E>>) -> bool {
        match r {
            Ok(sol) => solved::<T, B, F, A, E, S, Y>(
                self.tableau(),
                self.derivative(),
                self.arguments(),
                self.step_size(),
                t_0,
                t_max,
                y_0,
                sol.times(),
                sol.states(),
            ),
            Err(e) => failed::<T, B, F, A, E, S, Y>(
                self.tableau(),
                self.derivative(),
                self.arguments(),
                self.step_size(),
                t_0,
                t_max,
                y_0,
                e,
            ),
        }
    }

    fn solve_ivp(self, t_0: T, t_max: T, y_0: [T; Y]) -> (r: Result<IvpSolution<T, Y>, SolverError<E>>) {
        self.solve(t_0, t_max, y_0)
    }
}

} // verus!
