use std::cell::RefCell;

use rk::{Butcher, Checked, Euler, Fixed, IvpSolution, Rk4, RungeKutta, Scalar, SolveIVP, SolverError, FIXED_SCALE};

fn decay(_t: i64, y: [i64; 1], _a: &()) -> Result<[i64; 1], String> {
    Ok([-y[0]])
}

#[test]
fn euler_decay_lands_on_t_max() {
    let rk = RungeKutta::<i64, Euler, _, (), 1, 1>::new(Euler::new(), decay, (), 3);
    let sol = rk.solve(0, 10, [100]).unwrap();
    assert_eq!(sol.t(), &vec![0, 3, 6, 9, 10]);
    // y_1 = 100 + 3 * (-100) = -200; y_2 = -200 + 3 * 200 = 400; y_3 = 400 - 1200 = -800;
    // y_4 = -800 + 1 * 800 = 0.
    assert_eq!(sol.y(), &vec![[100], [-200], [400], [-800], [0]]);
}

#[test]
fn history_is_aligned_and_seeded() {
    let rk = RungeKutta::<i64, Euler, _, (), 1, 1>::new(Euler::new(), decay, (), 4);
    let sol = rk.solve(7, 30, [2]).unwrap();
    assert_eq!(sol.t().len(), sol.y().len());
    assert_eq!(sol.t()[0], 7);
    assert_eq!(sol.y()[0], [2]);
    assert_eq!(*sol.t().last().unwrap(), 30);
}

#[test]
fn exact_endpoint_when_interval_is_not_a_multiple() {
    let rk = RungeKutta::<i64, Euler, _, (), 1, 1>::new(Euler::new(), decay, (), 7);
    let sol = rk.solve(-5, 12, [1]).unwrap();
    assert_eq!(sol.t(), &vec![-5, 2, 9, 12]);
}

#[test]
fn solving_twice_gives_identical_output() {
    let f = |t: i64, y: [i64; 2], a: &i64| -> Result<[i64; 2], String> { Ok([y[1] + t, -a * y[0]]) };
    let first = RungeKutta::<i64, Euler, _, i64, 1, 2>::new(Euler::new(), f, 3, 2)
        .solve(0, 9, [1, 0])
        .unwrap()
        .take();
    let second = RungeKutta::<i64, Euler, _, i64, 1, 2>::new(Euler::new(), f, 3, 2)
        .solve(0, 9, [1, 0])
        .unwrap()
        .take();
    assert_eq!(first, second);
}

#[test]
fn euler_single_step_is_forward_euler() {
    let f = |t: i64, y: [i64; 2], _a: &()| -> Result<[i64; 2], String> { Ok([y[0] + t, 3 * y[1]]) };
    let mut rk = RungeKutta::<i64, Euler, _, (), 1, 2>::new(Euler::new(), f, (), 5);
    // y_1 = y_0 + h * f(t_0, y_0) on the solve from t_0 = 2 to t_max = 7.
    let sol = rk.solve(2, 7, [4, -1]).unwrap();
    assert_eq!(sol.t()[1], 7);
    assert_eq!(sol.y()[1], [4 + 5 * (4 + 2), -1 + 5 * (3 * -1)]);
    rk = RungeKutta::<i64, Euler, _, (), 1, 2>::new(Euler::new(), f, (), 5);
    assert!(rk.step().is_err());
}

#[test]
fn interval_of_one_step_size() {
    let rk = RungeKutta::<i64, Euler, _, (), 1, 1>::new(Euler::new(), decay, (), 4);
    let sol = rk.solve_ivp(0, 4, [8]).unwrap();
    // Exactly two samples: the seed and one step of size h.
    assert_eq!(sol.t(), &vec![0, 4]);
    assert_eq!(sol.y(), &vec![[8], [-24]]);
}

#[test]
fn nan_derivative_is_a_convergence_failure() {
    let f = |_t: Checked, y: [Checked; 3], _a: &()| -> Result<[Checked; 3], String> {
        Ok([y[0], y[1], Checked::nan()])
    };
    let rk = RungeKutta::<Checked, Euler, _, (), 1, 3>::new(Euler::new(), f, (), Checked::new(1));
    let r = rk.solve(Checked::new(0), Checked::new(5), [Checked::new(1), Checked::new(2), Checked::new(3)]);
    match r {
        Err(SolverError::Convergence(d)) => assert_eq!(d, 2),
        _ => panic!("expected a convergence failure"),
    }
}

#[test]
fn nan_names_the_first_divergent_dimension() {
    let f = |_t: Checked, _y: [Checked; 3], _a: &()| -> Result<[Checked; 3], String> {
        Ok([Checked::new(1), Checked::nan(), Checked::nan()])
    };
    let mut rk = RungeKutta::<Checked, Euler, _, (), 1, 3>::new(Euler::new(), f, (), Checked::new(1));
    let r = rk.solve(Checked::new(0), Checked::new(5), [Checked::new(0); 3]);
    assert!(matches!(r, Err(SolverError::Convergence(1))));
    rk = RungeKutta::<Checked, Euler, _, (), 1, 3>::new(Euler::new(), f, (), Checked::new(1));
    assert!(matches!(rk.step(), Err(SolverError::Uninitialised(_))));
}

#[test]
fn overflow_diverges() {
    let f = |_t: Checked, y: [Checked; 1], _a: &()| -> Result<[Checked; 1], String> { Ok([y[0].times(y[0])]) };
    let rk = RungeKutta::<Checked, Euler, _, (), 1, 1>::new(Euler::new(), f, (), Checked::new(1));
    let r = rk.solve(Checked::new(0), Checked::new(100), [Checked::new(3)]);
    assert!(matches!(r, Err(SolverError::Convergence(0))));
}

#[test]
fn derivative_error_is_passed_on() {
    let f = |t: i64, y: [i64; 1], _a: &()| -> Result<[i64; 1], String> {
        if t >= 6 {
            Err(format!("no value at {}", t))
        } else {
            Ok(y)
        }
    };
    let rk = RungeKutta::<i64, Euler, _, (), 1, 1>::new(Euler::new(), f, (), 3);
    match rk.solve(0, 20, [1]) {
        Err(SolverError::Derivative(e)) => assert_eq!(e, "no value at 6"),
        _ => panic!("expected the derivative's error"),
    }
}

#[test]
fn step_before_solve_is_uninitialised() {
    let mut rk = RungeKutta::<i64, Euler, _, (), 1, 1>::new(Euler::new(), decay, (), 3);
    match rk.step() {
        Err(SolverError::Uninitialised(s)) => assert_eq!(s, "y"),
        _ => panic!("expected an uninitialised history"),
    }
}

#[test]
fn rk4_calls_each_stage_at_its_node() {
    let calls: RefCell<Vec<(i64, i64)>> = RefCell::new(Vec::new());
    let f = |t: i64, y: [i64; 1], _a: &()| -> Result<[i64; 1], String> {
        calls.borrow_mut().push((t, y[0]));
        Ok([10])
    };
    let rk = RungeKutta::<i64, Rk4, _, (), 4, 1>::new(Rk4::new(), f, (), 2);
    let sol = rk.solve(0, 3, [5]).unwrap();
    assert_eq!(sol.t(), &vec![0, 2, 3]);
    // In integers the nodes are 0, 0, 0, 1, the only coupling is a[3][2] = 1
    // and every weight is 0.
    assert_eq!(sol.y(), &vec![[5], [5], [5]]);
    assert_eq!(
        *calls.borrow(),
        vec![(0, 5), (0, 5), (0, 5), (2, 5 + 10 * 2), (2, 5), (2, 5), (2, 5), (3, 5 + 10)]
    );
}

#[test]
fn rk4_coefficients() {
    let t = Rk4::new();
    let a: [[i64; 4]; 4] = t.a();
    assert_eq!(a, [[0, 0, 0, 0], [0, 0, 0, 0], [0, 0, 0, 0], [0, 0, 1, 0]]);
    let b: [i64; 4] = t.b();
    assert_eq!(b, [0, 0, 0, 0]);
    let c: [i64; 4] = t.c();
    assert_eq!(c, [0, 0, 0, 1]);
    let cb: [Checked; 4] = t.c();
    assert_eq!(cb[3], Checked::new(1));
}

#[test]
fn euler_coefficients() {
    let e = Euler::new();
    let a: [[i64; 1]; 1] = e.a();
    let b: [i64; 1] = e.b();
    let c: [i64; 1] = e.c();
    assert_eq!((a, b, c), ([[0]], [1], [0]));
}

#[test]
fn scalar_operations() {
    assert_eq!(i64::MAX.plus(1), i64::MIN);
    assert_eq!(7i64.minus(9), -2);
    assert_eq!(6i64.times(-7), -42);
    assert!(3i64.less(4));
    assert!(!4i64.less(4));
    assert!(!5i64.is_nan());
    assert_eq!(<i64 as Scalar>::zero(), 0);
    assert_eq!(<i64 as Scalar>::ratio(7, 2), 3);
    assert_eq!(<i64 as Scalar>::ratio(-7, 2), -3);
    assert!(Checked::new(i64::MAX).plus(Checked::new(1)).is_nan());
    assert!(Checked::new(i64::MIN).minus(Checked::new(1)).is_nan());
    assert_eq!(Checked::new(6).times(Checked::new(7)), Checked::new(42));
    assert!(!Checked::nan().less(Checked::new(1)));
    assert!(!Checked::new(1).less(Checked::nan()));
    assert!(Checked::new(1).less(Checked::new(2)));
    assert!(Checked::nan().plus(Checked::new(1)).is_nan());
    assert_eq!(<Checked as Scalar>::ratio(-9, 4), Checked::new(-2));
    assert_eq!(<Checked as Scalar>::zero(), Checked::new(0));
}

#[test]
fn solution_accessors() {
    let s: IvpSolution<i64, 2> = IvpSolution::new(vec![0, 1], vec![[1, 2], [3, 4]]);
    assert_eq!(s.t(), &vec![0, 1]);
    assert_eq!(s.y(), &vec![[1, 2], [3, 4]]);
    let (t, y) = s.take();
    assert_eq!(t, vec![0, 1]);
    assert_eq!(y, vec![[1, 2], [3, 4]]);
}

#[test]
fn interval_multiple_of_step_has_no_repeated_time() {
    let rk = RungeKutta::<i64, Euler, _, (), 1, 1>::new(Euler::new(), decay, (), 3);
    let sol = rk.solve_ivp(0, 12, [1]).unwrap();
    assert_eq!(sol.t(), &vec![0, 3, 6, 9, 12]);
    for w in sol.t().windows(2) {
        assert!(w[0] < w[1]);
    }
}

fn fixed_decay(_t: Fixed, y: [Fixed; 1], _a: &()) -> Result<[Fixed; 1], String> {
    Ok([Fixed::from_raw(0).minus(y[0])])
}

fn rk4_decay(h: i64) -> IvpSolution<Fixed, 1> {
    let rk = RungeKutta::<Fixed, Rk4, _, (), 4, 1>::new(Rk4::new(), fixed_decay, (), Fixed::from_raw(h));
    rk.solve(Fixed::from_raw(0), Fixed::from_raw(FIXED_SCALE), [Fixed::from_raw(FIXED_SCALE)])
        .unwrap()
}

fn to_f64(v: Fixed) -> f64 {
    v.raw.unwrap() as f64 / FIXED_SCALE as f64
}

fn max_error(sol: &IvpSolution<Fixed, 1>) -> f64 {
    let mut worst: f64 = 0.0;
    for (t, y) in sol.t().iter().zip(sol.y().iter()) {
        let e = (to_f64(y[0]) - (-to_f64(*t)).exp()).abs();
        if e > worst {
            worst = e;
        }
    }
    worst
}

#[test]
fn rk4_matches_exponential_decay() {
    let sol = rk4_decay(FIXED_SCALE / 10);
    assert_eq!(sol.t().len(), 11);
    assert_eq!(sol.t()[10], Fixed::from_raw(FIXED_SCALE));
    assert_eq!(sol.y()[10], [Fixed::from_raw(367_879_795)]);
    assert!(max_error(&sol) < 1e-6);
}

#[test]
fn rk4_error_shrinks_at_fourth_order() {
    let coarse = max_error(&rk4_decay(FIXED_SCALE / 5));
    let fine = max_error(&rk4_decay(FIXED_SCALE / 10));
    assert!(coarse < 1e-5);
    // Halving h divides a fourth-order error by about 16.
    assert!(coarse / fine > 10.0);
}

#[test]
fn rk4_fixed_coefficients() {
    let t = Rk4::new();
    let b: [Fixed; 4] = t.b();
    assert_eq!(
        b,
        [
            Fixed::from_raw(166_666_666),
            Fixed::from_raw(333_333_333),
            Fixed::from_raw(333_333_333),
            Fixed::from_raw(166_666_666)
        ]
    );
    let c: [Fixed; 4] = t.c();
    assert_eq!(c[1], Fixed::from_raw(500_000_000));
    let a: [[Fixed; 4]; 4] = t.a();
    assert_eq!(a[3][2], Fixed::from_raw(FIXED_SCALE));
}

#[test]
fn fixed_operations() {
    let half = <Fixed as Scalar>::ratio(1, 2);
    assert_eq!(half, Fixed::from_raw(500_000_000));
    assert_eq!(half.times(Fixed::from_raw(3 * FIXED_SCALE)), Fixed::from_raw(1_500_000_000));
    assert_eq!(Fixed::from_raw(-3).times(half), Fixed::from_raw(-1));
    assert_eq!(<Fixed as Scalar>::ratio(-1, 3), Fixed::from_raw(-333_333_333));
    assert!(Fixed::from_raw(i64::MAX).times(Fixed::from_raw(2 * FIXED_SCALE)).is_nan());
    assert!(Fixed::from_raw(i64::MAX).plus(Fixed::from_raw(1)).is_nan());
    assert!(Fixed::nan().minus(Fixed::from_raw(1)).is_nan());
    assert!(!Fixed::nan().less(Fixed::from_raw(1)));
    assert!(Fixed::from_raw(1).less(Fixed::from_raw(2)));
    assert_eq!(<Fixed as Scalar>::zero(), Fixed::from_raw(0));
}

#[test]
fn fixed_overflow_diverges() {
    let f = |_t: Fixed, y: [Fixed; 1], _a: &()| -> Result<[Fixed; 1], String> { Ok([y[0].times(y[0])]) };
    let rk = RungeKutta::<Fixed, Rk4, _, (), 4, 1>::new(Rk4::new(), f, (), Fixed::from_raw(FIXED_SCALE));
    let r = rk.solve(Fixed::from_raw(0), Fixed::from_raw(100 * FIXED_SCALE), [Fixed::from_raw(5 * FIXED_SCALE)]);
    assert!(matches!(r, Err(SolverError::Convergence(0))));
}
