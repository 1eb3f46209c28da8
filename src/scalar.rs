use vstd::prelude::*;

verus! {

/// The arithmetic that the integrator needs from its scalar type.
///
/// Each operation is described by a spec function of the trait, so that the
/// integrator's contracts can state which operations, in which order, produced
/// each recorded value.
pub trait Scalar: Copy + Sized {
    spec fn spec_zero() -> Self;

    spec fn spec_plus(self, o: Self) -> Self;

    spec fn spec_minus(self, o: Self) -> Self;

    spec fn spec_times(self, o: Self) -> Self;

    spec fn spec_less(self, o: Self) -> bool;

    spec fn spec_is_nan(self) -> bool;

    /// The value nearest to `n / d`.
    spec fn spec_ratio(n: i64, d: i64) -> Self;

    fn zero() -> (r: Self)
        ensures
            r == Self::spec_zero(),
    ;

    fn plus(self, o: Self) -> (r: Self)
        ensures
            r == self.spec_plus(o),
    ;

    fn minus(self, o: Self) -> (r: Self)
        ensures
            r == self.spec_minus(o),
    ;

    fn times(self, o: Self) -> (r: Self)
        ensures
            r == self.spec_times(o),
    ;

    fn less(self, o: Self) -> (r: bool)
        ensures
            r == self.spec_less(o),
    ;

    fn is_nan(self) -> (r: bool)
        ensures
            r == self.spec_is_nan(),
    ;

    fn ratio(n: i64, d: i64) -> (r: Self)
        requires
            d > 0,
        ensures
            r == Self::spec_ratio(n, d),
    ;
}

/// Exact integer arithmetic, wrapping on overflow; never not-a-number.
impl Scalar for i64 {
    open spec fn spec_zero() -> i64 {
        0
    }

    open spec fn spec_plus(self, o: i64) -> i64 {
        self.wrapping_add(o)
    }

    open spec fn spec_minus(self, o: i64) -> i64 {
        self.wrapping_sub(o)
    }

    open spec fn spec_times(self, o: i64) -> i64 {
        self.wrapping_mul(o)
    }

    open spec fn spec_less(self, o: i64) -> bool {
        self < o
    }

    open spec fn spec_is_nan(self) -> bool {
        false
    }

    open spec fn spec_ratio(n: i64, d: i64) -> i64 {
        if n >= 0 {
            (n / d) as i64
        } else {
            (0 - ((0 - n) as int) / (d as int)) as i64
        }
    }

    fn zero() -> (r: i64) {
        0
    }

    fn plus(self, o: i64) -> (r: i64) {
        self.wrapping_add(o)
    }

    fn minus(self, o: i64) -> (r: i64) {
        self.wrapping_sub(o)
    }

    fn times(self, o: i64) -> (r: i64) {
        self.wrapping_mul(o)
    }

    fn less(self, o: i64) -> (r: bool) {
        self < o
    }

    fn is_nan(self) -> (r: bool) {
        false
    }

    fn ratio(n: i64, d: i64) -> (r: i64) {
        (n / d) as i64
    }
}

/// An integer that becomes not-a-number when an operation overflows, and
/// stays so: every operation on a not-a-number gives not-a-number, and no
/// comparison with one holds.
#[derive(Clone, Copy, Debug, PartialEq, Eq, Structural)]
pub struct Checked {
    /// The integer, or `None` for not-a-number.
    pub value: Option<i64>,
}

impl Checked {
    pub fn new(v: i64) -> (r: Checked)
        ensures
            r.value == Some(v),
    {
        Checked { value: Some(v) }
    }

    pub fn nan() -> (r: Checked)
        ensures
            r.value is None,
    {
        Checked { value: None }
    }
}

impl Scalar for Checked {
    open spec fn spec_zero() -> Checked {
        Checked { value: Some(0) }
    }

    open spec fn spec_plus(self, o: Checked) -> Checked {
        match (self.value, o.value) {
            (Some(x), Some(y)) => Checked { value: x.checked_add(y) },
            _ => Checked { value: None },
        }
    }

    open spec fn spec_minus(self, o: Checked) -> Checked {
        match (self.value, o.value) {
            (Some(x), Some(y)) => Checked { value: x.checked_sub(y) },
            _ => Checked { value: None },
        }
    }

    open spec fn spec_times(self, o: Checked) -> Checked {
        match (self.value, o.value) {
            (Some(x), Some(y)) => Checked { value: x.checked_mul(y) },
            _ => Checked { value: None },
        }
    }

    open spec fn spec_less(self, o: Checked) -> bool {
        match (self.value, o.value) {
            (Some(x), Some(y)) => x < y,
            _ => false,
        }
    }

    open spec fn spec_is_nan(self) -> bool {
        self.value is None
    }

    open spec fn spec_ratio(n: i64, d: i64) -> Checked {
        Checked { value: Some(i64::spec_ratio(n, d)) }
    }

    fn zero() -> (r: Checked) {
        Checked { value: Some(0) }
    }

    fn plus(self, o: Checked) -> (r: Checked) {
        match (self.value, o.value) {
            (Some(x), Some(y)) => Checked { value: x.checked_add(y) },
            _ => Checked { value: None },
        }
    }

    fn minus(self, o: Checked) -> (r: Checked) {
        match (self.value, o.value) {
            (Some(x), Some(y)) => Checked { value: x.checked_sub(y) },
            _ => Checked { value: None },
        }
    }

    fn times(self, o: Checked) -> (r: Checked) {
        match (self.value, o.value) {
            (Some(x), Some(y)) => Checked { value: x.checked_mul(y) },
            _ => Checked { value: None },
        }
    }

    fn less(self, o: Checked) -> (r: bool) {
        match (self.value, o.value) {
            (Some(x), Some(y)) => x < y,
            _ => false,
        }
    }

    fn is_nan(self) -> (r: bool) {
        self.value.is_none()
    }

    fn ratio(n: i64, d: i64) -> (r: Checked) {
        Checked { value: Some(i64::ratio(n, d)) }
    }
}

/// The number of units of `Fixed` in one.
pub const FIXED_SCALE: i64 = 1_000_000_000;

/// `a / d` rounded toward zero, as integer division does.
pub open spec fn trunc_div(a: int, d: int) -> int {
    if a >= 0 {
        a / d
    } else {
        0 - (0 - a) / d
    }
}

/// `v` as an `i64`, or `None` where it is out of range.
pub open spec fn fit_i64(v: int) -> Option<i64> {
    if i64::MIN <= v <= i64::MAX {
        Some(v as i64)
    } else {
        None
    }
}

/// A fixed-point number: `raw` counts billionths. Products and ratios are
/// rounded toward zero. An operation whose result leaves the range of `raw`
/// gives not-a-number, which every later operation keeps, and no comparison
/// with a not-a-number holds.
#[derive(Clone, Copy, Debug, PartialEq, Eq, Structural)]
pub struct Fixed {
    /// The value in billionths, or `None` for not-a-number.
    pub raw: Option<i64>,
}

impl Fixed {
    /// The number `raw / FIXED_SCALE`.
    pub fn from_raw(raw: i64) -> (r: Fixed)
        ensures
            r.raw == Some(raw),
    {
        Fixed { raw: Some(raw) }
    }

    pub fn nan() -> (r: Fixed)
        ensures
            r.raw is None,
    {
        Fixed { raw: None }
    }
}

impl Scalar for Fixed {
    open spec fn spec_zero() -> Fixed {
        Fixed { raw: Some(0) }
    }

    open spec fn spec_plus(self, o: Fixed) -> Fixed {
        match (self.raw, o.raw) {
            (Some(x), Some(y)) => Fixed { raw: x.checked_add(y) },
            _ => Fixed { raw: None },
        }
    }

    open spec fn spec_minus(self, o: Fixed) -> Fixed {
        match (self.raw, o.raw) {
            (Some(x), Some(y)) => Fixed { raw: x.checked_sub(y) },
            _ => Fixed { raw: None },
        }
    }

    open spec fn spec_times(self, o: Fixed) -> Fixed {
        match (self.raw, o.raw) {
            (Some(x), Some(y)) => Fixed { raw: fit_i64(trunc_div(x * y, FIXED_SCALE as int)) },
            _ => Fixed { raw: None },
        }
    }

    open spec fn spec_less(self, o: Fixed) -> bool {
        match (self.raw, o.raw) {
            (Some(x), Some(y)) => x < y,
            _ => false,
        }
    }

    open spec fn spec_is_nan(self) -> bool {
        self.raw is None
    }

    open spec fn spec_ratio(n: i64, d: i64) -> Fixed {
        Fixed { raw: fit_i64(trunc_div(n * FIXED_SCALE, d as int)) }
    }

    fn zero() -> (r: Fixed) {
        Fixed { raw: Some(0) }
    }

    fn plus(self, o: Fixed) -> (r: Fixed) {
        match (self.raw, o.raw) {
            (Some(x), Some(y)) => Fixed { raw: x.checked_add(y) },
            _ => Fixed { raw: None },
        }
    }

    fn minus(self, o: Fixed) -> (r: Fixed) {
        match (self.raw, o.raw) {
            (Some(x), Some(y)) => Fixed { raw: x.checked_sub(y) },
            _ => Fixed { raw: None },
        }
    }

    fn times(self, o: Fixed) -> (r: Fixed) {
        match (self.raw, o.raw) {
            (Some(x), Some(y)) => {
                assert(-0x8000_0000_0000_0000 * 0x8000_0000_0000_0000 <= x * y
                    <= 0x8000_0000_0000_0000 * 0x8000_0000_0000_0000) by (nonlinear_arith)
                    requires
                        i64::MIN <= x <= i64::MAX,
                        i64::MIN <= y <= i64::MAX,
                ;
                let p: i128 = (x as i128) * (y as i128);
                let q: i128 = p / (FIXED_SCALE as i128);
                Fixed { raw: narrow(q) }
            },
            _ => Fixed { raw: None },
        }
    }

    fn less(self, o: Fixed) -> (r: bool) {
        match (self.raw, o.raw) {
            (Some(x), Some(y)) => x < y,
            _ => false,
        }
    }

    fn is_nan(self) -> (r: bool) {
        self.raw.is_none()
    }

    fn ratio(n: i64, d: i64) -> (r: Fixed) {
        let p: i128 = (n as i128) * (FIXED_SCALE as i128);
        let q: i128 = p / (d as i128);
        Fixed { raw: narrow(q) }
    }
}

/// `v` as an `i64`, or `None` where it is out of range.
fn narrow(v: i128) -> (r: Option<i64>)
    ensures
        r == fit_i64(v as int),
{
    if i64::MIN as i128 <= v && v <= i64::MAX as i128 {
        Some(v as i64)
    } else {
        None
    }
}

} // verus!
