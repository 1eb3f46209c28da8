use vstd::prelude::*;

verus! {

/// The discretised trajectory of a solve: times and states, index-aligned,
/// with the initial condition at index 0.
pub struct IvpSolution<T, const Y: usize> {
    t: Vec<T>,
    y: Vec<[T; Y]>,
}

impl<T, const Y: usize> IvpSolution<T, Y> {
    /// The recorded times.
    pub closed spec fn times(&self) -> Seq<T> {
        self.t@
    }

    /// The recorded states.
    pub closed spec fn states(&self) -> Seq<[T; Y]> {
        self.y@
    }

    pub fn new(t: Vec<T>, y: Vec<[T; Y]>) -> (r: Self)
        ensures
            r.times() == t@,
            r.states() == y@,
    {
        IvpSolution { t, y }
    }

    pub fn t(&self) -> (r: &Vec<T>)
        ensures
            r@ == self.times(),
    {
        &self.t
    }

    pub fn y(&self) -> (r: &Vec<[T; Y]>)
        ensures
            r@ == self.states(),
    {
        &self.y
    }

    pub fn take(self) -> (r: (Vec<T>, Vec<[T; Y]>))
        ensures
            r.0@ == self.times(),
            r.1@ == self.states(),
    {
        (self.t, self.y)
    }
}

} // verus!
