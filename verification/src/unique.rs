//! The answer to "is there exactly one solution?".
use vstd::prelude::*;

verus! {

/// What a search for a unique solution found.
///
/// - `Unique::NoSolution`: the problem has no solution.
/// - `Unique::One(s)`: `s` is the only solution; the search went on after
///   finding it and found no other.
/// - `Unique::Ambiguous(s1, s2)`: there are at least two solutions, of which
///   `s1` and `s2` are two.
#[derive(Debug, Clone, Copy, PartialEq, Eq)]
pub enum Unique<T> {
    /// The problem is unsolvable.
    NoSolution,
    /// The problem has a unique solution, which is `T`.
    One(T),
    /// The problem has at least two distinct solutions.
    Ambiguous(T, T),
}

impl<T> Unique<T> {
    /// Returns the unique value, if there is one. If there are several
    /// values, or none, it returns `None`.
    pub fn unique(&self) -> (r: Option<&T>)
        ensures
            r == (match *self {
                Unique::One(s) => Some(&s),
                _ => None::<&T>,
            }),
    {
        if let Unique::One(s) = self {
            Some(s)
        } else {
            None
        }
    }

    /// Returns `true` if there is a unique solution.
    pub fn is_unique(&self) -> (r: bool)
        ensures
            r == (*self is One),
    {
        matches!(self, Unique::One(_))
    }

    /// Returns `true` if there were multiple solutions to the problem.
    pub fn is_ambiguous(&self) -> (r: bool)
        ensures
            r == (*self is Ambiguous),
    {
        matches!(self, Unique::Ambiguous(_, _))
    }

    /// Applies `f` to each value that `self` holds. The result has the
    /// variant that `self` has.
    pub fn map<U>(self, f: impl Fn(T) -> U) -> (r: Unique<U>)
        requires
            self matches Unique::One(s) ==> call_requires(f, (s,)),
            self matches Unique::Ambiguous(s1, s2) ==> call_requires(f, (s1,)) && call_requires(
                f,
                (s2,),
            ),
        ensures
            match self {
                Unique::NoSolution => r is NoSolution,
                Unique::One(s) => r matches Unique::One(u) && call_ensures(f, (s,), u),
                Unique::Ambiguous(s1, s2) => r matches Unique::Ambiguous(u1, u2) && call_ensures(
                    f,
                    (s1,),
                    u1,
                ) && call_ensures(f, (s2,), u2),
            },
    {
        match self {
            Unique::NoSolution => Unique::NoSolution,
            Unique::One(s) => Unique::One(f(s)),
            Unique::Ambiguous(s1, s2) => Unique::Ambiguous(f(s1), f(s2)),
        }
    }
}

} // verus!
