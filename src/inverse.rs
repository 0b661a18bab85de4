//! The decisions of the differential inverse-kinematics loop: after each
//! iteration, whether to stop as converged, stop at the iteration cap, or go
//! on. The numeric work of an iteration is done by the caller.
use vstd::prelude::*;

verus! {

/// What follows an iteration of the differential solver.
#[derive(Debug, Clone, Copy, PartialEq, Eq, Structural)]
pub enum SolverStep {
    /// Run another iteration; carries the number of iterations completed.
    Continue(usize),
    /// The squared error fell below the tolerance; carries the iteration count.
    Converged(usize),
    /// The iteration cap was reached; carries the iteration count.
    MaxIterationsReached(usize),
}

impl SolverStep {
    /// Whether the loop stops here.
    pub fn is_terminal(&self) -> (r: bool)
        ensures
            r == !(*self is Continue),
    {
        !matches!(self, SolverStep::Continue(_))
    }

    /// The iteration count carried by the step.
    pub fn iterations(&self) -> (r: usize)
        ensures
            r == match *self {
                SolverStep::Continue(c) => c,
                SolverStep::Converged(c) => c,
                SolverStep::MaxIterationsReached(c) => c,
            },
    {
        match self {
            SolverStep::Continue(c) => *c,
            SolverStep::Converged(c) => *c,
            SolverStep::MaxIterationsReached(c) => *c,
        }
    }
}

/// The decision after an iteration that started with `counter` iterations
/// completed: converged (count unchanged) when the squared error of that
/// iteration was below the tolerance; otherwise the count goes up by one and
/// the loop stops once it reaches `max_iterations`.
pub fn next_step(counter: usize, below_tolerance: bool, max_iterations: usize) -> (r: SolverStep)
    requires
        counter < usize::MAX,
    ensures
        below_tolerance ==> r == SolverStep::Converged(counter),
        !below_tolerance && counter + 1 >= max_iterations ==> r == SolverStep::MaxIterationsReached(
            (counter + 1) as usize,
        ),
        !below_tolerance && counter + 1 < max_iterations ==> r == SolverStep::Continue(
            (counter + 1) as usize,
        ),
{
    if below_tolerance {
        return SolverStep::Converged(counter);
    }
    let next = counter + 1;
    if next >= max_iterations {
        SolverStep::MaxIterationsReached(next)
    } else {
        SolverStep::Continue(next)
    }
}

} // verus!
