//! Sequential engines.

use crate::driver::FrameLoop;
use crate::driver::Role;
use crate::driver::Stepper;
use vstd::prelude::*;

verus! {

/// The frame loop of the sequential engine, not yet begun.
pub fn start_tree(benchmark: bool) -> (run: FrameLoop)
    ensures
        run == FrameLoop::fresh(Role::Local, Stepper::Sequential, benchmark),
{
    FrameLoop::new(Role::Local, Stepper::Sequential, benchmark)
}

/// The frame loop of the engine that uses no tree, not yet begun.
pub fn start_brute_force(benchmark: bool) -> (run: FrameLoop)
    ensures
        run == FrameLoop::fresh(Role::Local, Stepper::Pairwise, benchmark),
{
    FrameLoop::new(Role::Local, Stepper::Pairwise, benchmark)
}

} // verus!
