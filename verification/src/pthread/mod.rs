//! Shared-memory engine.

use crate::driver::FrameLoop;
use crate::driver::Role;
use crate::driver::Stepper;
use vstd::prelude::*;

pub mod pool;

verus! {

/// The backend that `with_rayon` selects.
pub open spec fn thread_stepper(with_rayon: bool) -> Stepper {
    if with_rayon {
        Stepper::Rayon
    } else {
        Stepper::Threads
    }
}

/// The frame loop of the shared-memory engine, not yet begun.
pub fn start_thread_tree(with_rayon: bool, benchmark: bool) -> (run: FrameLoop)
    ensures
        run == FrameLoop::fresh(Role::Local, thread_stepper(with_rayon), benchmark),
{
    let stepper: Stepper = if with_rayon {
        Stepper::Rayon
    } else {
        Stepper::Threads
    };
    FrameLoop::new(Role::Local, stepper, benchmark)
}

} // verus!
