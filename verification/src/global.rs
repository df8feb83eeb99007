//! Definitions shared by all engines.

use crate::driver::FrameLoop;
use crate::driver::Role;
use crate::driver::Stepper;
use crate::mpi_eng::start_mpi_child;
use crate::mpi_eng::start_mpi_root;
use crate::pthread::start_thread_tree;
use crate::sequential::start_brute_force;
use crate::sequential::start_tree;
use vstd::prelude::*;

verus! {

/// Rank of the root process.
pub const ROOT: i32 = 0;

/// Elapsed time, in milliseconds, after which the frame rate is reported.
pub const FPS_THRESHOLD_MILLIS: u128 = 1000;

/// Quotient rounded up.
pub open spec fn div_ceil(a: nat, b: nat) -> nat
    recommends
        b > 0,
{
    if a % b > 0 {
        a / b + 1
    } else {
        a / b
    }
}

/// Decides whether the frame rate is due. It is due when reporting is
/// `enabled` and at least a second has passed since the last report. The
/// frames counted so far are then handed out, to be divided by the elapsed
/// time, and the count starts over; otherwise the count is left as it is.
pub fn show_fps(frame_count: &mut usize, elapsed_millis: u128, enabled: bool) -> (due: Option<
    usize,
>)
    ensures
        enabled && elapsed_millis >= FPS_THRESHOLD_MILLIS ==> due == Some(*old(frame_count))
            && *final(frame_count) == 0,
        !(enabled && elapsed_millis >= FPS_THRESHOLD_MILLIS) ==> due.is_none()
            && *final(frame_count) == *old(frame_count),
{
    if enabled && elapsed_millis >= FPS_THRESHOLD_MILLIS {
        let frames: usize = *frame_count;
        *frame_count = 0;
        Some(frames)
    } else {
        None
    }
}

/// The engines that a run can be configured with.
#[derive(Clone, Copy, PartialEq, Eq, Structural, Debug)]
pub enum Engine {
    /// Sequential updates against the tree.
    Tree,
    /// Shared-memory parallel updates against the tree.
    Openmp,
    /// Shared-memory parallel updates by spawned workers.
    Pthread,
    /// Distributed updates, one process for each rank.
    MpiNormal,
    /// Distributed updates with shared-memory parallelism inside each rank.
    MpiOpenmp,
    /// Sequential updates by pairwise gravity, without a tree.
    BruteForce,
    /// Shared-memory parallel updates through a data-parallel iterator.
    Rayon,
    /// The same as `Rayon`.
    RayonTree,
}

/// The backend that an engine steps with.
pub open spec fn stepper_of(engine: Engine) -> Stepper {
    match engine {
        Engine::Tree => Stepper::Sequential,
        Engine::BruteForce => Stepper::Pairwise,
        Engine::Openmp => Stepper::Threads,
        Engine::Pthread => Stepper::Threads,
        Engine::Rayon => Stepper::Rayon,
        Engine::RayonTree => Stepper::Rayon,
        Engine::MpiNormal => Stepper::Distributed { shared_memory: false },
        Engine::MpiOpenmp => Stepper::Distributed { shared_memory: true },
    }
}

/// The part that the process of rank `rank` plays in a run of an engine:
/// only a distributed engine has a root and children.
pub open spec fn role_of(engine: Engine, rank: i32) -> Role {
    if !(stepper_of(engine) is Distributed) {
        Role::Local
    } else if rank == ROOT {
        Role::Root
    } else {
        Role::Child
    }
}

/// The frame loop that the process of rank `rank` runs for the engine, not
/// yet begun. A child never runs as a benchmark: the root times the step.
pub fn launch(engine: Engine, rank: i32, benchmark: bool) -> (run: FrameLoop)
    ensures
        run == FrameLoop::fresh(
            role_of(engine, rank),
            stepper_of(engine),
            benchmark && role_of(engine, rank) != Role::Child,
        ),
{
    match engine {
        Engine::Tree => start_tree(benchmark),
        Engine::BruteForce => start_brute_force(benchmark),
        Engine::Openmp => start_thread_tree(false, benchmark),
        Engine::Pthread => start_thread_tree(false, benchmark),
        Engine::Rayon => start_thread_tree(true, benchmark),
        Engine::RayonTree => start_thread_tree(true, benchmark),
        Engine::MpiNormal => if rank == ROOT {
            start_mpi_root(false, benchmark)
        } else {
            start_mpi_child(false)
        },
        Engine::MpiOpenmp => if rank == ROOT {
            start_mpi_root(true, benchmark)
        } else {
            start_mpi_child(true)
        },
    }
}

} // verus!
