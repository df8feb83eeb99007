//! The frame loop that every engine runs, as a state machine.
//!
//! The machine owns the decisions of the loop: what comes after what, when a
//! quit request is honoured, when the termination flag travels between ranks.
//! Its caller owns the work: it performs each [`Action`] and reports back
//! with an [`Event`].

use vstd::prelude::*;

verus! {

/// Which part of the simulation a loop drives.
#[derive(Clone, Copy, PartialEq, Eq, Structural, Debug)]
pub enum Role {
    /// The only process: it steps all bodies and renders them.
    Local,
    /// Rank 0 of a distributed run: it steps its block, renders all bodies and
    /// decides when every rank stops.
    Root,
    /// Any other rank: it steps its block until the root says stop.
    Child,
}

/// The backend that advances the simulation by one step.
#[derive(Clone, Copy, PartialEq, Eq, Structural, Debug)]
pub enum Stepper {
    /// Bodies are updated one after another.
    Sequential,
    /// Bodies are updated one after another, each against every other body
    /// and without a tree.
    Pairwise,
    /// Bodies are updated by spawned workers, one chunk each.
    Threads,
    /// Bodies are updated through a data-parallel iterator.
    Rayon,
    /// Bodies are updated block by block across ranks.
    Distributed { shared_memory: bool },
}

/// What the loop is waiting for.
#[derive(Clone, Copy, PartialEq, Eq, Structural, Debug)]
pub enum Phase {
    Idle,
    Dealing,
    Drawing,
    Stepping,
    Polling,
    Presenting,
    Reporting,
    Announcing,
    Closing,
    Timing,
    Listening,
    Finished,
}

/// What the caller reports once it has performed an action.
#[derive(Clone, Copy, PartialEq, Eq, Structural, Debug)]
pub enum Event {
    /// The action is done and there is nothing to tell.
    Completed,
    /// The renderer's event queue held a quit request.
    Quit,
    /// The termination flag received from the root was set.
    Terminate,
}

/// What the caller is to do next.
#[derive(Clone, Copy, PartialEq, Eq, Structural, Debug)]
pub enum Action {
    /// Hand every rank its block of the body array.
    Deal,
    /// Clear the canvas and draw all bodies in the given colour.
    Draw { red: u8, green: u8, blue: u8 },
    /// Advance the simulation by one step.
    Step(Stepper),
    /// Drain the renderer's event queue.
    Poll,
    /// Show the canvas.
    Present,
    /// Give the frame counter its turn.
    ShowFps,
    /// Print how long the step took.
    ReportDuration,
    /// Send the termination flag to every other rank.
    Announce { finished: bool },
    /// Receive the termination flag.
    Listen,
    /// Leave the loop.
    Stop,
}

/// The state of one frame loop.
#[derive(Clone, Copy, PartialEq, Eq, Structural, Debug)]
pub struct FrameLoop {
    pub role: Role,
    pub stepper: Stepper,
    pub benchmark: bool,
    pub phase: Phase,
    pub tint: u8,
}

/// The tint of the frame after one drawn with `tint`: tints cycle through
/// 0..=254.
pub open spec fn next_tint(tint: u8) -> u8 {
    ((tint + 1) % 255) as u8
}

/// The draw action for a frame of the given tint.
pub open spec fn draw(tint: u8) -> Action {
    Action::Draw { red: tint, green: 64u8, blue: (255 - tint) as u8 }
}

impl FrameLoop {
    /// A loop that has not begun.
    pub open spec fn fresh(role: Role, stepper: Stepper, benchmark: bool) -> FrameLoop {
        FrameLoop { role, stepper, benchmark, phase: Phase::Idle, tint: 0 }
    }

    /// This loop in another phase.
    pub open spec fn at(self, phase: Phase) -> FrameLoop {
        FrameLoop { phase, ..self }
    }

    /// This loop about to draw its next frame.
    pub open spec fn drawing(self) -> (FrameLoop, Action) {
        let tint = next_tint(self.tint);
        (FrameLoop { phase: Phase::Drawing, tint, ..self }, draw(tint))
    }

    /// This loop about to run its first or next step after the bodies are in
    /// place: a rendering loop draws them first.
    pub open spec fn entering(self) -> (FrameLoop, Action) {
        if self.role == Role::Child || self.benchmark {
            (self.at(Phase::Stepping), Action::Step(self.stepper))
        } else {
            self.drawing()
        }
    }

    /// The transition relation: the state and the action that follow when
    /// `event` is reported in this state.
    ///
    /// A rendering loop draws, steps, polls, presents and reports the frame
    /// rate, in this order; the root then announces that the run goes on. A
    /// quit request counts only when it answers a poll, so a step is never
    /// abandoned; the root announces the end before it stops. A benchmark
    /// loop runs one step and reports its duration. A child steps and listens
    /// in turn until it hears the end.
    pub open spec fn next(self, event: Event) -> (FrameLoop, Action) {
        match self.phase {
            Phase::Idle => if self.role == Role::Local {
                self.entering()
            } else {
                (self.at(Phase::Dealing), Action::Deal)
            },
            Phase::Dealing => self.entering(),
            Phase::Drawing => (self.at(Phase::Stepping), Action::Step(self.stepper)),
            Phase::Stepping => if self.role == Role::Child {
                (self.at(Phase::Listening), Action::Listen)
            } else if !self.benchmark {
                (self.at(Phase::Polling), Action::Poll)
            } else if self.role == Role::Root {
                (self.at(Phase::Closing), Action::Announce { finished: true })
            } else {
                (self.at(Phase::Timing), Action::ReportDuration)
            },
            Phase::Polling => if event != Event::Quit {
                (self.at(Phase::Presenting), Action::Present)
            } else if self.role == Role::Root {
                (self.at(Phase::Closing), Action::Announce { finished: true })
            } else {
                (self.at(Phase::Finished), Action::Stop)
            },
            Phase::Presenting => (self.at(Phase::Reporting), Action::ShowFps),
            Phase::Reporting => if self.role == Role::Root {
                (self.at(Phase::Announcing), Action::Announce { finished: false })
            } else {
                self.drawing()
            },
            Phase::Announcing => self.drawing(),
            Phase::Closing => if self.benchmark {
                (self.at(Phase::Timing), Action::ReportDuration)
            } else {
                (self.at(Phase::Finished), Action::Stop)
            },
            Phase::Timing => (self.at(Phase::Finished), Action::Stop),
            Phase::Listening => if event == Event::Terminate {
                (self.at(Phase::Finished), Action::Stop)
            } else {
                (self.at(Phase::Stepping), Action::Step(self.stepper))
            },
            Phase::Finished => (self, Action::Stop),
        }
    }

    /// A loop that has not begun.
    pub fn new(role: Role, stepper: Stepper, benchmark: bool) -> (fresh: FrameLoop)
        ensures
            fresh == FrameLoop::fresh(role, stepper, benchmark),
    {
        FrameLoop { role, stepper, benchmark, phase: Phase::Idle, tint: 0 }
    }

    /// Whether the loop has been left.
    pub fn is_finished(&self) -> (finished: bool)
        ensures
            finished == (self.phase == Phase::Finished),
    {
        match self.phase {
            Phase::Finished => true,
            _ => false,
        }
    }

    fn start_frame(&mut self) -> (action: Action)
        ensures
            (*final(self), action) == old(self).drawing(),
    {
        let wide: u16 = self.tint as u16 + 1;
        let tint: u8 = (wide % 255) as u8;
        self.tint = tint;
        self.phase = Phase::Drawing;
        Action::Draw { red: tint, green: 64, blue: 255 - tint }
    }

    fn enter(&mut self) -> (action: Action)
        ensures
            (*final(self), action) == old(self).entering(),
    {
        let child: bool = match self.role {
            Role::Child => true,
            _ => false,
        };
        if child || self.benchmark {
            self.phase = Phase::Stepping;
            Action::Step(self.stepper)
        } else {
            self.start_frame()
        }
    }

    fn move_to(&mut self, phase: Phase, action: Action) -> (given: Action)
        ensures
            *final(self) == old(self).at(phase),
            given == action,
    {
        self.phase = phase;
        action
    }

    /// Takes the report of the action last handed out and hands out the next.
    pub fn advance(&mut self, event: Event) -> (action: Action)
        ensures
            (*final(self), action) == old(self).next(event),
    {
        let local: bool = match self.role {
            Role::Local => true,
            _ => false,
        };
        let root: bool = match self.role {
            Role::Root => true,
            _ => false,
        };
        let child: bool = !local && !root;
        let quit: bool = match event {
            Event::Quit => true,
            _ => false,
        };
        let terminate: bool = match event {
            Event::Terminate => true,
            _ => false,
        };
        match self.phase {
            Phase::Idle => if local {
                self.enter()
            } else {
                self.move_to(Phase::Dealing, Action::Deal)
            },
            Phase::Dealing => self.enter(),
            Phase::Drawing => self.move_to(Phase::Stepping, Action::Step(self.stepper)),
            Phase::Stepping => if child {
                self.move_to(Phase::Listening, Action::Listen)
            } else if !self.benchmark {
                self.move_to(Phase::Polling, Action::Poll)
            } else if root {
                self.move_to(Phase::Closing, Action::Announce { finished: true })
            } else {
                self.move_to(Phase::Timing, Action::ReportDuration)
            },
            Phase::Polling => if !quit {
                self.move_to(Phase::Presenting, Action::Present)
            } else if root {
                self.move_to(Phase::Closing, Action::Announce { finished: true })
            } else {
                self.move_to(Phase::Finished, Action::Stop)
            },
            Phase::Presenting => self.move_to(Phase::Reporting, Action::ShowFps),
            Phase::Reporting => if root {
                self.move_to(Phase::Announcing, Action::Announce { finished: false })
            } else {
                self.start_frame()
            },
            Phase::Announcing => self.start_frame(),
            Phase::Closing => if self.benchmark {
                self.move_to(Phase::Timing, Action::ReportDuration)
            } else {
                self.move_to(Phase::Finished, Action::Stop)
            },
            Phase::Timing => self.move_to(Phase::Finished, Action::Stop),
            Phase::Listening => if terminate {
                self.move_to(Phase::Finished, Action::Stop)
            } else {
                self.move_to(Phase::Stepping, Action::Step(self.stepper))
            },
            Phase::Finished => Action::Stop,
        }
    }
}

/// A loop that has been left stays left.
pub proof fn lemma_finished_is_final(run: FrameLoop, event: Event)
    requires
        run.phase == Phase::Finished,
    ensures
        run.next(event) == (run, Action::Stop),
{
}

/// Nothing but the phase and the tint ever changes.
pub proof fn lemma_setup_is_kept(run: FrameLoop, event: Event)
    ensures
        run.next(event).0.role == run.role,
        run.next(event).0.stepper == run.stepper,
        run.next(event).0.benchmark == run.benchmark,
{
}

/// A report is listened to only where it answers a poll or a receive: at any
/// other point of the frame a quit request or a termination flag changes
/// nothing, so no step is cut short.
pub proof fn lemma_no_cancellation_mid_step(run: FrameLoop, a: Event, b: Event)
    requires
        run.phase != Phase::Polling,
        run.phase != Phase::Listening,
    ensures
        run.next(a) == run.next(b),
{
}

/// The loop is left only by one of four doors: a local loop that polled a
/// quit request, a root that has announced the end, a benchmark that has
/// reported its time, a child that heard the end.
pub proof fn lemma_ways_out(run: FrameLoop, event: Event)
    requires
        run.phase != Phase::Finished,
        run.next(event).0.phase == Phase::Finished,
    ensures
        ({
            ||| run.phase == Phase::Polling && event == Event::Quit && run.role != Role::Root
            ||| run.phase == Phase::Closing && !run.benchmark
            ||| run.phase == Phase::Timing
            ||| run.phase == Phase::Listening && event == Event::Terminate
        }),
{
}

/// Tints stay within 0..=254, so the blue share `255 - tint` never vanishes.
pub proof fn lemma_tint_cycles(tint: u8)
    ensures
        next_tint(tint) <= 254,
        tint < 254 ==> next_tint(tint) == tint + 1,
        tint == 254 ==> next_tint(tint) == 0,
{
}

/// A local benchmark runs one step, reports its duration and stops, whatever
/// it is told on the way.
pub proof fn lemma_local_benchmark(stepper: Stepper, e1: Event, e2: Event, e3: Event)
    ensures
        ({
            let (r1, a1) = FrameLoop::fresh(Role::Local, stepper, true).next(e1);
            let (r2, a2) = r1.next(e2);
            let (r3, a3) = r2.next(e3);
            &&& a1 == Action::Step(stepper)
            &&& a2 == Action::ReportDuration
            &&& a3 == Action::Stop
            &&& r3.phase == Phase::Finished
        }),
{
}

/// A root benchmark deals the blocks, runs one step, announces the end to
/// the other ranks, reports its duration and stops.
pub proof fn lemma_root_benchmark(
    stepper: Stepper,
    e1: Event,
    e2: Event,
    e3: Event,
    e4: Event,
    e5: Event,
)
    ensures
        ({
            let (r1, a1) = FrameLoop::fresh(Role::Root, stepper, true).next(e1);
            let (r2, a2) = r1.next(e2);
            let (r3, a3) = r2.next(e3);
            let (r4, a4) = r3.next(e4);
            let (r5, a5) = r4.next(e5);
            &&& a1 == Action::Deal
            &&& a2 == Action::Step(stepper)
            &&& a3 == Action::Announce { finished: true }
            &&& a4 == Action::ReportDuration
            &&& a5 == Action::Stop
            &&& r5.phase == Phase::Finished
        }),
{
}

/// One frame of a rendering loop whose poll (answered by `e3`) finds no quit
/// request: from the drawing of one frame it steps, polls, presents and
/// reports the frame rate; the root then announces that the run goes on; and
/// the next frame is drawn in the next tint.
pub proof fn lemma_frame(run: FrameLoop, e1: Event, e2: Event, e3: Event, e4: Event, e5: Event)
    requires
        run.phase == Phase::Drawing,
        run.role != Role::Child,
        !run.benchmark,
        e3 != Event::Quit,
    ensures
        ({
            let (r1, a1) = run.next(e1);
            let (r2, a2) = r1.next(e2);
            let (r3, a3) = r2.next(e3);
            let (r4, a4) = r3.next(e4);
            let (r5, a5) = r4.next(e5);
            &&& a1 == Action::Step(run.stepper)
            &&& a2 == Action::Poll
            &&& a3 == Action::Present
            &&& a4 == Action::ShowFps
            &&& run.role == Role::Local ==> a5 == draw(next_tint(run.tint)) && r5.phase
                == Phase::Drawing && r5.tint == next_tint(run.tint)
            &&& run.role == Role::Root ==> a5 == Action::Announce { finished: false } && r5.next(
                e5,
            ) == (
                FrameLoop { phase: Phase::Drawing, tint: next_tint(run.tint), ..run },
                draw(next_tint(run.tint)),
            )
        }),
{
}

/// A quit request that answers a poll ends the run at once: the local loop
/// stops, the root first announces the end and then stops.
pub proof fn lemma_quit(run: FrameLoop, e: Event)
    requires
        run.phase == Phase::Polling,
        run.role != Role::Child,
        !run.benchmark,
    ensures
        ({
            let (r1, a1) = run.next(Event::Quit);
            &&& run.role == Role::Local ==> a1 == Action::Stop && r1.phase == Phase::Finished
            &&& run.role == Role::Root ==> a1 == Action::Announce { finished: true } && r1.next(e)
                == (run.at(Phase::Finished), Action::Stop)
        }),
{
}

/// A child is dealt its block and then steps and listens in turn: it stops
/// when the flag it hears is set, and steps again when it is not.
pub proof fn lemma_child(stepper: Stepper, e1: Event, e2: Event, e3: Event, heard: Event)
    ensures
        ({
            let (r1, a1) = FrameLoop::fresh(Role::Child, stepper, false).next(e1);
            let (r2, a2) = r1.next(e2);
            let (r3, a3) = r2.next(e3);
            let (r4, a4) = r3.next(heard);
            &&& a1 == Action::Deal
            &&& a2 == Action::Step(stepper)
            &&& a3 == Action::Listen
            &&& heard == Event::Terminate ==> a4 == Action::Stop && r4.phase == Phase::Finished
            &&& heard != Event::Terminate ==> a4 == Action::Step(stepper) && r4 == r2
        }),
{
}

} // verus!
