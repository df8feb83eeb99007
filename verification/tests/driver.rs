use nbody::driver::Action;
use nbody::driver::Event;
use nbody::driver::FrameLoop;
use nbody::driver::Phase;
use nbody::driver::Role;
use nbody::driver::Stepper;
use nbody::global::launch;
use nbody::global::show_fps;
use nbody::global::Engine;
use nbody::pthread::start_thread_tree;
use nbody::sequential::start_tree;

#[test]
fn sequential_benchmark_runs_one_step() {
    let mut run = start_tree(true);
    assert_eq!(run.advance(Event::Completed), Action::Step(Stepper::Sequential));
    assert_eq!(run.advance(Event::Quit), Action::ReportDuration);
    assert_eq!(run.advance(Event::Completed), Action::Stop);
    assert!(run.is_finished());
}

#[test]
fn sequential_display_frames_follow_one_order() {
    let mut run = start_tree(false);
    assert_eq!(run.advance(Event::Completed), Action::Draw { red: 1, green: 64, blue: 254 });
    assert_eq!(run.advance(Event::Completed), Action::Step(Stepper::Sequential));
    assert_eq!(run.advance(Event::Completed), Action::Poll);
    assert_eq!(run.advance(Event::Completed), Action::Present);
    assert_eq!(run.advance(Event::Completed), Action::ShowFps);
    assert_eq!(run.advance(Event::Completed), Action::Draw { red: 2, green: 64, blue: 253 });
    assert!(!run.is_finished());
}

#[test]
fn quit_is_honoured_only_after_a_poll() {
    let mut run = start_thread_tree(true, false);
    assert_eq!(run.advance(Event::Quit), Action::Draw { red: 1, green: 64, blue: 254 });
    assert_eq!(run.advance(Event::Quit), Action::Step(Stepper::Rayon));
    assert_eq!(run.advance(Event::Quit), Action::Poll);
    assert_eq!(run.advance(Event::Quit), Action::Stop);
    assert!(run.is_finished());
}

#[test]
fn thread_engine_picks_its_backend() {
    let mut spawned = start_thread_tree(false, true);
    assert_eq!(spawned.advance(Event::Completed), Action::Step(Stepper::Threads));
    let mut pooled = start_thread_tree(true, true);
    assert_eq!(pooled.advance(Event::Completed), Action::Step(Stepper::Rayon));
}

#[test]
fn tint_wraps_after_254() {
    let mut run = FrameLoop {
        role: Role::Local,
        stepper: Stepper::Sequential,
        benchmark: false,
        phase: Phase::Reporting,
        tint: 253,
    };
    assert_eq!(run.advance(Event::Completed), Action::Draw { red: 254, green: 64, blue: 1 });
    run.phase = Phase::Reporting;
    assert_eq!(run.advance(Event::Completed), Action::Draw { red: 0, green: 64, blue: 255 });
    assert_eq!(run.tint, 0);
}

#[test]
fn fresh_loop_is_idle() {
    let run = FrameLoop::new(Role::Root, Stepper::Distributed { shared_memory: true }, true);
    assert_eq!(run.phase, Phase::Idle);
    assert_eq!(run.tint, 0);
    assert!(run.benchmark);
    assert!(!run.is_finished());
}

#[test]
fn frame_rate_is_due_after_a_second() {
    let mut frames = 120usize;
    assert_eq!(show_fps(&mut frames, 999, true), None);
    assert_eq!(frames, 120);
    assert_eq!(show_fps(&mut frames, 1000, true), Some(120));
    assert_eq!(frames, 0);
}

#[test]
fn frame_rate_is_never_due_when_switched_off() {
    let mut frames = 7usize;
    assert_eq!(show_fps(&mut frames, 5000, false), None);
    assert_eq!(frames, 7);
}

#[test]
fn engines_select_their_loops() {
    let local = |stepper| FrameLoop::new(Role::Local, stepper, true);
    assert_eq!(launch(Engine::Tree, 0, true), local(Stepper::Sequential));
    assert_eq!(launch(Engine::BruteForce, 3, true), local(Stepper::Pairwise));
    assert_eq!(launch(Engine::Pthread, 0, true), local(Stepper::Threads));
    assert_eq!(launch(Engine::Openmp, 0, true), local(Stepper::Threads));
    assert_eq!(launch(Engine::Rayon, 0, true), local(Stepper::Rayon));
    assert_eq!(launch(Engine::RayonTree, 0, true), local(Stepper::Rayon));
    assert_eq!(
        launch(Engine::MpiNormal, 0, false),
        FrameLoop::new(Role::Root, Stepper::Distributed { shared_memory: false }, false)
    );
    assert_eq!(
        launch(Engine::MpiOpenmp, 0, true),
        FrameLoop::new(Role::Root, Stepper::Distributed { shared_memory: true }, true)
    );
    assert_eq!(
        launch(Engine::MpiOpenmp, 2, true),
        FrameLoop::new(Role::Child, Stepper::Distributed { shared_memory: true }, false)
    );
}

#[test]
fn brute_force_benchmark_runs_one_step() {
    let mut run = nbody::sequential::start_brute_force(true);
    assert_eq!(run.advance(Event::Completed), Action::Step(Stepper::Pairwise));
    assert_eq!(run.advance(Event::Completed), Action::ReportDuration);
    assert_eq!(run.advance(Event::Completed), Action::Stop);
}
