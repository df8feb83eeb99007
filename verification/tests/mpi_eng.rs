use nbody::driver::Action;
use nbody::driver::Event;
use nbody::driver::Stepper;
use nbody::mpi_eng::block_distribution;
use nbody::mpi_eng::chunk_size;
use nbody::mpi_eng::gather_layout;
use nbody::mpi_eng::normal_procedure;
use nbody::mpi_eng::start_mpi_child;
use nbody::mpi_eng::start_mpi_root;
use nbody::mpi_eng::RankAction;

#[test]
fn blocks_divide_evenly() {
    let (starts, ends, flags) = block_distribution(4, 2);
    assert_eq!(starts, vec![0, 2]);
    assert_eq!(ends, vec![2, 4]);
    assert_eq!(flags, vec![false, false]);
}

#[test]
fn short_tail_block_is_flagged() {
    let (starts, ends, flags) = block_distribution(5, 2);
    assert_eq!(starts, vec![0, 3]);
    assert_eq!(ends, vec![3, 4]);
    assert_eq!(flags, vec![false, true]);
}

#[test]
fn tail_block_of_one_body() {
    let (starts, ends, flags) = block_distribution(7, 3);
    assert_eq!(starts, vec![0, 3, 6]);
    assert_eq!(ends, vec![3, 6, 6]);
    assert_eq!(flags, vec![false, false, true]);
}

#[test]
fn ranks_beyond_the_array_are_empty() {
    let (starts, ends, flags) = block_distribution(2, 4);
    assert_eq!(starts, vec![0, 1, 2, 3]);
    assert_eq!(ends, vec![1, 2, 2, 3]);
    assert_eq!(flags, vec![false, false, false, false]);
}

#[test]
fn no_bodies_gives_every_rank_an_empty_block() {
    let (starts, ends, flags) = block_distribution(0, 3);
    assert_eq!(starts, vec![0, 0, 0]);
    assert_eq!(ends, vec![0, 0, 0]);
    assert_eq!(flags, vec![false, false, false]);
}

#[test]
fn single_rank_owns_everything() {
    let (starts, ends, flags) = block_distribution(2000, 1);
    assert_eq!(starts, vec![0]);
    assert_eq!(ends, vec![2000]);
    assert_eq!(flags, vec![false]);
}

#[test]
fn dealt_blocks_cover_every_body_once() {
    for total in 0..40usize {
        for world in 1..9usize {
            let (starts, ends, flags) = block_distribution(total, world);
            let mut owners = vec![0usize; total];
            for rank in 0..world {
                let stop = if flags[rank] { ends[rank] + 1 } else { ends[rank] };
                for body in starts[rank]..stop {
                    owners[body] += 1;
                }
            }
            assert!(owners.iter().all(|&count| count == 1));
            assert!(flags.iter().filter(|&&flag| flag).count() <= 1);
        }
    }
}

#[test]
fn chunk_size_of_each_kind_of_rank() {
    assert_eq!(chunk_size(7, 3, 0), (3, false));
    assert_eq!(chunk_size(7, 3, 2), (0, true));
    assert_eq!(chunk_size(5, 2, 1), (1, true));
    assert_eq!(chunk_size(2, 4, 3), (0, false));
    assert_eq!(chunk_size(usize::MAX, 2, usize::MAX), (0, false));
}

#[test]
fn step_of_a_full_block() {
    assert_eq!(
        normal_procedure(3, 6, false, true),
        vec![
            RankAction::Broadcast,
            RankAction::Update { start: 3, end: 6, shared_memory: true },
            RankAction::Gather { start: 3, end: 6 },
        ]
    );
}

#[test]
fn step_of_the_tail_block_includes_its_end() {
    assert_eq!(
        normal_procedure(6, 6, true, false),
        vec![
            RankAction::Broadcast,
            RankAction::Update { start: 6, end: 7, shared_memory: false },
            RankAction::Gather { start: 6, end: 7 },
        ]
    );
}

#[test]
fn child_steps_until_told_to_stop() {
    let stepper = Stepper::Distributed { shared_memory: false };
    let mut run = start_mpi_child(false);
    assert_eq!(run.advance(Event::Completed), Action::Deal);
    assert_eq!(run.advance(Event::Completed), Action::Step(stepper));
    assert_eq!(run.advance(Event::Completed), Action::Listen);
    assert_eq!(run.advance(Event::Completed), Action::Step(stepper));
    assert_eq!(run.advance(Event::Quit), Action::Listen);
    assert_eq!(run.advance(Event::Terminate), Action::Stop);
    assert!(run.is_finished());
    assert_eq!(run.advance(Event::Completed), Action::Stop);
}

#[test]
fn root_benchmark_announces_the_end_after_one_step() {
    let stepper = Stepper::Distributed { shared_memory: true };
    let mut run = start_mpi_root(true, true);
    assert_eq!(run.advance(Event::Completed), Action::Deal);
    assert_eq!(run.advance(Event::Completed), Action::Step(stepper));
    assert_eq!(run.advance(Event::Completed), Action::Announce { finished: true });
    assert_eq!(run.advance(Event::Completed), Action::ReportDuration);
    assert_eq!(run.advance(Event::Completed), Action::Stop);
    assert!(run.is_finished());
}

#[test]
fn root_announces_every_frame_and_the_end_on_quit() {
    let stepper = Stepper::Distributed { shared_memory: false };
    let mut run = start_mpi_root(false, false);
    assert_eq!(run.advance(Event::Completed), Action::Deal);
    assert_eq!(run.advance(Event::Completed), Action::Draw { red: 1, green: 64, blue: 254 });
    assert_eq!(run.advance(Event::Completed), Action::Step(stepper));
    assert_eq!(run.advance(Event::Completed), Action::Poll);
    assert_eq!(run.advance(Event::Completed), Action::Present);
    assert_eq!(run.advance(Event::Completed), Action::ShowFps);
    assert_eq!(run.advance(Event::Completed), Action::Announce { finished: false });
    assert_eq!(run.advance(Event::Completed), Action::Draw { red: 2, green: 64, blue: 253 });
    assert_eq!(run.advance(Event::Completed), Action::Step(stepper));
    assert_eq!(run.advance(Event::Completed), Action::Poll);
    assert_eq!(run.advance(Event::Quit), Action::Announce { finished: true });
    assert_eq!(run.advance(Event::Completed), Action::Stop);
    assert!(run.is_finished());
}

#[test]
fn gather_layout_tiles_the_array() {
    assert_eq!(gather_layout(7, 3, 7), Some((vec![21, 21, 7], vec![0, 21, 42])));
    assert_eq!(gather_layout(2, 4, 7), Some((vec![7, 7, 0, 0], vec![0, 7, 14, 14])));
    assert_eq!(gather_layout(0, 2, 7), Some((vec![0, 0], vec![0, 0])));
    assert_eq!(gather_layout(5, 2, 1), Some((vec![3, 2], vec![0, 3])));
}

#[test]
fn gather_layout_agrees_with_the_dealt_blocks() {
    for total in 0..30usize {
        for world in 1..7usize {
            let (starts, ends, flags) = block_distribution(total, world);
            let (counts, displs) = gather_layout(total, world, 7).unwrap();
            for rank in 0..world {
                let stop = if flags[rank] { ends[rank] + 1 } else { ends[rank] };
                assert_eq!(counts[rank] as usize, (stop - starts[rank]) * 7);
                if counts[rank] > 0 {
                    assert_eq!(displs[rank] as usize, starts[rank] * 7);
                }
            }
        }
    }
}

#[test]
fn gather_layout_refuses_what_does_not_fit() {
    assert_eq!(gather_layout(usize::MAX, 2, 7), None);
    assert_eq!(gather_layout(400_000_000, 2, 7), None);
    assert!(gather_layout(306_783_378, 1, 7).is_some());
    assert_eq!(gather_layout(306_783_379, 1, 7), None);
}
