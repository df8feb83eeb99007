use nbody::pthread::pool::chunk_ranges;
use nbody::pthread::pool::chunk_size;

#[test]
fn chunk_sizes_of_ten_among_three() {
    assert_eq!(chunk_size(10, 3, 0), 4);
    assert_eq!(chunk_size(10, 3, 1), 3);
    assert_eq!(chunk_size(10, 3, 2), 3);
}

#[test]
fn chunk_ranges_cover_the_array() {
    assert_eq!(chunk_ranges(10, 3), vec![(0, 4), (4, 7), (7, 10)]);
    assert_eq!(chunk_ranges(2, 4), vec![(0, 1), (1, 2), (2, 2), (2, 2)]);
    assert_eq!(chunk_ranges(0, 2), vec![(0, 0), (0, 0)]);
}

#[test]
fn chunk_sizes_follow_both_rules_of_the_balanced_split() {
    for total in 0..50usize {
        for group in 1..9usize {
            let mut handed_out = 0;
            for kth in 0..group {
                let size = chunk_size(total, group, kth);
                let rest = total - handed_out;
                let left = group - kth;
                assert_eq!(size, (rest + left - 1) / left);
                if kth <= total {
                    assert_eq!(size, (total - kth + group - 1) / group);
                }
                handed_out += size;
            }
            assert_eq!(handed_out, total);
        }
    }
}

#[test]
fn default_run_splits_two_thousand_bodies_among_six_workers() {
    assert_eq!(
        chunk_ranges(2000, 6),
        vec![(0, 334), (334, 668), (668, 1001), (1001, 1334), (1334, 1667), (1667, 2000)]
    );
}
