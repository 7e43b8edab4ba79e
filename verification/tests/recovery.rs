use rescuemap::mapping::{Cluster, Domain, MapFile, Stage};
use rescuemap::recovery::{buf_capacity, failure_overlay, fold_outcome, group_length};

#[test]
fn test_failure_escalation_chain() {
    // With two configured passes, a range that keeps failing walks
    // Untested -> ForIsolation(0) -> ForIsolation(1) -> Damaged and stays.
    let brute_passes = 2;
    let mut stage = Stage::Untested;

    stage = failure_overlay(stage, brute_passes);
    assert_eq!(stage, Stage::ForIsolation(0));

    stage = failure_overlay(stage, brute_passes);
    assert_eq!(stage, Stage::ForIsolation(1));

    stage = failure_overlay(stage, brute_passes);
    assert_eq!(stage, Stage::Damaged);

    stage = failure_overlay(stage, brute_passes);
    assert_eq!(stage, Stage::Damaged);
}

#[test]
fn test_failure_overlay_levels_increase() {
    let brute_passes = 5;
    for level in 0..4u8 {
        assert_eq!(
            failure_overlay(Stage::ForIsolation(level), brute_passes),
            Stage::ForIsolation(level + 1)
        );
    }
    assert_eq!(
        failure_overlay(Stage::ForIsolation(4), brute_passes),
        Stage::Damaged
    );
}

#[test]
fn test_failure_overlay_no_passes() {
    // With no isolation passes configured, the first retry already damages.
    assert_eq!(failure_overlay(Stage::Untested, 0), Stage::ForIsolation(0));
    assert_eq!(failure_overlay(Stage::ForIsolation(0), 0), Stage::Damaged);
}

#[test]
fn test_group_length_halves_per_level() {
    assert_eq!(group_length(128, Stage::Untested), 128);
    assert_eq!(group_length(128, Stage::ForIsolation(0)), 64);
    assert_eq!(group_length(128, Stage::ForIsolation(1)), 32);
    assert_eq!(group_length(128, Stage::ForIsolation(6)), 1);
    assert_eq!(group_length(128, Stage::ForIsolation(7)), 1);
    assert_eq!(group_length(128, Stage::Damaged), 1);
    assert_eq!(group_length(1, Stage::Untested), 1);
    assert_eq!(group_length(1, Stage::ForIsolation(0)), 1);
}

#[test]
fn test_buf_capacity() {
    assert_eq!(buf_capacity(2048, 128), 262144);
    assert_eq!(buf_capacity(512, 1), 512);
    assert_eq!(buf_capacity(1, 0), 0);
}

#[test]
fn test_fold_outcome() {
    let mut mf = MapFile::new_spanning(512, Domain { start: 0, end: 8 });

    // A failed bulk read queues the range for the first isolation pass.
    fold_outcome(&mut mf, Domain { start: 2, end: 4 }, Stage::Untested, false, 2);
    assert_eq!(
        mf.map,
        vec![
            Cluster {
                domain: Domain { start: 0, end: 2 },
                stage: Stage::Untested,
            },
            Cluster {
                domain: Domain { start: 2, end: 4 },
                stage: Stage::ForIsolation(0),
            },
            Cluster {
                domain: Domain { start: 4, end: 8 },
                stage: Stage::Untested,
            },
        ]
    );

    // A successful read removes the range from the working set.
    fold_outcome(&mut mf, Domain { start: 0, end: 2 }, Stage::Untested, true, 2);
    assert_eq!(
        mf.map,
        vec![
            Cluster {
                domain: Domain { start: 2, end: 4 },
                stage: Stage::ForIsolation(0),
            },
            Cluster {
                domain: Domain { start: 4, end: 8 },
                stage: Stage::Untested,
            },
        ]
    );

    // A failure at the last configured pass damages the range for good.
    fold_outcome(
        &mut mf,
        Domain { start: 2, end: 3 },
        Stage::ForIsolation(1),
        false,
        2,
    );
    assert_eq!(mf.map[0].stage, Stage::Damaged);
    assert_eq!(mf.map[0].domain, Domain { start: 2, end: 3 });
}
