//! Decisions of the recovery engine: how a failed read escalates through
//! isolation passes, and how read batches are sized.

use vstd::prelude::*;

use crate::mapping::{Cluster, Domain, MapFile, Stage};

verus! {

/// The stage a sector range is overlaid with after a failed read, given the
/// configured number of isolation passes.
pub open spec fn spec_failure_overlay(stage: Stage, brute_passes: u8) -> Stage {
    match stage {
        Stage::Untested => Stage::ForIsolation(0),
        Stage::ForIsolation(level) => if level + 1 < brute_passes {
            Stage::ForIsolation((level + 1) as u8)
        } else {
            Stage::Damaged
        },
        Stage::Damaged => Stage::Damaged,
    }
}

/// Decide how a failed read of a range at `stage` escalates: a first failure
/// queues the range for isolation level 0, a failure during isolation moves
/// it one level up, and past the configured number of passes it is damaged
/// for good.
pub fn failure_overlay(stage: Stage, brute_passes: u8) -> (r: Stage)
    ensures
        r == spec_failure_overlay(stage, brute_passes),
{
    match stage {
        Stage::Untested => Stage::ForIsolation(0),
        Stage::ForIsolation(level) => {
            if (level as usize) + 1 < brute_passes as usize {
                Stage::ForIsolation(level + 1)
            } else {
                Stage::Damaged
            }
        },
        Stage::Damaged => Stage::Damaged,
    }
}

/// The stage of a range after `n` consecutive failed reads.
pub open spec fn spec_repeat_failures(stage: Stage, brute_passes: u8, n: nat) -> Stage
    decreases n,
{
    if n == 0 {
        stage
    } else {
        spec_repeat_failures(spec_failure_overlay(stage, brute_passes), brute_passes, (n - 1) as nat)
    }
}

/// Each failed retry strictly raises the stage in the precedence order, so a
/// range can never fall back to an earlier pass.
pub proof fn lemma_failure_overlay_increases(stage: Stage, brute_passes: u8)
    requires
        stage != Stage::Damaged,
    ensures
        stage.spec_lt(spec_failure_overlay(stage, brute_passes)),
{
}

/// A damaged range stays damaged, however often a read of it fails: it is
/// never queued for retries again.
pub proof fn lemma_damaged_is_terminal(brute_passes: u8, n: nat)
    ensures
        spec_repeat_failures(Stage::Damaged, brute_passes, n) == Stage::Damaged,
    decreases n,
{
    if n > 0 {
        lemma_damaged_is_terminal(brute_passes, (n - 1) as nat);
    }
}

/// From isolation level `level`, enough further failures reach `Damaged`.
proof fn lemma_escalation_from_level(level: u8, brute_passes: u8, n: nat)
    requires
        n >= 1,
        n + level >= brute_passes,
    ensures
        spec_repeat_failures(Stage::ForIsolation(level), brute_passes, n) == Stage::Damaged,
    decreases n,
{
    if level + 1 < brute_passes {
        lemma_escalation_from_level((level + 1) as u8, brute_passes, (n - 1) as nat);
    } else {
        lemma_damaged_is_terminal(brute_passes, (n - 1) as nat);
    }
}

/// Escalation terminates: from any starting stage, a range whose reads keep
/// failing is marked `Damaged` once the configured number of isolation
/// passes is exhausted, and stays there.
pub proof fn lemma_escalation_terminates(stage: Stage, brute_passes: u8, n: nat)
    requires
        n >= brute_passes + 2,
    ensures
        spec_repeat_failures(stage, brute_passes, n) == Stage::Damaged,
{
    match stage {
        Stage::Untested => {
            lemma_escalation_from_level(0, brute_passes, (n - 1) as nat);
        },
        Stage::ForIsolation(level) => {
            lemma_escalation_from_level(level, brute_passes, n);
        },
        Stage::Damaged => {
            lemma_damaged_is_terminal(brute_passes, n);
        },
    }
}

/// The read-group length after shrinking the bulk length `times` times:
/// halved at each step, to a floor of one sector.
pub open spec fn spec_group_length(bulk_len: int, times: nat) -> int
    decreases times,
{
    if times == 0 {
        bulk_len
    } else {
        let prev = spec_group_length(bulk_len, (times - 1) as nat);
        if prev / 2 >= 1 {
            prev / 2
        } else {
            1
        }
    }
}

/// The number of consecutive sectors to read as one group while working on
/// `stage`: the configured bulk length for the first pass over untested
/// ranges, halved for each isolation level thereafter (never below one
/// sector) so that repeated failures are localized ever more finely. Nothing
/// is read for damaged ranges; a single sector is reported.
pub fn group_length(bulk_len: usize, stage: Stage) -> (r: usize)
    requires
        bulk_len >= 1,
    ensures
        r == match stage {
            Stage::Untested => bulk_len as int,
            Stage::ForIsolation(level) => spec_group_length(bulk_len as int, (level + 1) as nat),
            Stage::Damaged => 1,
        },
        1 <= r <= bulk_len,
{
    match stage {
        Stage::Untested => bulk_len,
        Stage::Damaged => 1,
        Stage::ForIsolation(level) => {
            let target = (level as usize) + 1;
            let mut g = bulk_len;
            let mut t: usize = 0;
            while t < target
                invariant
                    0 <= t <= target,
                    bulk_len >= 1,
                    1 <= g <= bulk_len,
                    g == spec_group_length(bulk_len as int, t as nat),
                decreases target - t,
            {
                if g / 2 >= 1 {
                    g = g / 2;
                } else {
                    g = 1;
                }
                t += 1;
            }
            g
        },
    }
}

/// I/O buffer capacity in bytes for a read group: the sector size times the
/// group length in sectors, as direct device I/O wants sector-aligned,
/// exactly sized buffers.
pub fn buf_capacity(sector_size: u16, group_len: usize) -> (r: usize)
    requires
        (sector_size as int) * (group_len as int) <= usize::MAX as int,
    ensures
        r == (sector_size as int) * (group_len as int),
{
    (sector_size as usize) * group_len
}

/// Fold one read outcome back into the map: a successful read of a range
/// worked on at `stage` removes it from the live working set, a failed read
/// overlays it with the stage the escalation policy dictates. Every other
/// sector keeps its previous stage.
pub fn fold_outcome(
    map: &mut MapFile,
    range: Domain,
    stage: Stage,
    success: bool,
    brute_passes: u8,
)
    requires
        old(map).wf(),
        range.start < range.end,
        old(map).domain.start <= range.start,
        range.end <= old(map).domain.end,
    ensures
        final(map).wf(),
        final(map).sector_size == old(map).sector_size,
        final(map).domain == old(map).domain,
        forall|s: int| #[trigger]
            final(map).spec_stage_at(s) == if range.spec_contains(s) {
                if success {
                    None::<Stage>
                } else {
                    Some(spec_failure_overlay(stage, brute_passes))
                }
            } else {
                old(map).spec_stage_at(s)
            },
{
    if success {
        map.mark_recovered(range);
    } else {
        map.update(Cluster { domain: range, stage: failure_overlay(stage, brute_passes) });
    }
}

} // verus!
