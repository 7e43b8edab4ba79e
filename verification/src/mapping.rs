//! The sector-range map: half-open sector domains, recovery stages, and the
//! cluster tiling that records the state of every sector of the source.

use vstd::prelude::*;

verus! {

/// A half-open range of sectors `[start, end)`.
///
/// Sector counts are converted to bytes elsewhere via the map's sector size.
#[derive(Clone, Copy, Debug, PartialEq, Eq, Structural)]
pub struct Domain {
    pub start: usize,
    pub end: usize,
}

impl Domain {
    /// True of the sectors this range covers.
    pub open spec fn spec_contains(self, s: int) -> bool {
        self.start <= s < self.end
    }

    /// A range is well formed when it does not run backwards.
    pub open spec fn wf(self) -> bool {
        self.start <= self.end
    }

    /// Length of the range in sectors.
    pub open spec fn spec_len(self) -> int {
        self.end - self.start
    }

    /// Return length of domain in sectors.
    pub fn len(self) -> (n: usize)
        requires
            self.wf(),
        ensures
            n == self.spec_len(),
    {
        self.end - self.start
    }
}

impl Default for Domain {
    /// The default range is the single sector `[0, 1)`.
    fn default() -> (d: Domain)
        ensures
            d == (Domain { start: 0, end: 1 }),
    {
        Domain { start: 0, end: 1 }
    }
}

/// The recovery status of a sector range.
///
/// Ordered by urgency: `Untested` precedes every isolation pass, isolation
/// passes are ordered by level, and `Damaged` is terminal.
#[derive(Clone, Copy, Debug, PartialEq, Eq, Structural)]
pub enum Stage {
    /// Never read; awaiting the bulk first pass.
    Untested,
    /// Failed at least once; queued for the bisection pass at this level.
    ForIsolation(u8),
    /// All isolation levels exhausted; permanently unrecoverable.
    Damaged,
}

impl Stage {
    /// Rank of the tag alone: `Untested` before `ForIsolation` before `Damaged`.
    pub open spec fn rank(self) -> int {
        match self {
            Stage::Untested => 0,
            Stage::ForIsolation(_) => 1,
            Stage::Damaged => 2,
        }
    }

    /// The precedence order on stages: tag rank first, then, between two
    /// isolation stages, the level.
    pub open spec fn spec_lt(self, other: Stage) -> bool {
        self.rank() < other.rank() || (match (self, other) {
            (Stage::ForIsolation(a), Stage::ForIsolation(b)) => a < b,
            _ => false,
        })
    }

    /// Decide the precedence order between two stages.
    pub fn precedes(self, other: Stage) -> (r: bool)
        ensures
            r == self.spec_lt(other),
    {
        match (self, other) {
            (Stage::Untested, Stage::Untested) => false,
            (Stage::Untested, _) => true,
            (Stage::ForIsolation(_), Stage::Untested) => false,
            (Stage::ForIsolation(a), Stage::ForIsolation(b)) => a < b,
            (Stage::ForIsolation(_), Stage::Damaged) => true,
            (Stage::Damaged, _) => false,
        }
    }
}

impl Default for Stage {
    /// Every sector starts out untested.
    fn default() -> (s: Stage)
        ensures
            s == Stage::Untested,
    {
        Stage::Untested
    }
}

/// A contiguous sector range tagged with a single recovery stage: the atomic
/// unit the map manipulates.
#[derive(Clone, Copy, Debug, PartialEq, Eq, Structural)]
pub struct Cluster {
    pub domain: Domain,
    pub stage: Stage,
}

impl Cluster {
    /// Breaks apart into a vec of clusters, each of `cluster_len` sectors,
    /// excepting the last, which takes whatever remainder is left — never
    /// empty, never past the original domain. Every part inherits the stage.
    #[verifier::rlimit(60)]
    pub fn subdivide(&self, cluster_len: usize) -> (parts: Vec<Cluster>)
        requires
            self.domain.start < self.domain.end,
            cluster_len >= 1,
        ensures
            parts@.len() >= 1,
            forall|k: int|
                0 <= k < parts@.len() ==> {
                    &&& (#[trigger] parts@[k]).stage == self.stage
                    &&& parts@[k].domain.start == self.domain.start + k * cluster_len
                    &&& parts@[k].domain.end == if self.domain.start + (k + 1) * cluster_len
                        <= self.domain.end {
                        self.domain.start + (k + 1) * cluster_len
                    } else {
                        self.domain.end as int
                    }
                    &&& parts@[k].domain.start < parts@[k].domain.end
                    &&& parts@[k].domain.spec_len() <= cluster_len
                },
            parts@[0].domain.start == self.domain.start,
            parts@[parts@.len() - 1].domain.end == self.domain.end,
            forall|k: int|
                0 <= k < parts@.len() - 1 ==> (#[trigger] parts@[k]).domain.end == parts@[k
                    + 1].domain.start,
    {
        let mut parts: Vec<Cluster> = Vec::new();
        let mut start: usize = self.domain.start;
        while self.domain.end - start > cluster_len
            invariant
                self.domain.start <= start < self.domain.end,
                cluster_len >= 1,
                start == self.domain.start + parts@.len() * cluster_len,
                forall|k: int|
                    0 <= k < parts@.len() ==> {
                        &&& (#[trigger] parts@[k]).stage == self.stage
                        &&& parts@[k].domain.start == self.domain.start + k * cluster_len
                        &&& parts@[k].domain.end == self.domain.start + (k + 1) * cluster_len
                        &&& self.domain.start + (k + 1) * cluster_len < self.domain.end
                    },
            decreases self.domain.end - start,
        {
            let ghost len0: int = parts@.len() as int;
            proof {
                assert((len0 + 1) * cluster_len == len0 * cluster_len + cluster_len)
                    by (nonlinear_arith);
            }
            parts.push(
                Cluster {
                    domain: Domain { start, end: start + cluster_len },
                    stage: self.stage,
                },
            );
            start = start + cluster_len;
        }
        let ghost len0: int = parts@.len() as int;
        proof {
            assert((len0 + 1) * cluster_len == len0 * cluster_len + cluster_len)
                by (nonlinear_arith);
        }
        parts.push(Cluster { domain: Domain { start, end: self.domain.end }, stage: self.stage });
        proof {
            assert forall|k: int|
                0 <= k < parts@.len() implies {
                    &&& (#[trigger] parts@[k]).stage == self.stage
                    &&& parts@[k].domain.start == self.domain.start + k * cluster_len
                    &&& parts@[k].domain.end == if self.domain.start + (k + 1) * cluster_len
                        <= self.domain.end {
                        self.domain.start + (k + 1) * cluster_len
                    } else {
                        self.domain.end as int
                    }
                    &&& parts@[k].domain.start < parts@[k].domain.end
                    &&& parts@[k].domain.spec_len() <= cluster_len
                } by {
                assert((k + 1) * cluster_len == k * cluster_len + cluster_len) by (nonlinear_arith);
            }
            assert forall|k: int| 0 <= k < parts@.len() - 1 implies (
            #[trigger] parts@[k]).domain.end == parts@[k + 1].domain.start by {
                assert((k + 1) * cluster_len == k * cluster_len + cluster_len) by (nonlinear_arith);
                assert(parts@[k + 1].domain.start == self.domain.start + (k + 1) * cluster_len);
            }
        }
        parts
    }

    /// Replace the stage, keeping the domain.
    pub fn set_stage(&mut self, stage: Stage)
        ensures
            final(self).stage == stage,
            final(self).domain == old(self).domain,
    {
        self.stage = stage;
    }
}

impl Default for Cluster {
    /// A default cluster covers the default domain, untested.
    fn default() -> (c: Cluster)
        ensures
            c.domain == (Domain { start: 0, end: 1 }),
            c.stage == Stage::Untested,
    {
        Cluster { domain: Domain { start: 0, end: 1 }, stage: Stage::Untested }
    }
}

/// The stage a sequence of clusters records for sector `s`: the stage of the
/// first cluster covering `s`, or `None` when no cluster covers it.
///
/// This is the mathematical meaning of a cluster list; on an ordered,
/// non-overlapping list the covering cluster is unique.
pub open spec fn stage_at(cs: Seq<Cluster>, s: int) -> Option<Stage>
    decreases cs.len(),
{
    if cs.len() == 0 {
        None
    } else if cs[0].domain.spec_contains(s) {
        Some(cs[0].stage)
    } else {
        stage_at(cs.drop_first(), s)
    }
}

/// Clusters are individually non-empty, sorted by start, and non-overlapping:
/// each cluster ends no later than any later cluster begins.
pub open spec fn clusters_ordered(cs: Seq<Cluster>) -> bool {
    &&& forall|i: int| 0 <= i < cs.len() ==> (#[trigger] cs[i]).domain.start < cs[i].domain.end
    &&& forall|i: int, j: int|
        0 <= i < j < cs.len() ==> (#[trigger] cs[i]).domain.end <= (#[trigger] cs[j]).domain.start
}

/// Some cluster is still untested.
pub open spec fn has_untested(cs: Seq<Cluster>) -> bool {
    exists|i: int| 0 <= i < cs.len() && (#[trigger] cs[i]).stage == Stage::Untested
}

/// Some cluster is queued for an isolation pass.
pub open spec fn has_isolation(cs: Seq<Cluster>) -> bool {
    exists|i: int| 0 <= i < cs.len() && (#[trigger] cs[i]).stage is ForIsolation
}

/// Whenever `stage_at` reports a stage, some cluster covers the sector.
pub proof fn lemma_stage_at_some_index(cs: Seq<Cluster>, s: int)
    requires
        stage_at(cs, s) is Some,
    ensures
        exists|i: int|
            0 <= i < cs.len() && (#[trigger] cs[i]).domain.spec_contains(s) && cs[i].stage
                == stage_at(cs, s)->0,
    decreases cs.len(),
{
    if cs.len() > 0 && !cs[0].domain.spec_contains(s) {
        lemma_stage_at_some_index(cs.drop_first(), s);
        let j = choose|j: int|
            0 <= j < cs.drop_first().len() && (#[trigger] cs.drop_first()[j]).domain.spec_contains(
                s,
            ) && cs.drop_first()[j].stage == stage_at(cs.drop_first(), s)->0;
        assert(cs[j + 1] == cs.drop_first()[j]);
    }
}

/// Appending a cluster to a list only affects the sectors the list left
/// uncovered.
proof fn lemma_stage_at_push(cs: Seq<Cluster>, c: Cluster, s: int)
    ensures
        stage_at(cs.push(c), s) == if stage_at(cs, s) is Some {
            stage_at(cs, s)
        } else if c.domain.spec_contains(s) {
            Some(c.stage)
        } else {
            None::<Stage>
        },
    decreases cs.len(),
{
    if cs.len() == 0 {
        assert(cs.push(c)[0] == c);
        assert(cs.push(c).drop_first() =~= cs);
    } else {
        assert(cs.push(c)[0] == cs[0]);
        assert(cs.push(c).drop_first() =~= cs.drop_first().push(c));
        lemma_stage_at_push(cs.drop_first(), c, s);
    }
}

/// In a contiguous chain of clusters, every sector between the first start
/// and the last end is covered.
proof fn lemma_chain_covered(cs: Seq<Cluster>, s: int)
    requires
        cs.len() > 0,
        forall|i: int|
            0 <= i < cs.len() - 1 ==> (#[trigger] cs[i]).domain.end == cs[i + 1].domain.start,
        cs[0].domain.start <= s < cs[cs.len() - 1].domain.end,
    ensures
        stage_at(cs, s) is Some,
    decreases cs.len(),
{
    if !cs[0].domain.spec_contains(s) {
        let tail = cs.drop_first();
        assert(cs.len() > 1);
        assert forall|i: int|
            0 <= i < tail.len() - 1 implies (#[trigger] tail[i]).domain.end == tail[i
            + 1].domain.start by {
            assert(tail[i] == cs[i + 1]);
            assert(tail[i + 1] == cs[i + 2]);
        }
        assert(tail[0] == cs[1]);
        assert(tail[tail.len() - 1] == cs[cs.len() - 1]);
        lemma_chain_covered(tail, s);
    }
}

/// Two clusters can be coalesced when the second starts exactly where the
/// first ends and both carry the same stage.
pub open spec fn mergeable(a: Cluster, b: Cluster) -> bool {
    b.domain.start == a.domain.end && a.stage == b.stage
}

/// The single cluster covering two mergeable neighbours.
pub open spec fn merged(a: Cluster, b: Cluster) -> Cluster {
    Cluster { domain: Domain { start: a.domain.start, end: b.domain.end }, stage: a.stage }
}

/// Defragmentation as a mathematical function: coalesce every run of
/// adjacent same-stage clusters, left to right, into a single cluster.
pub open spec fn spec_defrag(cs: Seq<Cluster>) -> Seq<Cluster>
    decreases cs.len(),
{
    if cs.len() <= 1 {
        cs
    } else if mergeable(cs[0], cs[1]) {
        spec_defrag(seq![merged(cs[0], cs[1])] + cs.skip(2))
    } else {
        seq![cs[0]] + spec_defrag(cs.skip(1))
    }
}

/// Defragmentation never changes the stage recorded for any sector: it is a
/// merge of ranges, not a mutation of their content.
pub proof fn lemma_defrag_stage_at(cs: Seq<Cluster>, s: int)
    requires
        forall|i: int|
            0 <= i < cs.len() ==> (#[trigger] cs[i]).domain.start <= cs[i].domain.end,
    ensures
        stage_at(spec_defrag(cs), s) == stage_at(cs, s),
    decreases cs.len(),
{
    if cs.len() <= 1 {
    } else if mergeable(cs[0], cs[1]) {
        let m = merged(cs[0], cs[1]);
        let rest = seq![m] + cs.skip(2);
        assert forall|i: int| 0 <= i < rest.len() implies (#[trigger] rest[i]).domain.start
            <= rest[i].domain.end by {
            if i > 0 {
                assert(rest[i] == cs[i + 1]);
            }
        }
        lemma_defrag_stage_at(rest, s);
        assert(rest[0] == m);
        assert(rest.drop_first() =~= cs.skip(2));
        assert(cs.drop_first()[0] == cs[1]);
        assert(cs.drop_first().drop_first() =~= cs.skip(2));
        if cs[0].domain.spec_contains(s) {
            assert(m.domain.spec_contains(s));
        } else if cs[1].domain.spec_contains(s) {
            assert(m.domain.spec_contains(s));
            assert(stage_at(cs.drop_first(), s) == Some(cs[1].stage));
        } else {
            assert(!m.domain.spec_contains(s));
            assert(stage_at(rest, s) == stage_at(cs.skip(2), s));
            assert(stage_at(cs.drop_first(), s) == stage_at(cs.skip(2), s));
        }
    } else {
        let rest = seq![cs[0]] + spec_defrag(cs.skip(1));
        assert forall|i: int| 0 <= i < cs.skip(1).len() implies (
        #[trigger] cs.skip(1)[i]).domain.start <= cs.skip(1)[i].domain.end by {
            assert(cs.skip(1)[i] == cs[i + 1]);
        }
        lemma_defrag_stage_at(cs.skip(1), s);
        assert(rest[0] == cs[0]);
        assert(rest.drop_first() =~= spec_defrag(cs.skip(1)));
        assert(cs.drop_first() =~= cs.skip(1));
    }
}

/// Defragmenting a non-empty list keeps its first start and first stage.
proof fn lemma_defrag_first(cs: Seq<Cluster>)
    requires
        cs.len() > 0,
    ensures
        spec_defrag(cs).len() > 0,
        spec_defrag(cs)[0].domain.start == cs[0].domain.start,
        spec_defrag(cs)[0].stage == cs[0].stage,
    decreases cs.len(),
{
    if cs.len() <= 1 {
    } else if mergeable(cs[0], cs[1]) {
        let rest = seq![merged(cs[0], cs[1])] + cs.skip(2);
        lemma_defrag_first(rest);
    } else {
        lemma_defrag_first(cs.skip(1));
    }
}

/// Defragmentation keeps clusters ordered and within the given bounds.
proof fn lemma_defrag_ordered(cs: Seq<Cluster>, lo: int, hi: int)
    requires
        clusters_ordered(cs),
        forall|i: int|
            0 <= i < cs.len() ==> lo <= (#[trigger] cs[i]).domain.start && cs[i].domain.end <= hi,
    ensures
        clusters_ordered(spec_defrag(cs)),
        forall|i: int|
            0 <= i < spec_defrag(cs).len() ==> lo <= (#[trigger] spec_defrag(cs)[i]).domain.start
                && spec_defrag(cs)[i].domain.end <= hi,
    decreases cs.len(),
{
    if cs.len() <= 1 {
    } else if mergeable(cs[0], cs[1]) {
        let m = merged(cs[0], cs[1]);
        let rest = seq![m] + cs.skip(2);
        assert forall|i: int, j: int| 0 <= i < j < rest.len() implies (
            #[trigger] rest[i]).domain.end <= (#[trigger] rest[j]).domain.start by {
            if i > 0 {
                assert(rest[i] == cs[i + 1]);
            }
            assert(rest[j] == cs[j + 1]);
        }
        assert forall|i: int| 0 <= i < rest.len() implies lo <= (
        #[trigger] rest[i]).domain.start && rest[i].domain.end <= hi by {
            if i > 0 {
                assert(rest[i] == cs[i + 1]);
            }
        }
        assert forall|i: int| 0 <= i < rest.len() implies (#[trigger] rest[i]).domain.start
            < rest[i].domain.end by {
            if i > 0 {
                assert(rest[i] == cs[i + 1]);
            }
        }
        lemma_defrag_ordered(rest, lo, hi);
    } else {
        let tail = cs.skip(1);
        assert forall|i: int, j: int| 0 <= i < j < tail.len() implies (
            #[trigger] tail[i]).domain.end <= (#[trigger] tail[j]).domain.start by {
            assert(tail[i] == cs[i + 1]);
            assert(tail[j] == cs[j + 1]);
        }
        assert forall|i: int| 0 <= i < tail.len() implies (#[trigger] tail[i]).domain.start
            < tail[i].domain.end && cs[0].domain.end <= tail[i].domain.start && lo
            <= tail[i].domain.start && tail[i].domain.end <= hi by {
            assert(tail[i] == cs[i + 1]);
        }
        lemma_defrag_ordered(tail, cs[0].domain.end as int, hi);
        let d = spec_defrag(cs);
        let dt = spec_defrag(tail);
        assert forall|i: int, j: int| 0 <= i < j < d.len() implies (#[trigger] d[i]).domain.end
            <= (#[trigger] d[j]).domain.start by {
            assert(d[j] == dt[j - 1]);
            if i > 0 {
                assert(d[i] == dt[i - 1]);
            }
        }
        assert forall|i: int| 0 <= i < d.len() implies (#[trigger] d[i]).domain.start
            < d[i].domain.end && lo <= d[i].domain.start && d[i].domain.end <= hi by {
            if i > 0 {
                assert(d[i] == dt[i - 1]);
            }
        }
    }
}

/// After defragmentation no two neighbouring clusters can be merged: the
/// result is the unique maximal-run representation.
pub proof fn lemma_defrag_canonical(cs: Seq<Cluster>)
    ensures
        forall|i: int|
            0 <= i < spec_defrag(cs).len() - 1 ==> !mergeable(
                #[trigger] spec_defrag(cs)[i],
                spec_defrag(cs)[i + 1],
            ),
    decreases cs.len(),
{
    if cs.len() <= 1 {
    } else if mergeable(cs[0], cs[1]) {
        let rest = seq![merged(cs[0], cs[1])] + cs.skip(2);
        lemma_defrag_canonical(rest);
        assert(spec_defrag(cs) == spec_defrag(rest));
        assert forall|i: int| 0 <= i < spec_defrag(cs).len() - 1 implies !mergeable(
            #[trigger] spec_defrag(cs)[i],
            spec_defrag(cs)[i + 1],
        ) by {
            assert(spec_defrag(cs)[i] == spec_defrag(rest)[i]);
            assert(spec_defrag(cs)[i + 1] == spec_defrag(rest)[i + 1]);
        }
    } else {
        let tail = cs.skip(1);
        lemma_defrag_canonical(tail);
        lemma_defrag_first(tail);
        let d = spec_defrag(cs);
        let dt = spec_defrag(tail);
        assert(tail[0] == cs[1]);
        assert(d == seq![cs[0]] + dt);
        assert forall|i: int| 0 <= i < d.len() - 1 implies !mergeable(
            #[trigger] d[i],
            d[i + 1],
        ) by {
            if i == 0 {
                assert(d[0] == cs[0]);
                assert(d[1] == dt[0]);
                assert(dt[0].domain.start == cs[1].domain.start);
                assert(dt[0].stage == cs[1].stage);
            } else {
                assert(d[i] == dt[i - 1]);
                assert(d[i + 1] == dt[i]);
            }
        }
    }
}

/// Defragmenting a list in which no neighbours are mergeable returns it
/// unchanged.
proof fn lemma_defrag_of_canonical(cs: Seq<Cluster>)
    requires
        forall|i: int| 0 <= i < cs.len() - 1 ==> !mergeable(#[trigger] cs[i], cs[i + 1]),
    ensures
        spec_defrag(cs) == cs,
    decreases cs.len(),
{
    if cs.len() <= 1 {
    } else {
        let tail = cs.skip(1);
        assert forall|i: int| 0 <= i < tail.len() - 1 implies !mergeable(
            #[trigger] tail[i],
            tail[i + 1],
        ) by {
            assert(tail[i] == cs[i + 1]);
            assert(tail[i + 1] == cs[i + 2]);
        }
        lemma_defrag_of_canonical(tail);
        assert(seq![cs[0]] + tail =~= cs);
    }
}

/// Defragmentation is idempotent: defragmenting twice gives the same list as
/// defragmenting once.
pub proof fn lemma_defrag_idempotent(cs: Seq<Cluster>)
    ensures
        spec_defrag(spec_defrag(cs)) == spec_defrag(cs),
{
    lemma_defrag_canonical(cs);
    lemma_defrag_of_canonical(spec_defrag(cs));
}

/// The in-memory map: a sector size, the total domain of the source, and the
/// ordered cluster list recording each sector's recovery stage.
///
/// Sectors of successfully recovered ranges are absent from the cluster list;
/// the list starts out tiling the whole domain and shrinks as data is copied.
#[derive(Clone, Debug, PartialEq)]
pub struct MapFile {
    pub sector_size: u16,
    pub domain: Domain,
    pub map: Vec<Cluster>,
}

impl MapFile {
    /// Well-formedness: the domain does not run backwards, the clusters are
    /// ordered and non-overlapping, and every cluster lies inside the domain.
    pub open spec fn wf(self) -> bool {
        &&& self.domain.wf()
        &&& clusters_ordered(self.map@)
        &&& forall|i: int|
            0 <= i < self.map@.len() ==> self.domain.start <= (
            #[trigger] self.map@[i]).domain.start && self.map@[i].domain.end <= self.domain.end
    }

    /// The clusters exactly tile the whole domain: the first starts at the
    /// domain's start, each cluster ends where the next begins, and the last
    /// ends at the domain's end. No gaps, no overlaps.
    pub open spec fn tiles(self) -> bool {
        &&& self.wf()
        &&& if self.map@.len() == 0 {
            self.domain.start == self.domain.end
        } else {
            &&& self.map@[0].domain.start == self.domain.start
            &&& self.map@[self.map@.len() - 1].domain.end == self.domain.end
            &&& forall|i: int|
                0 <= i < self.map@.len() - 1 ==> (#[trigger] self.map@[i]).domain.end
                    == self.map@[i + 1].domain.start
        }
    }

    /// The stage the map records for sector `s`.
    pub open spec fn spec_stage_at(self, s: int) -> Option<Stage> {
        stage_at(self.map@, s)
    }

    /// A fresh map with the given sector size over the default domain.
    pub fn new(sector_size: u16) -> (m: MapFile)
        ensures
            m.sector_size == sector_size,
            m.domain == (Domain { start: 0, end: 1 }),
            m.map@.len() == 1,
            m.map@[0] == (Cluster { domain: Domain { start: 0, end: 1 }, stage: Stage::Untested }),
            m.tiles(),
    {
        let mut m = MapFile::default();
        m.set_sector_size(sector_size);
        m
    }

    /// A fresh map over the given domain: a single untested cluster spanning
    /// the whole domain, as when no persisted map exists yet.
    pub fn new_spanning(sector_size: u16, domain: Domain) -> (m: MapFile)
        requires
            domain.start < domain.end,
        ensures
            m.sector_size == sector_size,
            m.domain == domain,
            m.map@.len() == 1,
            m.map@[0] == (Cluster { domain, stage: Stage::Untested }),
            m.tiles(),
            forall|s: int|
                #[trigger] m.spec_stage_at(s) == if domain.spec_contains(s) {
                    Some(Stage::Untested)
                } else {
                    None::<Stage>
                },
    {
        let mut map: Vec<Cluster> = Vec::new();
        map.push(Cluster { domain, stage: Stage::Untested });
        proof {
            assert forall|s: int| #[trigger]
                stage_at(map@, s) == if domain.spec_contains(s) {
                    Some(Stage::Untested)
                } else {
                    None::<Stage>
                } by {
                assert(stage_at(map@.drop_first(), s) == None::<Stage>);
            }
        }
        MapFile { sector_size, domain, map }
    }

    /// Get current recovery stage: the aggregate stage the engine should
    /// work on next.
    ///
    /// Precedence: any untested cluster gates everything else; otherwise the
    /// lowest isolation level present; otherwise nothing is left to attempt.
    pub fn get_stage(&self) -> (r: Stage)
        ensures
            (r == Stage::Untested) <==> has_untested(self.map@),
            (r is ForIsolation) <==> (!has_untested(self.map@) && has_isolation(self.map@)),
            (r == Stage::Damaged) <==> (!has_untested(self.map@) && !has_isolation(self.map@)),
            r is ForIsolation ==> exists|j: int|
                0 <= j < self.map@.len() && (#[trigger] self.map@[j]).stage == r,
            forall|j: int|
                0 <= j < self.map@.len() && (#[trigger] self.map@[j]).stage is ForIsolation && r is ForIsolation
                    ==> r->0 <= self.map@[j].stage->0,
    {
        let mut recover_stage = Stage::Damaged;
        let mut i: usize = 0;
        while i < self.map.len()
            invariant
                0 <= i <= self.map@.len(),
                forall|j: int| 0 <= j < i ==> (#[trigger] self.map@[j]).stage != Stage::Untested,
                (recover_stage is ForIsolation) <==> (exists|j: int|
                    0 <= j < i && (#[trigger] self.map@[j]).stage is ForIsolation),
                recover_stage is ForIsolation || recover_stage == Stage::Damaged,
                recover_stage is ForIsolation ==> exists|j: int|
                    0 <= j < i && (#[trigger] self.map@[j]).stage == recover_stage,
                forall|j: int|
                    0 <= j < i && (#[trigger] self.map@[j]).stage is ForIsolation
                        && recover_stage is ForIsolation ==> recover_stage->0
                        <= self.map@[j].stage->0,
            decreases self.map@.len() - i,
        {
            let c = self.map[i];
            match c.stage {
                Stage::Untested => {
                    return Stage::Untested;
                },
                Stage::ForIsolation(level) => {
                    match recover_stage {
                        Stage::Damaged => {
                            recover_stage = Stage::ForIsolation(level);
                        },
                        Stage::ForIsolation(current) => {
                            if level < current {
                                recover_stage = Stage::ForIsolation(level);
                            }
                        },
                        Stage::Untested => {},
                    }
                },
                Stage::Damaged => {},
            }
            i += 1;
        }
        recover_stage
    }

    /// Get clusters of common stage, in tiling order: exactly those whose
    /// stage compares equal to the given value, isolation level included.
    pub fn get_clusters(&self, stage: Stage) -> (r: Vec<Cluster>)
        ensures
            r@ == self.map@.filter(|c: Cluster| c.stage == stage),
    {
        let mut r: Vec<Cluster> = Vec::new();
        let mut i: usize = 0;
        proof {
            assert(self.map@.take(0).filter(|c: Cluster| c.stage == stage) =~= Seq::<
                Cluster,
            >::empty());
        }
        while i < self.map.len()
            invariant
                0 <= i <= self.map@.len(),
                r@ == self.map@.take(i as int).filter(|c: Cluster| c.stage == stage),
            decreases self.map@.len() - i,
        {
            let c = self.map[i];
            proof {
                let pred = |c: Cluster| c.stage == stage;
                assert(self.map@.take(i + 1) =~= self.map@.take(i as int).push(self.map@[i as int]));
                self.map@.take(i as int).lemma_filter_push(self.map@[i as int], pred);
            }
            if c.stage == stage {
                r.push(c);
            }
            i += 1;
        }
        proof {
            assert(self.map@.take(self.map@.len() as int) =~= self.map@);
        }
        r
    }

    /// Recalculate cluster mappings: overwrite the stage of the sub-range
    /// `new_cluster.domain` within the existing clusters.
    ///
    /// Existing clusters straddling the range's boundaries are cropped and
    /// keep their stage, clusters fully inside the range are discarded, and
    /// exactly one copy of `new_cluster` is inserted in sort order. Every
    /// other sector keeps its previous stage, so a map that tiled its domain
    /// still does.
    pub fn update(&mut self, new_cluster: Cluster)
        requires
            old(self).wf(),
            new_cluster.domain.start < new_cluster.domain.end,
            old(self).domain.start <= new_cluster.domain.start,
            new_cluster.domain.end <= old(self).domain.end,
        ensures
            final(self).wf(),
            final(self).sector_size == old(self).sector_size,
            final(self).domain == old(self).domain,
            forall|s: int| #[trigger]
                final(self).spec_stage_at(s) == if new_cluster.domain.spec_contains(s) {
                    Some(new_cluster.stage)
                } else {
                    old(self).spec_stage_at(s)
                },
            exists|i: int|
                0 <= i < final(self).map@.len() && (#[trigger] final(self).map@[i]) == new_cluster
                    && forall|k: int|
                    0 <= k < final(self).map@.len() && k != i ==> final(self).map@[k]
                        != new_cluster,
            old(self).tiles() ==> final(self).tiles(),
    {
        let ghost om = self.map@;
        let nd = new_cluster.domain;
        let mut out: Vec<Cluster> = Vec::new();

        // First pass: the parts of existing clusters strictly before the
        // overlaid range.
        let mut i: usize = 0;
        while i < self.map.len()
            invariant
                0 <= i <= om.len(),
                self.map@ == om,
                old(self).wf(),
                self == old(self),
                nd == new_cluster.domain,
                old(self).domain.start <= nd.start,
                clusters_ordered(out@),
                forall|k: int| 0 <= k < out@.len() ==> (#[trigger] out@[k]).domain.end <= nd.start,
                forall|k: int|
                    0 <= k < out@.len() ==> old(self).domain.start <= (
                    #[trigger] out@[k]).domain.start,
                forall|k: int|
                    0 <= k < out@.len() && i < om.len() ==> (#[trigger] out@[k]).domain.end
                        <= om[i as int].domain.start,
                forall|s: int|
                    s < nd.start ==> #[trigger] stage_at(out@, s) == stage_at(
                        om.take(i as int),
                        s,
                    ),
                forall|s: int| s >= nd.start ==> #[trigger] stage_at(out@, s) == None::<Stage>,
            decreases om.len() - i,
        {
            let c = self.map[i];
            let ghost prev = out@;
            if c.domain.start < nd.start {
                let e = if c.domain.end < nd.start {
                    c.domain.end
                } else {
                    nd.start
                };
                let frag = Cluster { domain: Domain { start: c.domain.start, end: e }, stage: c.stage };
                out.push(frag);
                proof {
                    assert forall|s: int| s < nd.start implies #[trigger] stage_at(out@, s)
                        == stage_at(om.take(i + 1), s) by {
                        lemma_stage_at_push(prev, frag, s);
                        assert(om.take(i + 1) =~= om.take(i as int).push(om[i as int]));
                        lemma_stage_at_push(om.take(i as int), om[i as int], s);
                    }
                    assert forall|s: int| s >= nd.start implies #[trigger] stage_at(out@, s)
                        == None::<Stage> by {
                        lemma_stage_at_push(prev, frag, s);
                    }
                }
            } else {
                proof {
                    assert forall|s: int| s < nd.start implies #[trigger] stage_at(out@, s)
                        == stage_at(om.take(i + 1), s) by {
                        assert(om.take(i + 1) =~= om.take(i as int).push(om[i as int]));
                        lemma_stage_at_push(om.take(i as int), om[i as int], s);
                    }
                }
            }
            i += 1;
        }
        proof {
            assert(om.take(om.len() as int) =~= om);
        }

        // Insert the overlaid cluster itself.
        let ghost before_new = out@;
        out.push(new_cluster);
        let ghost new_idx: int = out@.len() - 1;
        proof {
            assert forall|s: int| #[trigger]
                stage_at(out@, s) == if nd.spec_contains(s) {
                    Some(new_cluster.stage)
                } else if s < nd.start {
                    stage_at(om, s)
                } else {
                    None::<Stage>
                } by {
                lemma_stage_at_push(before_new, new_cluster, s);
            }
            assert(out@[new_idx] == new_cluster);
            assert forall|k: int|
                0 <= k < out@.len() && k != new_idx implies out@[k] != new_cluster by {
                assert(out@[k].domain.end <= nd.start);
            }
        }

        // Second pass: the parts of existing clusters strictly after the
        // overlaid range.
        let mut j: usize = 0;
        while j < self.map.len()
            invariant
                0 <= j <= om.len(),
                self.map@ == om,
                old(self).wf(),
                self == old(self),
                nd == new_cluster.domain,
                nd.start < nd.end,
                old(self).domain.start <= nd.start,
                nd.end <= old(self).domain.end,
                clusters_ordered(out@),
                forall|k: int|
                    0 <= k < out@.len() ==> old(self).domain.start <= (
                    #[trigger] out@[k]).domain.start && (#[trigger] out@[k]).domain.end <= old(
                        self,
                    ).domain.end,
                forall|k: int|
                    0 <= k < out@.len() && j < om.len() ==> (#[trigger] out@[k]).domain.end
                        <= nd.end || (#[trigger] out@[k]).domain.end <= om[j as int].domain.start,
                forall|s: int| #[trigger]
                    stage_at(out@, s) == if nd.spec_contains(s) {
                        Some(new_cluster.stage)
                    } else if s < nd.start {
                        stage_at(om, s)
                    } else {
                        stage_at(om.take(j as int), s)
                    },
                0 <= new_idx < out@.len(),
                out@[new_idx] == new_cluster,
                forall|k: int| 0 <= k < out@.len() && k != new_idx ==> out@[k] != new_cluster,
            decreases om.len() - j,
        {
            let c = self.map[j];
            let ghost prev = out@;
            if c.domain.end > nd.end {
                let st = if c.domain.start > nd.end {
                    c.domain.start
                } else {
                    nd.end
                };
                let frag = Cluster { domain: Domain { start: st, end: c.domain.end }, stage: c.stage };
                out.push(frag);
                proof {
                    assert forall|s: int| #[trigger]
                        stage_at(out@, s) == if nd.spec_contains(s) {
                            Some(new_cluster.stage)
                        } else if s < nd.start {
                            stage_at(om, s)
                        } else {
                            stage_at(om.take(j + 1), s)
                        } by {
                        lemma_stage_at_push(prev, frag, s);
                        assert(om.take(j + 1) =~= om.take(j as int).push(om[j as int]));
                        lemma_stage_at_push(om.take(j as int), om[j as int], s);
                    }
                    assert(frag.domain.start >= nd.end);
                    assert(frag != new_cluster);
                }
            } else {
                proof {
                    assert forall|s: int| #[trigger]
                        stage_at(out@, s) == if nd.spec_contains(s) {
                            Some(new_cluster.stage)
                        } else if s < nd.start {
                            stage_at(om, s)
                        } else {
                            stage_at(om.take(j + 1), s)
                        } by {
                        assert(om.take(j + 1) =~= om.take(j as int).push(om[j as int]));
                        lemma_stage_at_push(om.take(j as int), om[j as int], s);
                    }
                }
            }
            j += 1;
        }
        proof {
            assert(om.take(om.len() as int) =~= om);
        }

        self.map = out;

        proof {
            assert(self.map@[new_idx] == new_cluster);
            if old(self).tiles() {
                assert forall|s: int| self.domain.spec_contains(s) implies #[trigger] stage_at(
                    self.map@,
                    s,
                ) is Some by {
                    if !nd.spec_contains(s) {
                        lemma_tiles_covered(*old(self), s);
                    }
                }
                lemma_covered_implies_tiles(*self);
            }
        }
    }

    /// Drop a successfully copied sub-range from the live working set:
    /// afterwards no cluster covers it, while every other sector keeps its
    /// stage. Clusters straddling the range's ends are cropped.
    pub fn mark_recovered(&mut self, range: Domain)
        requires
            old(self).wf(),
            range.start < range.end,
            old(self).domain.start <= range.start,
            range.end <= old(self).domain.end,
        ensures
            final(self).wf(),
            final(self).sector_size == old(self).sector_size,
            final(self).domain == old(self).domain,
            forall|s: int| #[trigger]
                final(self).spec_stage_at(s) == if range.spec_contains(s) {
                    None::<Stage>
                } else {
                    old(self).spec_stage_at(s)
                },
    {
        let ghost om = self.map@;
        let rd = range;
        let mut out: Vec<Cluster> = Vec::new();

        // First pass: the parts of existing clusters before the range.
        let mut i: usize = 0;
        while i < self.map.len()
            invariant
                0 <= i <= om.len(),
                self.map@ == om,
                old(self).wf(),
                self == old(self),
                rd == range,
                old(self).domain.start <= rd.start,
                clusters_ordered(out@),
                forall|k: int| 0 <= k < out@.len() ==> (#[trigger] out@[k]).domain.end <= rd.start,
                forall|k: int|
                    0 <= k < out@.len() ==> old(self).domain.start <= (
                    #[trigger] out@[k]).domain.start,
                forall|k: int|
                    0 <= k < out@.len() && i < om.len() ==> (#[trigger] out@[k]).domain.end
                        <= om[i as int].domain.start,
                forall|s: int|
                    s < rd.start ==> #[trigger] stage_at(out@, s) == stage_at(
                        om.take(i as int),
                        s,
                    ),
                forall|s: int| s >= rd.start ==> #[trigger] stage_at(out@, s) == None::<Stage>,
            decreases om.len() - i,
        {
            let c = self.map[i];
            let ghost prev = out@;
            if c.domain.start < rd.start {
                let e = if c.domain.end < rd.start {
                    c.domain.end
                } else {
                    rd.start
                };
                let frag = Cluster { domain: Domain { start: c.domain.start, end: e }, stage: c.stage };
                out.push(frag);
                proof {
                    assert forall|s: int| s < rd.start implies #[trigger] stage_at(out@, s)
                        == stage_at(om.take(i + 1), s) by {
                        lemma_stage_at_push(prev, frag, s);
                        assert(om.take(i + 1) =~= om.take(i as int).push(om[i as int]));
                        lemma_stage_at_push(om.take(i as int), om[i as int], s);
                    }
                    assert forall|s: int| s >= rd.start implies #[trigger] stage_at(out@, s)
                        == None::<Stage> by {
                        lemma_stage_at_push(prev, frag, s);
                    }
                }
            } else {
                proof {
                    assert forall|s: int| s < rd.start implies #[trigger] stage_at(out@, s)
                        == stage_at(om.take(i + 1), s) by {
                        assert(om.take(i + 1) =~= om.take(i as int).push(om[i as int]));
                        lemma_stage_at_push(om.take(i as int), om[i as int], s);
                    }
                }
            }
            i += 1;
        }
        proof {
            assert(om.take(om.len() as int) =~= om);
        }

        // Second pass: the parts of existing clusters after the range.
        let mut j: usize = 0;
        while j < self.map.len()
            invariant
                0 <= j <= om.len(),
                self.map@ == om,
                old(self).wf(),
                self == old(self),
                rd == range,
                rd.start < rd.end,
                old(self).domain.start <= rd.start,
                rd.end <= old(self).domain.end,
                clusters_ordered(out@),
                forall|k: int|
                    0 <= k < out@.len() ==> old(self).domain.start <= (
                    #[trigger] out@[k]).domain.start && (#[trigger] out@[k]).domain.end <= old(
                        self,
                    ).domain.end,
                forall|k: int|
                    0 <= k < out@.len() && j < om.len() ==> (#[trigger] out@[k]).domain.end
                        <= rd.end || (#[trigger] out@[k]).domain.end <= om[j as int].domain.start,
                forall|s: int| #[trigger]
                    stage_at(out@, s) == if rd.spec_contains(s) {
                        None::<Stage>
                    } else if s < rd.start {
                        stage_at(om, s)
                    } else {
                        stage_at(om.take(j as int), s)
                    },
            decreases om.len() - j,
        {
            let c = self.map[j];
            let ghost prev = out@;
            if c.domain.end > rd.end {
                let st = if c.domain.start > rd.end {
                    c.domain.start
                } else {
                    rd.end
                };
                let frag = Cluster { domain: Domain { start: st, end: c.domain.end }, stage: c.stage };
                out.push(frag);
                proof {
                    assert forall|s: int| #[trigger]
                        stage_at(out@, s) == if rd.spec_contains(s) {
                            None::<Stage>
                        } else if s < rd.start {
                            stage_at(om, s)
                        } else {
                            stage_at(om.take(j + 1), s)
                        } by {
                        lemma_stage_at_push(prev, frag, s);
                        assert(om.take(j + 1) =~= om.take(j as int).push(om[j as int]));
                        lemma_stage_at_push(om.take(j as int), om[j as int], s);
                    }
                }
            } else {
                proof {
                    assert forall|s: int| #[trigger]
                        stage_at(out@, s) == if rd.spec_contains(s) {
                            None::<Stage>
                        } else if s < rd.start {
                            stage_at(om, s)
                        } else {
                            stage_at(om.take(j + 1), s)
                        } by {
                        assert(om.take(j + 1) =~= om.take(j as int).push(om[j as int]));
                        lemma_stage_at_push(om.take(j as int), om[j as int], s);
                    }
                }
            }
            j += 1;
        }
        proof {
            assert(om.take(om.len() as int) =~= om);
        }

        self.map = out;
    }

    /// Defragments cluster groups: walk the clusters left to right and merge
    /// every run of adjacent clusters sharing a stage into a single cluster,
    /// so the cluster count stays proportional to the number of stage
    /// transitions.
    pub fn defrag(&mut self)
        requires
            old(self).wf(),
        ensures
            final(self).wf(),
            final(self).sector_size == old(self).sector_size,
            final(self).domain == old(self).domain,
            final(self).map@ == spec_defrag(old(self).map@),
            forall|s: int| #[trigger]
                final(self).spec_stage_at(s) == old(self).spec_stage_at(s),
            forall|i: int|
                0 <= i < final(self).map@.len() - 1 ==> !mergeable(
                    #[trigger] final(self).map@[i],
                    final(self).map@[i + 1],
                ),
            old(self).tiles() ==> final(self).tiles(),
    {
        let ghost om = self.map@;
        let mut out: Vec<Cluster> = Vec::new();
        let mut i: usize = 0;
        proof {
            assert(om.skip(0) =~= om);
            assert(out@ + spec_defrag(om) =~= spec_defrag(om));
        }
        while i < self.map.len()
            invariant
                0 <= i <= om.len(),
                self.map@ == om,
                self == old(self),
                spec_defrag(om) == out@ + spec_defrag(om.skip(i as int)),
            decreases om.len() - i,
        {
            let mut cur = self.map[i];
            i += 1;
            let ghost i0: int = i as int;
            proof {
                assert(seq![cur] + om.skip(i as int) =~= om.skip(i0 - 1));
            }
            while i < self.map.len()
                invariant
                    0 < i <= om.len(),
                    i0 <= i as int,
                    self.map@ == om,
                    self == old(self),
                    spec_defrag(om) == out@ + spec_defrag(seq![cur] + om.skip(i as int)),
                ensures
                    0 < i <= om.len(),
                    i0 <= i as int,
                    self.map@ == om,
                    self == old(self),
                    spec_defrag(om) == out@ + spec_defrag(seq![cur] + om.skip(i as int)),
                    i == om.len() || !mergeable(cur, om[i as int]),
                decreases om.len() - i,
            {
                let c = self.map[i];
                if !(c.domain.start == cur.domain.end && c.stage == cur.stage) {
                    break;
                }
                proof {
                    let t = seq![cur] + om.skip(i as int);
                    assert(t[0] == cur);
                    assert(t[1] == om[i as int]);
                    assert(mergeable(t[0], t[1]));
                    let merged_cur = Cluster {
                        domain: Domain { start: cur.domain.start, end: c.domain.end },
                        stage: cur.stage,
                    };
                    assert(merged(t[0], t[1]) == merged_cur);
                    assert(seq![merged_cur] + om.skip(i as int + 1) =~= seq![merged(t[0], t[1])]
                        + t.skip(2));
                    assert(spec_defrag(t) == spec_defrag(seq![merged_cur] + om.skip(i as int + 1)));
                }
                cur = Cluster {
                    domain: Domain { start: cur.domain.start, end: c.domain.end },
                    stage: cur.stage,
                };
                i += 1;
            }
            let ghost prev = out@;
            proof {
                let t = seq![cur] + om.skip(i as int);
                if i < om.len() {
                    assert(t[0] == cur);
                    assert(t[1] == om[i as int]);
                    assert(!mergeable(t[0], t[1]));
                    assert(t.skip(1) =~= om.skip(i as int));
                    assert(spec_defrag(t) == seq![cur] + spec_defrag(om.skip(i as int)));
                } else {
                    assert(om.skip(i as int) =~= Seq::<Cluster>::empty());
                    assert(t =~= seq![cur]);
                    assert(spec_defrag(t) == seq![cur]);
                    assert(spec_defrag(om.skip(i as int)) =~= Seq::<Cluster>::empty());
                    assert(seq![cur] + spec_defrag(om.skip(i as int)) =~= seq![cur]);
                }
            }
            out.push(cur);
            proof {
                assert(out@ =~= prev.push(cur));
                assert(prev + (seq![cur] + spec_defrag(om.skip(i as int))) =~= out@ + spec_defrag(
                    om.skip(i as int),
                ));
                assert(spec_defrag(om) == out@ + spec_defrag(om.skip(i as int)));
            }
        }
        proof {
            assert(om.skip(om.len() as int) =~= Seq::<Cluster>::empty());
            assert(spec_defrag(om) == out@ + Seq::<Cluster>::empty());
            assert(out@ + Seq::<Cluster>::empty() =~= out@);
        }
        self.map = out;
        proof {
            lemma_defrag_ordered(om, old(self).domain.start as int, old(self).domain.end as int);
            lemma_defrag_canonical(om);
            assert forall|s: int| #[trigger]
                stage_at(self.map@, s) == stage_at(om, s) by {
                lemma_defrag_stage_at(om, s);
            }
            if old(self).tiles() {
                assert forall|s: int| self.domain.spec_contains(s) implies #[trigger] stage_at(
                    self.map@,
                    s,
                ) is Some by {
                    lemma_tiles_covered(*old(self), s);
                }
                lemma_covered_implies_tiles(*self);
            }
        }
    }

    /// Validate well-formedness: returns true exactly when the domain does
    /// not run backwards and the clusters are non-empty, ordered,
    /// non-overlapping and inside the domain. Unlike a full tiling, gaps are
    /// allowed, as recovered ranges leave them behind.
    pub fn check_wf(&self) -> (b: bool)
        ensures
            b == self.wf(),
    {
        if self.domain.start > self.domain.end {
            return false;
        }
        let mut i: usize = 0;
        while i < self.map.len()
            invariant
                0 <= i <= self.map@.len(),
                self.domain.wf(),
                forall|k: int|
                    0 <= k < i ==> (#[trigger] self.map@[k]).domain.start
                        < self.map@[k].domain.end,
                forall|k: int|
                    0 <= k < i ==> self.domain.start <= (#[trigger] self.map@[k]).domain.start
                        && self.map@[k].domain.end <= self.domain.end,
                forall|k: int|
                    0 <= k < i && k + 1 < self.map@.len() ==> (#[trigger] self.map@[k]).domain.end
                        <= self.map@[k + 1].domain.start,
                forall|a: int, b: int|
                    0 <= a < b < i ==> (#[trigger] self.map@[a]).domain.end <= (
                    #[trigger] self.map@[b]).domain.start,
            decreases self.map@.len() - i,
        {
            let c = self.map[i];
            if c.domain.start >= c.domain.end {
                return false;
            }
            if c.domain.start < self.domain.start || c.domain.end > self.domain.end {
                return false;
            }
            if i + 1 < self.map.len() {
                let nx = self.map[i + 1];
                if c.domain.end > nx.domain.start {
                    return false;
                }
            }
            proof {
                assert forall|a: int| 0 <= a < i implies (#[trigger] self.map@[a]).domain.end
                    <= self.map@[i as int].domain.start by {
                    if a < i - 1 {
                        assert(self.map@[a].domain.end <= self.map@[i - 1].domain.start);
                    }
                }
            }
            i += 1;
        }
        true
    }

    /// Validate the tiling invariant, as a freshly loaded map must be:
    /// returns true exactly when the clusters tile the whole domain.
    pub fn check_tiling(&self) -> (b: bool)
        ensures
            b == self.tiles(),
    {
        if self.domain.start > self.domain.end {
            return false;
        }
        if self.map.len() == 0 {
            return self.domain.start == self.domain.end;
        }
        if self.map[0].domain.start != self.domain.start {
            return false;
        }
        if self.map[self.map.len() - 1].domain.end != self.domain.end {
            return false;
        }
        let mut i: usize = 0;
        while i < self.map.len()
            invariant
                0 <= i <= self.map@.len(),
                self.map@.len() > 0,
                self.domain.wf(),
                self.map@[0].domain.start == self.domain.start,
                self.map@[self.map@.len() - 1].domain.end == self.domain.end,
                forall|k: int|
                    0 <= k < i ==> (#[trigger] self.map@[k]).domain.start
                        < self.map@[k].domain.end,
                forall|k: int|
                    0 <= k < i && k + 1 < self.map@.len() ==> (#[trigger] self.map@[k]).domain.end
                        == self.map@[k + 1].domain.start,
                forall|a: int, b: int|
                    0 <= a < b < i ==> (#[trigger] self.map@[a]).domain.end <= (
                    #[trigger] self.map@[b]).domain.start,
            decreases self.map@.len() - i,
        {
            let c = self.map[i];
            if c.domain.start >= c.domain.end {
                return false;
            }
            if i + 1 < self.map.len() {
                let nx = self.map[i + 1];
                if c.domain.end != nx.domain.start {
                    return false;
                }
            }
            proof {
                assert forall|a: int| 0 <= a < i implies (#[trigger] self.map@[a]).domain.end
                    <= self.map@[i as int].domain.start by {
                    if a < i - 1 {
                        assert(self.map@[a].domain.end <= self.map@[i - 1].domain.start);
                    }
                }
            }
            i += 1;
        }
        proof {
            assert forall|k: int|
                0 <= k < self.map@.len() implies self.domain.start <= (
            #[trigger] self.map@[k]).domain.start && self.map@[k].domain.end
                <= self.domain.end by {
                if k > 0 {
                    assert(self.map@[0].domain.end <= self.map@[k].domain.start);
                }
                if k < self.map@.len() - 1 {
                    assert(self.map@[k].domain.end <= self.map@[self.map@.len() - 1].domain.start);
                }
            }
        }
        true
    }

    pub fn set_sector_size(&mut self, sector_size: u16)
        ensures
            final(self).sector_size == sector_size,
            final(self).domain == old(self).domain,
            final(self).map == old(self).map,
    {
        self.sector_size = sector_size;
    }
}

/// A tiling map covers every sector of its domain.
proof fn lemma_tiles_covered(m: MapFile, s: int)
    requires
        m.tiles(),
        m.domain.spec_contains(s),
    ensures
        stage_at(m.map@, s) is Some,
{
    assert(m.map@.len() > 0);
    lemma_chain_covered(m.map@, s);
}

/// A well-formed map that covers every sector of its domain tiles it: order,
/// disjointness and full coverage force the chain to be contiguous.
proof fn lemma_covered_implies_tiles(m: MapFile)
    requires
        m.wf(),
        forall|s: int| m.domain.spec_contains(s) ==> #[trigger] stage_at(m.map@, s) is Some,
    ensures
        m.tiles(),
{
    let cs = m.map@;
    let n: int = cs.len() as int;
    if n == 0 {
        if m.domain.start < m.domain.end {
            assert(stage_at(cs, m.domain.start as int) is Some);
            assert(false);
        }
    } else {
        if cs[0].domain.start != m.domain.start {
            let s: int = m.domain.start as int;
            assert(m.domain.spec_contains(s));
            assert(stage_at(cs, s) is Some);
            lemma_stage_at_some_index(cs, s);
            let i = choose|i: int|
                0 <= i < n && (#[trigger] cs[i]).domain.spec_contains(s) && cs[i].stage == stage_at(
                    cs,
                    s,
                )->0;
            if i > 0 {
                assert(cs[0].domain.end <= cs[i].domain.start);
            }
            assert(false);
        }
        assert forall|i: int| 0 <= i < n - 1 implies (#[trigger] cs[i]).domain.end == cs[i
            + 1].domain.start by {
            if cs[i].domain.end != cs[i + 1].domain.start {
                let s: int = cs[i].domain.end as int;
                assert(cs[i].domain.end <= cs[i + 1].domain.start);
                assert(m.domain.spec_contains(s));
                assert(stage_at(cs, s) is Some);
                lemma_stage_at_some_index(cs, s);
                let j = choose|j: int|
                    0 <= j < n && (#[trigger] cs[j]).domain.spec_contains(s) && cs[j].stage
                        == stage_at(cs, s)->0;
                if j < i {
                    assert(cs[j].domain.end <= cs[i].domain.start);
                } else if j > i + 1 {
                    assert(cs[i + 1].domain.end <= cs[j].domain.start);
                } else if j == i + 1 {
                    assert(s < cs[i + 1].domain.start);
                }
                assert(false);
            }
        }
        if cs[n - 1].domain.end != m.domain.end {
            let s: int = cs[n - 1].domain.end as int;
            assert(m.domain.spec_contains(s));
            assert(stage_at(cs, s) is Some);
            lemma_stage_at_some_index(cs, s);
            let j = choose|j: int|
                0 <= j < n && (#[trigger] cs[j]).domain.spec_contains(s) && cs[j].stage == stage_at(
                    cs,
                    s,
                )->0;
            if j < n - 1 {
                assert(cs[j].domain.end <= cs[n - 1].domain.start);
            }
            assert(false);
        }
    }
}

impl Default for MapFile {
    /// The default map: fallback sector size, single-sector domain, one
    /// untested cluster covering it.
    fn default() -> (m: MapFile)
        ensures
            m.sector_size == crate::FB_SECTOR_SIZE,
            m.domain == (Domain { start: 0, end: 1 }),
            m.map@.len() == 1,
            m.map@[0] == (Cluster { domain: Domain { start: 0, end: 1 }, stage: Stage::Untested }),
            m.tiles(),
    {
        let mut map: Vec<Cluster> = Vec::new();
        map.push(Cluster { domain: Domain { start: 0, end: 1 }, stage: Stage::Untested });
        MapFile { sector_size: crate::FB_SECTOR_SIZE, domain: Domain { start: 0, end: 1 }, map }
    }
}

} // verus!
