//! The occupancy invariants, and which operations keep them.
//!
//! Three properties hold along every history that avoids a few named
//! steps: each measure bounds the live pages of its segment, the cleaning
//! set is sound, and the ordering matches the records. For each operation
//! the lemmas below say exactly which steps break them.
use crate::config::{
    lemma_aligned_same_segment, lemma_segment_index_of_start, lemma_segment_start_below,
    lemma_segment_start_monotonic, LogID, Lsn, PageID,
};
use crate::model::{extend_to, State};
use crate::segment::SegmentView;
use vstd::prelude::*;

verus! {

impl State {
    /// In every segment, the measure, once taken, bounds the live pages.
    pub open spec fn measures_bound_pids(self) -> bool {
        forall|i: int|
            0 <= i < self.segments.len() ==> (#[trigger] self.segments[i]).measure_bounds_pids()
    }

    /// Every segment in the cleaning set has a record, is not released,
    /// and has an occupancy within the threshold.
    pub open spec fn cleaning_set_sound(self) -> bool {
        forall|lid: LogID| #[trigger]
            self.to_clean.contains(lid) ==> {
                &&& self.tracks(lid)
                &&& !self.segments[self.config.segment_index(lid)].freed
                &&& self.segments[self.config.segment_index(lid)].cleanable(self.config)
            }
    }

    /// Whether `merged` adds a page to a segment whose measure was taken
    /// and is already reached: the one step of `merged` after which the
    /// measure no longer bounds the live pages.
    pub open spec fn merge_overfills(self, pid: PageID, lid: LogID, lsn: Lsn) -> bool {
        let idx = self.config.segment_index(lid);
        let segment = extend_to(self.segments, idx + 1)[idx];
        &&& self.reaches(lid, lsn)
        &&& segment.pids_len != 0
        &&& !segment.pids.contains(pid)
        &&& segment.pids.len() >= segment.pids_len
    }

    /// Whether `merged` adds a page to a segment of the cleaning set and
    /// so lifts its occupancy above the threshold: the one step of
    /// `merged` after which the cleaning set is no longer sound.
    pub open spec fn merge_crowds(self, pid: PageID, lid: LogID, lsn: Lsn) -> bool {
        let idx = self.config.segment_index(lid);
        let segment = extend_to(self.segments, idx + 1)[idx];
        &&& self.reaches(lid, lsn)
        &&& self.to_clean.contains(self.config.segment_start(idx) as LogID)
        &&& !(SegmentView { pids: segment.pids.insert(pid), ..segment }).cleanable(self.config)
    }

    /// Whether `vacate` touches a segment that was released already and
    /// finds its occupancy within the threshold, so that a released
    /// segment enters the cleaning set: the one step of `vacate` after
    /// which the cleaning set is no longer sound.
    pub open spec fn vacate_revives(self, pid: PageID, lid: LogID, lsn: Lsn) -> bool {
        let idx = self.config.segment_index(lid);
        let segment = extend_to(self.segments, idx + 1)[idx];
        &&& self.reaches(lid, lsn)
        &&& segment.freed
        &&& self.shrunk(pid, lid, lsn).cleanable(self.config)
    }

    /// Whether the segment that an allocation takes is in the cleaning
    /// set: the one allocation after which the cleaning set is no longer
    /// sound.
    pub open spec fn allocates_from_cleaning_set(self) -> bool {
        self.to_clean.contains(
            self.config.segment_start(self.config.segment_index(self.front_or_tip() as LogID)) as LogID,
        )
    }

    /// Bringing the free list to the safe-reuse distance changes the tip
    /// and the free list only.
    pub proof fn lemma_ensure_frame(self)
        ensures
            self.ensure_safe_free_distance().segments == self.segments,
            self.ensure_safe_free_distance().to_clean == self.to_clean,
            self.ensure_safe_free_distance().pending_clean == self.pending_clean,
            self.ensure_safe_free_distance().config == self.config,
            self.ensure_safe_free_distance().ordering == self.ordering,
    {
        self.lemma_ensure_safe_free_distance();
    }

    /// What `vacate` leaves of the records and of the cleaning set.
    pub proof fn lemma_vacate_effect(self, pid: PageID, lid: LogID, lsn: Lsn)
        requires
            self.config.io_buf_size > 0,
        ensures
            ({
                let idx = self.config.segment_index(lid);
                let start = self.config.segment_start(idx) as LogID;
                let segments = extend_to(self.segments, idx + 1);
                let shrunk = self.shrunk(pid, lid, lsn);
                let after = self.vacate(pid, lid, lsn);
                &&& 0 <= idx < segments.len()
                &&& start as int == self.config.segment_start(idx)
                &&& start as int % self.config.io_buf_size as int == 0
                &&& self.config.segment_index(start) == idx
                &&& after.config == self.config
                &&& after.pending_clean == self.pending_clean
                &&& !self.reaches(lid, lsn) ==> after == self
                &&& self.reaches(lid, lsn) && self.vacate_releases(pid, lid, lsn) ==> {
                    &&& after.segments == segments.update(
                        idx,
                        SegmentView { freed: true, ..shrunk },
                    )
                    &&& after.to_clean == self.to_clean.remove(start)
                }
                &&& self.reaches(lid, lsn) && !self.vacate_releases(pid, lid, lsn) ==> {
                    &&& after.segments == segments.update(idx, shrunk)
                    &&& after.to_clean == if shrunk.cleanable(self.config) {
                        self.to_clean.insert(start)
                    } else {
                        self.to_clean
                    }
                }
            }),
    {
        let idx = self.config.segment_index(lid);
        let start = self.config.segment_start(idx) as LogID;
        let segments = extend_to(self.segments, idx + 1);
        let shrunk = self.shrunk(pid, lid, lsn);
        lemma_segment_start_below(self.config, lid);
        State {
            segments: segments.update(idx, SegmentView { freed: true, ..shrunk }),
            to_clean: self.to_clean.remove(start),
            ..self
        }.lemma_ensure_frame();
    }

    /// `vacate` keeps a state coherent.
    pub proof fn lemma_vacate_coherent(self, pid: PageID, lid: LogID, lsn: Lsn)
        requires
            self.coherent(),
        ensures
            self.vacate(pid, lid, lsn).coherent(),
    {
        self.lemma_vacate_effect(pid, lid, lsn);
        let idx = self.config.segment_index(lid);
        let after = self.vacate(pid, lid, lsn);
        if self.reaches(lid, lsn) {
            assert forall|i: int| 0 <= i < after.segments.len() implies (
            #[trigger] after.segments[i]).wf() by {
                if i != idx && i < self.segments.len() {
                    assert(self.segments[i].wf());
                }
                if i == idx && i < self.segments.len() {
                    assert(self.segments[i].wf());
                }
            }
            assert forall|l: LogID| #[trigger] after.to_clean.contains(l) implies after.tracks(
                l,
            ) by {
                if self.to_clean.contains(l) {
                    assert(self.tracks(l));
                }
            }
        }
    }

    /// `vacate` keeps every measure a bound on the live pages.
    pub proof fn lemma_vacate_keeps_measures(self, pid: PageID, lid: LogID, lsn: Lsn)
        requires
            self.coherent(),
            self.measures_bound_pids(),
        ensures
            self.vacate(pid, lid, lsn).measures_bound_pids(),
    {
        self.lemma_vacate_effect(pid, lid, lsn);
        let idx = self.config.segment_index(lid);
        let after = self.vacate(pid, lid, lsn);
        if self.reaches(lid, lsn) {
            let segment = extend_to(self.segments, idx + 1)[idx];
            if idx < self.segments.len() {
                assert(self.segments[idx].wf());
                assert(self.segments[idx].measure_bounds_pids());
            }
            assert(segment.pids.finite());
            assert(segment.pids.remove(pid).len() <= segment.pids.len());
            assert forall|i: int| 0 <= i < after.segments.len() implies (
            #[trigger] after.segments[i]).measure_bounds_pids() by {
                if i != idx && i < self.segments.len() {
                    assert(self.segments[i].measure_bounds_pids());
                }
            }
        }
    }

    /// `vacate` keeps the cleaning set sound, unless it revives a released
    /// segment.
    pub proof fn lemma_vacate_cleaning_set(self, pid: PageID, lid: LogID, lsn: Lsn)
        requires
            self.coherent(),
            self.cleaning_set_sound(),
        ensures
            self.vacate(pid, lid, lsn).cleaning_set_sound() <==> !self.vacate_revives(
                pid,
                lid,
                lsn,
            ),
    {
        self.lemma_vacate_effect(pid, lid, lsn);
        let idx = self.config.segment_index(lid);
        let start = self.config.segment_start(idx) as LogID;
        let segments = extend_to(self.segments, idx + 1);
        let segment = segments[idx];
        let shrunk = self.shrunk(pid, lid, lsn);
        let after = self.vacate(pid, lid, lsn);
        if self.reaches(lid, lsn) {
            if idx < self.segments.len() {
                assert(self.segments[idx].wf());
            }
            assert(segment.pids.finite());
            assert forall|l: LogID| #[trigger] after.to_clean.contains(l) && l != start implies {
                &&& after.tracks(l)
                &&& !after.segments[after.config.segment_index(l)].freed
                &&& after.segments[after.config.segment_index(l)].cleanable(after.config)
            } by {
                assert(self.to_clean.contains(l));
                assert(self.tracks(l));
                if self.config.segment_index(l) == idx {
                    lemma_aligned_same_segment(self.config, l, start);
                }
            }
            if self.to_clean.contains(start) {
                assert(self.tracks(start));
                assert(!segment.freed);
                assert(segment.cleanable(self.config));
                if !shrunk.pids.is_empty() {
                    assert(shrunk.pids.len() <= segment.pids.len());
                    assert(shrunk.measure() == segment.measure());
                    vstd::arithmetic::mul::lemma_mul_inequality(
                        shrunk.pids.len() as int,
                        segment.pids.len() as int,
                        self.config.threshold_den as int,
                    );
                    assert(shrunk.cleanable(self.config));
                }
            }
            if self.vacate_revives(pid, lid, lsn) {
                assert(after.to_clean.contains(start));
                assert(after.segments[after.config.segment_index(start)].freed);
            } else {
                assert forall|l: LogID| #[trigger] after.to_clean.contains(l) implies {
                    &&& after.tracks(l)
                    &&& !after.segments[after.config.segment_index(l)].freed
                    &&& after.segments[after.config.segment_index(l)].cleanable(after.config)
                } by {
                    if l != start {
                        assert(after.to_clean.contains(l) && l != start);
                    }
                }
            }
        }
    }

    /// After `vacate` the measure of the segment it reached is taken and
    /// bounds the live pages, if it did before or was not yet taken.
    pub proof fn lemma_vacate_takes_measure(self, pid: PageID, lid: LogID, lsn: Lsn)
        requires
            self.coherent(),
            self.reaches(lid, lsn),
            ({
                let idx = self.config.segment_index(lid);
                idx < self.segments.len() ==> self.segments[idx].measure_bounds_pids()
            }),
        ensures
            ({
                let idx = self.config.segment_index(lid);
                let before = extend_to(self.segments, idx + 1)[idx];
                let touched = self.vacate(pid, lid, lsn).segments[idx];
                &&& touched.pids_len == if before.pids_len == 0 {
                    before.pids.len()
                } else {
                    before.pids_len
                }
                &&& touched.pids == before.pids.remove(pid)
                &&& touched.pids.len() <= before.pids.len()
                &&& touched.pids.len() <= touched.pids_len
                &&& !touched.pids.contains(pid)
            }),
    {
        self.lemma_vacate_effect(pid, lid, lsn);
        let idx = self.config.segment_index(lid);
        let segment = extend_to(self.segments, idx + 1)[idx];
        if idx < self.segments.len() {
            assert(self.segments[idx].wf());
        }
        assert(segment.pids.finite());
        assert(segment.pids.remove(pid).len() <= segment.pids.len());
    }

    /// `merged` keeps a state coherent.
    pub proof fn lemma_merged_coherent(self, pid: PageID, lid: LogID, lsn: Lsn)
        requires
            self.coherent(),
        ensures
            self.merged(pid, lid, lsn).coherent(),
    {
        lemma_segment_start_below(self.config, lid);
        let idx = self.config.segment_index(lid);
        let after = self.merged(pid, lid, lsn);
        if self.reaches(lid, lsn) {
            assert forall|i: int| 0 <= i < after.segments.len() implies (
            #[trigger] after.segments[i]).wf() by {
                if i < self.segments.len() {
                    assert(self.segments[i].wf());
                }
            }
            assert forall|l: LogID| #[trigger] after.to_clean.contains(l) implies after.tracks(
                l,
            ) by {
                assert(self.tracks(l));
            }
        }
    }

    /// `merged` keeps every measure a bound on the live pages, unless it
    /// overfills a measured segment.
    pub proof fn lemma_merged_measures(self, pid: PageID, lid: LogID, lsn: Lsn)
        requires
            self.coherent(),
            self.measures_bound_pids(),
        ensures
            self.merged(pid, lid, lsn).measures_bound_pids() <==> !self.merge_overfills(
                pid,
                lid,
                lsn,
            ),
    {
        lemma_segment_start_below(self.config, lid);
        let idx = self.config.segment_index(lid);
        let segment = extend_to(self.segments, idx + 1)[idx];
        let after = self.merged(pid, lid, lsn);
        if self.reaches(lid, lsn) {
            if idx < self.segments.len() {
                assert(self.segments[idx].wf());
                assert(self.segments[idx].measure_bounds_pids());
            }
            assert(segment.pids.finite());
            assert(segment.measure_bounds_pids());
            if self.merge_overfills(pid, lid, lsn) {
                assert(!after.segments[idx].measure_bounds_pids());
            } else {
                assert forall|i: int| 0 <= i < after.segments.len() implies (
                #[trigger] after.segments[i]).measure_bounds_pids() by {
                    if i != idx && i < self.segments.len() {
                        assert(self.segments[i].measure_bounds_pids());
                    }
                }
            }
        }
    }

    /// `merged` keeps the cleaning set sound, unless it crowds a segment
    /// of the cleaning set.
    pub proof fn lemma_merged_cleaning_set(self, pid: PageID, lid: LogID, lsn: Lsn)
        requires
            self.coherent(),
            self.cleaning_set_sound(),
        ensures
            self.merged(pid, lid, lsn).cleaning_set_sound() <==> !self.merge_crowds(
                pid,
                lid,
                lsn,
            ),
    {
        lemma_segment_start_below(self.config, lid);
        let idx = self.config.segment_index(lid);
        let start = self.config.segment_start(idx) as LogID;
        let segment = extend_to(self.segments, idx + 1)[idx];
        let after = self.merged(pid, lid, lsn);
        if self.reaches(lid, lsn) {
            assert forall|l: LogID| #[trigger] after.to_clean.contains(l) && l != start implies {
                &&& after.tracks(l)
                &&& !after.segments[after.config.segment_index(l)].freed
                &&& after.segments[after.config.segment_index(l)].cleanable(after.config)
            } by {
                assert(self.tracks(l));
                if self.config.segment_index(l) == idx {
                    lemma_aligned_same_segment(self.config, l, start);
                }
            }
            if self.to_clean.contains(start) {
                assert(self.tracks(start));
            }
            if self.merge_crowds(pid, lid, lsn) {
                assert(after.to_clean.contains(start));
            } else {
                assert forall|l: LogID| #[trigger] after.to_clean.contains(l) implies {
                    &&& after.tracks(l)
                    &&& !after.segments[after.config.segment_index(l)].freed
                    &&& after.segments[after.config.segment_index(l)].cleanable(after.config)
                } by {
                    if l != start {
                        assert(after.to_clean.contains(l) && l != start);
                    }
                }
            }
        }
    }

    /// An allocation keeps a state coherent and every measure a bound on
    /// the live pages; it keeps the cleaning set sound unless the segment
    /// it takes is in that set.
    pub proof fn lemma_allocate_invariants(self, lsn: Lsn)
        requires
            self.coherent(),
            self.can_allocate(),
        ensures
            self.allocate(lsn).coherent(),
            self.measures_bound_pids() ==> self.allocate(lsn).measures_bound_pids(),
            self.cleaning_set_sound() ==> (self.allocate(lsn).cleaning_set_sound()
                <==> !self.allocates_from_cleaning_set()),
    {
        let lid = self.front_or_tip() as LogID;
        lemma_segment_start_below(self.config, lid);
        let idx = self.config.segment_index(lid);
        let start = self.config.segment_start(idx) as LogID;
        let after = self.allocate(lsn);
        assert forall|i: int| 0 <= i < after.segments.len() implies (
        #[trigger] after.segments[i]).wf() by {
            if i < self.segments.len() {
                assert(self.segments[i].wf());
            }
        }
        assert forall|l: LogID| #[trigger] after.to_clean.contains(l) implies after.tracks(l) by {
            assert(self.tracks(l));
        }
        if self.measures_bound_pids() {
            assert forall|i: int| 0 <= i < after.segments.len() implies (
            #[trigger] after.segments[i]).measure_bounds_pids() by {
                if i != idx && i < self.segments.len() {
                    assert(self.segments[i].measure_bounds_pids());
                }
            }
        }
        if self.cleaning_set_sound() {
            assert forall|l: LogID| #[trigger] after.to_clean.contains(l) && l != start implies {
                &&& after.tracks(l)
                &&& !after.segments[after.config.segment_index(l)].freed
                &&& after.segments[after.config.segment_index(l)].cleanable(after.config)
            } by {
                assert(self.tracks(l));
                if self.config.segment_index(l) == idx {
                    lemma_aligned_same_segment(self.config, l, start);
                }
            }
            if self.allocates_from_cleaning_set() {
                assert(self.tracks(start));
                assert(after.to_clean.contains(start));
                assert(after.segments[idx].pids.is_empty());
                assert(after.segments[idx].pids.len() == 0);
                assert(!after.segments[idx].cleanable(after.config));
            } else {
                assert forall|l: LogID| #[trigger] after.to_clean.contains(l) implies {
                    &&& after.tracks(l)
                    &&& !after.segments[after.config.segment_index(l)].freed
                    &&& after.segments[after.config.segment_index(l)].cleanable(after.config)
                } by {
                    if l != start {
                        assert(after.to_clean.contains(l) && l != start);
                    }
                }
            }
        }
    }

    /// `recover`, `release` and `clean` keep a state coherent, every
    /// measure a bound on the live pages, and the cleaning set sound.
    pub proof fn lemma_plain_steps_keep_invariants(self, lsn: Lsn, lid: LogID, pid: PageID)
        requires
            self.coherent(),
        ensures
            self.recover(lsn, lid).coherent(),
            self.release(lid).coherent(),
            self.cleaning(pid).coherent(),
            self.measures_bound_pids() ==> {
                &&& self.recover(lsn, lid).measures_bound_pids()
                &&& self.release(lid).measures_bound_pids()
                &&& self.cleaning(pid).measures_bound_pids()
            },
            self.cleaning_set_sound() ==> {
                &&& self.recover(lsn, lid).cleaning_set_sound()
                &&& self.release(lid).cleaning_set_sound()
                &&& self.cleaning(pid).cleaning_set_sound()
            },
    {
        lemma_segment_start_below(self.config, lid);
        let idx = self.config.segment_index(lid);
        let after = self.recover(lsn, lid);
        assert forall|i: int| 0 <= i < after.segments.len() implies (
        #[trigger] after.segments[i]).wf() by {
            if i < self.segments.len() {
                assert(self.segments[i].wf());
            }
        }
        assert forall|l: LogID| #[trigger] after.to_clean.contains(l) implies after.tracks(l) by {
            assert(self.tracks(l));
        }
        if self.measures_bound_pids() {
            assert forall|i: int| 0 <= i < after.segments.len() implies (
            #[trigger] after.segments[i]).measure_bounds_pids() by {
                if i < self.segments.len() {
                    assert(self.segments[i].measure_bounds_pids());
                }
            }
        }
        if self.cleaning_set_sound() {
            assert forall|l: LogID| #[trigger] after.to_clean.contains(l) implies {
                &&& after.tracks(l)
                &&& !after.segments[after.config.segment_index(l)].freed
                &&& after.segments[after.config.segment_index(l)].cleanable(after.config)
            } by {
                assert(self.tracks(l));
            }
        }
    }

    /// Whether some segment in the cleaning set is marked released.
    pub open spec fn cleans_released_segment(self) -> bool {
        exists|lid: LogID| #[trigger]
            self.to_clean.contains(lid) && self.tracks(lid) && self.segments[self.config.segment_index(
                lid,
            )].freed
    }

    /// Whether, while `pid` left the segments of the first `n` of
    /// `old_lids`, some step revived a released segment.
    pub open spec fn vacated_revives(
        self,
        pid: PageID,
        old_lids: Seq<LogID>,
        keep: Option<int>,
        lsn: Lsn,
        n: nat,
    ) -> bool
        decreases n,
    {
        if n == 0 {
            false
        } else {
            let before = self.vacated(pid, old_lids, keep, lsn, (n - 1) as nat);
            let lid = old_lids[n - 1];
            self.vacated_revives(pid, old_lids, keep, lsn, (n - 1) as nat) || (keep != Some(
                self.config.segment_index(lid),
            ) && before.vacate_revives(pid, lid, lsn))
        }
    }

    /// A released segment in the cleaning set stays there, released,
    /// through `vacate` and `merged`.
    pub proof fn lemma_released_segment_stays_cleaned(self, pid: PageID, lid: LogID, lsn: Lsn)
        requires
            self.coherent(),
            self.cleans_released_segment(),
        ensures
            self.vacate(pid, lid, lsn).cleans_released_segment(),
            self.merged(pid, lid, lsn).cleans_released_segment(),
    {
        self.lemma_vacate_effect(pid, lid, lsn);
        let idx = self.config.segment_index(lid);
        let start = self.config.segment_start(idx) as LogID;
        let witness = choose|l: LogID| #[trigger]
            self.to_clean.contains(l) && self.tracks(l) && self.segments[self.config.segment_index(
                l,
            )].freed;
        let after = self.vacate(pid, lid, lsn);
        if self.config.segment_index(witness) == idx {
            lemma_aligned_same_segment(self.config, witness, start);
        }
        assert(after.to_clean.contains(witness) && after.tracks(witness)
            && after.segments[after.config.segment_index(witness)].freed);
        let merged = self.merged(pid, lid, lsn);
        assert(merged.to_clean.contains(witness) && merged.tracks(witness)
            && merged.segments[merged.config.segment_index(witness)].freed);
    }

    /// While a page leaves its old segments, the state stays coherent and
    /// every measure stays a bound on the live pages; the cleaning set
    /// stays sound unless some step revives a released segment.
    pub proof fn lemma_vacated_invariants(
        self,
        pid: PageID,
        old_lids: Seq<LogID>,
        keep: Option<int>,
        lsn: Lsn,
        n: nat,
    )
        requires
            self.coherent(),
        ensures
            self.vacated(pid, old_lids, keep, lsn, n).coherent(),
            self.vacated(pid, old_lids, keep, lsn, n).config == self.config,
            self.measures_bound_pids() ==> self.vacated(
                pid,
                old_lids,
                keep,
                lsn,
                n,
            ).measures_bound_pids(),
            self.cleaning_set_sound() ==> (self.vacated(
                pid,
                old_lids,
                keep,
                lsn,
                n,
            ).cleaning_set_sound() <==> !self.vacated_revives(pid, old_lids, keep, lsn, n)),
            self.cleaning_set_sound() && self.vacated_revives(pid, old_lids, keep, lsn, n)
                ==> self.vacated(pid, old_lids, keep, lsn, n).cleans_released_segment(),
        decreases n,
    {
        if n > 0 {
            let before = self.vacated(pid, old_lids, keep, lsn, (n - 1) as nat);
            let lid = old_lids[n - 1];
            self.lemma_vacated_invariants(pid, old_lids, keep, lsn, (n - 1) as nat);
            if keep != Some(self.config.segment_index(lid)) {
                let after = before.vacate(pid, lid, lsn);
                before.lemma_vacate_coherent(pid, lid, lsn);
                before.lemma_vacate_effect(pid, lid, lsn);
                if self.measures_bound_pids() {
                    before.lemma_vacate_keeps_measures(pid, lid, lsn);
                }
                if self.cleaning_set_sound() {
                    if self.vacated_revives(pid, old_lids, keep, lsn, (n - 1) as nat) {
                        before.lemma_released_segment_stays_cleaned(pid, lid, lsn);
                    } else {
                        before.lemma_vacate_cleaning_set(pid, lid, lsn);
                        if before.vacate_revives(pid, lid, lsn) {
                            let idx = self.config.segment_index(lid);
                            let start = self.config.segment_start(idx) as LogID;
                            assert(after.to_clean.contains(start) && after.tracks(start)
                                && after.segments[after.config.segment_index(start)].freed);
                        }
                    }
                }
            }
        }
    }

    /// `freed` keeps a state coherent and every measure a bound on the
    /// live pages; it keeps the cleaning set sound unless one of its steps
    /// revives a released segment.
    pub proof fn lemma_freed_invariants(self, pid: PageID, old_lids: Seq<LogID>, lsn: Lsn)
        requires
            self.coherent(),
        ensures
            self.freed(pid, old_lids, lsn).coherent(),
            self.measures_bound_pids() ==> self.freed(pid, old_lids, lsn).measures_bound_pids(),
            self.cleaning_set_sound() ==> (self.freed(pid, old_lids, lsn).cleaning_set_sound()
                <==> !self.settled(pid).vacated_revives(
                pid,
                old_lids,
                None,
                lsn,
                old_lids.len(),
            )),
    {
        let settled = self.settled(pid);
        assert(settled.coherent());
        assert(self.measures_bound_pids() ==> settled.measures_bound_pids());
        assert(self.cleaning_set_sound() ==> settled.cleaning_set_sound());
        settled.lemma_vacated_invariants(pid, old_lids, None, lsn, old_lids.len());
    }

    /// `set` keeps a state coherent. It keeps every measure a bound on the
    /// live pages unless its last step, the placement at `new_lid`,
    /// overfills a measured segment. It keeps the cleaning set sound
    /// unless one of its steps revives a released segment or the
    /// placement crowds a segment of the cleaning set.
    pub proof fn lemma_set_invariants(
        self,
        pid: PageID,
        old_lids: Seq<LogID>,
        new_lid: LogID,
        lsn: Lsn,
    )
        requires
            self.coherent(),
        ensures
            ({
                let keep = Some(self.config.segment_index(new_lid));
                let moved = self.settled(pid).vacated(pid, old_lids, keep, lsn, old_lids.len());
                &&& self.set(pid, old_lids, new_lid, lsn).coherent()
                &&& self.measures_bound_pids() ==> (self.set(
                    pid,
                    old_lids,
                    new_lid,
                    lsn,
                ).measures_bound_pids() <==> !moved.merge_overfills(pid, new_lid, lsn))
                &&& self.cleaning_set_sound() ==> (self.set(
                    pid,
                    old_lids,
                    new_lid,
                    lsn,
                ).cleaning_set_sound() <==> !self.settled(pid).vacated_revives(
                    pid,
                    old_lids,
                    keep,
                    lsn,
                    old_lids.len(),
                ) && !moved.merge_crowds(pid, new_lid, lsn))
            }),
    {
        let settled = self.settled(pid);
        let keep = Some(self.config.segment_index(new_lid));
        let moved = settled.vacated(pid, old_lids, keep, lsn, old_lids.len());
        assert(settled.coherent());
        assert(self.measures_bound_pids() ==> settled.measures_bound_pids());
        assert(self.cleaning_set_sound() ==> settled.cleaning_set_sound());
        settled.lemma_vacated_invariants(pid, old_lids, keep, lsn, old_lids.len());
        moved.lemma_merged_coherent(pid, new_lid, lsn);
        if self.measures_bound_pids() {
            moved.lemma_merged_measures(pid, new_lid, lsn);
        }
        if self.cleaning_set_sound() {
            if settled.vacated_revives(pid, old_lids, keep, lsn, old_lids.len()) {
                moved.lemma_released_segment_stays_cleaned(pid, new_lid, lsn);
            } else {
                moved.lemma_merged_cleaning_set(pid, new_lid, lsn);
            }
        }
    }

    /// Whether installing `segments` leaves the cleaning set sound: what
    /// is in the cleaning set already is live, not released and sparse in
    /// `segments`, and no live, sparse segment of `segments` is marked
    /// released.
    pub open spec fn install_is_sound(self, segments: Seq<SegmentView>) -> bool {
        &&& forall|lid: LogID| #[trigger]
            self.to_clean.contains(lid) ==> {
                let segment = segments[self.config.segment_index(lid)];
                !segment.pids.is_empty() && !segment.freed && segment.cleanable(self.config)
            }
        &&& forall|i: int|
            0 <= i < segments.len() && !(#[trigger] segments[i]).pids.is_empty()
                && segments[i].cleanable(self.config) ==> !segments[i].freed
    }

    /// Whether `lid` is the base offset of one of the first `n` of
    /// `segments` that is live and sparse.
    pub open spec fn install_cleans(self, segments: Seq<SegmentView>, n: nat, lid: LogID) -> bool {
        exists|i: int|
            0 <= i < n && lid == self.config.segment_start(i) as LogID && !(
            #[trigger] segments[i]).pids.is_empty() && segments[i].cleanable(self.config)
    }

    /// What installing the first `n` of `segments` leaves of the records
    /// and of the cleaning set.
    pub proof fn lemma_installed_effect(self, segments: Seq<SegmentView>, n: nat)
        requires
            n <= segments.len(),
        ensures
            self.installed(segments, n).config == self.config,
            self.installed(segments, n).pending_clean == self.pending_clean,
            self.installed(segments, n).segments.len() == segments.len(),
            forall|i: int|
                0 <= i < segments.len() ==> #[trigger] self.installed(segments, n).segments[i]
                    == if i < n && segments[i].pids.is_empty() {
                    SegmentView { freed: true, ..segments[i] }
                } else {
                    segments[i]
                },
            forall|lid: LogID| #[trigger]
                self.installed(segments, n).to_clean.contains(lid) <==> self.to_clean.contains(lid)
                    || self.install_cleans(segments, n, lid),
            self.to_clean.finite() ==> self.installed(segments, n).to_clean.finite(),
        decreases n,
    {
        if n > 0 {
            let before = self.installed(segments, (n - 1) as nat);
            let after = self.installed(segments, n);
            let start = self.config.segment_start(n - 1) as LogID;
            self.lemma_installed_effect(segments, (n - 1) as nat);
            assert forall|lid: LogID| #[trigger]
                after.to_clean.contains(lid) <==> self.to_clean.contains(lid)
                    || self.install_cleans(segments, n, lid) by {
                if self.install_cleans(segments, (n - 1) as nat, lid) {
                    let i = choose|i: int|
                        0 <= i < n - 1 && lid == self.config.segment_start(i) as LogID && !(
                        #[trigger] segments[i]).pids.is_empty() && segments[i].cleanable(
                            self.config,
                        );
                    assert(0 <= i < n && !segments[i].pids.is_empty());
                }
                if self.install_cleans(segments, n, lid) {
                    let i = choose|i: int|
                        0 <= i < n && lid == self.config.segment_start(i) as LogID && !(
                        #[trigger] segments[i]).pids.is_empty() && segments[i].cleanable(
                            self.config,
                        );
                    if i < n - 1 {
                        assert(self.install_cleans(segments, (n - 1) as nat, lid));
                    }
                }
                if lid == start && !segments[n - 1].pids.is_empty() && segments[n - 1].cleanable(
                    self.config,
                ) {
                    assert(self.install_cleans(segments, n, lid));
                }
            }
        }
    }

    /// Installing occupancy records leaves the state coherent. Every
    /// measure then bounds the live pages exactly if that holds of the
    /// installed records, and the cleaning set is sound exactly if the
    /// installation is.
    pub proof fn lemma_initialize_invariants(self, segments: Seq<SegmentView>)
        requires
            self.coherent(),
            self.can_install(segments),
            forall|i: int| 0 <= i < segments.len() ==> (#[trigger] segments[i]).wf(),
        ensures
            self.initialize_from_segments(segments).coherent(),
            self.initialize_from_segments(segments).measures_bound_pids() <==> forall|i: int|
                0 <= i < segments.len() ==> (#[trigger] segments[i]).measure_bounds_pids(),
            self.initialize_from_segments(segments).cleaning_set_sound()
                <==> self.install_is_sound(segments),
    {
        let after = self.initialize_from_segments(segments);
        let n = segments.len();
        self.lemma_installed_effect(segments, n);
        assert forall|lid: LogID| self.install_cleans(segments, n, lid) implies after.tracks(lid)
            && !segments[self.config.segment_index(lid)].pids.is_empty()
            && segments[self.config.segment_index(lid)].cleanable(self.config) by {
            let i = choose|i: int|
                0 <= i < n && lid == self.config.segment_start(i) as LogID && !(
                #[trigger] segments[i]).pids.is_empty() && segments[i].cleanable(self.config);
            lemma_segment_start_monotonic(self.config, i, n - 1);
            lemma_segment_index_of_start(self.config, i);
        }
        assert forall|lid: LogID| #[trigger] after.to_clean.contains(lid) implies after.tracks(
            lid,
        ) by {
            if self.to_clean.contains(lid) {
                assert(self.tracks(lid));
            }
        }
        assert forall|i: int| 0 <= i < after.segments.len() implies (
        #[trigger] after.segments[i]).wf() by {
            assert(segments[i].wf());
        }
        assert(after.measures_bound_pids() <==> forall|i: int|
            0 <= i < segments.len() ==> (#[trigger] segments[i]).measure_bounds_pids()) by {
            if after.measures_bound_pids() {
                assert forall|i: int| 0 <= i < segments.len() implies (
                #[trigger] segments[i]).measure_bounds_pids() by {
                    assert(after.segments[i].measure_bounds_pids());
                }
            }
            if forall|i: int|
                0 <= i < segments.len() ==> (#[trigger] segments[i]).measure_bounds_pids() {
                assert forall|i: int| 0 <= i < after.segments.len() implies (
                #[trigger] after.segments[i]).measure_bounds_pids() by {
                    assert(segments[i].measure_bounds_pids());
                }
            }
        }
        if self.install_is_sound(segments) {
            assert forall|lid: LogID| #[trigger] after.to_clean.contains(lid) implies {
                &&& after.tracks(lid)
                &&& !after.segments[after.config.segment_index(lid)].freed
                &&& after.segments[after.config.segment_index(lid)].cleanable(after.config)
            } by {
                let idx = self.config.segment_index(lid);
                assert(after.tracks(lid));
                assert(after.segments[idx] == segments[idx]);
                if self.to_clean.contains(lid) {
                } else {
                    assert(self.install_cleans(segments, n, lid));
                }
            }
        }
        if after.cleaning_set_sound() {
            assert forall|lid: LogID| #[trigger] self.to_clean.contains(lid) implies {
                let segment = segments[self.config.segment_index(lid)];
                !segment.pids.is_empty() && !segment.freed && segment.cleanable(self.config)
            } by {
                assert(after.to_clean.contains(lid));
                let idx = self.config.segment_index(lid);
                assert(self.tracks(lid));
                assert(0 <= idx < segments.len()) by {
                    lemma_segment_start_below(self.config, lid);
                }
                assert(!after.segments[idx].freed);
            }
            assert forall|i: int|
                0 <= i < segments.len() && !(#[trigger] segments[i]).pids.is_empty()
                    && segments[i].cleanable(self.config) implies !segments[i].freed by {
                let lid = self.config.segment_start(i) as LogID;
                lemma_segment_start_monotonic(self.config, i, n - 1);
                lemma_segment_index_of_start(self.config, i);
                assert(self.install_cleans(segments, n, lid));
                assert(after.to_clean.contains(lid));
                assert(!after.segments[i].freed);
            }
        }
    }

    /// Every entry of the ordering names a segment whose record carries
    /// the entry's sequence number.
    pub open spec fn ordering_matches_segments(self) -> bool {
        forall|lsn: Lsn| #[trigger]
            self.ordering.contains_key(lsn) ==> {
                let idx = self.config.segment_index(self.ordering[lsn]);
                idx < self.segments.len() && self.segments[idx].lsn == Some(lsn)
            }
    }

    /// While the ordering matches the records, no segment is in the
    /// ordering under two sequence numbers.
    pub proof fn lemma_one_lsn_per_segment(self, a: Lsn, b: Lsn)
        requires
            self.ordering_matches_segments(),
            self.ordering.contains_key(a),
            self.ordering.contains_key(b),
            a != b,
        ensures
            self.config.segment_index(self.ordering[a]) != self.config.segment_index(
                self.ordering[b],
            ),
            self.ordering[a] != self.ordering[b],
    {
    }

    /// An allocation keeps the ordering matched to the records: the
    /// segment it takes is in the ordering under the new sequence number
    /// only.
    pub proof fn lemma_allocate_keeps_ordering(self, lsn: Lsn)
        requires
            self.config.io_buf_size > 0,
            self.ordering_matches_segments(),
        ensures
            self.allocate(lsn).ordering_matches_segments(),
            self.allocate(lsn).ordering.contains_key(lsn),
            self.allocate(lsn).ordering[lsn] == self.front_or_tip() as LogID,
            self.allocate(lsn).segments[self.config.segment_index(self.front_or_tip() as LogID)].lsn
                == Some(lsn),
    {
        let lid = self.front_or_tip() as LogID;
        lemma_segment_start_below(self.config, lid);
        let idx = self.config.segment_index(lid);
        let after = self.allocate(lsn);
        assert forall|l: Lsn| #[trigger] after.ordering.contains_key(l) implies {
            let i = after.config.segment_index(after.ordering[l]);
            i < after.segments.len() && after.segments[i].lsn == Some(l)
        } by {
            if l != lsn {
                assert(self.ordering.contains_key(l));
            }
        }
    }

    /// `merged`, `freed`, `set`, `release` and `clean` keep the ordering
    /// matched to the records.
    pub proof fn lemma_placements_keep_ordering(
        self,
        pid: PageID,
        old_lids: Seq<LogID>,
        lid: LogID,
        lsn: Lsn,
    )
        requires
            self.config.io_buf_size > 0,
            self.ordering_matches_segments(),
        ensures
            self.merged(pid, lid, lsn).ordering_matches_segments(),
            self.freed(pid, old_lids, lsn).ordering_matches_segments(),
            self.set(pid, old_lids, lid, lsn).ordering_matches_segments(),
            self.release(lid).ordering_matches_segments(),
            self.cleaning(pid).ordering_matches_segments(),
    {
        let keep = Some(self.config.segment_index(lid));
        self.lemma_merged_keeps_ordering(pid, lid, lsn);
        self.settled(pid).lemma_vacated_keeps_ordering(pid, old_lids, None, lsn, old_lids.len());
        self.settled(pid).lemma_vacated_keeps_ordering(pid, old_lids, keep, lsn, old_lids.len());
        self.settled(pid).vacated(pid, old_lids, keep, lsn, old_lids.len()).lemma_merged_keeps_ordering(
            pid,
            lid,
            lsn,
        );
    }

    /// `merged` keeps the ordering matched to the records.
    pub proof fn lemma_merged_keeps_ordering(self, pid: PageID, lid: LogID, lsn: Lsn)
        requires
            self.config.io_buf_size > 0,
            self.ordering_matches_segments(),
        ensures
            self.merged(pid, lid, lsn).ordering_matches_segments(),
            self.merged(pid, lid, lsn).config == self.config,
    {
        lemma_segment_start_below(self.config, lid);
        let after = self.merged(pid, lid, lsn);
        assert forall|l: Lsn| #[trigger] after.ordering.contains_key(l) implies {
            let i = after.config.segment_index(after.ordering[l]);
            i < after.segments.len() && after.segments[i].lsn == Some(l)
        } by {
            assert(self.ordering.contains_key(l));
        }
    }

    /// Taking a page out of segments keeps the ordering matched to the
    /// records.
    pub proof fn lemma_vacated_keeps_ordering(
        self,
        pid: PageID,
        old_lids: Seq<LogID>,
        keep: Option<int>,
        lsn: Lsn,
        n: nat,
    )
        requires
            self.config.io_buf_size > 0,
            self.ordering_matches_segments(),
        ensures
            self.vacated(pid, old_lids, keep, lsn, n).ordering_matches_segments(),
            self.vacated(pid, old_lids, keep, lsn, n).config == self.config,
        decreases n,
    {
        if n > 0 {
            let before = self.vacated(pid, old_lids, keep, lsn, (n - 1) as nat);
            let lid = old_lids[n - 1];
            self.lemma_vacated_keeps_ordering(pid, old_lids, keep, lsn, (n - 1) as nat);
            if keep != Some(self.config.segment_index(lid)) {
                before.lemma_vacate_effect(pid, lid, lsn);
                before.lemma_vacate_frame(pid, lid, lsn);
                let after = before.vacate(pid, lid, lsn);
                assert forall|l: Lsn| #[trigger] after.ordering.contains_key(l) implies {
                    let i = after.config.segment_index(after.ordering[l]);
                    i < after.segments.len() && after.segments[i].lsn == Some(l)
                } by {
                    assert(before.ordering.contains_key(l));
                }
            }
        }
    }

    /// Whether the segment that `next` hands out is in the cleaning set:
    /// the one step of `next` after which the cleaning set is no longer
    /// sound.
    pub open spec fn next_is_in_cleaning_set(self) -> bool {
        self.to_clean.contains(
            self.config.segment_start(self.config.segment_index(self.next_lid() as LogID)) as LogID,
        )
    }

    /// `next` keeps a state coherent and every measure a bound on the
    /// live pages; it keeps the cleaning set sound unless the segment it
    /// hands out is in that set.
    pub proof fn lemma_next_invariants(self, lsn: Lsn)
        requires
            self.coherent(),
            self.ensure_safe_free_distance().can_allocate(),
        ensures
            self.next(lsn).coherent(),
            self.measures_bound_pids() ==> self.next(lsn).measures_bound_pids(),
            self.cleaning_set_sound() ==> (self.next(lsn).cleaning_set_sound()
                <==> !self.next_is_in_cleaning_set()),
    {
        let ready = self.ensure_safe_free_distance();
        self.lemma_next_frames(lsn);
        assert(ready.coherent());
        assert(self.measures_bound_pids() ==> ready.measures_bound_pids());
        assert(self.cleaning_set_sound() ==> ready.cleaning_set_sound());
        ready.lemma_allocate_invariants(lsn);
        let taken = ready.allocate(lsn);
        let after = self.next(lsn);
        assert(taken.coherent() ==> after.coherent());
        assert(taken.measures_bound_pids() ==> after.measures_bound_pids());
        assert(taken.cleaning_set_sound() <==> after.cleaning_set_sound());
    }

    /// `next` keeps the ordering matched to the records. Afterwards the
    /// ordering leads from `lsn` to the offset handed out, no other
    /// sequence number leads to that offset or into its segment, and no
    /// two entries share an offset.
    pub proof fn lemma_next_keeps_ordering(self, lsn: Lsn)
        requires
            self.config.io_buf_size > 0,
            self.ordering_matches_segments(),
        ensures
            self.next(lsn).ordering_matches_segments(),
            self.next(lsn).ordering.contains_key(lsn),
            self.next(lsn).ordering[lsn] == self.next_lid() as LogID,
            self.next(lsn).segments[self.config.segment_index(self.next_lid() as LogID)].lsn
                == Some(lsn),
            forall|other: Lsn|
                other != lsn && #[trigger] self.next(lsn).ordering.contains_key(other)
                    ==> self.next(lsn).ordering[other] != self.next_lid() as LogID,
            forall|a: Lsn, b: Lsn|
                a != b && #[trigger] self.next(lsn).ordering.contains_key(a)
                    && #[trigger] self.next(lsn).ordering.contains_key(b) ==> self.next(
                    lsn,
                ).ordering[a] != self.next(lsn).ordering[b],
    {
        let ready = self.ensure_safe_free_distance();
        self.lemma_next_frames(lsn);
        assert(ready.ordering_matches_segments());
        ready.lemma_allocate_keeps_ordering(lsn);
        let after = self.next(lsn);
        assert(after.ordering_matches_segments());
        assert forall|a: Lsn, b: Lsn|
            a != b && #[trigger] after.ordering.contains_key(a) && #[trigger] after.ordering.contains_key(
                b,
            ) implies after.ordering[a] != after.ordering[b] by {
            after.lemma_one_lsn_per_segment(a, b);
        }
        assert forall|other: Lsn|
            other != lsn && #[trigger] after.ordering.contains_key(other) implies after.ordering[other]
            != self.next_lid() as LogID by {
            after.lemma_one_lsn_per_segment(other, lsn);
        }
    }
}

} // verus!
