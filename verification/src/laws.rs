//! What holds of the accountant over every sequence of operations.
use crate::config::{LogID, Lsn, PageID};
use crate::model::{extend_to, stale, State};
use crate::segment::SegmentView;
use vstd::prelude::*;

verus! {

impl State {
    /// Whether the segment at `lid` has a record that carries a sequence
    /// number later than `lsn`, so that an update stamped `lsn` is stale.
    pub open spec fn stale_at(self, lid: LogID, lsn: Lsn) -> bool {
        let idx = self.config.segment_index(lid);
        0 <= idx < self.segments.len() && stale(self.segments[idx], lsn)
    }

    /// This state, with `pid` no longer pending.
    pub open spec fn settled(self, pid: PageID) -> State {
        State { pending_clean: self.pending_clean.remove(pid), ..self }
    }

    /// A stale placement changes nothing but that the page stops being
    /// pending.
    pub proof fn lemma_stale_merged_is_noop(self, pid: PageID, lid: LogID, lsn: Lsn)
        requires
            self.stale_at(lid, lsn),
        ensures
            self.merged(pid, lid, lsn) == self.settled(pid),
    {
    }

    /// Taking a page out of a segment with a stale update changes nothing
    /// and schedules no release.
    pub proof fn lemma_stale_vacate_is_noop(self, pid: PageID, lid: LogID, lsn: Lsn)
        requires
            self.stale_at(lid, lsn),
        ensures
            self.vacate(pid, lid, lsn) == self,
            !self.vacate_releases(pid, lid, lsn),
    {
    }

    /// While every old offset is stale, or lies in the segment that is
    /// kept, nothing changes and no release is scheduled.
    pub proof fn lemma_stale_vacated_is_noop(
        self,
        pid: PageID,
        old_lids: Seq<LogID>,
        keep: Option<int>,
        lsn: Lsn,
        n: nat,
    )
        requires
            n <= old_lids.len(),
            forall|i: int|
                0 <= i < n ==> keep == Some(self.config.segment_index(old_lids[i]))
                    || #[trigger] self.stale_at(old_lids[i], lsn),
        ensures
            self.vacated(pid, old_lids, keep, lsn, n) == self,
            self.released(pid, old_lids, keep, lsn, n) == Seq::<LogID>::empty(),
        decreases n,
    {
        if n > 0 {
            self.lemma_stale_vacated_is_noop(pid, old_lids, keep, lsn, (n - 1) as nat);
            let lid = old_lids[n - 1];
            if keep != Some(self.config.segment_index(lid)) {
                assert(self.stale_at(lid, lsn));
                self.lemma_stale_vacate_is_noop(pid, lid, lsn);
            }
        }
    }

    /// A stale offset in a list does not stop the rest of the list, and
    /// the rest does not touch its segment: while `pid` leaves the
    /// segments of `old_lids`, a segment for which the update is stale
    /// keeps its record and its place in or out of the cleaning set, and
    /// stays stale.
    pub proof fn lemma_stale_segment_untouched(
        self,
        pid: PageID,
        old_lids: Seq<LogID>,
        keep: Option<int>,
        lsn: Lsn,
        n: nat,
        lid: LogID,
    )
        requires
            self.config.io_buf_size > 0,
            self.stale_at(lid, lsn),
        ensures
            ({
                let idx = self.config.segment_index(lid);
                let start = self.config.segment_start(idx) as LogID;
                let after = self.vacated(pid, old_lids, keep, lsn, n);
                &&& after.config == self.config
                &&& after.stale_at(lid, lsn)
                &&& after.segments[idx] == self.segments[idx]
                &&& after.to_clean.contains(start) == self.to_clean.contains(start)
            }),
        decreases n,
    {
        if n > 0 {
            let before = self.vacated(pid, old_lids, keep, lsn, (n - 1) as nat);
            let other = old_lids[n - 1];
            self.lemma_stale_segment_untouched(pid, old_lids, keep, lsn, (n - 1) as nat, lid);
            if keep != Some(self.config.segment_index(other)) {
                before.lemma_vacate_effect(pid, other, lsn);
                let idx = self.config.segment_index(lid);
                let start = self.config.segment_start(idx) as LogID;
                let touched = self.config.segment_index(other);
                let touched_start = self.config.segment_start(touched) as LogID;
                crate::config::lemma_segment_start_below(self.config, lid);
                crate::config::lemma_segment_start_below(self.config, other);
                if touched == idx {
                    before.lemma_stale_vacate_is_noop(pid, other, lsn);
                } else {
                    assert(touched_start != start);
                }
            }
        }
    }

    /// In `freed` and `set`, a segment for which the update is stale is
    /// left as it was, whatever else the list names; every other offset
    /// of the list is handled as if the stale one were not there.
    pub proof fn lemma_stale_offset_is_skipped(
        self,
        pid: PageID,
        old_lids: Seq<LogID>,
        new_lid: LogID,
        lsn: Lsn,
        lid: LogID,
    )
        requires
            self.config.io_buf_size > 0,
            self.stale_at(lid, lsn),
        ensures
            ({
                let idx = self.config.segment_index(lid);
                let start = self.config.segment_start(idx) as LogID;
                &&& self.freed(pid, old_lids, lsn).segments[idx] == self.segments[idx]
                &&& self.freed(pid, old_lids, lsn).to_clean.contains(start)
                    == self.to_clean.contains(start)
                &&& self.set(pid, old_lids, new_lid, lsn).segments[idx] == self.segments[idx]
                &&& self.set(pid, old_lids, new_lid, lsn).to_clean.contains(start)
                    == self.to_clean.contains(start)
            }),
    {
        let settled = self.settled(pid);
        let keep = Some(self.config.segment_index(new_lid));
        assert(settled.stale_at(lid, lsn));
        settled.lemma_stale_segment_untouched(pid, old_lids, None, lsn, old_lids.len(), lid);
        settled.lemma_stale_segment_untouched(pid, old_lids, keep, lsn, old_lids.len(), lid);
        let moved = settled.vacated(pid, old_lids, keep, lsn, old_lids.len());
        crate::config::lemma_segment_start_below(self.config, new_lid);
        if self.config.segment_index(new_lid) == self.config.segment_index(lid) {
            moved.lemma_stale_merged_is_noop(pid, new_lid, lsn);
        }
    }

    /// A stale step changes nothing: where the update is stale for the
    /// segment of the `n`-th old offset, the state and the releases after
    /// `n` offsets are those after `n - 1`.
    pub proof fn lemma_stale_step_is_skipped(
        self,
        pid: PageID,
        old_lids: Seq<LogID>,
        keep: Option<int>,
        lsn: Lsn,
        n: nat,
    )
        requires
            n > 0,
            self.vacated(pid, old_lids, keep, lsn, (n - 1) as nat).stale_at(old_lids[n - 1], lsn),
        ensures
            self.vacated(pid, old_lids, keep, lsn, n) == self.vacated(
                pid,
                old_lids,
                keep,
                lsn,
                (n - 1) as nat,
            ),
            self.released(pid, old_lids, keep, lsn, n) == self.released(
                pid,
                old_lids,
                keep,
                lsn,
                (n - 1) as nat,
            ),
    {
        self.vacated(pid, old_lids, keep, lsn, (n - 1) as nat).lemma_stale_vacate_is_noop(
            pid,
            old_lids[n - 1],
            lsn,
        );
    }

    /// `freed` with a sequence number older than the one recorded for each
    /// segment it names changes nothing but that the page stops being
    /// pending.
    pub proof fn lemma_stale_freed_is_noop(self, pid: PageID, old_lids: Seq<LogID>, lsn: Lsn)
        requires
            forall|i: int| 0 <= i < old_lids.len() ==> #[trigger] self.stale_at(old_lids[i], lsn),
        ensures
            self.freed(pid, old_lids, lsn) == self.settled(pid),
            self.freed_releases(pid, old_lids, lsn) == Seq::<LogID>::empty(),
    {
        let settled = self.settled(pid);
        assert forall|i: int| 0 <= i < old_lids.len() implies #[trigger] settled.stale_at(
            old_lids[i],
            lsn,
        ) by {
            assert(self.stale_at(old_lids[i], lsn));
        }
        settled.lemma_stale_vacated_is_noop(pid, old_lids, None, lsn, old_lids.len());
    }

    /// `set` with a sequence number older than the one recorded for each
    /// segment it names changes nothing but that the page stops being
    /// pending.
    pub proof fn lemma_stale_set_is_noop(
        self,
        pid: PageID,
        old_lids: Seq<LogID>,
        new_lid: LogID,
        lsn: Lsn,
    )
        requires
            forall|i: int| 0 <= i < old_lids.len() ==> #[trigger] self.stale_at(old_lids[i], lsn),
            self.stale_at(new_lid, lsn),
        ensures
            self.set(pid, old_lids, new_lid, lsn) == self.settled(pid),
            self.set_releases(pid, old_lids, new_lid, lsn) == Seq::<LogID>::empty(),
    {
        let settled = self.settled(pid);
        let keep = Some(self.config.segment_index(new_lid));
        assert forall|i: int| 0 <= i < old_lids.len() implies keep == Some(
            settled.config.segment_index(old_lids[i]),
        ) || #[trigger] settled.stale_at(old_lids[i], lsn) by {
            assert(self.stale_at(old_lids[i], lsn));
        }
        settled.lemma_stale_vacated_is_noop(pid, old_lids, keep, lsn, old_lids.len());
        settled.lemma_stale_merged_is_noop(pid, new_lid, lsn);
        assert(settled.settled(pid).pending_clean =~= settled.pending_clean);
    }

    /// Taking a page out of a segment extends the tip by the shortfall of
    /// the free list at most, and leaves no shortfall where it does.
    pub proof fn lemma_vacate_extends_by_shortfall(self, pid: PageID, lid: LogID, lsn: Lsn)
        ensures
            ({
                let after = self.vacate(pid, lid, lsn);
                let room = self.shortfall() * self.config.io_buf_size;
                &&& after.config == self.config
                &&& self.tip <= after.tip <= self.tip + room
                &&& after.tip + after.shortfall() * after.config.io_buf_size <= self.tip + room
            }),
    {
        let idx = self.config.segment_index(lid);
        let start = self.config.segment_start(idx) as LogID;
        let segments = extend_to(self.segments, idx + 1);
        let shrunk = self.shrunk(pid, lid, lsn);
        let emptied = State {
            segments: segments.update(idx, SegmentView { freed: true, ..shrunk }),
            to_clean: self.to_clean.remove(start),
            ..self
        };
        emptied.lemma_ensure_closed_form();
        emptied.lemma_ensure_safe_free_distance();
        assert(emptied.shortfall() == self.shortfall());
        let after = self.vacate(pid, lid, lsn);
        vstd::arithmetic::mul::lemma_mul_nonnegative(
            self.shortfall() as int,
            self.config.io_buf_size as int,
        );
        if after == emptied.ensure_safe_free_distance() {
            assert(after.shortfall() == 0);
            assert(after.shortfall() * after.config.io_buf_size == 0) by (nonlinear_arith)
                requires
                    after.shortfall() == 0,
            ;
        }
    }

    /// While a page leaves its old segments, the tip grows by the initial
    /// shortfall of the free list at most.
    pub proof fn lemma_vacated_extends_by_shortfall(
        self,
        pid: PageID,
        old_lids: Seq<LogID>,
        keep: Option<int>,
        lsn: Lsn,
        n: nat,
    )
        ensures
            ({
                let after = self.vacated(pid, old_lids, keep, lsn, n);
                let room = self.shortfall() * self.config.io_buf_size;
                &&& after.config == self.config
                &&& self.tip <= after.tip <= self.tip + room
                &&& after.tip + after.shortfall() * after.config.io_buf_size <= self.tip + room
            }),
        decreases n,
    {
        vstd::arithmetic::mul::lemma_mul_nonnegative(
            self.shortfall() as int,
            self.config.io_buf_size as int,
        );
        if n > 0 {
            let before = self.vacated(pid, old_lids, keep, lsn, (n - 1) as nat);
            self.lemma_vacated_extends_by_shortfall(pid, old_lids, keep, lsn, (n - 1) as nat);
            before.lemma_vacate_extends_by_shortfall(pid, old_lids[n - 1], lsn);
            vstd::arithmetic::mul::lemma_mul_nonnegative(
                before.shortfall() as int,
                before.config.io_buf_size as int,
            );
        }
    }

    /// `freed` fits the machine's integers wherever the tip could be
    /// extended to the safe-reuse distance.
    pub proof fn lemma_freed_fits(self, pid: PageID, old_lids: Seq<LogID>, lsn: Lsn)
        requires
            self.has_room(),
        ensures
            self.freed(pid, old_lids, lsn).tip <= u64::MAX,
    {
        self.settled(pid).lemma_vacated_extends_by_shortfall(
            pid,
            old_lids,
            None,
            lsn,
            old_lids.len(),
        );
    }

    /// `set` fits the machine's integers wherever the tip could be
    /// extended to the safe-reuse distance.
    pub proof fn lemma_set_fits(self, pid: PageID, old_lids: Seq<LogID>, new_lid: LogID, lsn: Lsn)
        requires
            self.has_room(),
        ensures
            self.set(pid, old_lids, new_lid, lsn).tip <= u64::MAX,
    {
        self.settled(pid).lemma_vacated_extends_by_shortfall(
            pid,
            old_lids,
            Some(self.config.segment_index(new_lid)),
            lsn,
            old_lids.len(),
        );
    }

    /// When taking a page out of a segment schedules the segment's release,
    /// the free list has reached the safe-reuse distance.
    pub proof fn lemma_release_at_safe_distance(self, pid: PageID, lid: LogID, lsn: Lsn)
        requires
            self.vacate_releases(pid, lid, lsn),
        ensures
            self.vacate(pid, lid, lsn).free.len() >= self.config.io_bufs,
    {
        let idx = self.config.segment_index(lid);
        let start = self.config.segment_start(idx) as LogID;
        let segments = extend_to(self.segments, idx + 1);
        let shrunk = self.shrunk(pid, lid, lsn);
        State {
            segments: segments.update(idx, SegmentView { freed: true, ..shrunk }),
            to_clean: self.to_clean.remove(start),
            ..self
        }.lemma_ensure_safe_free_distance();
    }

    /// Once a release was scheduled while a page left its old segments,
    /// the free list stays at the safe-reuse distance.
    pub proof fn lemma_released_at_safe_distance(
        self,
        pid: PageID,
        old_lids: Seq<LogID>,
        keep: Option<int>,
        lsn: Lsn,
        n: nat,
    )
        requires
            self.released(pid, old_lids, keep, lsn, n).len() > 0,
        ensures
            self.vacated(pid, old_lids, keep, lsn, n).free.len() >= self.config.io_bufs,
            self.vacated(pid, old_lids, keep, lsn, n).config == self.config,
        decreases n,
    {
        if n > 0 {
            let before = self.vacated(pid, old_lids, keep, lsn, (n - 1) as nat);
            let lid = old_lids[n - 1];
            self.lemma_vacated_tip(pid, old_lids, keep, lsn, 0, (n - 1) as nat);
            self.lemma_vacated_tip(pid, old_lids, keep, lsn, 0, n);
            if keep != Some(self.config.segment_index(lid)) && before.vacate_releases(
                pid,
                lid,
                lsn,
            ) {
                before.lemma_release_at_safe_distance(pid, lid, lsn);
            } else {
                self.lemma_released_at_safe_distance(pid, old_lids, keep, lsn, (n - 1) as nat);
                if keep != Some(self.config.segment_index(lid)) {
                    before.lemma_vacate_frame(pid, lid, lsn);
                }
            }
        }
    }

    /// Whenever `freed` or `set` schedules a release, the free list holds
    /// at least `io_bufs` offsets afterwards: a segment is only ever queued
    /// for reuse behind a full safe-reuse distance.
    pub proof fn lemma_safe_reuse_distance(
        self,
        pid: PageID,
        old_lids: Seq<LogID>,
        new_lid: LogID,
        lsn: Lsn,
    )
        ensures
            self.freed_releases(pid, old_lids, lsn).len() > 0 ==> self.freed(
                pid,
                old_lids,
                lsn,
            ).free.len() >= self.config.io_bufs,
            self.set_releases(pid, old_lids, new_lid, lsn).len() > 0 ==> self.set(
                pid,
                old_lids,
                new_lid,
                lsn,
            ).free.len() >= self.config.io_bufs,
    {
        let settled = self.settled(pid);
        if self.freed_releases(pid, old_lids, lsn).len() > 0 {
            settled.lemma_released_at_safe_distance(pid, old_lids, None, lsn, old_lids.len());
        }
        if self.set_releases(pid, old_lids, new_lid, lsn).len() > 0 {
            settled.lemma_released_at_safe_distance(
                pid,
                old_lids,
                Some(self.config.segment_index(new_lid)),
                lsn,
                old_lids.len(),
            );
        }
    }

    /// The free list holds at least `io_bufs` offsets when `next` chooses
    /// the offset it hands out, and again when it returns.
    pub proof fn lemma_next_keeps_safe_distance(self, lsn: Lsn)
        ensures
            self.ensure_safe_free_distance().free.len() >= self.config.io_bufs,
            self.next_lid() == self.ensure_safe_free_distance().front_or_tip(),
            self.next(lsn).free.len() >= self.config.io_bufs,
            self.next(lsn).config == self.config,
    {
        self.lemma_next_shape(lsn);
        self.ensure_safe_free_distance().allocate(lsn).lemma_ensure_safe_free_distance();
    }

    /// While a page leaves its old segments the free list never shrinks.
    pub proof fn lemma_vacated_keeps_free(
        self,
        pid: PageID,
        old_lids: Seq<LogID>,
        keep: Option<int>,
        lsn: Lsn,
        n: nat,
    )
        ensures
            self.vacated(pid, old_lids, keep, lsn, n).free.len() >= self.free.len(),
            self.vacated(pid, old_lids, keep, lsn, n).config == self.config,
        decreases n,
    {
        if n > 0 {
            self.lemma_vacated_keeps_free(pid, old_lids, keep, lsn, (n - 1) as nat);
            self.vacated(pid, old_lids, keep, lsn, (n - 1) as nat).lemma_vacate_frame(
                pid,
                old_lids[n - 1],
                lsn,
            );
        }
    }

    /// Installing occupancy records never shortens the free list.
    pub proof fn lemma_installed_keeps_free(self, segments: Seq<SegmentView>, n: nat)
        ensures
            self.installed(segments, n).free.len() >= self.free.len(),
            self.installed(segments, n).config == self.config,
        decreases n,
    {
        if n > 0 {
            self.lemma_installed_keeps_free(segments, (n - 1) as nat);
        }
    }

    /// Once the free list holds `io_bufs` offsets it keeps holding as
    /// many: `next` restores the safe-reuse distance before it returns,
    /// and no other operation takes an offset off the list.
    pub proof fn lemma_safe_distance_persists(
        self,
        pid: PageID,
        old_lids: Seq<LogID>,
        lid: LogID,
        lsn: Lsn,
        segments: Seq<SegmentView>,
    )
        requires
            self.free.len() >= self.config.io_bufs,
        ensures
            self.next(lsn).free.len() >= self.config.io_bufs,
            self.merged(pid, lid, lsn).free.len() >= self.config.io_bufs,
            self.freed(pid, old_lids, lsn).free.len() >= self.config.io_bufs,
            self.set(pid, old_lids, lid, lsn).free.len() >= self.config.io_bufs,
            self.release(lid).free.len() >= self.config.io_bufs,
            self.cleaning(pid).free.len() >= self.config.io_bufs,
            self.recover(lsn, lid).free.len() >= self.config.io_bufs,
            self.initialize_from_segments(segments).free.len() >= self.config.io_bufs,
    {
        let keep = Some(self.config.segment_index(lid));
        self.lemma_next_keeps_safe_distance(lsn);
        self.settled(pid).lemma_vacated_keeps_free(pid, old_lids, None, lsn, old_lids.len());
        self.settled(pid).lemma_vacated_keeps_free(pid, old_lids, keep, lsn, old_lids.len());
        self.lemma_installed_keeps_free(segments, segments.len());
    }

    /// Whether the free list holds each offset once, all of them below
    /// the tip.
    pub open spec fn free_is_proper(self) -> bool {
        &&& self.free.no_duplicates()
        &&& forall|i: int| 0 <= i < self.free.len() ==> (#[trigger] self.free[i]) < self.tip
    }

    /// Bringing a proper free list to the safe-reuse distance keeps it
    /// proper.
    pub proof fn lemma_ensure_keeps_free_proper(self)
        requires
            self.free_is_proper(),
            0 <= self.tip,
            self.config.io_buf_size > 0,
            self.ensure_safe_free_distance().tip <= u64::MAX,
        ensures
            self.ensure_safe_free_distance().free_is_proper(),
        decreases self.shortfall(),
    {
        if self.free.len() < self.config.io_bufs {
            let step = State { free: seq![self.tip as LogID] + self.free, ..self.bump_tip() };
            step.lemma_ensure_safe_free_distance();
            assert(step.free_is_proper()) by {
                assert forall|i: int, j: int|
                    0 <= i < step.free.len() && 0 <= j < step.free.len() && i != j implies step.free[i]
                    != step.free[j] by {
                    if i > 0 && j > 0 {
                        assert(self.free[i - 1] != self.free[j - 1]);
                    }
                }
            }
            step.lemma_ensure_keeps_free_proper();
        }
    }

    /// Where the free list is proper, the offset that `next` hands out is
    /// no longer on the free list when `next` returns.
    pub proof fn lemma_next_offset_leaves_free_list(self, lsn: Lsn)
        requires
            self.free_is_proper(),
            0 <= self.tip,
            self.config.io_buf_size > 0,
            self.next(lsn).tip <= u64::MAX,
        ensures
            !self.next(lsn).free.contains(self.next_lid() as LogID),
            self.next(lsn).free_is_proper(),
    {
        self.lemma_next_shape(lsn);
        let ready = self.ensure_safe_free_distance();
        let taken = ready.allocate(lsn);
        let lid = self.next_lid() as LogID;
        self.lemma_ensure_keeps_free_proper();
        assert(taken.free_is_proper() && !taken.free.contains(lid) && lid < taken.tip) by {
            if !ready.next_extends() {
                assert forall|i: int| 0 <= i < taken.free.len() implies #[trigger] taken.free[i]
                    != lid && taken.free[i] < taken.tip by {
                    assert(taken.free[i] == ready.free[i + 1]);
                }
                assert forall|i: int, j: int|
                    0 <= i < taken.free.len() && 0 <= j < taken.free.len() && i != j implies taken.free[i]
                    != taken.free[j] by {
                    assert(ready.free[i + 1] != ready.free[j + 1]);
                }
            }
        }
        taken.lemma_ensure_keeps_free_proper();
        taken.lemma_ensure_closed_form();
        let after = self.next(lsn);
        let k = taken.shortfall() as int;
        assert forall|i: int| 0 <= i < after.free.len() implies after.free[i] != lid by {
            if i < k {
                assert(after.free[i] == (taken.tip + (k - 1 - i) * self.config.io_buf_size) as LogID);
                assert((k - 1 - i) * self.config.io_buf_size >= 0) by (nonlinear_arith)
                    requires
                        k - 1 - i >= 0,
                        self.config.io_buf_size >= 0,
                ;
                assert(taken.tip + (k - 1 - i) * self.config.io_buf_size <= after.tip) by (nonlinear_arith)
                    requires
                        after.tip == taken.tip + k * self.config.io_buf_size,
                        0 <= i < k,
                        self.config.io_buf_size >= 0,
                ;
            } else {
                assert(after.free[k + (i - k)] == taken.free[i - k]);
            }
        }
    }

    /// A released offset waits its turn: it joins the back of the free
    /// list, and `next` takes the front, so that what was free before is
    /// handed out first.
    pub proof fn lemma_release_waits_its_turn(self, lid: LogID, lsn: Lsn)
        requires
            self.free.len() > 0,
            self.free.len() >= self.config.io_bufs,
            !self.pause_rewriting,
        ensures
            self.release(lid).next_lid() == self.free[0],
            self.release(lid).ensure_safe_free_distance().allocate(lsn).free
                == self.free.drop_first().push(lid),
    {
        assert(self.free.push(lid).drop_first() =~= self.free.drop_first().push(lid));
    }

    /// After `next(lsn)` the ordering is the one before, without the
    /// earlier sequence number of the segment handed out and with `lsn`
    /// leading to its offset. So it holds `lsn` for that offset and for
    /// no other, every other entry was there before, and handing out
    /// twice with one sequence number leaves only the second association.
    pub proof fn lemma_next_orders_lsn_once(self, lsn: Lsn, again: Lsn)
        ensures
            ({
                let lid = self.next_lid() as LogID;
                let idx = self.config.segment_index(lid);
                let earlier = extend_to(self.segments, idx + 1)[idx].lsn;
                self.next(lsn).ordering == match earlier {
                    Some(old_lsn) => self.ordering.remove(old_lsn),
                    None => self.ordering,
                }.insert(lsn, lid)
            }),
            self.next(lsn).ordering.contains_key(lsn),
            self.next(lsn).ordering[lsn] == self.next_lid() as LogID,
            forall|other: Lsn|
                other != lsn && #[trigger] self.next(lsn).ordering.contains_key(other)
                    ==> self.ordering.contains_key(other) && self.next(lsn).ordering[other]
                    == self.ordering[other],
            again == lsn ==> self.next(lsn).next(again).ordering[lsn] == self.next(
                lsn,
            ).next_lid() as LogID,
    {
        self.lemma_next_frames(lsn);
        self.next(lsn).lemma_next_frames(again);
    }

    /// `next` is an allocation between two extensions of the tip: the
    /// records, the ordering, the cleaning set and the pending pages are
    /// those of the allocation.
    pub proof fn lemma_next_frames(self, lsn: Lsn)
        ensures
            ({
                let ready = self.ensure_safe_free_distance();
                let taken = ready.allocate(lsn);
                &&& ready == (State { tip: ready.tip, free: ready.free, ..self })
                &&& self.next(lsn) == (State {
                    tip: self.next(lsn).tip,
                    free: self.next(lsn).free,
                    ..taken
                })
                &&& self.next(lsn).config == self.config
                &&& self.next(lsn).pending_clean == self.pending_clean
                &&& self.next(lsn).to_clean == self.to_clean
            }),
    {
        self.lemma_ensure_safe_free_distance();
        self.ensure_safe_free_distance().allocate(lsn).lemma_ensure_safe_free_distance();
    }

    /// `merged`, `set` and `freed` end the pending of the page they name
    /// and of no other.
    pub proof fn lemma_placements_settle_page(
        self,
        pid: PageID,
        old_lids: Seq<LogID>,
        lid: LogID,
        lsn: Lsn,
    )
        ensures
            self.merged(pid, lid, lsn).pending_clean == self.pending_clean.remove(pid),
            self.freed(pid, old_lids, lsn).pending_clean == self.pending_clean.remove(pid),
            self.set(pid, old_lids, lid, lsn).pending_clean == self.pending_clean.remove(pid),
    {
        let keep = Some(self.config.segment_index(lid));
        self.settled(pid).lemma_vacated_keeps_pending(pid, old_lids, None, lsn, old_lids.len());
        self.settled(pid).lemma_vacated_keeps_pending(pid, old_lids, keep, lsn, old_lids.len());
        assert(self.pending_clean.remove(pid).remove(pid) =~= self.pending_clean.remove(pid));
    }

    /// A pending page is no candidate for `clean`.
    pub proof fn lemma_pending_is_no_candidate(self, pid: PageID)
        requires
            self.pending_clean.contains(pid),
        ensures
            !self.clean_candidate(pid),
    {
    }

    /// Taking a page out of segments leaves every other page pending.
    pub proof fn lemma_vacated_keeps_pending(
        self,
        pid: PageID,
        old_lids: Seq<LogID>,
        keep: Option<int>,
        lsn: Lsn,
        n: nat,
    )
        ensures
            self.vacated(pid, old_lids, keep, lsn, n).pending_clean == self.pending_clean,
        decreases n,
    {
        if n > 0 {
            let before = self.vacated(pid, old_lids, keep, lsn, (n - 1) as nat);
            self.lemma_vacated_keeps_pending(pid, old_lids, keep, lsn, (n - 1) as nat);
            let lid = old_lids[n - 1];
            before.lemma_vacate_frame(pid, lid, lsn);
        }
    }

    /// A page that `clean` handed out stays pending, and so is not handed
    /// out again, until `merged`, `set` or `freed` names that very page:
    /// no operation that names another page, or none, ends its pending.
    pub proof fn lemma_cleaned_page_stays_pending(
        self,
        pid: PageID,
        other: PageID,
        lid: LogID,
        old_lids: Seq<LogID>,
        lsn: Lsn,
        segments: Seq<SegmentView>,
    )
        requires
            self.pending_clean.contains(pid),
            other != pid,
        ensures
            !self.clean_candidate(pid),
            self.cleaning(other).pending_clean.contains(pid),
            self.merged(other, lid, lsn).pending_clean.contains(pid),
            self.freed(other, old_lids, lsn).pending_clean.contains(pid),
            self.set(other, old_lids, lid, lsn).pending_clean.contains(pid),
            self.next(lsn).pending_clean.contains(pid),
            self.recover(lsn, lid).pending_clean.contains(pid),
            self.release(lid).pending_clean.contains(pid),
            self.initialize_from_segments(segments).pending_clean.contains(pid),
            !self.merged(pid, lid, lsn).pending_clean.contains(pid),
            !self.freed(pid, old_lids, lsn).pending_clean.contains(pid),
            !self.set(pid, old_lids, lid, lsn).pending_clean.contains(pid),
    {
        let keep = Some(self.config.segment_index(lid));
        self.settled(other).lemma_vacated_keeps_pending(other, old_lids, None, lsn, old_lids.len());
        self.settled(other).lemma_vacated_keeps_pending(other, old_lids, keep, lsn, old_lids.len());
        self.settled(pid).lemma_vacated_keeps_pending(pid, old_lids, None, lsn, old_lids.len());
        self.settled(pid).lemma_vacated_keeps_pending(pid, old_lids, keep, lsn, old_lids.len());
        self.lemma_installed_keeps_pending(segments, segments.len());
        self.lemma_next_frames(lsn);
    }

    /// Installing occupancy records leaves the pending pages as they are.
    pub proof fn lemma_installed_keeps_pending(self, segments: Seq<SegmentView>, n: nat)
        ensures
            self.installed(segments, n).pending_clean == self.pending_clean,
        decreases n,
    {
        if n > 0 {
            self.lemma_installed_keeps_pending(segments, (n - 1) as nat);
        }
    }
}

} // verus!
