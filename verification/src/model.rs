//! The accountant as a state machine over mathematical values.
//!
//! Every operation of the executable accountant is a function from a
//! [`State`] to the next one. The contracts of the executable code are
//! stated over these functions, and the laws of the accountant are proved
//! about them.
use crate::config::{Config, LogID, Lsn, PageID};
use crate::log::{holds_valid_record, tail_max, LogSegment};
use crate::segment::SegmentView;
use vstd::prelude::*;

verus! {

/// Everything the accountant knows at one moment.
pub struct State {
    /// The next byte offset beyond the last allocated segment.
    pub tip: int,
    /// The highest stable sequence number that recovery found.
    pub max_lsn: int,
    /// The first byte the log writer should write to after recovery.
    pub initial_offset: int,
    /// Occupancy records; entry `i` is the segment at offset `i * io_buf_size`.
    pub segments: Seq<SegmentView>,
    /// Base offsets of the segments worth cleaning.
    pub to_clean: Set<LogID>,
    /// Pages handed to the cleaner and not yet repositioned.
    pub pending_clean: Set<PageID>,
    /// Reusable segment offsets; the front is handed out next.
    pub free: Seq<LogID>,
    /// The configuration the accountant was made with.
    pub config: Config,
    /// While set, every allocation extends the tip.
    pub pause_rewriting: bool,
    /// The offset of the segment that carries each assigned sequence number.
    pub ordering: Map<Lsn, LogID>,
}

/// `segments`, grown with untouched records to at least `n` entries.
pub open spec fn extend_to(segments: Seq<SegmentView>, n: int) -> Seq<SegmentView> {
    if segments.len() >= n {
        segments
    } else {
        segments + Seq::new((n - segments.len()) as nat, |i: int| SegmentView::empty())
    }
}

/// Whether an update stamped `lsn` comes too late for `segment`, which
/// already carries a later sequence number.
pub open spec fn stale(segment: SegmentView, lsn: Lsn) -> bool {
    segment.lsn matches Some(assigned) && assigned > lsn
}

/// The sequence number of `segment` once an update stamped `lsn` reached it.
pub open spec fn adopted(segment: SegmentView, lsn: Lsn) -> Option<Lsn> {
    if segment.lsn is Some {
        segment.lsn
    } else {
        Some(lsn)
    }
}

/// The segment of `log` that lies at `base`, if `log` reaches that far:
/// segment `i` of `log` lies at offset `i * io_buf_size`.
pub open spec fn segment_at(config: Config, log: Seq<LogSegment>, base: LogID) -> Option<
    LogSegment,
> {
    let idx = config.segment_index(base);
    if idx < log.len() && base == config.segment_start(idx) {
        Some(log[idx])
    } else {
        None
    }
}

impl State {
    /// The state of an accountant that has seen nothing.
    pub open spec fn empty(config: Config) -> State {
        State {
            tip: 0,
            max_lsn: 0,
            initial_offset: 0,
            segments: Seq::empty(),
            to_clean: Set::empty(),
            pending_clean: Set::empty(),
            free: Seq::empty(),
            config: config,
            pause_rewriting: false,
            ordering: Map::empty(),
        }
    }

    /// The offsets and the number of segments fit the machine's integers.
    pub open spec fn fits(self) -> bool {
        &&& 0 <= self.tip <= u64::MAX
        &&& 0 <= self.max_lsn <= u64::MAX
        &&& 0 <= self.initial_offset <= u64::MAX
        &&& self.segments.len() <= usize::MAX
        &&& self.segments.len() > 0 ==> self.config.segment_start(self.segments.len() - 1)
            <= u64::MAX
    }

    /// Whether `lid` is the base offset of a segment that has a record.
    pub open spec fn tracks(self, lid: LogID) -> bool {
        &&& lid as int % self.config.io_buf_size as int == 0
        &&& self.config.segment_index(lid) < self.segments.len()
    }

    /// What every operation relies on and maintains: `coherent`, within
    /// the machine's integers.
    pub open spec fn wf(self) -> bool {
        self.coherent() && self.fits()
    }

    /// What holds of every state, whatever the size of the machine's
    /// integers: the configuration is usable, the sets are finite, and
    /// the cleaning set holds base offsets of segments that have a record.
    pub open spec fn coherent(self) -> bool {
        &&& self.config.wf()
        &&& self.to_clean.finite()
        &&& self.pending_clean.finite()
        &&& forall|i: int| 0 <= i < self.segments.len() ==> (#[trigger] self.segments[i]).wf()
        &&& forall|lid: LogID| #[trigger] self.to_clean.contains(lid) ==> self.tracks(lid)
    }

    /// Whether recovery has run: some segment has a record.
    pub open spec fn is_recovered(self) -> bool {
        self.segments.len() > 0
    }

    /// Record that the segment at `lid` carries `lsn`.
    pub open spec fn recover(self, lsn: Lsn, lid: LogID) -> State {
        let idx = self.config.segment_index(lid);
        let segments = extend_to(self.segments, idx + 1);
        State {
            segments: segments.update(idx, SegmentView { lsn: Some(lsn), ..segments[idx] }),
            ordering: self.ordering.insert(lsn, lid),
            ..self
        }
    }

    /// Record that `pid` has a fragment at `lid`, written with `lsn`.
    pub open spec fn merged(self, pid: PageID, lid: LogID, lsn: Lsn) -> State {
        let idx = self.config.segment_index(lid);
        let segments = extend_to(self.segments, idx + 1);
        let segment = segments[idx];
        if !self.reaches(lid, lsn) {
            State { pending_clean: self.pending_clean.remove(pid), ..self }
        } else {
            State {
                pending_clean: self.pending_clean.remove(pid),
                segments: segments.update(
                    idx,
                    SegmentView {
                        pids: segment.pids.insert(pid),
                        lsn: adopted(segment, lsn),
                        ..segment
                    },
                ),
                ..self
            }
        }
    }

    /// Extend the log by one segment; the old tip is the new segment's offset.
    pub open spec fn bump_tip(self) -> State {
        State { tip: self.tip + self.config.io_buf_size, ..self }
    }

    /// Extend the tip, one segment at a time, until the free list holds at
    /// least `io_bufs` offsets. Each new offset goes to the front.
    pub open spec fn ensure_safe_free_distance(self) -> State
        decreases self.config.io_bufs - self.free.len(),
    {
        if self.free.len() < self.config.io_bufs {
            State {
                free: seq![self.tip as LogID] + self.free,
                ..self.bump_tip()
            }.ensure_safe_free_distance()
        } else {
            self
        }
    }

    /// Bringing the free list to the safe-reuse distance never lowers the
    /// tip, keeps what was free at the back, and reaches the distance.
    pub proof fn lemma_ensure_safe_free_distance(self)
        ensures
            self.ensure_safe_free_distance().tip >= self.tip,
            self.ensure_safe_free_distance().free.len() >= self.config.io_bufs,
            self.ensure_safe_free_distance().free.len() >= self.free.len(),
            self.ensure_safe_free_distance() == (State {
                tip: self.ensure_safe_free_distance().tip,
                free: self.ensure_safe_free_distance().free,
                ..self
            }),
        decreases self.config.io_bufs - self.free.len(),
    {
        if self.free.len() < self.config.io_bufs {
            let step = State { free: seq![self.tip as LogID] + self.free, ..self.bump_tip() };
            step.lemma_ensure_safe_free_distance();
        }
    }

    /// Whether an update stamped `lsn` reaches the segment at `lid` in
    /// time: the segment carries no later sequence number.
    pub open spec fn reaches(self, lid: LogID, lsn: Lsn) -> bool {
        let idx = self.config.segment_index(lid);
        !stale(extend_to(self.segments, idx + 1)[idx], lsn)
    }

    /// The record of the segment at `lid` once `pid` has left it: the
    /// measure is taken if it was not yet, and the page is out of the
    /// live set.
    pub open spec fn shrunk(self, pid: PageID, lid: LogID, lsn: Lsn) -> SegmentView {
        let idx = self.config.segment_index(lid);
        let segment = extend_to(self.segments, idx + 1)[idx];
        SegmentView {
            pids: segment.pids.remove(pid),
            pids_len: segment.measure(),
            lsn: adopted(segment, lsn),
            freed: segment.freed,
        }
    }

    /// Whether taking `pid` out of the segment at `lid` empties a segment
    /// that was not yet released, so that its release is scheduled.
    pub open spec fn vacate_releases(self, pid: PageID, lid: LogID, lsn: Lsn) -> bool {
        let shrunk = self.shrunk(pid, lid, lsn);
        self.reaches(lid, lsn) && shrunk.pids.is_empty() && !shrunk.freed
    }

    /// Take `pid` out of the segment at `lid`, for an update stamped `lsn`.
    ///
    /// A stale update changes nothing. Otherwise the segment's measure is
    /// taken if it was not yet, and the page leaves the live set. A segment
    /// that this empties is marked released, leaves the cleaning set, and
    /// the free list is brought to the safe-reuse distance. Any other
    /// segment enters the cleaning set if its occupancy is within the
    /// threshold.
    pub open spec fn vacate(self, pid: PageID, lid: LogID, lsn: Lsn) -> State {
        let idx = self.config.segment_index(lid);
        let start = self.config.segment_start(idx) as LogID;
        let segments = extend_to(self.segments, idx + 1);
        let shrunk = self.shrunk(pid, lid, lsn);
        if !self.reaches(lid, lsn) {
            self
        } else if self.vacate_releases(pid, lid, lsn) {
            State {
                segments: segments.update(idx, SegmentView { freed: true, ..shrunk }),
                to_clean: self.to_clean.remove(start),
                ..self
            }.ensure_safe_free_distance()
        } else {
            State {
                segments: segments.update(idx, shrunk),
                to_clean: if shrunk.cleanable(self.config) {
                    self.to_clean.insert(start)
                } else {
                    self.to_clean
                },
                ..self
            }
        }
    }

    /// The state after `pid` left the segments of the first `n` of
    /// `old_lids`, those in the segment with index `keep` excepted.
    pub open spec fn vacated(
        self,
        pid: PageID,
        old_lids: Seq<LogID>,
        keep: Option<int>,
        lsn: Lsn,
        n: nat,
    ) -> State
        decreases n,
    {
        if n == 0 {
            self
        } else {
            let before = self.vacated(pid, old_lids, keep, lsn, (n - 1) as nat);
            let lid = old_lids[n - 1];
            if keep == Some(self.config.segment_index(lid)) {
                before
            } else {
                before.vacate(pid, lid, lsn)
            }
        }
    }

    /// The base offsets of the segments whose release was scheduled while
    /// `pid` left the segments of the first `n` of `old_lids`, in order.
    pub open spec fn released(
        self,
        pid: PageID,
        old_lids: Seq<LogID>,
        keep: Option<int>,
        lsn: Lsn,
        n: nat,
    ) -> Seq<LogID>
        decreases n,
    {
        if n == 0 {
            Seq::empty()
        } else {
            let before = self.vacated(pid, old_lids, keep, lsn, (n - 1) as nat);
            let earlier = self.released(pid, old_lids, keep, lsn, (n - 1) as nat);
            let lid = old_lids[n - 1];
            if keep != Some(self.config.segment_index(lid)) && before.vacate_releases(
                pid,
                lid,
                lsn,
            ) {
                earlier.push(
                    self.config.segment_start(self.config.segment_index(lid)) as LogID,
                )
            } else {
                earlier
            }
        }
    }

    /// Taking a page out of a segment touches the records, the cleaning
    /// set, the tip and the free list only; the tip never falls and the
    /// free list never shrinks.
    pub proof fn lemma_vacate_frame(self, pid: PageID, lid: LogID, lsn: Lsn)
        ensures
            self.vacate(pid, lid, lsn).config == self.config,
            self.vacate(pid, lid, lsn).pending_clean == self.pending_clean,
            self.vacate(pid, lid, lsn).ordering == self.ordering,
            self.vacate(pid, lid, lsn).pause_rewriting == self.pause_rewriting,
            self.vacate(pid, lid, lsn).max_lsn == self.max_lsn,
            self.vacate(pid, lid, lsn).initial_offset == self.initial_offset,
            self.vacate(pid, lid, lsn).tip >= self.tip,
            self.vacate(pid, lid, lsn).free.len() >= self.free.len(),
    {
        let idx = self.config.segment_index(lid);
        let start = self.config.segment_start(idx) as LogID;
        let segments = extend_to(self.segments, idx + 1);
        let shrunk = self.shrunk(pid, lid, lsn);
        State {
            segments: segments.update(idx, SegmentView { freed: true, ..shrunk }),
            to_clean: self.to_clean.remove(start),
            ..self
        }.lemma_ensure_safe_free_distance();
    }

    /// The tip only grows while a page leaves one segment after another.
    pub proof fn lemma_vacated_tip(
        self,
        pid: PageID,
        old_lids: Seq<LogID>,
        keep: Option<int>,
        lsn: Lsn,
        m: nat,
        n: nat,
    )
        requires
            m <= n,
        ensures
            self.vacated(pid, old_lids, keep, lsn, m).tip <= self.vacated(
                pid,
                old_lids,
                keep,
                lsn,
                n,
            ).tip,
            self.vacated(pid, old_lids, keep, lsn, n).config == self.config,
        decreases n,
    {
        if n > 0 {
            let before = self.vacated(pid, old_lids, keep, lsn, (n - 1) as nat);
            self.lemma_vacated_tip(pid, old_lids, keep, lsn, 0, (n - 1) as nat);
            before.lemma_vacate_frame(pid, old_lids[n - 1], lsn);
            if m < n {
                self.lemma_vacated_tip(pid, old_lids, keep, lsn, m, (n - 1) as nat);
            }
        }
    }

    /// The page `pid` no longer lives at any of `old_lids`.
    pub open spec fn freed(self, pid: PageID, old_lids: Seq<LogID>, lsn: Lsn) -> State {
        State { pending_clean: self.pending_clean.remove(pid), ..self }.vacated(
            pid,
            old_lids,
            None,
            lsn,
            old_lids.len(),
        )
    }

    /// The releases that `freed` schedules.
    pub open spec fn freed_releases(self, pid: PageID, old_lids: Seq<LogID>, lsn: Lsn) -> Seq<
        LogID,
    > {
        State { pending_clean: self.pending_clean.remove(pid), ..self }.released(
            pid,
            old_lids,
            None,
            lsn,
            old_lids.len(),
        )
    }

    /// The page `pid` moved from `old_lids` to `new_lid`. Old offsets in
    /// the segment of `new_lid` are passed over.
    pub open spec fn set(self, pid: PageID, old_lids: Seq<LogID>, new_lid: LogID, lsn: Lsn)
        -> State {
        State { pending_clean: self.pending_clean.remove(pid), ..self }.vacated(
            pid,
            old_lids,
            Some(self.config.segment_index(new_lid)),
            lsn,
            old_lids.len(),
        ).merged(pid, new_lid, lsn)
    }

    /// The releases that `set` schedules.
    pub open spec fn set_releases(
        self,
        pid: PageID,
        old_lids: Seq<LogID>,
        new_lid: LogID,
        lsn: Lsn,
    ) -> Seq<LogID> {
        State { pending_clean: self.pending_clean.remove(pid), ..self }.released(
            pid,
            old_lids,
            Some(self.config.segment_index(new_lid)),
            lsn,
            old_lids.len(),
        )
    }

    /// A scheduled release has come due: `lid` joins the back of the free list.
    pub open spec fn release(self, lid: LogID) -> State {
        State { free: self.free.push(lid), ..self }
    }

    /// How many segments the free list lacks to the safe-reuse distance.
    pub open spec fn shortfall(self) -> nat {
        if self.free.len() < self.config.io_bufs {
            (self.config.io_bufs - self.free.len()) as nat
        } else {
            0
        }
    }

    /// Whether the tip can be extended to the safe-reuse distance within
    /// the machine's integers.
    pub open spec fn has_room(self) -> bool {
        self.tip + self.shortfall() * self.config.io_buf_size <= u64::MAX
    }

    /// Whether a record for the segment at `lid` can be held.
    pub open spec fn can_hold(self, lid: LogID) -> bool {
        self.config.segment_index(lid) < usize::MAX
    }

    /// Whether an allocation extends the tip instead of reusing an offset.
    pub open spec fn next_extends(self) -> bool {
        self.pause_rewriting || self.free.len() == 0
    }

    /// The offset that an allocation takes: the tip, or the front of the
    /// free list.
    pub open spec fn front_or_tip(self) -> int {
        if self.next_extends() {
            self.tip
        } else {
            self.free[0] as int
        }
    }

    /// Whether the segment at `front_or_tip` can be allocated: a record
    /// for it can be held, and it holds no live page.
    pub open spec fn can_allocate(self) -> bool {
        let idx = self.config.segment_index(self.front_or_tip() as LogID);
        &&& idx < usize::MAX
        &&& idx < self.segments.len() ==> self.segments[idx].pids.is_empty()
    }

    /// Allocate the segment at `front_or_tip` for a header that carries
    /// `lsn`: the offset leaves the free list, or the tip moves on; the
    /// segment loses its earlier place in the ordering and takes the one
    /// of `lsn`.
    pub open spec fn allocate(self, lsn: Lsn) -> State {
        let lid = self.front_or_tip() as LogID;
        let idx = self.config.segment_index(lid);
        let segments = extend_to(self.segments, idx + 1);
        let segment = segments[idx];
        let ordering = match segment.lsn {
            Some(old_lsn) => self.ordering.remove(old_lsn),
            None => self.ordering,
        };
        State {
            tip: if self.next_extends() {
                self.tip + self.config.io_buf_size
            } else {
                self.tip
            },
            free: if self.next_extends() {
                self.free
            } else {
                self.free.drop_first()
            },
            segments: segments.update(
                idx,
                SegmentView { pids: segment.pids, pids_len: 0, lsn: Some(lsn), freed: false },
            ),
            ordering: ordering.insert(lsn, lid),
            ..self
        }
    }

    /// The offset that `next` hands out: the one an allocation takes once
    /// the free list is at the safe-reuse distance.
    pub open spec fn next_lid(self) -> int {
        self.ensure_safe_free_distance().front_or_tip()
    }

    /// Hand out an offset for a header that carries `lsn`. The free list
    /// is brought to the safe-reuse distance before the offset is chosen,
    /// so that a reused offset has waited behind `io_bufs` others, and
    /// again afterwards, so that the distance holds between operations.
    pub open spec fn next(self, lsn: Lsn) -> State {
        self.ensure_safe_free_distance().allocate(lsn).ensure_safe_free_distance()
    }

    /// Whether `next(lsn)` can run: `lsn` names a segment boundary, the
    /// segment about to be handed out can be allocated, and the tip stays
    /// within the machine's integers.
    pub open spec fn can_next(self, lsn: Lsn) -> bool {
        &&& lsn as int % self.config.io_buf_size as int == 0
        &&& self.next(lsn).tip <= u64::MAX
        &&& self.ensure_safe_free_distance().can_allocate()
    }

    /// Bringing the free list to the safe-reuse distance extends the tip
    /// by the shortfall and puts the new offsets in front of what was
    /// free, the highest first.
    pub proof fn lemma_ensure_closed_form(self)
        ensures
            ({
                let k = self.shortfall() as int;
                let size = self.config.io_buf_size as int;
                let after = self.ensure_safe_free_distance();
                &&& after.tip == self.tip + k * size
                &&& after.free.len() == self.free.len() + k
                &&& forall|i: int|
                    0 <= i < k ==> #[trigger] after.free[i] == (self.tip + (k - 1 - i)
                        * size) as LogID
                &&& forall|i: int|
                    0 <= i < self.free.len() ==> #[trigger] after.free[k + i] == self.free[i]
            }),
        decreases self.shortfall(),
    {
        let k = self.shortfall() as int;
        let size = self.config.io_buf_size as int;
        let after = self.ensure_safe_free_distance();
        if self.free.len() < self.config.io_bufs {
            let step = State { free: seq![self.tip as LogID] + self.free, ..self.bump_tip() };
            step.lemma_ensure_closed_form();
            assert(step.shortfall() == k - 1);
            assert(after == step.ensure_safe_free_distance());
            assert(after.tip == self.tip + k * size) by (nonlinear_arith)
                requires
                    after.tip == self.tip + size + (k - 1) * size,
            ;
            assert forall|i: int| 0 <= i < k implies #[trigger] after.free[i] == (self.tip + (k
                - 1 - i) * size) as LogID by {
                if i < k - 1 {
                    assert(self.tip + size + (k - 2 - i) * size == self.tip + (k - 1 - i) * size)
                        by (nonlinear_arith);
                } else {
                    assert(after.free[(k - 1) + 0] == step.free[0]);
                    assert((k - 1 - i) * size == 0) by (nonlinear_arith)
                        requires
                            i == k - 1,
                    ;
                }
            }
            assert forall|i: int| 0 <= i < self.free.len() implies #[trigger] after.free[k + i]
                == self.free[i] by {
                assert(after.free[(k - 1) + (i + 1)] == step.free[i + 1]);
            }
        } else {
            assert(k * size == 0) by (nonlinear_arith)
                requires
                    k == 0,
            ;
        }
    }

    /// How `next` moves the tip: by the shortfall of the free list, by one
    /// segment more where the allocation extends the log, and by another
    /// where taking the front leaves the list one short. No step lowers it.
    pub proof fn lemma_next_shape(self, lsn: Lsn)
        ensures
            ({
                let size = self.config.io_buf_size as int;
                let k = self.shortfall() as int;
                let ready = self.ensure_safe_free_distance();
                let taken = ready.allocate(lsn);
                let extends = self.pause_rewriting || self.free.len() + k == 0;
                let again = if !extends && self.free.len() + k - 1 < self.config.io_bufs {
                    1int
                } else {
                    0int
                };
                &&& ready.tip == self.tip + k * size
                &&& ready.segments == self.segments
                &&& ready.config == self.config
                &&& ready.pause_rewriting == self.pause_rewriting
                &&& ready.free.len() == self.free.len() + k
                &&& ready.free.len() >= self.config.io_bufs
                &&& ready.next_extends() == extends
                &&& k > 0 ==> ready.free[0] == (self.tip + (k - 1) * size) as LogID
                &&& k == 0 && self.free.len() > 0 ==> ready.free[0] == self.free[0]
                &&& taken.tip == ready.tip + if extends {
                    size
                } else {
                    0
                }
                &&& taken.shortfall() == again
                &&& self.next(lsn).tip == taken.tip + again * size
                &&& self.tip <= ready.tip <= taken.tip <= self.next(lsn).tip
                &&& self.next(lsn).free.len() >= self.config.io_bufs
            }),
    {
        let size = self.config.io_buf_size as int;
        let k = self.shortfall() as int;
        let ready = self.ensure_safe_free_distance();
        let taken = ready.allocate(lsn);
        self.lemma_ensure_safe_free_distance();
        self.lemma_ensure_closed_form();
        taken.lemma_ensure_safe_free_distance();
        taken.lemma_ensure_closed_form();
        if k == 0 && self.free.len() > 0 {
            assert(ready.free[k + 0] == self.free[0]);
        }
        vstd::arithmetic::mul::lemma_mul_nonnegative(k, size);
        vstd::arithmetic::mul::lemma_mul_nonnegative(taken.shortfall() as int, size);
        assert(taken.shortfall() * size == if taken.shortfall() == 1 {
            size
        } else {
            0
        }) by (nonlinear_arith)
            requires
                taken.shortfall() == 0 || taken.shortfall() == 1,
        ;
    }

    /// Whether cleaning is held back: enough segments are free, or none is
    /// worth cleaning.
    pub open spec fn clean_gated(self) -> bool {
        self.free.len() > self.config.min_free_segments || self.to_clean.is_empty()
    }

    /// Whether `pid` lives in a segment of the cleaning set.
    pub open spec fn in_cleanable_segment(self, pid: PageID) -> bool {
        exists|lid: LogID| #[trigger]
            self.to_clean.contains(lid) && self.segments[self.config.segment_index(
                lid,
            )].pids.contains(pid)
    }

    /// Whether `clean` may hand out `pid`: cleaning is not held back, the
    /// page lives in a segment of the cleaning set, and it is not pending.
    pub open spec fn clean_candidate(self, pid: PageID) -> bool {
        &&& !self.clean_gated()
        &&& self.in_cleanable_segment(pid)
        &&& !self.pending_clean.contains(pid)
    }

    /// The state after `clean` handed out `pid`.
    pub open spec fn cleaning(self, pid: PageID) -> State {
        State { pending_clean: self.pending_clean.insert(pid), ..self }
    }

    /// The state after the first `n` of the installed `segments` were
    /// classified: an empty one is marked released and joins the back of
    /// the free list, a sparse one enters the cleaning set.
    pub open spec fn installed(self, segments: Seq<SegmentView>, n: nat) -> State
        decreases n,
    {
        if n == 0 {
            State { segments: segments, ..self }
        } else {
            let before = self.installed(segments, (n - 1) as nat);
            let segment = segments[n - 1];
            let start = self.config.segment_start(n - 1) as LogID;
            if segment.pids.is_empty() {
                State {
                    segments: before.segments.update(
                        n - 1,
                        SegmentView { freed: true, ..segment },
                    ),
                    free: before.free.push(start),
                    ..before
                }
            } else if segment.cleanable(self.config) {
                State { to_clean: before.to_clean.insert(start), ..before }
            } else {
                before
            }
        }
    }

    /// Whether `segments` can be installed: the records can be held, every
    /// segment start fits, and what is in the cleaning set still has a record.
    pub open spec fn can_install(self, segments: Seq<SegmentView>) -> bool {
        &&& segments.len() <= usize::MAX
        &&& segments.len() > 0 ==> self.config.segment_start(segments.len() - 1) <= u64::MAX
        &&& forall|lid: LogID| #[trigger]
            self.to_clean.contains(lid) ==> self.config.segment_index(lid) < segments.len()
    }

    /// Replace the occupancy records by `segments` and classify each.
    pub open spec fn initialize_from_segments(self, segments: Seq<SegmentView>) -> State {
        self.installed(segments, segments.len())
    }

    /// The state after the headers of the first `n` segments of `log` were
    /// recorded: segment `i` was read at offset `i * io_buf_size`.
    pub open spec fn scanned_headers(self, log: Seq<LogSegment>, n: nat) -> State
        decreases n,
    {
        if n == 0 {
            self
        } else {
            let before = self.scanned_headers(log, (n - 1) as nat);
            let lsn = log[n - 1].lsn;
            State {
                tip: self.config.segment_start(n as int),
                max_lsn: if lsn > before.max_lsn {
                    lsn as int
                } else {
                    before.max_lsn
                },
                ..before.recover(lsn, self.config.segment_start(n - 1) as LogID)
            }
        }
    }

    /// The state after the records of the tail segment, read again as
    /// `tail` at offset `base`, were scanned. A tail that cannot be read,
    /// or that holds no valid record, is reusable as it is: its offset
    /// joins the free list.
    pub open spec fn scanned_tail(self, base: LogID, tail: Option<LogSegment>) -> State {
        match tail {
            Some(segment) => {
                let start = self.max_lsn + segment.read_offset;
                let max_lsn = tail_max(segment.records@, start, self.config.header_len as int);
                let found = State {
                    max_lsn: max_lsn,
                    initial_offset: base + max_lsn % (self.config.io_buf_size as int),
                    ..self
                };
                if holds_valid_record(segment.records@) {
                    found
                } else {
                    found.release(base)
                }
            },
            None => self.release(base),
        }
    }

    /// Where a scan of `log` fits the machine's integers, so does the scan
    /// of its headers, and every segment start up to the new tip.
    pub proof fn lemma_scanned_bounds(self, log: Seq<LogSegment>)
        requires
            self.wf(),
            !self.is_recovered(),
            self.scanned(log).fits(),
        ensures
            self.config.segment_start(log.len() as int) <= u64::MAX,
            log.len() > 0 ==> self.scanned(log).tip == self.config.segment_start(log.len() as int),
    {
        if log.len() == 0 {
            assert(self.config.segment_start(0) == 0);
        }
    }

    /// The state after the tail of `log` was scanned: the tail is the
    /// segment to which the ordering leads from the highest header met.
    /// Without such a segment nothing changes.
    pub open spec fn tail_scanned(self, log: Seq<LogSegment>) -> State {
        if self.ordering.contains_key(self.max_lsn as Lsn) {
            let base = self.ordering[self.max_lsn as Lsn];
            self.scanned_tail(base, segment_at(self.config, log, base))
        } else {
            self
        }
    }

    /// Rebuild the ordering, the tip and the highest stable sequence number
    /// from `log`, the segments that could be read from offset zero on.
    /// An accountant that has records already is left as it is.
    pub open spec fn scanned(self, log: Seq<LogSegment>) -> State {
        if self.is_recovered() {
            self
        } else {
            self.scanned_headers(log, log.len()).tail_scanned(log)
        }
    }
}

} // verus!
