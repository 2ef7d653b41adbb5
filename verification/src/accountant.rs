//! The executable segment accountant.
use crate::config::{
    lemma_segment_index_of_start, lemma_segment_start_below, lemma_segment_start_monotonic, Config,
    LogID, Lsn, PageID,
};
use crate::log;
use crate::log::{lemma_tail_max_at_least, tail_max, LogRead, LogSegment};
use crate::segment::lemma_product_fits;
use crate::model::{adopted, extend_to, State};
use crate::model;
use crate::recovery;
use crate::segment::{Segment, SegmentView};
use crate::snapshot::{entries_from, is_snapshot_from};
use std::collections::BTreeMap;
use std::collections::HashSet;
use std::collections::VecDeque;
use vstd::prelude::*;

verus! {

/// The views of a run of occupancy records.
pub open spec fn views(segments: Seq<Segment>) -> Seq<SegmentView> {
    Seq::new(segments.len(), |i: int| segments[i]@)
}

/// Index of the segment that holds the byte at `lid`.
pub fn segment_index(config: &Config, lid: LogID) -> (idx: usize)
    requires
        config.io_buf_size > 0,
        config.segment_index(lid) <= usize::MAX,
    ensures
        idx == config.segment_index(lid),
{
    let idx: u64 = lid / (config.io_buf_size as u64);
    idx as usize
}

/// Base offset of the segment with index `idx`.
pub fn segment_start(config: &Config, idx: usize) -> (start: LogID)
    requires
        config.segment_start(idx as int) <= u64::MAX,
    ensures
        start == config.segment_start(idx as int),
{
    (idx as u64) * (config.io_buf_size as u64)
}

/// Grow `segments` with untouched records to at least `n` entries.
fn ensure_segments(segments: &mut Vec<Segment>, n: usize)
    ensures
        views(final(segments)@) == extend_to(views(old(segments)@), n as int),
        final(segments)@.len() >= n,
        final(segments)@.len() == if old(segments)@.len() >= n {
            old(segments)@.len()
        } else {
            n as nat
        },
        forall|i: int| 0 <= i < old(segments)@.len() ==> final(segments)@[i] == old(segments)@[i],
        forall|i: int|
            old(segments)@.len() <= i < final(segments)@.len() ==> (#[trigger] final(segments)@[i])@
                == SegmentView::empty(),
{
    while segments.len() < n
        invariant
            segments@.len() <= n || segments@.len() == old(segments)@.len(),
            segments@.len() >= old(segments)@.len(),
            forall|i: int| 0 <= i < old(segments)@.len() ==> segments@[i] == old(segments)@[i],
            forall|i: int|
                old(segments)@.len() <= i < segments@.len() ==> (#[trigger] segments@[i])@
                    == SegmentView::empty(),
        decreases n - segments.len(),
    {
        segments.push(Segment::default());
    }
    assert(views(segments@) =~= extend_to(views(old(segments)@), n as int));
}

/// The segment of `log` that lies at `base`, if `log` reaches that far.
fn segment_at<'a>(config: &Config, log: &'a Vec<LogSegment>, base: LogID) -> (found: Option<
    &'a LogSegment,
>)
    requires
        config.io_buf_size > 0,
    ensures
        found == match model::segment_at(*config, log@, base) {
            Some(segment) => Some(&segment),
            None => None,
        },
{
    proof {
        lemma_segment_start_below(*config, base);
    }
    let size: u64 = config.io_buf_size as u64;
    let idx: u64 = base / size;
    if idx < log.len() as u64 && base % size == 0 {
        proof {
            vstd::arithmetic::div_mod::lemma_fundamental_div_mod(
                base as int,
                config.io_buf_size as int,
            );
            vstd::arithmetic::mul::lemma_mul_is_commutative(
                config.io_buf_size as int,
                base as int / config.io_buf_size as int,
            );
        }
        Some(&log[idx as usize])
    } else {
        proof {
            if idx < log.len() {
                lemma_segment_start_below(*config, base);
            }
        }
        None
    }
}

/// Some page of `pids` that is not in `pending`, if there is one.
fn first_not_pending(pids: &HashSet<PageID>, pending: &HashSet<PageID>) -> (found: Option<
    PageID,
>)
    ensures
        match found {
            Some(pid) => pids@.contains(pid) && !pending@.contains(pid),
            None => forall|pid: PageID| pids@.contains(pid) ==> pending@.contains(pid),
        },
{
    let ghost mut seen: Seq<PageID> = Seq::empty();
    for pid in it: pids.iter()
        invariant
            it.seq().unref().to_set() == pids@,
            seen == it.seq().unref().take(it.index()),
            it.index() == it.seq().len() ==> seen.to_set() == pids@,
            forall|i: int| 0 <= i < seen.len() ==> pending@.contains(seen[i]),
    {
        assert(it.seq().unref()[it.index()] == *pid);
        assert(pids@.contains(*pid));
        if !pending.contains(pid) {
            return Some(*pid);
        }
        proof {
            seen = seen.push(*pid);
        }
        assert(seen =~= it.seq().unref().take(it.index() + 1));
        assert(it.index() + 1 == it.seq().len() ==> seen =~= it.seq().unref());
    }
    assert forall|pid: PageID| pids@.contains(pid) implies pending@.contains(pid) by {
        assert(seen.contains(pid));
    }
    None
}

/// The highest sequence number that `records` establish above `start`,
/// unless it lies beyond the machine's integers.
pub fn scan_records(records: &Vec<LogRead>, start: Lsn, header_len: usize) -> (found: Option<Lsn>)
    ensures
        found is Some <==> tail_max(records@, start as int, header_len as int) <= u64::MAX,
        found matches Some(max_lsn) ==> max_lsn == tail_max(
            records@,
            start as int,
            header_len as int,
        ),
{
    let ghost goal = tail_max(records@, start as int, header_len as int);
    let mut max_lsn: Lsn = start;
    let mut at: usize = 0;
    let mut stop: bool = false;
    assert(records@.skip(0) =~= records@);
    while at < records.len() && !stop
        invariant
            at <= records.len(),
            goal == tail_max(records@, start as int, header_len as int),
            !stop ==> tail_max(records@.skip(at as int), max_lsn as int, header_len as int)
                == goal,
            stop ==> max_lsn == goal,
        decreases records.len() - at + if stop { 0int } else { 1int },
    {
        let ghost rest = records@.skip(at as int);
        assert(rest[0] == records@[at as int]);
        assert(rest.drop_first() =~= records@.skip(at + 1));
        match records[at] {
            LogRead::Zeroed(_) => {
                at += 1;
            },
            LogRead::Flush(lsn, len) => {
                let end: u128 = lsn as u128 + header_len as u128 + len as u128;
                if end > max_lsn as u128 {
                    proof {
                        lemma_tail_max_at_least(rest.drop_first(), end as int, header_len as int);
                    }
                    if end > u64::MAX as u128 {
                        assert(goal == tail_max(
                            rest.drop_first(),
                            end as int,
                            header_len as int,
                        ));
                        return None;
                    }
                    max_lsn = end as u64;
                    at += 1;
                } else {
                    stop = true;
                }
            },
            LogRead::Corrupted(_) => {
                stop = true;
            },
        }
    }
    Some(max_lsn)
}

/// Whether `records` hold a valid record: some record of the stream is
/// a flushed one.
pub fn holds_valid_record(records: &Vec<LogRead>) -> (found: bool)
    ensures
        found == log::holds_valid_record(records@),
{
    let mut at: usize = 0;
    while at < records.len()
        invariant
            at <= records.len(),
            forall|j: int| 0 <= j < at ==> !(#[trigger] records@[j] is Flush),
        decreases records.len() - at,
    {
        match records[at] {
            LogRead::Flush(_, _) => {
                assert(records@[at as int] is Flush);
                return true;
            },
            _ => {},
        }
        at = at + 1;
    }
    false
}

/// The index of the tail of `log`: the last segment whose header carries
/// the highest sequence number. Recovery reads the records of this
/// segment and of no other.
pub fn tail_index(log: &Vec<LogSegment>) -> (tail: Option<usize>)
    ensures
        tail is Some <==> log@.len() > 0,
        tail matches Some(k) ==> recovery::is_tail(log@, k as int),
{
    if log.len() == 0 {
        return None;
    }
    let mut best: usize = 0;
    let mut at: usize = 1;
    while at < log.len()
        invariant
            1 <= at <= log.len(),
            best < at,
            forall|i: int| 0 <= i < at ==> (#[trigger] log@[i]).lsn <= log@[best as int].lsn,
            forall|j: int| best < j < at ==> (#[trigger] log@[j]).lsn != log@[best as int].lsn,
        decreases log.len() - at,
    {
        if log[at].lsn >= log[best].lsn {
            best = at;
        }
        at = at + 1;
    }
    Some(best)
}

/// Tracks which pages live in which segment of the log, hands out the
/// offset of the next segment to write, and names pages whose rewriting
/// would let a sparse segment be reclaimed.
#[derive(Debug)]
pub struct SegmentAccountant {
    tip: LogID,
    max_lsn: Lsn,
    initial_offset: LogID,
    segments: Vec<Segment>,
    to_clean: HashSet<LogID>,
    pending_clean: HashSet<PageID>,
    free: VecDeque<LogID>,
    config: Config,
    pause_rewriting: bool,
    ordering: BTreeMap<Lsn, LogID>,
}

impl View for SegmentAccountant {
    type V = State;

    closed spec fn view(&self) -> State {
        State {
            tip: self.tip as int,
            max_lsn: self.max_lsn as int,
            initial_offset: self.initial_offset as int,
            segments: views(self.segments@),
            to_clean: self.to_clean@,
            pending_clean: self.pending_clean@,
            free: self.free@,
            config: self.config,
            pause_rewriting: self.pause_rewriting,
            ordering: self.ordering@,
        }
    }
}

impl Default for SegmentAccountant {
    fn default() -> (sa: SegmentAccountant)
        ensures
            sa.wf(),
            sa@ == State::empty(Config::defaults()),
    {
        SegmentAccountant::empty(Config::default())
    }
}

impl SegmentAccountant {
    /// What every operation relies on and maintains.
    pub open spec fn wf(&self) -> bool {
        self@.wf()
    }

    /// An accountant that has seen nothing.
    pub fn empty(config: Config) -> (sa: SegmentAccountant)
        requires
            config.wf(),
        ensures
            sa.wf(),
            sa@ == State::empty(config),
    {
        let sa = SegmentAccountant {
            tip: 0,
            max_lsn: 0,
            initial_offset: 0,
            segments: Vec::new(),
            to_clean: HashSet::new(),
            pending_clean: HashSet::new(),
            free: VecDeque::new(),
            config: config,
            pause_rewriting: false,
            ordering: BTreeMap::new(),
        };
        assert(sa@.segments =~= Seq::empty());
        sa
    }

    /// An accountant for the log whose readable segments, from offset zero
    /// on, are `log`.
    pub fn new(config: Config, log: &Vec<LogSegment>) -> (sa: SegmentAccountant)
        requires
            config.wf(),
            State::empty(config).scanned(log@).fits(),
        ensures
            sa.wf(),
            sa@ == State::empty(config).scanned(log@),
            sa@.config == config,
    {
        let mut ret = SegmentAccountant::empty(config);
        ret.scan_segment_lsns(log);
        ret
    }

    /// An accountant for the log whose readable segments are `log`, if
    /// the configuration is usable and the recovery fits the machine's
    /// integers.
    pub fn try_new(config: Config, log: &Vec<LogSegment>) -> (made: Option<SegmentAccountant>)
        ensures
            made is Some <==> config.wf() && State::empty(config).scanned(log@).fits(),
            made matches Some(sa) ==> sa.wf() && sa@ == State::empty(config).scanned(log@)
                && sa@.config == config,
    {
        if !config.is_wf() {
            return None;
        }
        let len: usize = log.len();
        proof {
            lemma_product_fits(len as nat, config.io_buf_size as nat);
            let fresh = State::empty(config);
            if fresh.scanned(log@).fits() {
                fresh.lemma_scanned_bounds(log@);
            }
            lemma_segment_start_monotonic(config, 0, len as int);
        }
        if (len as u128) * (config.io_buf_size as u128) > u64::MAX as u128 {
            return None;
        }
        let mut sa = SegmentAccountant::empty(config);
        sa.scan_headers(log);
        if !sa.tail_fits(log) {
            return None;
        }
        sa.scan_tail(log);
        Some(sa)
    }

    /// Rebuild the ordering, the tip and the highest stable sequence number
    /// from `log`, unless this accountant has records already.
    ///
    /// Segment `i` of `log` is what was read at offset `i * io_buf_size`;
    /// `log` ends where the first segment could not be read.
    pub fn scan_segment_lsns(&mut self, log: &Vec<LogSegment>)
        requires
            old(self).wf(),
            old(self)@.scanned(log@).fits(),
        ensures
            final(self).wf(),
            final(self)@ == old(self)@.scanned(log@),
            final(self)@.config == old(self)@.config,
    {
        if self.is_recovered() {
            return ;
        }
        proof {
            self@.lemma_scanned_bounds(log@);
        }
        self.scan_headers(log);
        self.scan_tail(log);
    }

    /// Record the header of each segment of `log`: its sequence number
    /// leads to its offset, the tip lies behind the last segment, and the
    /// maximum is the highest header met.
    fn scan_headers(&mut self, log: &Vec<LogSegment>)
        requires
            old(self).wf(),
            old(self)@.config.segment_start(log@.len() as int) <= u64::MAX,
        ensures
            final(self).wf(),
            final(self)@ == old(self)@.scanned_headers(log@, log@.len()),
            final(self)@.config == old(self)@.config,
    {
        let ghost before = self@;
        let mut cursor: LogID = 0;
        let mut at: usize = 0;
        while at < log.len()
            invariant
                at <= log.len(),
                self.wf(),
                before.wf(),
                self.config == before.config,
                cursor == before.config.segment_start(at as int),
                before.config.segment_start(log@.len() as int) <= u64::MAX,
                self@ == before.scanned_headers(log@, at as nat),
            decreases log.len() - at,
        {
            proof {
                lemma_segment_start_monotonic(self.config, at as int + 1, log@.len() as int);
                lemma_segment_index_of_start(self.config, at as int);
                assert(self.config.segment_start(at as int + 1) == cursor
                    + self.config.io_buf_size) by (nonlinear_arith)
                    requires
                        cursor == self.config.segment_start(at as int),
                ;
            }
            let ghost prior = self@;
            let ghost base = cursor;
            let lsn: Lsn = log[at].lsn;
            self.recover(lsn, cursor);
            cursor = cursor + self.config.io_buf_size as LogID;

            // NB the tip is set after the cursor moved on, so that it ends
            // one segment above the base of the highest valid segment
            self.tip = cursor;

            if lsn > self.max_lsn {
                self.max_lsn = lsn;
            }
            at = at + 1;
            proof {
                assert(self@ == State {
                    tip: cursor as int,
                    max_lsn: if lsn > prior.max_lsn {
                        lsn as int
                    } else {
                        prior.max_lsn
                    },
                    ..prior.recover(lsn, base)
                });
            }
        }
    }

    /// Whether the scan of the tail of `log` fits the machine's integers.
    fn tail_fits(&self, log: &Vec<LogSegment>) -> (ok: bool)
        requires
            self.wf(),
        ensures
            ok == self@.tail_scanned(log@).fits(),
    {
        let found: Option<LogID> = match self.ordering.get(&self.max_lsn) {
            Some(base) => Some(*base),
            None => None,
        };
        if let Some(max_cursor) = found {
            if let Some(segment) = segment_at(&self.config, log, max_cursor) {
                proof {
                    lemma_tail_max_at_least(
                        segment.records@,
                        self.max_lsn + segment.read_offset,
                        self.config.header_len as int,
                    );
                }
                if self.max_lsn as u128 + segment.read_offset as u128 > u64::MAX as u128 {
                    return false;
                }
                let start: Lsn = self.max_lsn + segment.read_offset as Lsn;
                match scan_records(&segment.records, start, self.config.header_len) {
                    Some(max_lsn) => {
                        let segment_overhang: LogID = max_lsn % self.config.io_buf_size as LogID;
                        max_cursor as u128 + segment_overhang as u128 <= u64::MAX as u128
                    },
                    None => false,
                }
            } else {
                true
            }
        } else {
            true
        }
    }

    /// Scan the records of the tail of `log`, the segment with the
    /// highest header: the maximum moves to the end of the last record
    /// accepted, and the initial offset lies that far into the tail. A
    /// tail without a valid record joins the free list.
    fn scan_tail(&mut self, log: &Vec<LogSegment>)
        requires
            old(self).wf(),
            old(self)@.tail_scanned(log@).fits(),
        ensures
            final(self).wf(),
            final(self)@ == old(self)@.tail_scanned(log@),
            final(self)@.config == old(self)@.config,
    {
        let found: Option<LogID> = match self.ordering.get(&self.max_lsn) {
            Some(base) => Some(*base),
            None => None,
        };
        if let Some(max_cursor) = found {
            let mut empty_tip: bool = true;
            if let Some(segment) = segment_at(&self.config, log, max_cursor) {
                proof {
                    lemma_tail_max_at_least(
                        segment.records@,
                        self.max_lsn + segment.read_offset,
                        self.config.header_len as int,
                    );
                }
                let start: Lsn = self.max_lsn + segment.read_offset as Lsn;
                let scanned: Option<Lsn> = scan_records(
                    &segment.records,
                    start,
                    self.config.header_len,
                );
                self.max_lsn = scanned.unwrap();
                if holds_valid_record(&segment.records) {
                    empty_tip = false;
                }
                let segment_overhang: LogID = self.max_lsn % self.config.io_buf_size as LogID;
                self.initial_offset = max_cursor + segment_overhang;
            }
            if empty_tip {
                self.free.push_back(max_cursor);
            }
        }
    }

    /// Whether recovery has run: some segment has a record.
    pub fn is_recovered(&self) -> (b: bool)
        ensures
            b == self@.is_recovered(),
    {
        !(self.segments.len() == 0)
    }

    /// Record that the segment at `lid` carries `lsn`.
    pub fn recover(&mut self, lsn: Lsn, lid: LogID)
        requires
            old(self).wf(),
            old(self)@.can_hold(lid),
        ensures
            final(self).wf(),
            final(self)@ == old(self)@.recover(lsn, lid),
    {
        proof {
            lemma_segment_start_below(self.config, lid);
        }
        let idx: usize = segment_index(&self.config, lid);
        ensure_segments(&mut self.segments, idx + 1);
        self.segments[idx].lsn = Some(lsn);
        self.ordering.insert(lsn, lid);
        proof {
            let before = old(self)@;
            let grown = extend_to(before.segments, idx + 1);
            assert(self@.segments =~= grown.update(
                idx as int,
                SegmentView { lsn: Some(lsn), ..grown[idx as int] },
            ));
        }
    }

    /// Record that `pid` has a fragment at `lid`, written with `lsn`.
    ///
    /// The page stops being pending. If the segment already carries a
    /// later sequence number, the placement comes too late and is dropped.
    pub fn merged(&mut self, pid: PageID, lid: LogID, lsn: Lsn)
        requires
            old(self).wf(),
            old(self)@.can_hold(lid),
        ensures
            final(self).wf(),
            final(self)@ == old(self)@.merged(pid, lid, lsn),
            final(self)@.pending_clean == old(self)@.pending_clean.remove(pid),
    {
        proof {
            lemma_segment_start_below(self.config, lid);
        }
        self.pending_clean.remove(&pid);
        let idx: usize = segment_index(&self.config, lid);
        ensure_segments(&mut self.segments, idx + 1);
        let ghost grown = views(self.segments@);
        if self.segments[idx].lsn.is_none() {
            self.segments[idx].lsn = Some(lsn);
        }
        if self.segments[idx].lsn.unwrap() > lsn {
            assert(views(self.segments@) =~= views(old(self).segments@));
            return ;
        }
        self.segments[idx].pids.insert(pid);
        proof {
            let segment = grown[idx as int];
            assert(views(self.segments@) =~= grown.update(
                idx as int,
                SegmentView {
                    pids: segment.pids.insert(pid),
                    lsn: adopted(segment, lsn),
                    ..segment
                },
            ));
        }
    }

    /// Extend the log by one segment and return the offset of the new one.
    fn bump_tip(&mut self) -> (lid: LogID)
        requires
            old(self).wf(),
            old(self)@.bump_tip().tip <= u64::MAX,
        ensures
            final(self).wf(),
            final(self)@ == old(self)@.bump_tip(),
            lid == old(self)@.tip,
    {
        let lid: LogID = self.tip;
        self.tip = self.tip + self.config.io_buf_size as LogID;
        lid
    }

    /// Keep the free list at least as long as the number of write buffers,
    /// so that no segment is handed out while an update that refers to its
    /// former contents may still wait in a buffer. New offsets come from
    /// the tip and go to the front, so that the tip is used first.
    fn ensure_safe_free_distance(&mut self)
        requires
            old(self).wf(),
            old(self)@.ensure_safe_free_distance().tip <= u64::MAX,
        ensures
            final(self).wf(),
            final(self)@ == old(self)@.ensure_safe_free_distance(),
            final(self)@.free.len() >= final(self)@.config.io_bufs,
    {
        let ghost goal = self@.ensure_safe_free_distance();
        while self.free.len() < self.config.io_bufs
            invariant
                self.wf(),
                self@.ensure_safe_free_distance() == goal,
                goal.tip <= u64::MAX,
            decreases self.config.io_bufs - self.free.len(),
        {
            proof {
                let step = State { free: seq![self@.tip as LogID] + self@.free, ..self@.bump_tip() };
                step.lemma_ensure_safe_free_distance();
            }
            let new_lid: LogID = self.bump_tip();
            self.free.push_front(new_lid);
        }
    }

    /// Take `pid` out of the segment at `lid`, for an update stamped
    /// `lsn`. Returns the base offset of the segment if this emptied it,
    /// so that its release has to be scheduled.
    fn vacate(&mut self, pid: PageID, lid: LogID, lsn: Lsn) -> (released: Option<LogID>)
        requires
            old(self).wf(),
            old(self)@.can_hold(lid),
            old(self)@.vacate(pid, lid, lsn).tip <= u64::MAX,
        ensures
            final(self).wf(),
            final(self)@ == old(self)@.vacate(pid, lid, lsn),
            released == if old(self)@.vacate_releases(pid, lid, lsn) {
                Some(
                    old(self)@.config.segment_start(old(self)@.config.segment_index(lid)) as LogID,
                )
            } else {
                None
            },
    {
        proof {
            lemma_segment_start_below(self.config, lid);
        }
        let idx: usize = segment_index(&self.config, lid);
        ensure_segments(&mut self.segments, idx + 1);
        let ghost grown = views(self.segments@);
        let ghost segment = grown[idx as int];
        if self.segments[idx].lsn.is_none() {
            self.segments[idx].lsn = Some(lsn);
        }
        if self.segments[idx].lsn.unwrap() > lsn {
            assert(views(self.segments@) =~= views(old(self).segments@));
            return None;
        }
        if self.segments[idx].pids_len == 0 {
            self.segments[idx].pids_len = self.segments[idx].pids.len();
        }
        self.segments[idx].pids.remove(&pid);
        let segment_start: LogID = segment_start(&self.config, idx);
        let ghost shrunk = SegmentView {
            pids: segment.pids.remove(pid),
            pids_len: segment.measure(),
            lsn: adopted(segment, lsn),
            freed: segment.freed,
        };
        assert(views(self.segments@) =~= grown.update(idx as int, shrunk));
        if self.segments[idx].pids.is_empty() && !self.segments[idx].freed {
            self.segments[idx].freed = true;
            self.to_clean.remove(&segment_start);
            assert(views(self.segments@) =~= grown.update(
                idx as int,
                SegmentView { freed: true, ..shrunk },
            ));
            self.ensure_safe_free_distance();
            Some(segment_start)
        } else {
            if self.segments[idx].cleanable(&self.config) {
                self.to_clean.insert(segment_start);
            }
            None
        }
    }

    /// The page `pid` no longer lives at any of `old_lids`.
    ///
    /// The page stops being pending and leaves the segment of each old
    /// offset. Returns the base offsets of the segments that this emptied:
    /// each is to join the free list, through `release`, once no reader
    /// can still hold a reference into its former contents.
    pub fn freed(&mut self, pid: PageID, old_lids: Vec<LogID>, lsn: Lsn) -> (released: Vec<LogID>)
        requires
            old(self).wf(),
            forall|i: int| 0 <= i < old_lids@.len() ==> old(self)@.can_hold(#[trigger] old_lids@[i]),
            old(self)@.freed(pid, old_lids@, lsn).tip <= u64::MAX,
        ensures
            final(self).wf(),
            final(self)@ == old(self)@.freed(pid, old_lids@, lsn),
            released@ == old(self)@.freed_releases(pid, old_lids@, lsn),
            final(self)@.config == old(self)@.config,
            final(self)@.pending_clean == old(self)@.pending_clean.remove(pid),
            released@.len() > 0 ==> final(self)@.free.len() >= old(self)@.config.io_bufs,
    {
        proof {
            self@.lemma_placements_settle_page(pid, old_lids@, 0, lsn);
            self@.lemma_safe_reuse_distance(pid, old_lids@, 0, lsn);
        }
        self.pending_clean.remove(&pid);
        let ghost start = self@;
        let mut released: Vec<LogID> = Vec::new();
        let mut at: usize = 0;
        while at < old_lids.len()
            invariant
                at <= old_lids.len(),
                self.wf(),
                start.config == self@.config,
                self@ == start.vacated(pid, old_lids@, None, lsn, at as nat),
                released@ == start.released(pid, old_lids@, None, lsn, at as nat),
                start.vacated(pid, old_lids@, None, lsn, old_lids@.len()).tip <= u64::MAX,
                forall|i: int| 0 <= i < old_lids@.len() ==> start.can_hold(#[trigger] old_lids@[i]),
            decreases old_lids.len() - at,
        {
            proof {
                start.lemma_vacated_tip(pid, old_lids@, None, lsn, (at + 1) as nat, old_lids@.len());
                self@.lemma_vacate_frame(pid, old_lids@[at as int], lsn);
            }
            let old_lid: LogID = old_lids[at];
            if let Some(segment_start) = self.vacate(pid, old_lid, lsn) {
                released.push(segment_start);
            }
            at = at + 1;
        }
        released
    }

    /// The page `pid` moved from `old_lids` to `new_lid`.
    ///
    /// The page stops being pending and leaves the segment of each old
    /// offset, except for offsets in the segment of `new_lid`; then its
    /// new placement is recorded. Returns the base offsets of the segments
    /// that this emptied: each is to join the free list, through
    /// `release`, once no reader can still hold a reference into its
    /// former contents.
    pub fn set(&mut self, pid: PageID, old_lids: Vec<LogID>, new_lid: LogID, lsn: Lsn) -> (released:
        Vec<LogID>)
        requires
            old(self).wf(),
            forall|i: int| 0 <= i < old_lids@.len() ==> old(self)@.can_hold(#[trigger] old_lids@[i]),
            old(self)@.can_hold(new_lid),
            old(self)@.set(pid, old_lids@, new_lid, lsn).tip <= u64::MAX,
        ensures
            final(self).wf(),
            final(self)@ == old(self)@.set(pid, old_lids@, new_lid, lsn),
            released@ == old(self)@.set_releases(pid, old_lids@, new_lid, lsn),
            final(self)@.config == old(self)@.config,
            final(self)@.pending_clean == old(self)@.pending_clean.remove(pid),
            released@.len() > 0 ==> final(self)@.free.len() >= old(self)@.config.io_bufs,
    {
        proof {
            lemma_segment_start_below(self.config, new_lid);
            self@.lemma_placements_settle_page(pid, old_lids@, new_lid, lsn);
            self@.lemma_safe_reuse_distance(pid, old_lids@, new_lid, lsn);
        }
        self.pending_clean.remove(&pid);
        let new_idx: usize = segment_index(&self.config, new_lid);
        let ghost start = self@;
        let ghost keep = Some(new_idx as int);
        let mut released: Vec<LogID> = Vec::new();
        let mut at: usize = 0;
        while at < old_lids.len()
            invariant
                at <= old_lids.len(),
                self.wf(),
                start.config == self@.config,
                start.config.io_buf_size > 0,
                keep == Some(new_idx as int),
                self@ == start.vacated(pid, old_lids@, keep, lsn, at as nat),
                released@ == start.released(pid, old_lids@, keep, lsn, at as nat),
                start.vacated(pid, old_lids@, keep, lsn, old_lids@.len()).tip <= u64::MAX,
                forall|i: int| 0 <= i < old_lids@.len() ==> start.can_hold(#[trigger] old_lids@[i]),
            decreases old_lids.len() - at,
        {
            proof {
                start.lemma_vacated_tip(pid, old_lids@, keep, lsn, (at + 1) as nat, old_lids@.len());
                self@.lemma_vacate_frame(pid, old_lids@[at as int], lsn);
                lemma_segment_start_below(start.config, old_lids@[at as int]);
            }
            let old_lid: LogID = old_lids[at];
            let idx: usize = segment_index(&self.config, old_lid);
            if new_idx != idx {
                if let Some(segment_start) = self.vacate(pid, old_lid, lsn) {
                    released.push(segment_start);
                }
            }
            at = at + 1;
        }
        self.merged(pid, new_lid, lsn);
        released
    }

    /// A scheduled release has come due: `lid` joins the back of the free
    /// list and can be handed out again.
    pub fn release(&mut self, lid: LogID)
        requires
            old(self).wf(),
        ensures
            final(self).wf(),
            final(self)@ == old(self)@.release(lid),
    {
        self.free.push_back(lid);
    }

    /// Whether a record for the segment at `lid` can be held, as `merged`,
    /// `set`, `freed` and `recover` ask of each offset they are given.
    pub fn can_hold(&self, lid: LogID) -> (ok: bool)
        requires
            self.wf(),
        ensures
            ok == self@.can_hold(lid),
    {
        lid / (self.config.io_buf_size as u64) < usize::MAX as u64
    }

    /// Whether the tip can be extended to the safe-reuse distance. Where
    /// it can, `set` and `freed` stay within the machine's integers.
    pub fn has_room(&self) -> (ok: bool)
        requires
            self.wf(),
        ensures
            ok == self@.has_room(),
    {
        let len: usize = self.free.len();
        if len >= self.config.io_bufs {
            return true;
        }
        let lacking: usize = self.config.io_bufs - len;
        proof {
            lemma_product_fits(lacking as nat, self.config.io_buf_size as nat);
        }
        let room: u128 = (lacking as u128) * (self.config.io_buf_size as u128);
        room <= (u64::MAX - self.tip) as u128
    }

    /// Whether `segments` can be installed.
    pub fn can_install(&self, segments: &Vec<Segment>) -> (ok: bool)
        requires
            self.wf(),
        ensures
            ok == self@.can_install(views(segments@)),
    {
        let len: usize = segments.len();
        if len > 0 {
            proof {
                lemma_product_fits((len - 1) as nat, self.config.io_buf_size as nat);
            }
            if ((len - 1) as u128) * (self.config.io_buf_size as u128) > u64::MAX as u128 {
                return false;
            }
        }
        let ghost mut seen: Seq<LogID> = Seq::empty();
        for lid in it: self.to_clean.iter()
            invariant
                self.wf(),
                len == segments@.len(),
                it.seq().unref().to_set() == self.to_clean@,
                seen == it.seq().unref().take(it.index()),
                it.index() == it.seq().len() ==> seen.to_set() == self.to_clean@,
                forall|i: int|
                    0 <= i < seen.len() ==> self.config.segment_index(#[trigger] seen[i]) < len,
        {
            assert(it.seq().unref()[it.index()] == *lid);
            assert(self.to_clean@.contains(*lid));
            if *lid / (self.config.io_buf_size as u64) >= len as u64 {
                return false;
            }
            proof {
                seen = seen.push(*lid);
            }
            assert(seen =~= it.seq().unref().take(it.index() + 1));
            assert(it.index() + 1 == it.seq().len() ==> seen =~= it.seq().unref());
        }
        assert forall|lid: LogID| #[trigger] self@.to_clean.contains(lid) implies self@.config.segment_index(
            lid,
        ) < len by {
            assert(seen.contains(lid));
        }
        true
    }

    /// Whether `next(lsn)` can run.
    pub fn can_next(&self, lsn: Lsn) -> (ok: bool)
        requires
            self.wf(),
        ensures
            ok == self@.can_next(lsn),
    {
        let size: u64 = self.config.io_buf_size as u64;
        let len: usize = self.free.len();
        let lacking: usize = if len < self.config.io_bufs {
            self.config.io_bufs - len
        } else {
            0
        };
        let extends: bool = self.pause_rewriting || (len == 0 && lacking == 0);
        let left: usize = if extends {
            len + lacking
        } else {
            len + lacking - 1
        };
        let again: u64 = if left < self.config.io_bufs {
            1
        } else {
            0
        };
        let ghost ready = self@.ensure_safe_free_distance();
        let ghost grown = if extends {
            size as int
        } else {
            0int
        };
        proof {
            self@.lemma_next_shape(lsn);
            lemma_product_fits(lacking as nat, size as nat);
            vstd::arithmetic::mul::lemma_mul_nonnegative(lacking as int, size as int);
            assert(self@.shortfall() == lacking);
            assert(ready.tip == self.tip + lacking * size);
            assert(ready.next_extends() == extends);
            assert(again * size == if again == 1 {
                size as int
            } else {
                0int
            }) by (nonlinear_arith)
                requires
                    again == 0 || again == 1,
            ;
            assert(self@.next(lsn).tip == self.tip + lacking * size + grown + again * size);
        }
        let first: u128 = (lacking as u128) * (size as u128);
        if first > (u64::MAX - self.tip) as u128 {
            assert(self@.next(lsn).tip > u64::MAX);
            return false;
        }
        let more: u128 = if extends {
            size as u128
        } else {
            0
        } + if again > 0 {
            size as u128
        } else {
            0
        };
        assert(self@.next(lsn).tip == self.tip + first + more);
        if self.tip as u128 + first + more > u64::MAX as u128 {
            return false;
        }
        if lsn % size != 0 {
            return false;
        }
        let lid: LogID = if extends {
            self.tip + first as u64
        } else if lacking > 0 {
            proof {
                assert((lacking - 1) * size <= lacking * size) by (nonlinear_arith)
                    requires
                        lacking >= 1,
                        size >= 0,
                ;
                vstd::arithmetic::mul::lemma_mul_nonnegative(lacking as int - 1, size as int);
            }
            self.tip + ((lacking - 1) as u64) * size
        } else {
            self.free[0]
        };
        assert(lid == ready.front_or_tip());
        proof {
            lemma_segment_start_below(self.config, lid);
        }
        let idx: u64 = lid / size;
        assert(idx == ready.config.segment_index(ready.front_or_tip() as LogID));
        if idx >= usize::MAX as u64 {
            return false;
        }
        assert(ready.segments == self@.segments);
        if idx < self.segments.len() as u64 {
            let empty: bool = self.segments[idx as usize].pids.is_empty();
            assert(self@.segments[idx as int].pids == self.segments@[idx as int].pids@);
            empty
        } else {
            true
        }
    }

    /// Allocate the offset at the tip, or at the front of the free list,
    /// for a segment whose header will carry `lsn`.
    fn allocate(&mut self, lsn: Lsn) -> (lid: LogID)
        requires
            old(self).wf(),
            old(self)@.can_allocate(),
            old(self)@.allocate(lsn).tip <= u64::MAX,
        ensures
            final(self).wf(),
            final(self)@ == old(self)@.allocate(lsn),
            lid == old(self)@.front_or_tip(),
    {
        let lid: LogID = if self.pause_rewriting {
            self.bump_tip()
        } else {
            let res: Option<LogID> = self.free.pop_front();
            if res.is_none() {
                self.bump_tip()
            } else {
                res.unwrap()
            }
        };
        assert(self@.free =~= if old(self)@.next_extends() {
            old(self)@.free
        } else {
            old(self)@.free.drop_first()
        });
        proof {
            lemma_segment_start_below(self.config, lid);
        }
        let idx: usize = segment_index(&self.config, lid);
        ensure_segments(&mut self.segments, idx + 1);
        let ghost grown = views(self.segments@);
        if let Some(old_lsn) = self.segments[idx].lsn {
            self.ordering.remove(&old_lsn);
        }
        self.segments[idx].lsn = Some(lsn);
        self.segments[idx].freed = false;
        self.segments[idx].pids_len = 0;
        self.ordering.insert(lsn, lid);
        assert(views(self.segments@) =~= grown.update(
            idx as int,
            SegmentView { pids: grown[idx as int].pids, pids_len: 0, lsn: Some(lsn), freed: false },
        ));
        lid
    }

    /// Hand out an offset for a segment whose header will carry `lsn`.
    ///
    /// First the free list is brought to the safe-reuse distance, so that
    /// it holds at least `io_bufs` offsets when the offset is chosen.
    /// While rewriting is paused, or when nothing is free, the log then
    /// grows by one segment; otherwise the front of the free list is
    /// reused. The segment loses its earlier place in the ordering and
    /// takes the one of `lsn`. At last the free list is brought to the
    /// distance again, so that it holds at least `io_bufs` offsets on
    /// return.
    pub fn next(&mut self, lsn: Lsn) -> (lid: LogID)
        requires
            old(self).wf(),
            old(self)@.can_next(lsn),
        ensures
            final(self).wf(),
            final(self)@ == old(self)@.next(lsn),
            lid == old(self)@.next_lid(),
            final(self)@.config == old(self)@.config,
            final(self)@.free.len() >= old(self)@.config.io_bufs,
            final(self)@.ordering.contains_key(lsn),
            final(self)@.ordering[lsn] == lid,
            final(self)@.pending_clean == old(self)@.pending_clean,
    {
        proof {
            self@.lemma_next_shape(lsn);
            self@.lemma_next_frames(lsn);
            self@.lemma_next_orders_lsn_once(lsn, lsn);
        }
        self.ensure_safe_free_distance();
        let lid: LogID = self.allocate(lsn);
        self.ensure_safe_free_distance();
        lid
    }

    /// Some page that lives in a segment of the cleaning set and is not
    /// pending, if there is one.
    fn first_candidate(&self) -> (found: Option<PageID>)
        requires
            self.wf(),
        ensures
            match found {
                Some(pid) => self@.in_cleanable_segment(pid) && !self@.pending_clean.contains(pid),
                None => forall|pid: PageID|
                    self@.in_cleanable_segment(pid) ==> self@.pending_clean.contains(pid),
            },
    {
        let ghost mut seen: Seq<LogID> = Seq::empty();
        for lid in it: self.to_clean.iter()
            invariant
                self.wf(),
                it.seq().unref().to_set() == self.to_clean@,
                seen == it.seq().unref().take(it.index()),
                it.index() == it.seq().len() ==> seen.to_set() == self.to_clean@,
                forall|i: int, pid: PageID|
                    0 <= i < seen.len() && (#[trigger] self@.segments[self.config.segment_index(
                        seen[i],
                    )]).pids.contains(pid) ==> #[trigger] self@.pending_clean.contains(pid),
        {
            assert(it.seq().unref()[it.index()] == *lid);
            assert(self.to_clean@.contains(*lid));
            assert(self@.tracks(*lid));
            let idx: usize = segment_index(&self.config, *lid);
            let segment = &self.segments[idx];
            assert(segment@ == self@.segments[idx as int]);
            if let Some(pid) = first_not_pending(&segment.pids, &self.pending_clean) {
                return Some(pid);
            }
            proof {
                seen = seen.push(*lid);
            }
            assert(seen =~= it.seq().unref().take(it.index() + 1));
            assert(it.index() + 1 == it.seq().len() ==> seen =~= it.seq().unref());
        }
        assert forall|pid: PageID| self@.in_cleanable_segment(pid) implies self@.pending_clean.contains(
            pid,
        ) by {
            let lid = choose|lid: LogID| #[trigger]
                self@.to_clean.contains(lid) && self@.segments[self@.config.segment_index(
                    lid,
                )].pids.contains(pid);
            assert(seen.contains(lid));
        }
        None
    }

    /// Name a page whose rewriting would help to reclaim a sparse segment.
    ///
    /// Nothing is named while the free list is longer than
    /// `min_free_segments` or no segment is worth cleaning. Otherwise some
    /// page is named that lives in a segment of the cleaning set and was not
    /// named since it last moved; which one is not fixed. The page is then
    /// pending until `merged`, `set` or `freed` names it.
    pub fn clean(&mut self) -> (found: Option<PageID>)
        requires
            old(self).wf(),
        ensures
            final(self).wf(),
            old(self)@.clean_gated() ==> found is None,
            match found {
                Some(pid) => old(self)@.clean_candidate(pid) && final(self)@ == old(self)@.cleaning(
                    pid,
                ),
                None => final(self)@ == old(self)@ && forall|pid: PageID|
                    !old(self)@.clean_candidate(pid),
            },
    {
        if self.free.len() > self.config.min_free_segments || self.to_clean.is_empty() {
            return None;
        }
        let found: Option<PageID> = self.first_candidate();
        if let Some(pid) = found {
            self.pending_clean.insert(pid);
        }
        found
    }

    /// Replace the occupancy records by `segments`, as a snapshot supplies
    /// them. An empty segment is marked released and joins the back of the
    /// free list; a sparse one enters the cleaning set.
    pub fn initialize_from_segments(&mut self, segments: Vec<Segment>)
        requires
            old(self).wf(),
            old(self)@.can_install(views(segments@)),
        ensures
            final(self).wf(),
            final(self)@ == old(self)@.initialize_from_segments(views(segments@)),
            final(self)@.config == old(self)@.config,
    {
        let ghost before = self@;
        let ghost given = views(segments@);
        assert forall|i: int| 0 <= i < given.len() implies (#[trigger] given[i]).wf() by {
            segments@[i].lemma_wf();
        }
        self.segments = segments;
        let mut idx: usize = 0;
        assert(views(self.segments@) =~= given);
        while idx < self.segments.len()
            invariant
                idx <= self.segments.len(),
                self.segments@.len() == given.len(),
                before.wf(),
                before.can_install(given),
                self.config == before.config,
                self@.tip == before.tip,
                self@.max_lsn == before.max_lsn,
                self@.initial_offset == before.initial_offset,
                self@.pending_clean == before.pending_clean,
                self@ == before.installed(given, idx as nat),
                forall|i: int| idx <= i < given.len() ==> (#[trigger] self.segments@[i])@ == given[i],
                self@.to_clean.finite(),
                forall|i: int| 0 <= i < given.len() ==> (#[trigger] self@.segments[i]).wf(),
                forall|lid: LogID| #[trigger] self@.to_clean.contains(lid) ==> self@.tracks(lid),
            decreases self.segments.len() - idx,
        {
            proof {
                lemma_segment_start_monotonic(self.config, idx as int, given.len() - 1);
                lemma_segment_index_of_start(self.config, idx as int);
            }
            let ghost prior = views(self.segments@);
            let segment_start: LogID = segment_start(&self.config, idx);
            if self.segments[idx].pids.is_empty() {
                self.segments[idx].freed = true;
                self.free.push_back(segment_start);
                assert(views(self.segments@) =~= prior.update(
                    idx as int,
                    SegmentView { freed: true, ..given[idx as int] },
                ));
            } else if self.segments[idx].cleanable(&self.config) {
                self.to_clean.insert(segment_start);
                assert(views(self.segments@) =~= prior);
            } else {
                assert(views(self.segments@) =~= prior);
            }
            idx = idx + 1;
        }
    }

    /// The entries of the ordering whose sequence number is at least `lsn`
    /// rounded down to a segment boundary, in strictly ascending order of
    /// sequence number.
    pub fn segment_snapshot_iter_from(&self, lsn: Lsn) -> (entries: Vec<(Lsn, LogID)>)
        requires
            self.wf(),
        ensures
            is_snapshot_from(entries@, self@.ordering, self@.config.segment_floor(lsn)),
    {
        proof {
            lemma_segment_start_below(self.config, lsn);
        }
        let segment_len: Lsn = self.config.io_buf_size as Lsn;
        let normalized_lsn: Lsn = lsn / segment_len * segment_len;
        entries_from(&self.ordering, normalized_lsn)
    }

    /// The first byte the log writer should write to after recovery.
    pub fn initial_lid(&self) -> (lid: LogID)
        ensures
            lid == self@.initial_offset,
    {
        self.initial_offset
    }

    /// The highest stable sequence number that recovery found.
    pub fn recovered_max_lsn(&self) -> (lsn: Lsn)
        ensures
            lsn == self@.max_lsn,
    {
        self.max_lsn
    }

    /// From now on every allocation extends the log, so that a traversal
    /// of the log never meets a segment that was rewritten under it.
    pub fn pause_rewriting(&mut self)
        ensures
            final(self)@ == (State { pause_rewriting: true, ..old(self)@ }),
    {
        self.pause_rewriting = true;
    }

    /// Allow allocations to reuse free segments again.
    pub fn resume_rewriting(&mut self)
        ensures
            final(self)@ == (State { pause_rewriting: false, ..old(self)@ }),
    {
        self.pause_rewriting = false;
    }

    /// The configuration this accountant was made with.
    pub fn config(&self) -> (config: &Config)
        ensures
            *config == self@.config,
    {
        &self.config
    }

    /// The next byte offset beyond the last allocated segment.
    pub fn tip(&self) -> (tip: LogID)
        ensures
            tip == self@.tip,
    {
        self.tip
    }

    /// Whether every allocation extends the log for now.
    pub fn is_rewriting_paused(&self) -> (paused: bool)
        ensures
            paused == self@.pause_rewriting,
    {
        self.pause_rewriting
    }

    /// The occupancy records; entry `i` is the segment at `i * io_buf_size`.
    pub fn segments(&self) -> (segments: &Vec<Segment>)
        ensures
            views(segments@) == self@.segments,
    {
        &self.segments
    }

    /// The reusable offsets; the front is handed out next.
    pub fn free(&self) -> (free: &VecDeque<LogID>)
        ensures
            free@ == self@.free,
    {
        &self.free
    }

    /// Base offsets of the segments worth cleaning.
    pub fn to_clean(&self) -> (to_clean: &HashSet<LogID>)
        ensures
            to_clean@ == self@.to_clean,
    {
        &self.to_clean
    }

    /// Pages handed to the cleaner and not yet repositioned.
    pub fn pending_clean(&self) -> (pending: &HashSet<PageID>)
        ensures
            pending@ == self@.pending_clean,
    {
        &self.pending_clean
    }

    /// The offset of the segment that carries each assigned sequence number.
    pub fn ordering(&self) -> (ordering: &BTreeMap<Lsn, LogID>)
        ensures
            ordering@ == self@.ordering,
    {
        &self.ordering
    }
}

} // verus!
