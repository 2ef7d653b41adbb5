//! What recovery computes, stated directly.
use crate::config::{
    lemma_segment_index_of_start, lemma_segment_start_monotonic, Config, LogID, Lsn,
};
use crate::log::{
    flush_end, holds_valid_record, is_written_run, tail_max, lemma_tail_max_at_least, lemma_tail_max_bounded,
    lemma_tail_max_of_written_run, segment_fits, LogSegment,
};
use crate::model::segment_at;
use crate::model::{extend_to, State};
use crate::segment::SegmentView;
use vstd::prelude::*;

verus! {

/// Whether segment `i` is the last of the first `n` of `log` whose header
/// carries its sequence number.
pub open spec fn last_with_lsn(log: Seq<LogSegment>, n: nat, i: int) -> bool {
    0 <= i < n && forall|j: int| i < j < n ==> (#[trigger] log[j]).lsn != log[i].lsn
}

/// Whether the header of one of the first `n` of `log` carries `lsn`.
pub open spec fn has_header(log: Seq<LogSegment>, n: nat, lsn: int) -> bool {
    exists|i: int| 0 <= i < n && (#[trigger] log[i]).lsn == lsn
}

/// Whether every segment start up to the end of `log`, the start of each
/// segment's records and the end of each record fit the machine's
/// integers.
pub open spec fn log_fits(config: Config, log: Seq<LogSegment>) -> bool {
    &&& log.len() <= usize::MAX
    &&& config.segment_start(log.len() as int) <= u64::MAX
    &&& forall|i: int|
        0 <= i < log.len() ==> segment_fits(#[trigger] log[i], config.header_len as int)
}

/// The recovery of a fresh accountant from a log that fits the machine's
/// integers fits them too.
pub proof fn lemma_scanned_fits(config: Config, log: Seq<LogSegment>)
    requires
        config.io_buf_size > 0,
        log_fits(config, log),
    ensures
        State::empty(config).scanned(log).fits(),
{
    let fresh = State::empty(config);
    let n = log.len();
    let size = config.io_buf_size as int;
    let headers = fresh.scanned_headers(log, n);
    fresh.lemma_scanned_headers(log, n);
    if n > 0 {
        lemma_segment_start_monotonic(config, n - 1, n as int);
    }
    assert(headers.fits()) by {
        if headers.max_lsn != 0 {
            let i = choose|i: int| 0 <= i < n && (#[trigger] log[i]).lsn == headers.max_lsn;
            assert(headers.max_lsn <= u64::MAX);
        }
    }
    if headers.ordering.contains_key(headers.max_lsn as Lsn) {
        let top = headers.max_lsn as Lsn;
        let base = headers.ordering[top];
        assert(has_header(log, n, top as int));
        let k = lemma_last_with_lsn(log, n, top);
        assert(last_with_lsn(log, n, k));
        assert(base == config.segment_start(k) as LogID);
        lemma_segment_start_monotonic(config, k, n - 1);
        lemma_segment_start_monotonic(config, k + 1, n as int);
        lemma_segment_index_of_start(config, k);
        assert(segment_at(config, log, base) == Some(log[k]));
        let tail = log[k];
        assert(segment_fits(tail, config.header_len as int));
        let start = headers.max_lsn + tail.read_offset;
        assert forall|j: int| 0 <= j < tail.records@.len() implies (
        #[trigger] tail.records@[j] matches crate::log::LogRead::Flush(lsn, len) ==> lsn
            + config.header_len as int + len <= u64::MAX) by {
            assert(crate::log::record_fits(tail.records@[j], config.header_len as int));
        }
        lemma_tail_max_bounded(tail.records@, start, config.header_len as int, u64::MAX as int);
        lemma_tail_max_at_least(tail.records@, start, config.header_len as int);
        let max_lsn = crate::log::tail_max(tail.records@, start, config.header_len as int);
        assert(0 <= max_lsn % size < size) by {
            vstd::arithmetic::div_mod::lemma_mod_bound(max_lsn, size);
        }
        assert(config.segment_start(k + 1) == config.segment_start(k) + size) by (nonlinear_arith)
            requires
                size == config.io_buf_size as int,
        ;
    }
}

/// Recovery rebuilds the ordering that a running accountant held: where
/// `ordering` leads from the sequence number of each header of `log` to
/// the offset of its segment, and holds nothing else, the recovery of a
/// fresh accountant from `log` ends with that very ordering.
pub proof fn lemma_recovery_rebuilds_ordering(
    config: Config,
    log: Seq<LogSegment>,
    ordering: Map<Lsn, LogID>,
)
    requires
        config.io_buf_size > 0,
        config.segment_start(log.len() as int) <= u64::MAX,
        forall|i: int|
            0 <= i < log.len() ==> ordering.contains_key((#[trigger] log[i]).lsn)
                && ordering[log[i].lsn] == config.segment_start(i) as LogID,
        forall|lsn: Lsn| #[trigger]
            ordering.contains_key(lsn) ==> has_header(log, log.len(), lsn as int),
    ensures
        State::empty(config).scanned(log).ordering == ordering,
{
    let fresh = State::empty(config);
    let n = log.len();
    let headers = fresh.scanned_headers(log, n);
    fresh.lemma_scanned_headers(log, n);
    assert(fresh.scanned(log).ordering == headers.ordering);
    assert forall|i: int| 0 <= i < n implies #[trigger] last_with_lsn(log, n, i) by {
        assert forall|j: int| i < j < n implies (#[trigger] log[j]).lsn != log[i].lsn by {
            if log[j].lsn == log[i].lsn {
                lemma_segment_start_monotonic(config, i, j);
                lemma_segment_start_monotonic(config, j, n as int);
                assert(config.segment_start(i) < config.segment_start(j)) by (nonlinear_arith)
                    requires
                        0 <= i < j,
                        config.io_buf_size > 0,
                ;
            }
        }
    }
    assert forall|lsn: Lsn| headers.ordering.contains_key(lsn) <==> ordering.contains_key(
        lsn,
    ) by {
        if has_header(log, n, lsn as int) {
            let i = choose|i: int| 0 <= i < n && (#[trigger] log[i]).lsn == lsn;
            assert(ordering.contains_key(log[i].lsn));
        }
    }
    assert forall|lsn: Lsn| headers.ordering.contains_key(lsn) implies headers.ordering[lsn]
        == ordering[lsn] by {
        assert(has_header(log, n, lsn as int));
        let i = choose|i: int| 0 <= i < n && (#[trigger] log[i]).lsn == lsn;
        assert(last_with_lsn(log, n, i));
    }
    assert(headers.ordering =~= ordering);
}

/// Whether segment `k` is the tail of `log`: the last segment whose
/// header carries the highest sequence number.
pub open spec fn is_tail(log: Seq<LogSegment>, k: int) -> bool {
    &&& last_with_lsn(log, log.len(), k)
    &&& forall|i: int| 0 <= i < log.len() ==> (#[trigger] log[i]).lsn <= log[k].lsn
}

/// The recovery of a fresh accountant scans the records of the tail and
/// of no other segment.
pub proof fn lemma_recovery_scans_the_tail(config: Config, log: Seq<LogSegment>, k: int)
    requires
        config.io_buf_size > 0,
        config.segment_start(log.len() as int) <= u64::MAX,
        is_tail(log, k),
    ensures
        ({
            let fresh = State::empty(config);
            let headers = fresh.scanned_headers(log, log.len());
            let base = config.segment_start(k) as LogID;
            &&& headers.max_lsn == log[k].lsn
            &&& headers.config == config
            &&& headers.free == Seq::<LogID>::empty()
            &&& headers.tip == config.segment_start(log.len() as int)
            &&& base == config.segment_start(k)
            &&& fresh.scanned(log) == headers.scanned_tail(base, Some(log[k]))
        }),
{
    let fresh = State::empty(config);
    let n = log.len();
    let headers = fresh.scanned_headers(log, n);
    fresh.lemma_scanned_headers(log, n);
    assert(headers.max_lsn == log[k].lsn) by {
        assert(headers.max_lsn >= log[k].lsn);
        if headers.max_lsn != 0 {
            let i = choose|i: int| 0 <= i < n && (#[trigger] log[i]).lsn == headers.max_lsn;
            assert(log[i].lsn <= log[k].lsn);
        }
    }
    assert(has_header(log, n, log[k].lsn as int));
    assert(headers.ordering.contains_key(log[k].lsn));
    lemma_segment_start_monotonic(config, k, n - 1);
    lemma_segment_start_monotonic(config, n - 1, n as int);
    lemma_segment_index_of_start(config, k);
    assert(segment_at(config, log, config.segment_start(k) as LogID) == Some(log[k]));
}

/// Recovery queues the tail for reuse exactly if none of its records is
/// a flushed one, and queues no other offset.
pub proof fn lemma_recovery_frees_empty_tail(config: Config, log: Seq<LogSegment>, k: int)
    requires
        config.io_buf_size > 0,
        config.segment_start(log.len() as int) <= u64::MAX,
        is_tail(log, k),
    ensures
        State::empty(config).scanned(log).free == if holds_valid_record(log[k].records@) {
            Seq::<LogID>::empty()
        } else {
            seq![config.segment_start(k) as LogID]
        },
{
    lemma_recovery_scans_the_tail(config, log, k);
    let headers = State::empty(config).scanned_headers(log, log.len());
    let base = config.segment_start(k) as LogID;
    let recovered = State::empty(config).scanned(log);
    assert(recovered == headers.scanned_tail(base, Some(log[k])));
    if !holds_valid_record(log[k].records@) {
        assert(recovered.free =~= seq![base]);
    } else {
        assert(recovered.free =~= Seq::<LogID>::empty());
    }
}

/// Recovery finds the sequence number that a running writer held: where
/// the records of the tail are a run as the writer left them, the
/// recovered maximum is the end of the last record (or the start of the
/// records, if there is none), and the initial offset lies that far into
/// the tail.
pub proof fn lemma_recovery_rebuilds_max_lsn(config: Config, log: Seq<LogSegment>, k: int)
    requires
        config.io_buf_size > 0,
        config.segment_start(log.len() as int) <= u64::MAX,
        is_tail(log, k),
        is_written_run(
            log[k].records@,
            log[k].lsn + log[k].read_offset,
            config.header_len as int,
        ),
    ensures
        ({
            let recovered = State::empty(config).scanned(log);
            let held = if log[k].records@.len() > 0 {
                flush_end(log[k].records@.last(), config.header_len as int)
            } else {
                log[k].lsn + log[k].read_offset
            };
            &&& recovered.max_lsn == held
            &&& recovered.max_lsn == tail_max(
                log[k].records@,
                log[k].lsn + log[k].read_offset,
                config.header_len as int,
            )
            &&& recovered.initial_offset == config.segment_start(k) + held % (
            config.io_buf_size as int)
            &&& recovered.tip == config.segment_start(log.len() as int)
        }),
{
    lemma_recovery_scans_the_tail(config, log, k);
    lemma_tail_max_of_written_run(
        log[k].records@,
        log[k].lsn + log[k].read_offset,
        config.header_len as int,
    );
    let headers = State::empty(config).scanned_headers(log, log.len());
    let base = config.segment_start(k) as LogID;
    assert(State::empty(config).scanned(log) == headers.scanned_tail(base, Some(log[k])));
    assert(headers.max_lsn + log[k].read_offset == log[k].lsn + log[k].read_offset);
}

/// Recovery reads the records of the tail and of no other segment: two
/// logs with the same headers, whose tails start and hold the same
/// records, recover to the same state.
pub proof fn lemma_recovery_reads_the_tail_only(
    config: Config,
    log: Seq<LogSegment>,
    other: Seq<LogSegment>,
    k: int,
)
    requires
        config.io_buf_size > 0,
        config.segment_start(log.len() as int) <= u64::MAX,
        is_tail(log, k),
        other.len() == log.len(),
        forall|i: int| 0 <= i < log.len() ==> (#[trigger] other[i]).lsn == log[i].lsn,
        other[k].read_offset == log[k].read_offset,
        other[k].records@ == log[k].records@,
    ensures
        State::empty(config).scanned(other) == State::empty(config).scanned(log),
{
    let fresh = State::empty(config);
    fresh.lemma_headers_decide(log, other, log.len());
    assert(is_tail(other, k)) by {
        assert forall|j: int| k < j < other.len() implies (#[trigger] other[j]).lsn
            != other[k].lsn by {
            assert(log[j].lsn != log[k].lsn);
        }
        assert forall|i: int| 0 <= i < other.len() implies (#[trigger] other[i]).lsn
            <= other[k].lsn by {
            assert(log[i].lsn <= log[k].lsn);
        }
    }
    lemma_recovery_scans_the_tail(config, log, k);
    lemma_recovery_scans_the_tail(config, other, k);
}

/// Among the first `n` headers, the last one that carries `lsn`.
pub proof fn lemma_last_with_lsn(log: Seq<LogSegment>, n: nat, lsn: Lsn) -> (k: int)
    requires
        n <= log.len(),
        has_header(log, n, lsn as int),
    ensures
        last_with_lsn(log, n, k),
        log[k].lsn == lsn,
    decreases n,
{
    if log[n - 1].lsn == lsn {
        n - 1
    } else {
        let i = choose|i: int| 0 <= i < n && (#[trigger] log[i]).lsn == lsn;
        assert(0 <= i < n - 1 && log[i].lsn == lsn);
        lemma_last_with_lsn(log, (n - 1) as nat, lsn)
    }
}

impl State {
    /// The scan of the headers depends on the sequence numbers of the
    /// headers alone.
    pub proof fn lemma_headers_decide(self, log: Seq<LogSegment>, other: Seq<LogSegment>, n: nat)
        requires
            n <= log.len(),
            n <= other.len(),
            forall|i: int| 0 <= i < n ==> (#[trigger] other[i]).lsn == log[i].lsn,
        ensures
            self.scanned_headers(other, n) == self.scanned_headers(log, n),
        decreases n,
    {
        if n > 0 {
            self.lemma_headers_decide(log, other, (n - 1) as nat);
            assert(other[n - 1].lsn == log[n - 1].lsn);
        }
    }

    /// After the headers of the first `n` segments were recorded, the tip
    /// lies behind them, the maximum is the highest sequence number met,
    /// each header's sequence number leads to the last segment that
    /// carries it, and segment `i` carries the sequence number of header
    /// `i`. Nothing else has changed.
    pub proof fn lemma_scanned_headers(self, log: Seq<LogSegment>, n: nat)
        requires
            self.config.io_buf_size > 0,
            n <= log.len(),
            self.config.segment_start(n as int) <= u64::MAX,
        ensures
            ({
                let after = self.scanned_headers(log, n);
                &&& after.tip == if n > 0 {
                    self.config.segment_start(n as int)
                } else {
                    self.tip
                }
                &&& after.max_lsn >= self.max_lsn
                &&& forall|i: int| 0 <= i < n ==> after.max_lsn >= (#[trigger] log[i]).lsn
                &&& after.max_lsn == self.max_lsn || has_header(log, n, after.max_lsn)
                &&& forall|lsn: Lsn| #[trigger]
                    after.ordering.contains_key(lsn) <==> self.ordering.contains_key(lsn)
                        || has_header(log, n, lsn as int)
                &&& forall|lsn: Lsn|
                    self.ordering.contains_key(lsn) && !has_header(log, n, lsn as int)
                        ==> #[trigger] after.ordering[lsn] == self.ordering[lsn]
                &&& forall|i: int| #[trigger]
                    last_with_lsn(log, n, i) ==> after.ordering[log[i].lsn]
                        == self.config.segment_start(i) as LogID
                &&& after.segments.len() == if self.segments.len() >= n {
                    self.segments.len()
                } else {
                    n
                }
                &&& forall|i: int|
                    0 <= i < after.segments.len() ==> #[trigger] after.segments[i] == if i < n {
                        SegmentView { lsn: Some(log[i].lsn), ..extend_to(self.segments, n as int)[i] }
                    } else {
                        self.segments[i]
                    }
                &&& after.free == self.free
                &&& after.to_clean == self.to_clean
                &&& after.pending_clean == self.pending_clean
                &&& after.config == self.config
                &&& after.pause_rewriting == self.pause_rewriting
                &&& after.initial_offset == self.initial_offset
            }),
        decreases n,
    {
        if n > 0 {
            let before = self.scanned_headers(log, (n - 1) as nat);
            let after = self.scanned_headers(log, n);
            let lsn = log[n - 1].lsn;
            let base = self.config.segment_start(n - 1) as LogID;
            lemma_segment_start_monotonic(self.config, n - 1, n as int);
            lemma_segment_index_of_start(self.config, n - 1);
            self.lemma_scanned_headers(log, (n - 1) as nat);
            assert(after.ordering == before.ordering.insert(lsn, base));
            assert(has_header(log, n, lsn as int));
            assert forall|l: Lsn| #[trigger]
                after.ordering.contains_key(l) <==> self.ordering.contains_key(l) || has_header(
                    log,
                    n,
                    l as int,
                ) by {
                if has_header(log, (n - 1) as nat, l as int) {
                    let i = choose|i: int| 0 <= i < n - 1 && (#[trigger] log[i]).lsn == l;
                    assert(0 <= i < n && log[i].lsn == l);
                }
                if has_header(log, n, l as int) && l != lsn {
                    let i = choose|i: int| 0 <= i < n && (#[trigger] log[i]).lsn == l;
                    assert(0 <= i < n - 1 && log[i].lsn == l);
                }
            }
            assert forall|l: Lsn|
                self.ordering.contains_key(l) && !has_header(log, n, l as int)
                    implies #[trigger] after.ordering[l] == self.ordering[l] by {
                if has_header(log, (n - 1) as nat, l as int) {
                    let i = choose|i: int| 0 <= i < n - 1 && (#[trigger] log[i]).lsn == l;
                    assert(0 <= i < n && log[i].lsn == l);
                }
            }
            assert forall|i: int| #[trigger] last_with_lsn(log, n, i) implies after.ordering[log[i].lsn]
                == self.config.segment_start(i) as LogID by {
                if i < n - 1 {
                    assert(log[n - 1].lsn != log[i].lsn);
                    assert(last_with_lsn(log, (n - 1) as nat, i));
                }
            }
            if after.max_lsn != self.max_lsn && after.max_lsn != lsn {
                let i = choose|i: int| 0 <= i < n - 1 && (#[trigger] log[i]).lsn == before.max_lsn;
                assert(0 <= i < n && log[i].lsn == after.max_lsn);
            }
            assert forall|i: int| 0 <= i < after.segments.len() implies #[trigger] after.segments[i]
                == if i < n {
                SegmentView { lsn: Some(log[i].lsn), ..extend_to(self.segments, n as int)[i] }
            } else {
                self.segments[i]
            } by {
                if i < n - 1 {
                    assert(before.segments[i] == SegmentView {
                        lsn: Some(log[i].lsn),
                        ..extend_to(self.segments, n - 1)[i]
                    });
                }
            }
        }
    }

    /// Without a readable segment, recovery leaves a fresh accountant as
    /// it is.
    pub proof fn lemma_scan_of_empty_log(self)
        requires
            self == State::empty(self.config),
        ensures
            self.scanned(Seq::empty()) == self,
    {
        let log = Seq::<LogSegment>::empty();
        assert(self.scanned_headers(log, 0) == self);
        assert(!self.ordering.contains_key(self.max_lsn as Lsn));
    }
}

} // verus!
