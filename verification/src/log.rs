//! What a reader of the log hands to recovery, as plain values.
use crate::config::Lsn;
use vstd::prelude::*;

verus! {

/// One item of a segment's record stream.
#[derive(Clone, Copy, Debug)]
pub enum LogRead {
    /// A zeroed gap of the given length.
    Zeroed(usize),
    /// A flushed record: its sequence number and the length of its payload.
    Flush(Lsn, usize),
    /// A record of the given length that failed validation.
    Corrupted(usize),
}

/// A segment as it was read from the log.
#[derive(Debug)]
pub struct LogSegment {
    /// The sequence number in the segment's header.
    pub lsn: Lsn,
    /// Where, relative to the header's sequence number, the records start.
    pub read_offset: usize,
    /// The segment's records, in the order in which they are read.
    pub records: Vec<LogRead>,
}

/// The highest sequence number that the records establish above `start`:
/// zeroed gaps are passed over, a flushed record that ends above the running
/// maximum raises it, and the first record that does not, or that is
/// corrupted, ends the scan.
pub open spec fn tail_max(records: Seq<LogRead>, start: int, header_len: int) -> int
    decreases records.len(),
{
    if records.len() == 0 {
        start
    } else {
        match records[0] {
            LogRead::Zeroed(_) => tail_max(records.drop_first(), start, header_len),
            LogRead::Flush(lsn, len) => {
                let end = lsn + header_len + len;
                if end > start {
                    tail_max(records.drop_first(), end, header_len)
                } else {
                    start
                }
            },
            LogRead::Corrupted(_) => start,
        }
    }
}

/// Whether the end of `record` fits the machine's integers.
pub open spec fn record_fits(record: LogRead, header_len: int) -> bool {
    record matches LogRead::Flush(lsn, len) ==> lsn + header_len + len <= u64::MAX
}

/// Whether the start of the records of `segment`, and the end of each
/// record, fit the machine's integers.
pub open spec fn segment_fits(segment: LogSegment, header_len: int) -> bool {
    &&& segment.lsn + segment.read_offset <= u64::MAX
    &&& forall|j: int|
        0 <= j < segment.records@.len() ==> record_fits(#[trigger] segment.records@[j], header_len)
}

/// Scanning stays below every bound that its start and its records keep.
pub proof fn lemma_tail_max_bounded(
    records: Seq<LogRead>,
    start: int,
    header_len: int,
    bound: int,
)
    requires
        start <= bound,
        forall|j: int|
            0 <= j < records.len() ==> (#[trigger] records[j] matches LogRead::Flush(lsn, len)
                ==> lsn + header_len + len <= bound),
    ensures
        tail_max(records, start, header_len) <= bound,
    decreases records.len(),
{
    if records.len() > 0 {
        let rest = records.drop_first();
        assert forall|j: int| 0 <= j < rest.len() implies (#[trigger] rest[j] matches LogRead::Flush(
            lsn,
            len,
        ) ==> lsn + header_len + len <= bound) by {
            assert(rest[j] == records[j + 1]);
        }
        match records[0] {
            LogRead::Zeroed(_) => {
                lemma_tail_max_bounded(rest, start, header_len, bound);
            },
            LogRead::Flush(lsn, len) => {
                let end = lsn + header_len + len;
                if end > start {
                    lemma_tail_max_bounded(rest, end, header_len, bound);
                }
            },
            LogRead::Corrupted(_) => {},
        }
    }
}

/// Whether `records` hold a valid record: some record of the stream is
/// a flushed one. A zeroed gap is no record, and a corrupted one is not
/// valid.
pub open spec fn holds_valid_record(records: Seq<LogRead>) -> bool {
    exists|j: int| 0 <= j < records.len() && #[trigger] records[j] is Flush
}

/// Where a flushed record ends in the log; zero for any other record.
pub open spec fn flush_end(record: LogRead, header_len: int) -> int {
    match record {
        LogRead::Flush(lsn, len) => lsn + header_len + len,
        _ => 0,
    }
}

/// Whether `records` is a run of flushed records as a writer leaves them:
/// the first ends above `start`, and each ends above the one before.
pub open spec fn is_written_run(records: Seq<LogRead>, start: int, header_len: int) -> bool {
    &&& forall|j: int| 0 <= j < records.len() ==> #[trigger] records[j] is Flush
    &&& records.len() > 0 ==> flush_end(records[0], header_len) > start
    &&& forall|j: int|
        0 < j < records.len() ==> flush_end(#[trigger] records[j], header_len) > flush_end(
            records[j - 1],
            header_len,
        )
}

/// Scanning a run of records as a writer left them recovers the
/// sequence number that the writer held: the end of the last record.
pub proof fn lemma_tail_max_of_written_run(records: Seq<LogRead>, start: int, header_len: int)
    requires
        is_written_run(records, start, header_len),
    ensures
        tail_max(records, start, header_len) == if records.len() > 0 {
            flush_end(records.last(), header_len)
        } else {
            start
        },
    decreases records.len(),
{
    if records.len() > 0 {
        let rest = records.drop_first();
        let end = flush_end(records[0], header_len);
        assert(records[0] is Flush);
        assert(is_written_run(rest, end, header_len)) by {
            assert forall|j: int| 0 <= j < rest.len() implies #[trigger] rest[j] is Flush by {
                assert(rest[j] == records[j + 1]);
            }
            if rest.len() > 0 {
                assert(rest[0] == records[1]);
            }
            assert forall|j: int| 0 < j < rest.len() implies flush_end(
                #[trigger] rest[j],
                header_len,
            ) > flush_end(rest[j - 1], header_len) by {
                assert(rest[j] == records[j + 1]);
                assert(rest[j - 1] == records[j]);
            }
        }
        lemma_tail_max_of_written_run(rest, end, header_len);
        if rest.len() > 0 {
            assert(rest.last() == records.last());
        }
    }
}

/// Scanning never lowers the maximum it started from.
pub proof fn lemma_tail_max_at_least(records: Seq<LogRead>, start: int, header_len: int)
    ensures
        tail_max(records, start, header_len) >= start,
    decreases records.len(),
{
    if records.len() > 0 {
        match records[0] {
            LogRead::Zeroed(_) => {
                lemma_tail_max_at_least(records.drop_first(), start, header_len);
            },
            LogRead::Flush(lsn, len) => {
                let end = lsn + header_len + len;
                if end > start {
                    lemma_tail_max_at_least(records.drop_first(), end, header_len);
                }
            },
            LogRead::Corrupted(_) => {},
        }
    }
}

} // verus!
