//! Identifiers and the configuration consumed by the segment accountant.
use vstd::prelude::*;

verus! {

/// Byte offset into the log. It is segment-aligned when it names a segment.
pub type LogID = u64;

/// Logical sequence number of a log record or of a segment header.
pub type Lsn = u64;

/// Identifier of a logical page.
pub type PageID = usize;

/// The options that steer allocation, cleaning and recovery.
///
/// The cleanup threshold is an exact ratio `threshold_num / threshold_den`,
/// so that occupancy is compared in integer arithmetic.
#[derive(Clone, Copy, Debug)]
pub struct Config {
    /// Size of one segment in bytes.
    pub io_buf_size: usize,
    /// Number of write buffers in flight; the safe-reuse distance.
    pub io_bufs: usize,
    /// Free-list length above which `clean` reports no work.
    pub min_free_segments: usize,
    /// Numerator of the occupancy ratio at or below which a segment is cleaned.
    pub threshold_num: u64,
    /// Denominator of that ratio.
    pub threshold_den: u64,
    /// Bytes that the header of one flushed record occupies in the log.
    pub header_len: usize,
}

impl Config {
    /// This configuration with segments of `io_buf_size` bytes.
    pub fn io_buf_size(self, io_buf_size: usize) -> (c: Config)
        ensures
            c == (Config { io_buf_size: io_buf_size, ..self }),
    {
        Config { io_buf_size: io_buf_size, ..self }
    }

    /// This configuration with `io_bufs` write buffers in flight.
    pub fn io_bufs(self, io_bufs: usize) -> (c: Config)
        ensures
            c == (Config { io_bufs: io_bufs, ..self }),
    {
        Config { io_bufs: io_bufs, ..self }
    }

    /// This configuration with the cleanup threshold `num / den`.
    pub fn segment_cleanup_threshold(self, num: u64, den: u64) -> (c: Config)
        ensures
            c == (Config { threshold_num: num, threshold_den: den, ..self }),
    {
        Config { threshold_num: num, threshold_den: den, ..self }
    }

    /// This configuration with cleaning held back while more than
    /// `min_free_segments` offsets are free.
    pub fn min_free_segments(self, min_free_segments: usize) -> (c: Config)
        ensures
            c == (Config { min_free_segments: min_free_segments, ..self }),
    {
        Config { min_free_segments: min_free_segments, ..self }
    }

    /// This configuration with record headers of `header_len` bytes.
    pub fn header_len(self, header_len: usize) -> (c: Config)
        ensures
            c == (Config { header_len: header_len, ..self }),
    {
        Config { header_len: header_len, ..self }
    }

    /// Size of one segment in bytes.
    pub fn get_io_buf_size(&self) -> (n: usize)
        ensures
            n == self.io_buf_size,
    {
        self.io_buf_size
    }

    /// Number of write buffers in flight.
    pub fn get_io_bufs(&self) -> (n: usize)
        ensures
            n == self.io_bufs,
    {
        self.io_bufs
    }

    /// Free-list length above which `clean` reports no work.
    pub fn get_min_free_segments(&self) -> (n: usize)
        ensures
            n == self.min_free_segments,
    {
        self.min_free_segments
    }

    /// Whether this configuration is usable.
    pub fn is_wf(&self) -> (ok: bool)
        ensures
            ok == self.wf(),
    {
        self.io_buf_size > 0 && 0 < self.threshold_num && self.threshold_num <= self.threshold_den
    }

    /// The options of `Config::default()`: segments of eight mebibytes,
    /// three write buffers, cleaning at one fifth occupancy.
    pub open spec fn defaults() -> Config {
        Config {
            io_buf_size: 8388608,
            io_bufs: 3,
            min_free_segments: 3,
            threshold_num: 1,
            threshold_den: 5,
            header_len: 15,
        }
    }

    /// A usable configuration: segments have a size, and the cleanup
    /// threshold lies in the interval (0, 1].
    pub open spec fn wf(self) -> bool {
        &&& self.io_buf_size > 0
        &&& 0 < self.threshold_num <= self.threshold_den
    }

    /// Index of the segment that holds the byte at `lid`.
    pub open spec fn segment_index(self, lid: LogID) -> int {
        lid as int / self.io_buf_size as int
    }

    /// Base offset of the segment with index `idx`.
    pub open spec fn segment_start(self, idx: int) -> int {
        idx * self.io_buf_size as int
    }

    /// `lsn` rounded down to a segment boundary.
    pub open spec fn segment_floor(self, lsn: Lsn) -> int {
        (lsn as int / self.io_buf_size as int) * self.io_buf_size as int
    }

    /// Whether `live` pages out of `measured` are few enough for cleaning.
    /// Nothing is cleanable against an empty measure.
    pub open spec fn below_threshold(self, live: nat, measured: nat) -> bool {
        measured > 0 && live * self.threshold_den <= self.threshold_num * measured
    }
}

/// The start of a segment lies at or below every offset inside it.
pub proof fn lemma_segment_start_below(config: Config, lid: LogID)
    requires
        config.io_buf_size > 0,
    ensures
        0 <= config.segment_start(config.segment_index(lid)) <= lid,
        config.segment_index(config.segment_start(config.segment_index(lid)) as LogID)
            == config.segment_index(lid),
        config.segment_start(config.segment_index(lid)) % (config.io_buf_size as int) == 0,
        config.segment_index(lid) >= 0,
{
    let size = config.io_buf_size as int;
    let l = lid as int;
    vstd::arithmetic::div_mod::lemma_fundamental_div_mod(l, size);
    vstd::arithmetic::div_mod::lemma_mod_bound(l, size);
    vstd::arithmetic::mul::lemma_mul_is_commutative(size, l / size);
    vstd::arithmetic::div_mod::lemma_div_pos_is_pos(l, size);
    vstd::arithmetic::div_mod::lemma_div_multiples_vanish(l / size, size);
    vstd::arithmetic::div_mod::lemma_mod_multiples_basic(l / size, size);
}

/// Index `idx` is the segment of its own start.
pub proof fn lemma_segment_index_of_start(config: Config, idx: int)
    requires
        config.io_buf_size > 0,
        0 <= idx,
        config.segment_start(idx) <= u64::MAX,
    ensures
        config.segment_index(config.segment_start(idx) as LogID) == idx,
        config.segment_start(idx) % (config.io_buf_size as int) == 0,
        0 <= config.segment_start(idx),
{
    let size = config.io_buf_size as int;
    vstd::arithmetic::div_mod::lemma_div_multiples_vanish(idx, size);
    vstd::arithmetic::div_mod::lemma_mod_multiples_basic(idx, size);
    vstd::arithmetic::mul::lemma_mul_nonnegative(idx, size);
}

/// A segment start grows with its index.
pub proof fn lemma_segment_start_monotonic(config: Config, i: int, j: int)
    requires
        0 <= i <= j,
    ensures
        0 <= config.segment_start(i) <= config.segment_start(j),
{
    let size = config.io_buf_size as int;
    vstd::arithmetic::mul::lemma_mul_inequality(i, j, size);
    vstd::arithmetic::mul::lemma_mul_nonnegative(i, size);
}

/// Two segment-aligned offsets in one segment are the same offset.
pub proof fn lemma_aligned_same_segment(config: Config, a: LogID, b: LogID)
    requires
        config.io_buf_size > 0,
        a as int % config.io_buf_size as int == 0,
        b as int % config.io_buf_size as int == 0,
        config.segment_index(a) == config.segment_index(b),
    ensures
        a == b,
{
    let size = config.io_buf_size as int;
    vstd::arithmetic::div_mod::lemma_fundamental_div_mod(a as int, size);
    vstd::arithmetic::div_mod::lemma_fundamental_div_mod(b as int, size);
}

impl Default for Config {
    fn default() -> (c: Config)
        ensures
            c == Config::defaults(),
    {
        Config {
            io_buf_size: 8388608,
            io_bufs: 3,
            min_free_segments: 3,
            threshold_num: 1,
            threshold_den: 5,
            header_len: 15,
        }
    }
}

} // verus!
