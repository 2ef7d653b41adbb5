use segment_accountant::accountant::tail_index;
use segment_accountant::{Config, LogRead, LogSegment, SegmentAccountant};

fn config() -> Config {
    Config::default()
        .io_buf_size(100)
        .io_bufs(2)
        .segment_cleanup_threshold(1, 5)
        .min_free_segments(3)
        .header_len(15)
}

fn segment(lsn: u64, read_offset: usize, records: Vec<LogRead>) -> LogSegment {
    LogSegment { lsn, read_offset, records }
}

#[test]
fn recovery_of_an_empty_log_changes_nothing() {
    let sa = SegmentAccountant::new(config(), &Vec::new());
    assert!(!sa.is_recovered());
    assert_eq!(sa.initial_lid(), 0);
    assert_eq!(sa.recovered_max_lsn(), 0);
    assert_eq!(sa.tip(), 0);
    assert!(sa.ordering().is_empty());
    assert!(sa.free().is_empty());
}

#[test]
fn recovery_follows_the_records_of_the_tail() {
    let log = vec![
        segment(0, 10, vec![LogRead::Flush(10, 20)]),
        segment(
            100,
            10,
            vec![
                LogRead::Flush(110, 20),
                LogRead::Zeroed(5),
                LogRead::Flush(145, 5),
                LogRead::Flush(120, 1),
                LogRead::Flush(500, 1),
            ],
        ),
    ];
    let sa = SegmentAccountant::new(config(), &log);
    assert!(sa.is_recovered());
    assert_eq!(sa.tip(), 200);
    assert_eq!(sa.recovered_max_lsn(), 165);
    assert_eq!(sa.initial_lid(), 165);
    assert_eq!(sa.segment_snapshot_iter_from(0), vec![(0, 0), (100, 100)]);
    assert_eq!(sa.segments().len(), 2);
    assert_eq!(sa.segments()[0].lsn, Some(0));
    assert_eq!(sa.segments()[1].lsn, Some(100));
    assert!(sa.free().is_empty());
}

#[test]
fn recovery_stops_at_a_corrupted_record() {
    let log = vec![segment(
        0,
        10,
        vec![LogRead::Flush(10, 20), LogRead::Corrupted(3), LogRead::Flush(200, 1)],
    )];
    let sa = SegmentAccountant::new(config(), &log);
    assert_eq!(sa.recovered_max_lsn(), 45);
    assert_eq!(sa.initial_lid(), 45);
    assert_eq!(sa.tip(), 100);
    assert!(sa.free().is_empty());
}

#[test]
fn recovery_frees_a_tail_without_records() {
    let log = vec![segment(0, 10, vec![LogRead::Flush(10, 20)]), segment(100, 10, Vec::new())];
    let sa = SegmentAccountant::new(config(), &log);
    assert_eq!(sa.recovered_max_lsn(), 110);
    assert_eq!(sa.initial_lid(), 110);
    assert_eq!(sa.free().iter().copied().collect::<Vec<u64>>(), vec![100]);
    assert!(!sa.segments()[1].freed);
}

#[test]
fn recovery_frees_a_tail_that_holds_only_a_gap() {
    let log = vec![segment(300, 10, vec![LogRead::Zeroed(40)])];
    let sa = SegmentAccountant::new(config(), &log);
    assert_eq!(sa.recovered_max_lsn(), 310);
    assert_eq!(sa.initial_lid(), 10);
    assert_eq!(sa.free().iter().copied().collect::<Vec<u64>>(), vec![0]);
}

#[test]
fn recovery_frees_a_tail_without_a_valid_record() {
    let corrupted = vec![
        segment(0, 10, vec![LogRead::Flush(10, 20)]),
        segment(100, 10, vec![LogRead::Corrupted(7), LogRead::Zeroed(2)]),
    ];
    let sa = SegmentAccountant::new(config(), &corrupted);
    assert_eq!(sa.recovered_max_lsn(), 110);
    assert_eq!(sa.initial_lid(), 110);
    assert_eq!(sa.free().iter().copied().collect::<Vec<u64>>(), vec![100]);
}

#[test]
fn recovery_keeps_a_tail_that_holds_a_flushed_record() {
    // the flushed record stands behind a corrupted one and is not scanned
    let corrupted = vec![
        segment(0, 10, vec![LogRead::Flush(10, 20)]),
        segment(100, 10, vec![LogRead::Corrupted(7), LogRead::Flush(110, 20)]),
    ];
    let sa = SegmentAccountant::new(config(), &corrupted);
    assert_eq!(sa.recovered_max_lsn(), 110);
    assert_eq!(sa.initial_lid(), 110);
    assert!(sa.free().is_empty());

    // the flushed record ends at or below the start of the records
    let behind = vec![segment(100, 10, vec![LogRead::Flush(50, 45), LogRead::Flush(110, 20)])];
    let sa = SegmentAccountant::new(config(), &behind);
    assert_eq!(sa.recovered_max_lsn(), 110);
    assert!(sa.free().is_empty());

    let single = vec![segment(0, 10, vec![LogRead::Flush(0, 0)])];
    let sa = SegmentAccountant::new(config().header_len(5), &single);
    assert_eq!(sa.recovered_max_lsn(), 10);
    assert!(sa.free().is_empty());

    let valid = vec![segment(100, 10, vec![LogRead::Zeroed(3), LogRead::Flush(110, 20)])];
    let sa = SegmentAccountant::new(config(), &valid);
    assert_eq!(sa.recovered_max_lsn(), 145);
    assert!(sa.free().is_empty());
}

#[test]
fn recovery_finds_the_tail_by_its_sequence_number() {
    let log = vec![
        segment(200, 10, vec![LogRead::Flush(210, 30)]),
        segment(100, 10, vec![LogRead::Flush(110, 70)]),
    ];
    let sa = SegmentAccountant::new(config(), &log);
    assert_eq!(sa.segment_snapshot_iter_from(0), vec![(100, 100), (200, 0)]);
    assert_eq!(sa.recovered_max_lsn(), 255);
    assert_eq!(sa.initial_lid(), 55);
    assert_eq!(sa.tip(), 200);
}

#[test]
fn recovery_wraps_the_initial_offset_into_the_tail_segment() {
    let log = vec![segment(0, 0, Vec::new()), segment(100, 10, vec![LogRead::Flush(110, 80)])];
    let sa = SegmentAccountant::new(config(), &log);
    // the record ends at 110 + 15 + 80 = 205, 5 bytes into the next segment
    assert_eq!(sa.recovered_max_lsn(), 205);
    assert_eq!(sa.initial_lid(), 105);
}

#[test]
fn next_after_recovery_extends_the_recovered_tip() {
    let log = vec![segment(0, 10, vec![LogRead::Flush(10, 20)])];
    let mut sa = SegmentAccountant::new(config().io_bufs(1), &log);
    assert_eq!(sa.next(100), 100);
    assert_eq!(sa.tip(), 300);
    assert_eq!(sa.free().iter().copied().collect::<Vec<u64>>(), vec![200]);
    assert_eq!(sa.segment_snapshot_iter_from(0), vec![(0, 0), (100, 100)]);

    // with two write buffers two offsets are put in front of the tip first
    let mut sa = SegmentAccountant::new(config(), &log);
    assert_eq!(sa.next(100), 200);
    assert_eq!(sa.tip(), 400);
    assert_eq!(sa.free().iter().copied().collect::<Vec<u64>>(), vec![300, 100]);
}

#[test]
fn scan_leaves_a_recovered_accountant_alone() {
    let log = vec![segment(0, 10, vec![LogRead::Flush(10, 20)])];
    let mut sa = SegmentAccountant::new(config(), &log);
    let other = vec![segment(700, 10, Vec::new()), segment(800, 10, Vec::new())];
    sa.scan_segment_lsns(&other);
    assert_eq!(sa.tip(), 100);
    assert_eq!(sa.recovered_max_lsn(), 45);
    assert_eq!(sa.segment_snapshot_iter_from(0), vec![(0, 0)]);
    assert!(sa.free().is_empty());
}

#[test]
fn recover_records_a_header() {
    let mut sa = SegmentAccountant::empty(config());
    assert!(!sa.is_recovered());
    sa.recover(300, 250);
    assert!(sa.is_recovered());
    assert_eq!(sa.segments().len(), 3);
    assert_eq!(sa.segments()[2].lsn, Some(300));
    assert_eq!(sa.segments()[1].lsn, None);
    assert_eq!(sa.ordering().get(&300), Some(&250));
    assert_eq!(sa.tip(), 0);
}

#[test]
fn default_accountant_is_empty() {
    let sa = SegmentAccountant::default();
    assert!(!sa.is_recovered());
    assert_eq!(sa.config().get_io_bufs(), Config::default().get_io_bufs());
    assert_eq!(sa.tip(), 0);
}

#[test]
fn try_new_refuses_what_does_not_fit() {
    let log = vec![segment(0, 10, vec![LogRead::Flush(10, 20)])];
    assert!(SegmentAccountant::try_new(config(), &log).is_some());
    assert!(SegmentAccountant::try_new(config().io_buf_size(0), &log).is_none());
    assert!(SegmentAccountant::try_new(config().segment_cleanup_threshold(0, 1), &log).is_none());

    let late = vec![segment(u64::MAX - 5, 10, Vec::new())];
    assert!(SegmentAccountant::try_new(config(), &late).is_none());
    let long = vec![segment(0, 10, vec![LogRead::Zeroed(1), LogRead::Flush(u64::MAX - 20, 6)])];
    assert!(SegmentAccountant::try_new(config(), &long).is_none());
    let fitting = vec![segment(0, 10, vec![LogRead::Flush(u64::MAX - 20, 5)])];
    let sa = SegmentAccountant::try_new(config(), &fitting).unwrap();
    assert_eq!(sa.recovered_max_lsn(), u64::MAX);
    assert_eq!(sa.initial_lid(), u64::MAX % 100);

    // only the records of the tail are scanned
    let early = vec![
        segment(0, 10, vec![LogRead::Flush(u64::MAX - 20, 6)]),
        segment(100, 10, vec![LogRead::Flush(110, 20)]),
    ];
    let sa = SegmentAccountant::try_new(config(), &early).unwrap();
    assert_eq!(sa.recovered_max_lsn(), 145);

    let huge = config().io_buf_size(usize::MAX);
    let two = vec![segment(0, 0, Vec::new()), segment(1, 0, Vec::new())];
    assert!(SegmentAccountant::try_new(huge, &two).is_none());
}

#[test]
fn recovery_finds_the_end_of_the_last_record_written() {
    let records = vec![
        LogRead::Flush(110, 5),
        LogRead::Flush(130, 10),
        LogRead::Flush(155, 0),
        LogRead::Flush(170, 9),
    ];
    let log = vec![segment(0, 10, Vec::new()), segment(100, 10, records)];
    let sa = SegmentAccountant::new(config(), &log);
    // the last record ends at 170 + 15 + 9
    assert_eq!(sa.recovered_max_lsn(), 194);
    assert_eq!(sa.initial_lid(), 194);
}

#[test]
fn try_new_recovers_like_new() {
    let log = vec![
        segment(0, 10, vec![LogRead::Flush(10, 20)]),
        segment(100, 10, vec![LogRead::Flush(110, 20), LogRead::Corrupted(1)]),
    ];
    let tried = SegmentAccountant::try_new(config(), &log).unwrap();
    let made = SegmentAccountant::new(config(), &log);
    assert_eq!(tried.recovered_max_lsn(), made.recovered_max_lsn());
    assert_eq!(tried.recovered_max_lsn(), 145);
    assert_eq!(tried.initial_lid(), made.initial_lid());
    assert_eq!(tried.tip(), made.tip());
    assert_eq!(tried.segment_snapshot_iter_from(0), made.segment_snapshot_iter_from(0));
}

#[test]
fn recovery_rebuilds_the_ordering_of_a_running_accountant() {
    let mut running = SegmentAccountant::new(config().io_bufs(1), &Vec::new());
    let lsns = [300u64, 100, 200, 500];
    let mut offsets = Vec::new();
    for lsn in lsns {
        offsets.push(running.next(lsn));
    }
    assert_eq!(offsets, vec![0, 100, 200, 300]);

    let log: Vec<LogSegment> = lsns.iter().map(|lsn| segment(*lsn, 10, Vec::new())).collect();
    let recovered = SegmentAccountant::new(config().io_bufs(1), &log);
    assert_eq!(recovered.ordering(), running.ordering());
    // the running accountant holds one offset beyond the segments in use
    assert_eq!(running.tip(), 500);
    assert_eq!(recovered.tip(), 400);
    assert_eq!(recovered.recovered_max_lsn(), 510);
    assert_eq!(recovered.free().iter().copied().collect::<Vec<u64>>(), vec![300]);
    assert_eq!(
        recovered.segment_snapshot_iter_from(0),
        vec![(100, 100), (200, 200), (300, 0), (500, 300)]
    );
}

#[test]
fn tail_is_the_last_segment_with_the_highest_header() {
    assert_eq!(tail_index(&Vec::new()), None);
    let log = vec![
        segment(200, 0, Vec::new()),
        segment(700, 0, Vec::new()),
        segment(100, 0, Vec::new()),
        segment(700, 0, Vec::new()),
        segment(300, 0, Vec::new()),
    ];
    assert_eq!(tail_index(&log), Some(3));
    assert_eq!(tail_index(&vec![segment(5, 0, Vec::new())]), Some(0));
}

#[test]
fn recovery_reads_the_records_of_the_tail_only() {
    let full = vec![
        segment(0, 10, vec![LogRead::Flush(10, 20), LogRead::Corrupted(4)]),
        segment(100, 10, vec![LogRead::Flush(110, 20)]),
    ];
    let bare = vec![segment(0, 10, Vec::new()), segment(100, 10, vec![LogRead::Flush(110, 20)])];
    let a = SegmentAccountant::new(config(), &full);
    let b = SegmentAccountant::new(config(), &bare);
    assert_eq!(a.recovered_max_lsn(), b.recovered_max_lsn());
    assert_eq!(a.recovered_max_lsn(), 145);
    assert_eq!(a.initial_lid(), b.initial_lid());
    assert_eq!(a.free(), b.free());
    assert_eq!(a.ordering(), b.ordering());
}
