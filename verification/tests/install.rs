use segment_accountant::{Config, Segment, SegmentAccountant};

fn config() -> Config {
    Config::default()
        .io_buf_size(10)
        .io_bufs(2)
        .segment_cleanup_threshold(1, 5)
        .min_free_segments(3)
}

fn segment(pids: &[usize], pids_len: usize, lsn: Option<u64>) -> Segment {
    let mut segment = Segment::default();
    for pid in pids {
        segment.pids.insert(*pid);
    }
    segment.pids_len = pids_len;
    segment.lsn = lsn;
    segment
}

#[test]
fn initialize_classifies_each_segment() {
    let mut sa = SegmentAccountant::empty(config());
    sa.initialize_from_segments(vec![
        segment(&[1, 2, 3], 4, Some(0)),
        segment(&[], 3, Some(10)),
        segment(&[4], 5, Some(20)),
        segment(&[5], 4, Some(30)),
        segment(&[], 0, None),
    ]);
    assert!(sa.is_recovered());
    assert_eq!(sa.segments().len(), 5);
    assert_eq!(sa.free().iter().copied().collect::<Vec<u64>>(), vec![10, 40]);
    assert!(sa.segments()[1].freed);
    assert!(sa.segments()[4].freed);
    assert!(!sa.segments()[0].freed);
    assert!(!sa.segments()[2].freed);
    // 1 of 5 is within one fifth, 1 of 4 is not
    assert_eq!(sa.to_clean().len(), 1);
    assert!(sa.to_clean().contains(&20));
    assert!(sa.ordering().is_empty());
}

#[test]
fn initialize_then_clean_names_a_page_of_the_sparse_segment() {
    let mut sa = SegmentAccountant::empty(config());
    sa.initialize_from_segments(vec![segment(&[1, 2, 3], 4, Some(0)), segment(&[4], 5, Some(10))]);
    assert_eq!(sa.clean(), Some(4));
    assert_eq!(sa.clean(), None);
}

#[test]
fn unmeasured_segment_counts_against_its_own_size() {
    let full = segment(&[1, 2], 0, Some(0));
    assert_eq!(full.measure(), 2);
    assert!(!full.cleanable(&config()));
    assert!(full.cleanable(&config().segment_cleanup_threshold(1, 1)));
    let empty = segment(&[], 0, None);
    assert_eq!(empty.measure(), 0);
    assert!(!empty.cleanable(&config().segment_cleanup_threshold(1, 1)));
}

#[test]
fn threshold_is_compared_exactly() {
    let conf = config().segment_cleanup_threshold(1, 3);
    assert!(segment(&[1], 3, None).cleanable(&conf));
    assert!(segment(&[1, 2], 6, None).cleanable(&conf));
    assert!(!segment(&[1, 2], 5, None).cleanable(&conf));
    assert!(segment(&[], 5, None).cleanable(&conf));
    let big = config().segment_cleanup_threshold(u64::MAX, u64::MAX);
    assert!(segment(&[1, 2], 2, None).cleanable(&big));
}

#[test]
fn clone_keeps_a_segment() {
    let mut source = segment(&[1, 5, 9], 7, Some(40));
    source.freed = true;
    let copy = source.clone();
    assert_eq!(copy, source);
    assert_eq!(copy.pids.len(), 3);
    assert!(copy.freed);
}

#[test]
fn config_builders_set_one_option_each() {
    let conf = Config::default();
    assert!(conf.is_wf());
    let conf = conf.io_buf_size(7).io_bufs(9).min_free_segments(11).header_len(13);
    assert_eq!(conf.get_io_buf_size(), 7);
    assert_eq!(conf.get_io_bufs(), 9);
    assert_eq!(conf.get_min_free_segments(), 11);
    assert_eq!(conf.header_len, 13);
    assert_eq!((conf.threshold_num, conf.threshold_den), (1, 5));
    assert!(!conf.io_buf_size(0).is_wf());
    assert!(!conf.segment_cleanup_threshold(0, 5).is_wf());
    assert!(!conf.segment_cleanup_threshold(6, 5).is_wf());
    assert!(conf.segment_cleanup_threshold(5, 5).is_wf());
}

#[test]
fn can_install_asks_for_records_of_the_cleaning_set() {
    let mut sa = SegmentAccountant::empty(config());
    let sparse = vec![segment(&[1, 2, 3], 4, Some(0)), segment(&[4], 5, Some(10))];
    assert!(sa.can_install(&sparse));
    sa.initialize_from_segments(sparse);
    assert!(sa.to_clean().contains(&10));
    // the cleaning set names the second segment, so one record is too few
    assert!(!sa.can_install(&vec![segment(&[1], 1, None)]));
    assert!(!sa.can_install(&Vec::new()));
    let again = vec![segment(&[1], 1, None), segment(&[2], 9, None)];
    assert!(sa.can_install(&again));
    sa.initialize_from_segments(again);
    assert_eq!(sa.segments().len(), 2);
    assert_eq!(sa.to_clean().len(), 1);
}

// The midpoint between a float below one and the next float above it, as a
// fraction over a power of two.
fn midpoint_above(threshold: f64) -> (u64, u64) {
    let bits = threshold.to_bits();
    let exponent = (bits >> 52) & 0x7ff;
    let mantissa = (bits & ((1u64 << 52) - 1)) | (1u64 << 52);
    (2 * mantissa + 1, 1u64 << (1075 - exponent + 1))
}

#[test]
fn ratio_agrees_with_the_rounded_quotient() {
    for threshold in [0.2f64, 1.0 / 3.0, 0.3, 0.1, 0.5, 0.75, 0.999] {
        let (num, den) = midpoint_above(threshold);
        let conf = config().segment_cleanup_threshold(num, den);
        assert!(conf.is_wf());
        for measured in 1usize..40 {
            for live in 0..=measured {
                let mut segment = Segment::default();
                for pid in 0..live {
                    segment.pids.insert(pid);
                }
                segment.pids_len = measured;
                let rounded = live as f64 / measured as f64 <= threshold;
                assert_eq!(segment.cleanable(&conf), rounded);
            }
        }
    }
    // occupancy of exactly one third at a threshold of one third
    let (num, den) = midpoint_above(1.0 / 3.0);
    assert!(segment(&[1], 3, None).cleanable(&config().segment_cleanup_threshold(num, den)));
    assert!(!segment(&[1, 2], 5, None).cleanable(&config().segment_cleanup_threshold(num, den)));
}
