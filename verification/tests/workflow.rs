use segment_accountant::{Config, SegmentAccountant};

fn small_config() -> Config {
    Config::default()
        .io_buf_size(1)
        .io_bufs(2)
        .segment_cleanup_threshold(1, 5)
        .min_free_segments(3)
}

#[test]
fn basic_workflow() {
    // empty clean is None
    let conf = small_config();
    let mut sa = SegmentAccountant::new(conf, &Vec::new());

    let mut highest = 0;
    let mut lsn = || {
        highest += 1;
        highest
    };

    let first = sa.next(lsn());
    let second = sa.next(lsn());
    let third = sa.next(lsn());

    sa.merged(0, first, lsn());

    // sets for the same pid don't yield anything to clean yet
    sa.set(0, vec![first], first, lsn());
    assert_eq!(sa.clean(), None);
    sa.set(0, vec![first], first, lsn());
    assert_eq!(sa.clean(), None);
    sa.set(0, vec![first], first, lsn());
    assert_eq!(sa.clean(), None);
    sa.set(0, vec![first], first, lsn());
    assert_eq!(sa.clean(), None);

    // when we roll over to the next log, we can immediately reuse first
    let _fourth = sa.next(lsn());
    sa.set(0, vec![first], second, lsn());
    assert_eq!(sa.clean(), None);
    sa.merged(1, second, lsn());
    sa.merged(2, second, lsn());
    sa.merged(3, second, lsn());
    sa.merged(4, second, lsn());
    sa.merged(5, second, lsn());

    // now move a page from second to third, and pid 1 can be cleaned
    sa.set(0, vec![second], third, lsn());
    sa.set(2, vec![second], third, lsn());
    sa.set(3, vec![second], third, lsn());
    sa.set(4, vec![second], third, lsn());
    sa.set(5, vec![second], third, lsn());
    assert_eq!(sa.clean(), Some(1));
    assert_eq!(sa.clean(), None);
}

#[test]
fn no_premature_cleaning_within_one_segment() {
    let mut sa = SegmentAccountant::new(small_config(), &Vec::new());
    let first = sa.next(1);
    let _second = sa.next(2);
    sa.merged(0, first, 3);
    for lsn in 4..8 {
        let released = sa.set(0, vec![first], first, lsn);
        assert!(released.is_empty());
        assert_eq!(sa.clean(), None);
    }
    let index = first as usize;
    assert!(sa.segments()[index].pids.contains(&0));
    assert_eq!(sa.segments()[index].pids_len, 0);
    assert!(!sa.segments()[index].freed);
    assert!(sa.to_clean().is_empty());
}

#[test]
fn stale_merge_is_dropped() {
    let mut sa = SegmentAccountant::new(small_config(), &Vec::new());
    let lid = sa.next(100);
    sa.merged(7, lid, 50);
    assert!(sa.segments()[lid as usize].pids.is_empty());
    assert_eq!(sa.segments()[lid as usize].lsn, Some(100));
    sa.merged(7, lid, 100);
    assert!(sa.segments()[lid as usize].pids.contains(&7));
}

#[test]
fn stale_set_and_freed_change_nothing() {
    let mut sa = SegmentAccountant::new(small_config(), &Vec::new());
    let old = sa.next(100);
    let new = sa.next(200);
    sa.merged(1, old, 100);
    sa.merged(2, old, 100);
    let free: Vec<u64> = sa.free().iter().copied().collect();
    let tip = sa.tip();

    let released = sa.freed(1, vec![old], 50);
    assert!(released.is_empty());
    assert_eq!(sa.segments()[old as usize].pids.len(), 2);
    assert_eq!(sa.segments()[old as usize].pids_len, 0);

    let released = sa.set(2, vec![old], new, 50);
    assert!(released.is_empty());
    assert_eq!(sa.segments()[old as usize].pids.len(), 2);
    assert!(sa.segments()[new as usize].pids.is_empty());
    assert!(sa.to_clean().is_empty());
    assert_eq!(sa.free().iter().copied().collect::<Vec<u64>>(), free);
    assert_eq!(sa.tip(), tip);
}

#[test]
fn stale_offset_does_not_stop_the_rest_of_the_list() {
    let mut sa = SegmentAccountant::new(small_config(), &Vec::new());
    let late = sa.next(100);
    let early = sa.next(10);
    sa.merged(1, late, 100);
    sa.merged(1, early, 20);
    sa.merged(2, early, 20);
    let released = sa.freed(1, vec![late, early], 50);
    assert!(released.is_empty());
    // the update is stale for the first segment and in time for the second
    assert!(sa.segments()[late as usize].pids.contains(&1));
    assert_eq!(sa.segments()[late as usize].pids_len, 0);
    assert!(!sa.segments()[early as usize].pids.contains(&1));
    assert_eq!(sa.segments()[early as usize].pids_len, 2);
}

#[test]
fn merged_adopts_lsn_of_unassigned_segment() {
    let conf = small_config().io_buf_size(10);
    let mut sa = SegmentAccountant::new(conf, &Vec::new());
    sa.merged(3, 25, 77);
    assert_eq!(sa.segments().len(), 3);
    assert_eq!(sa.segments()[2].lsn, Some(77));
    assert!(sa.segments()[2].pids.contains(&3));
    assert_eq!(sa.segments()[0].lsn, None);
    assert!(sa.ordering().is_empty());
    assert!(sa.is_recovered());
}

#[test]
fn snapshot_iter_starts_at_segment_boundary() {
    let conf = small_config().io_buf_size(4);
    let mut sa = SegmentAccountant::new(conf, &Vec::new());
    // two write buffers: the first offset handed out lies one segment up
    assert_eq!(sa.next(0), 4);
    assert_eq!(sa.next(4), 8);
    assert_eq!(sa.next(8), 12);
    assert_eq!(sa.segment_snapshot_iter_from(2), vec![(0, 4), (4, 8), (8, 12)]);
    assert_eq!(sa.segment_snapshot_iter_from(0), vec![(0, 4), (4, 8), (8, 12)]);
    assert_eq!(sa.segment_snapshot_iter_from(4), vec![(4, 8), (8, 12)]);
    assert_eq!(sa.segment_snapshot_iter_from(7), vec![(4, 8), (8, 12)]);
    assert_eq!(sa.segment_snapshot_iter_from(11), vec![(8, 12)]);
    assert_eq!(sa.segment_snapshot_iter_from(12), Vec::<(u64, u64)>::new());
}

#[test]
fn snapshot_iter_ascends_in_lsn_not_in_offset() {
    let conf = small_config().io_buf_size(4).io_bufs(1);
    let mut sa = SegmentAccountant::new(conf, &Vec::new());
    let a = sa.next(40);
    let b = sa.next(20);
    let c = sa.next(80);
    assert_eq!((a, b, c), (0, 4, 8));
    assert_eq!(sa.segment_snapshot_iter_from(0), vec![(20, 4), (40, 0), (80, 8)]);
    assert_eq!(sa.segment_snapshot_iter_from(41), vec![(40, 0), (80, 8)]);
}

#[test]
fn single_next_leaves_the_safe_distance() {
    let conf = small_config().io_bufs(4);
    let mut sa = SegmentAccountant::new(conf, &Vec::new());
    let lid = sa.next(1);
    assert_eq!(lid, 3);
    assert!(sa.free().len() >= 4);
    assert!(!sa.free().contains(&lid));
    assert_eq!(sa.free().iter().copied().collect::<Vec<u64>>(), vec![4, 2, 1, 0]);
    assert_eq!(sa.tip(), 5);
}

#[test]
fn every_next_returns_behind_the_safe_distance() {
    let conf = small_config().io_bufs(3);
    let mut sa = SegmentAccountant::new(conf, &Vec::new());
    let mut handed = Vec::new();
    for lsn in 0..6 {
        let lid = sa.next(lsn);
        assert!(sa.free().len() >= 3);
        assert!(!sa.free().contains(&lid));
        assert!(!handed.contains(&lid));
        handed.push(lid);
    }
    assert_eq!(handed, vec![2, 3, 4, 5, 6, 7]);
    sa.pause_rewriting();
    assert_eq!(sa.next(6), 9);
    assert_eq!(sa.free().iter().copied().collect::<Vec<u64>>(), vec![8, 1, 0]);
}

#[test]
fn emptied_segment_is_released_behind_the_safe_distance() {
    let conf = small_config().io_bufs(4);
    let mut sa = SegmentAccountant::new(conf, &Vec::new());
    let first = sa.next(0);
    assert_eq!(first, 3);

    sa.merged(9, first, 1);
    let released = sa.freed(9, vec![first], 2);
    assert_eq!(released, vec![3]);
    assert!(sa.free().len() >= 4);
    assert_eq!(sa.free().iter().copied().collect::<Vec<u64>>(), vec![4, 2, 1, 0]);
    assert_eq!(sa.tip(), 5);
    assert!(sa.segments()[3].freed);
    assert_eq!(sa.segments()[3].pids_len, 1);

    sa.release(3);
    assert_eq!(sa.free().iter().copied().collect::<Vec<u64>>(), vec![4, 2, 1, 0, 3]);

    // what was free before goes first; the tip refills the front
    assert_eq!(sa.next(3), 4);
    assert_eq!(sa.next(4), 2);
    assert_eq!(sa.free().iter().copied().collect::<Vec<u64>>(), vec![5, 1, 0, 3]);
    assert_eq!(sa.next(5), 5);
    assert_eq!(sa.free().iter().copied().collect::<Vec<u64>>(), vec![6, 1, 0, 3]);
    assert_eq!(sa.tip(), 7);
}

#[test]
fn emptying_a_segment_brings_the_free_list_to_the_distance() {
    let conf = small_config().io_bufs(3);
    let mut sa = SegmentAccountant::empty(conf);
    sa.merged(9, 0, 1);
    assert!(sa.free().is_empty());
    let released = sa.freed(9, vec![0], 2);
    assert_eq!(released, vec![0]);
    assert_eq!(sa.free().iter().copied().collect::<Vec<u64>>(), vec![2, 1, 0]);
    assert_eq!(sa.tip(), 3);
}

#[test]
fn reuse_replaces_the_old_place_in_the_ordering() {
    let conf = small_config().io_bufs(1);
    let mut sa = SegmentAccountant::new(conf, &Vec::new());
    let first = sa.next(10);
    sa.merged(1, first, 11);
    let released = sa.freed(1, vec![first], 12);
    assert_eq!(released, vec![first]);
    assert_eq!(sa.next(20), 1);
    sa.release(first);
    // the offset that the tip put in front goes first
    assert_eq!(sa.next(30), 2);
    assert_eq!(sa.ordering().get(&10), Some(&first));
    assert_eq!(sa.next(40), first);
    assert_eq!(sa.segment_snapshot_iter_from(0), vec![(20, 1), (30, 2), (40, 0)]);
    assert_eq!(sa.ordering().get(&10), None);
    assert_eq!(sa.ordering().get(&40), Some(&0));
    assert!(!sa.segments()[0].freed);
    assert_eq!(sa.segments()[0].pids_len, 0);
}

#[test]
fn paused_rewriting_extends_the_tip() {
    let conf = small_config().io_bufs(1);
    let mut sa = SegmentAccountant::new(conf, &Vec::new());
    sa.release(7);
    sa.pause_rewriting();
    assert!(sa.is_rewriting_paused());
    assert_eq!(sa.next(1), 0);
    assert_eq!(sa.next(2), 1);
    assert_eq!(sa.free().len(), 1);
    sa.resume_rewriting();
    assert!(!sa.is_rewriting_paused());
    assert_eq!(sa.next(3), 7);
    assert_eq!(sa.next(4), 2);
}

fn sparse_accountant() -> (SegmentAccountant, u64, u64) {
    let conf = Config::default()
        .io_buf_size(1)
        .io_bufs(2)
        .segment_cleanup_threshold(1, 2)
        .min_free_segments(2);
    let mut sa = SegmentAccountant::new(conf, &Vec::new());
    let old = sa.next(0);
    let new = sa.next(1);
    sa.merged(1, old, 2);
    sa.merged(2, old, 2);
    sa.merged(3, old, 2);
    assert!(sa.set(1, vec![old], new, 3).is_empty());
    assert!(sa.to_clean().is_empty());
    assert!(sa.set(2, vec![old], new, 4).is_empty());
    (sa, old, new)
}

#[test]
fn sparse_segment_enters_the_cleaning_set() {
    let (sa, old, new) = sparse_accountant();
    assert!(sa.to_clean().contains(&old));
    assert!(!sa.to_clean().contains(&new));
    let segment = &sa.segments()[old as usize];
    assert_eq!(segment.pids_len, 3);
    assert_eq!(segment.pids.len(), 1);
    assert!(segment.pids_len >= segment.pids.len());
    assert!(!segment.freed);
    assert!(segment.cleanable(sa.config()));
    assert_eq!(sa.segments()[new as usize].pids_len, 0);
}

#[test]
fn cleaned_page_is_not_named_twice() {
    let (mut sa, old, new) = sparse_accountant();
    assert_eq!(sa.clean(), Some(3));
    assert!(sa.pending_clean().contains(&3));
    assert_eq!(sa.clean(), None);
    // another page moving does not end the pending of page 3
    sa.merged(8, new, 5);
    assert_eq!(sa.clean(), None);
    let _ = sa.next(6);
    assert_eq!(sa.clean(), None);
    // the page itself being placed does
    sa.merged(3, old, 7);
    assert!(!sa.pending_clean().contains(&3));
    assert_eq!(sa.clean(), Some(3));
}

#[test]
fn clean_is_held_back_while_enough_segments_are_free() {
    let (mut sa, old, _new) = sparse_accountant();
    assert_eq!(sa.free().len(), 2);
    assert_eq!(sa.clean(), Some(3));
    sa.merged(3, old, 5);
    sa.release(10);
    assert_eq!(sa.free().len(), 3);
    assert!(sa.to_clean().contains(&old));
    assert_eq!(sa.clean(), None);
    assert!(sa.pending_clean().is_empty());
}

#[test]
fn freed_empties_and_releases_a_segment() {
    let (mut sa, old, _new) = sparse_accountant();
    let released = sa.freed(3, vec![old], 5);
    assert_eq!(released, vec![old]);
    assert!(sa.segments()[old as usize].freed);
    assert!(sa.segments()[old as usize].pids.is_empty());
    assert!(!sa.to_clean().contains(&old));
    assert!(sa.free().len() >= 2);
    assert_eq!(sa.clean(), None);
}

#[test]
fn freed_grows_the_records_for_an_unknown_offset() {
    let conf = small_config().io_buf_size(8);
    let mut sa = SegmentAccountant::new(conf, &Vec::new());
    let released = sa.freed(4, vec![17], 9);
    assert_eq!(released, vec![16]);
    assert_eq!(sa.segments().len(), 3);
    assert_eq!(sa.segments()[2].lsn, Some(9));
    assert!(sa.segments()[2].freed);
    assert_eq!(sa.free().len(), 2);
}

#[test]
fn can_next_tells_when_next_may_run() {
    let conf = small_config().io_buf_size(4);
    let mut sa = SegmentAccountant::new(conf, &Vec::new());
    assert!(sa.can_next(0));
    assert!(sa.can_next(8));
    assert!(!sa.can_next(3));
    // the next offset is 4, one segment up; a page lives there now
    sa.merged(1, 5, 5);
    assert!(!sa.can_next(8));
    // with one offset free the tip itself comes to the front
    sa.release(12);
    assert!(sa.can_next(8));
    assert_eq!(sa.next(8), 0);
}

#[test]
fn same_lsn_twice_keeps_one_place_in_the_ordering() {
    let conf = small_config().io_buf_size(4);
    let mut sa = SegmentAccountant::new(conf, &Vec::new());
    let a = sa.next(8);
    let b = sa.next(8);
    assert_eq!((a, b), (4, 8));
    assert_eq!(sa.ordering().len(), 1);
    assert_eq!(sa.segment_snapshot_iter_from(0), vec![(8, 8)]);
}

#[test]
fn each_segment_has_one_place_in_the_ordering() {
    let conf = small_config().io_bufs(1);
    let mut sa = SegmentAccountant::new(conf, &Vec::new());
    let first = sa.next(1);
    let second = sa.next(2);
    sa.merged(5, first, 3);
    assert_eq!(sa.freed(5, vec![first], 4), vec![first]);
    sa.release(first);
    // the free list is [2, 0]: the offset from the tip goes first
    assert_eq!(sa.next(5), 2);
    assert_eq!(sa.next(6), first);
    let places = sa.segment_snapshot_iter_from(0);
    assert_eq!(places, vec![(2, second), (5, 2), (6, first)]);
}

#[test]
fn measure_is_kept_when_pages_return() {
    let (mut sa, old, _new) = sparse_accountant();
    assert_eq!(sa.segments()[old as usize].pids_len, 3);
    sa.merged(7, old, 5);
    sa.merged(8, old, 5);
    sa.merged(9, old, 5);
    // the measure was taken at the first shrink and is not taken again
    assert_eq!(sa.segments()[old as usize].pids.len(), 4);
    assert_eq!(sa.segments()[old as usize].pids_len, 3);
    // nor does the segment leave the cleaning set
    assert!(sa.to_clean().contains(&old));
    assert!(!sa.segments()[old as usize].cleanable(sa.config()));
}

#[test]
fn released_segment_named_again_enters_the_cleaning_set() {
    let (mut sa, old, _new) = sparse_accountant();
    // the page had two fragments in the old segment
    let released = sa.freed(3, vec![old, old], 5);
    assert_eq!(released, vec![old]);
    assert!(sa.segments()[old as usize].freed);
    assert!(sa.to_clean().contains(&old));
    assert_eq!(sa.clean(), None);
}

#[test]
fn room_and_hold_tell_when_placements_may_run() {
    let conf = small_config().io_buf_size(4).io_bufs(2);
    let sa = SegmentAccountant::new(conf, &Vec::new());
    assert!(sa.has_room());
    assert!(sa.can_hold(0));
    assert!(sa.can_hold(u64::MAX));
    // with segments of one byte the last offset has the last index
    let unit = SegmentAccountant::empty(small_config());
    assert!(!unit.can_hold(u64::MAX));
    assert!(unit.can_hold(1024));

    let near = vec![segment_accountant::LogSegment { lsn: 0, read_offset: 0, records: Vec::new() }];
    let wide = small_config().io_buf_size(usize::MAX).io_bufs(2);
    let mut sa = SegmentAccountant::new(wide, &near);
    // the tip lies one segment below the last offset; one tail is free
    assert_eq!(sa.tip(), usize::MAX as u64);
    assert_eq!(sa.free().len(), 1);
    if usize::MAX as u64 == u64::MAX {
        assert!(!sa.has_room());
        sa.release(3);
        assert!(sa.has_room());
    }
}
