//! The per-segment occupancy record and its mathematical view.
use crate::config::{Config, Lsn, PageID};
use std::collections::HashSet;
use vstd::prelude::*;
use vstd::std_specs::iter::IteratorSpec;

verus! {

/// What the accountant knows of one segment, as plain mathematics.
pub struct SegmentView {
    /// Pages with at least one live fragment in the segment.
    pub pids: Set<PageID>,
    /// Size of `pids` when it first shrank; zero while not yet measured.
    pub pids_len: nat,
    /// The sequence number of the segment's header, once assigned.
    pub lsn: Option<Lsn>,
    /// Whether the segment has been released for reuse.
    pub freed: bool,
}

impl SegmentView {
    /// A segment that nothing has referred to yet.
    pub open spec fn empty() -> SegmentView {
        SegmentView { pids: Set::empty(), pids_len: 0, lsn: None, freed: false }
    }

    /// The denominator of the occupancy ratio: the recorded measure, or the
    /// current number of live pages while none has been recorded.
    pub open spec fn measure(self) -> nat {
        if self.pids_len == 0 {
            self.pids.len()
        } else {
            self.pids_len
        }
    }

    /// Whether the segment's occupancy is at or below the cleanup threshold.
    pub open spec fn cleanable(self, config: Config) -> bool {
        config.below_threshold(self.pids.len(), self.measure())
    }

    /// The recorded measure, if any, bounds the number of live pages.
    pub open spec fn measure_bounds_pids(self) -> bool {
        self.pids_len == 0 || self.pids.len() <= self.pids_len
    }

    /// The live set can be held by an executable set.
    pub open spec fn wf(self) -> bool {
        self.pids.finite()
    }
}

/// The product of two 64-bit quantities fits in 128 bits.
pub proof fn lemma_product_fits(a: nat, b: nat)
    requires
        a <= u64::MAX,
        b <= u64::MAX,
    ensures
        a * b <= u128::MAX,
{
    assert(a * b <= 0xffff_ffff_ffff_ffff * 0xffff_ffff_ffff_ffff) by (nonlinear_arith)
        requires
            a <= 0xffff_ffff_ffff_ffff,
            b <= 0xffff_ffff_ffff_ffff,
    ;
}

/// An executable set holds finitely many pages.
pub proof fn lemma_pids_finite(pids: &HashSet<PageID>)
    ensures
        pids@.finite(),
{
    vstd::std_specs::hash::axiom_spec_hash_keys_iter(pids);
    let keys = vstd::std_specs::hash::spec_hash_keys_iter(pids).remaining().unref();
    vstd::seq_lib::seq_to_set_is_finite(keys);
}

/// Per-segment occupancy: the live page set, its measure, the assigned
/// sequence number and the release flag.
#[derive(Debug, PartialEq)]
pub struct Segment {
    /// Pages with at least one live fragment in this segment.
    pub pids: HashSet<PageID>,
    /// Size of `pids` when it first shrank; zero while not yet measured.
    pub pids_len: usize,
    /// The sequence number of this segment's header, once assigned.
    pub lsn: Option<Lsn>,
    /// Whether this segment has been released for reuse.
    pub freed: bool,
}

impl View for Segment {
    type V = SegmentView;

    open spec fn view(&self) -> SegmentView {
        SegmentView {
            pids: self.pids@,
            pids_len: self.pids_len as nat,
            lsn: self.lsn,
            freed: self.freed,
        }
    }
}

impl Segment {
    /// The live set of an executable record is finite.
    pub proof fn lemma_wf(&self)
        ensures
            self@.wf(),
    {
        lemma_pids_finite(&self.pids);
    }

    /// The denominator of the occupancy ratio.
    pub fn measure(&self) -> (m: usize)
        ensures
            m == self@.measure(),
    {
        if self.pids_len == 0 {
            self.pids.len()
        } else {
            self.pids_len
        }
    }

    /// Whether the occupancy of this segment is at or below the threshold
    /// of `config`.
    pub fn cleanable(&self, config: &Config) -> (b: bool)
        ensures
            b == self@.cleanable(*config),
    {
        let live: usize = self.pids.len();
        let measured: usize = self.measure();
        if measured == 0 {
            return false;
        }
        proof {
            lemma_product_fits(live as nat, config.threshold_den as nat);
            lemma_product_fits(config.threshold_num as nat, measured as nat);
        }
        let lhs: u128 = (live as u128) * (config.threshold_den as u128);
        let rhs: u128 = (config.threshold_num as u128) * (measured as u128);
        lhs <= rhs
    }
}

impl Clone for Segment {
    fn clone(&self) -> (copy: Segment)
        ensures
            copy@ == self@,
    {
        let mut pids: HashSet<PageID> = HashSet::new();
        let ghost mut seen: Seq<PageID> = Seq::empty();
        for pid in it: self.pids.iter()
            invariant
                it.seq().unref().to_set() == self.pids@,
                seen == it.seq().unref().take(it.index()),
                it.index() == it.seq().len() ==> seen.to_set() == self.pids@,
                pids@ == seen.to_set(),
        {
            assert(it.seq().unref()[it.index()] == *pid);
            pids.insert(*pid);
            proof {
                seen = seen.push(*pid);
            }
            assert(seen =~= it.seq().unref().take(it.index() + 1));
            assert(it.index() + 1 == it.seq().len() ==> seen =~= it.seq().unref());
            assert(pids@ =~= seen.to_set()) by {
                assert forall|p: PageID| seen.to_set().contains(p) <==> seen.drop_last().to_set().insert(
                    *pid,
                ).contains(p) by {
                    if seen.contains(p) {
                        let i = choose|i: int| 0 <= i < seen.len() && seen[i] == p;
                        if i < seen.len() - 1 {
                            assert(seen.drop_last()[i] == p);
                        }
                    }
                    if seen.drop_last().contains(p) {
                        let i = choose|i: int| 0 <= i < seen.len() - 1 && seen.drop_last()[i] == p;
                        assert(seen[i] == p);
                    }
                    if p == *pid {
                        assert(seen[seen.len() - 1] == p);
                    }
                }
                assert(seen.drop_last() =~= it.seq().unref().take(it.index()));
            }
        }
        Segment { pids: pids, pids_len: self.pids_len, lsn: self.lsn, freed: self.freed }
    }
}

impl Default for Segment {
    fn default() -> (s: Segment)
        ensures
            s@ == SegmentView::empty(),
    {
        Segment { pids: HashSet::new(), pids_len: 0, lsn: None, freed: false }
    }
}

} // verus!
