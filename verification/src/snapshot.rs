//! Reading the ordering index in ascending order.
use crate::config::{LogID, Lsn};
use std::collections::BTreeMap;
use vstd::prelude::*;
use vstd::std_specs::btree::{axiom_increasing_seq_meaning, increasing_seq, spec_btree_map_iter};
use vstd::std_specs::cmp::OrdSpec;
use vstd::std_specs::iter::IteratorSpec;

verus! {

/// Whether the sequence numbers of `entries` strictly ascend.
pub open spec fn ascending(entries: Seq<(Lsn, LogID)>) -> bool {
    forall|i: int, j: int| 0 <= i < j < entries.len() ==> entries[i].0 < entries[j].0
}

/// Whether `entries` has an entry for the sequence number `lsn`.
pub open spec fn has_lsn(entries: Seq<(Lsn, LogID)>, lsn: Lsn) -> bool {
    exists|i: int| 0 <= i < entries.len() && (#[trigger] entries[i]).0 == lsn
}

/// Whether `entries` lists, in strictly ascending order of sequence
/// number, exactly the entries of `ordering` at or above `from`.
pub open spec fn is_snapshot_from(
    entries: Seq<(Lsn, LogID)>,
    ordering: Map<Lsn, LogID>,
    from: int,
) -> bool {
    &&& ascending(entries)
    &&& forall|i: int|
        0 <= i < entries.len() ==> {
            &&& (#[trigger] entries[i]).0 >= from
            &&& ordering.contains_key(entries[i].0)
            &&& ordering[entries[i].0] == entries[i].1
        }
    &&& forall|lsn: Lsn| #[trigger]
        ordering.contains_key(lsn) && lsn >= from ==> entries.contains((lsn, ordering[lsn]))
}

/// Two ascending runs with the same entries are the same run.
pub proof fn lemma_ascending_runs_equal(a: Seq<(Lsn, LogID)>, b: Seq<(Lsn, LogID)>)
    requires
        ascending(a),
        ascending(b),
        forall|entry: (Lsn, LogID)| a.contains(entry) <==> b.contains(entry),
    ensures
        a == b,
    decreases a.len(),
{
    if a.len() == 0 {
        if b.len() > 0 {
            assert(b.contains(b[0]));
        }
        assert(a =~= b);
    } else {
        assert(a.contains(a[0]));
        assert(b.contains(a[0]));
        let j = choose|j: int| 0 <= j < b.len() && b[j] == a[0];
        assert(b.contains(b[0]));
        assert(a.contains(b[0]));
        let i = choose|i: int| 0 <= i < a.len() && a[i] == b[0];
        assert(i == 0);
        let rest_a = a.drop_first();
        let rest_b = b.drop_first();
        assert forall|entry: (Lsn, LogID)| rest_a.contains(entry) <==> rest_b.contains(entry) by {
            if rest_a.contains(entry) {
                let k = choose|k: int| 0 <= k < rest_a.len() && rest_a[k] == entry;
                assert(a[k + 1] == entry);
                assert(a.contains(entry));
                let l = choose|l: int| 0 <= l < b.len() && b[l] == entry;
                assert(l != 0);
                assert(rest_b[l - 1] == entry);
            }
            if rest_b.contains(entry) {
                let k = choose|k: int| 0 <= k < rest_b.len() && rest_b[k] == entry;
                assert(b[k + 1] == entry);
                assert(b.contains(entry));
                let l = choose|l: int| 0 <= l < a.len() && a[l] == entry;
                assert(l != 0);
                assert(rest_a[l - 1] == entry);
            }
        }
        assert(ascending(rest_a)) by {
            assert forall|x: int, y: int| 0 <= x < y < rest_a.len() implies rest_a[x].0
                < rest_a[y].0 by {
                assert(a[x + 1].0 < a[y + 1].0);
            }
        }
        assert(ascending(rest_b)) by {
            assert forall|x: int, y: int| 0 <= x < y < rest_b.len() implies rest_b[x].0
                < rest_b[y].0 by {
                assert(b[x + 1].0 < b[y + 1].0);
            }
        }
        lemma_ascending_runs_equal(rest_a, rest_b);
        assert(a =~= seq![a[0]] + rest_a);
        assert(b =~= seq![b[0]] + rest_b);
    }
}

/// An ordering has one snapshot from a given sequence number on.
pub proof fn lemma_snapshot_is_unique(
    a: Seq<(Lsn, LogID)>,
    b: Seq<(Lsn, LogID)>,
    ordering: Map<Lsn, LogID>,
    from: int,
)
    requires
        is_snapshot_from(a, ordering, from),
        is_snapshot_from(b, ordering, from),
    ensures
        a == b,
{
    assert forall|entry: (Lsn, LogID)| a.contains(entry) <==> b.contains(entry) by {
        if a.contains(entry) {
            let i = choose|i: int| 0 <= i < a.len() && a[i] == entry;
            assert(ordering.contains_key(a[i].0) && a[i].0 >= from);
            assert(b.contains((entry.0, ordering[entry.0])));
        }
        if b.contains(entry) {
            let i = choose|i: int| 0 <= i < b.len() && b[i] == entry;
            assert(ordering.contains_key(b[i].0) && b[i].0 >= from);
            assert(a.contains((entry.0, ordering[entry.0])));
        }
    }
    lemma_ascending_runs_equal(a, b);
}

/// An increasing run of sequence numbers ascends strictly.
proof fn lemma_increasing_lsns(lsns: Seq<Lsn>)
    requires
        increasing_seq(lsns),
    ensures
        forall|i: int, j: int| 0 <= i < j < lsns.len() ==> lsns[i] < lsns[j],
{
    broadcast use vstd::laws_cmp::group_laws_cmp;
    broadcast use axiom_increasing_seq_meaning;

    assert forall|i: int, j: int| 0 <= i < j < lsns.len() implies lsns[i] < lsns[j] by {
        assert(lsns[i].cmp_spec(&lsns[j]) is Less);
    }
}

/// The entries of `ordering` whose sequence number is at least `from`, in
/// ascending order.
pub fn entries_from(ordering: &BTreeMap<Lsn, LogID>, from: Lsn) -> (entries: Vec<(Lsn, LogID)>)
    ensures
        is_snapshot_from(entries@, ordering@, from as int),
{
    let mut entries: Vec<(Lsn, LogID)> = Vec::new();
    let ghost mut seen: Seq<(Lsn, LogID)> = Seq::empty();
    for entry in it: ordering.iter()
        invariant
            it.seq() == spec_btree_map_iter(ordering).remaining(),
            increasing_seq(it.seq().map_values(|kv: (&Lsn, &LogID)| *kv.0)),
            seen.len() == it.index(),
            forall|i: int| 0 <= i < seen.len() ==> seen[i] == (*it.seq()[i].0, *it.seq()[i].1),
            ascending(seen),
            forall|i: int|
                0 <= i < seen.len() ==> ordering@.contains_key((#[trigger] seen[i]).0)
                    && ordering@[seen[i].0] == seen[i].1,
            it.index() == it.seq().len() ==> forall|lsn: Lsn|
                ordering@.contains_key(lsn) ==> has_lsn(seen, lsn),
            ascending(entries@),
            forall|i: int|
                0 <= i < entries.len() ==> entries[i].0 >= from && seen.contains(
                    #[trigger] entries[i],
                ),
            forall|j: int|
                0 <= j < seen.len() && seen[j].0 >= from ==> entries@.contains(#[trigger] seen[j]),
    {
        let ghost current = (*entry.0, *entry.1);
        let ghost old_entries = entries@;
        let ghost old_seen = seen;
        assert(current == (*it.seq()[it.index()].0, *it.seq()[it.index()].1));
        assert(forall|i: int| 0 <= i < seen.len() ==> seen[i].0 < current.0) by {
            let lsns = it.seq().map_values(|kv: (&Lsn, &LogID)| *kv.0);
            lemma_increasing_lsns(lsns);
            assert forall|i: int| 0 <= i < seen.len() implies seen[i].0 < current.0 by {
                assert(lsns[i] < lsns[it.index()]);
            }
        }
        if *entry.0 >= from {
            entries.push((*entry.0, *entry.1));
        }
        proof {
            seen = seen.push(current);
        }
        assert forall|i: int| 0 <= i < entries.len() implies entries[i].0 >= from && seen.contains(
            #[trigger] entries[i],
        ) by {
            if i < old_entries.len() {
                assert(old_seen.contains(old_entries[i]));
                let j = choose|j: int| 0 <= j < old_seen.len() && old_seen[j] == old_entries[i];
                assert(seen[j] == entries[i]);
            } else {
                assert(seen[seen.len() - 1] == entries[i]);
            }
        }
        assert forall|j: int| 0 <= j < seen.len() && seen[j].0 >= from implies entries@.contains(
            #[trigger] seen[j],
        ) by {
            if j < old_seen.len() {
                assert(old_entries.contains(old_seen[j]));
                let i = choose|i: int| 0 <= i < old_entries.len() && old_entries[i] == old_seen[j];
                assert(entries@[i] == seen[j]);
            } else {
                assert(entries@[entries.len() - 1] == seen[j]);
            }
        }
        assert(ascending(entries@)) by {
            assert forall|a: int, b: int| 0 <= a < b < entries.len() implies entries[a].0
                < entries[b].0 by {
                if b >= old_entries.len() {
                    assert(old_seen.contains(old_entries[a]));
                }
            }
        }
        assert(it.index() + 1 == it.seq().len() ==> forall|lsn: Lsn|
            ordering@.contains_key(lsn) ==> has_lsn(seen, lsn)) by {
            if it.index() + 1 == it.seq().len() {
                assert forall|lsn: Lsn| ordering@.contains_key(lsn) implies has_lsn(seen, lsn) by {
                    assert(it.seq().contains((&lsn, &ordering@[lsn])));
                    let i = choose|i: int|
                        0 <= i < it.seq().len() && it.seq()[i] == (&lsn, &ordering@[lsn]);
                    assert(seen[i].0 == lsn);
                }
            }
        }
    }
    proof {
        assert forall|lsn: Lsn| #[trigger]
            ordering@.contains_key(lsn) && lsn >= from implies entries@.contains(
            (lsn, ordering@[lsn]),
        ) by {
            assert(has_lsn(seen, lsn));
            let j = choose|j: int| 0 <= j < seen.len() && (#[trigger] seen[j]).0 == lsn;
            assert(entries@.contains(seen[j]));
        }
        assert forall|i: int| 0 <= i < entries.len() implies {
            &&& (#[trigger] entries[i]).0 >= from
            &&& ordering@.contains_key(entries[i].0)
            &&& ordering@[entries[i].0] == entries[i].1
        } by {
            assert(seen.contains(entries[i]));
        }
    }
    entries
}

} // verus!
