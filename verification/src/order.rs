//! Replay order of the append-only logs, and the sorted insertion the
//! store keeps them in.
//!
//! Records are ordered by creation time; two records with the same
//! creation time are replayed in insertion order, which their ids give,
//! since ids are handed out in increasing order. Because ids are unique,
//! this order is strict and total over the records of one log.

use crate::models::{AdjustmentModel, TimeEntryModel};
use vstd::prelude::*;

verus! {

/// Strict replay order on adjustments: by creation time, ties by id.
pub open spec fn adj_before(a: AdjustmentModel, b: AdjustmentModel) -> bool {
    a.created < b.created || (a.created == b.created && a.id < b.id)
}

/// The adjustment log is in replay order.
pub open spec fn adjs_ordered(s: Seq<AdjustmentModel>) -> bool {
    forall|i: int, j: int| 0 <= i < j < s.len() ==> adj_before(s[i], s[j])
}

/// Where an adjustment belongs in an ordered log: before the first
/// record it does not come after.
pub open spec fn insert_adj(s: Seq<AdjustmentModel>, a: AdjustmentModel) -> Seq<AdjustmentModel>
    decreases s.len(),
{
    if s.len() == 0 {
        seq![a]
    } else if !adj_before(s[0], a) {
        seq![a].add(s)
    } else {
        seq![s[0]].add(insert_adj(s.drop_first(), a))
    }
}

/// Splitting a log at position `j` and putting `a` in between.
pub open spec fn split_at<A>(s: Seq<A>, a: A, j: int) -> Seq<A> {
    s.take(j).add(seq![a]).add(s.skip(j))
}

/// `j` is the position at which `a` belongs in the adjustment log: every
/// earlier record comes before it, the record at `j` does not.
pub open spec fn adj_split_pos(s: Seq<AdjustmentModel>, a: AdjustmentModel, j: int) -> bool {
    &&& 0 <= j <= s.len()
    &&& forall|i: int| 0 <= i < j ==> adj_before(#[trigger] s[i], a)
    &&& j < s.len() ==> !adj_before(s[j], a)
}

/// `insert_adj` splits the log at the first record that does not come
/// before the inserted one.
pub proof fn lemma_insert_adj_parts(s: Seq<AdjustmentModel>, a: AdjustmentModel)
    ensures
        exists|j: int| #[trigger] adj_split_pos(s, a, j) && insert_adj(s, a) == split_at(s, a, j),
    decreases s.len(),
{
    if s.len() == 0 {
        assert(insert_adj(s, a) =~= split_at(s, a, 0));
        assert(adj_split_pos(s, a, 0) && insert_adj(s, a) == split_at(s, a, 0));
    } else if !adj_before(s[0], a) {
        assert(insert_adj(s, a) =~= split_at(s, a, 0));
        assert(adj_split_pos(s, a, 0) && insert_adj(s, a) == split_at(s, a, 0));
    } else {
        let df = s.drop_first();
        lemma_insert_adj_parts(df, a);
        let j0 = choose|j0: int|
            #[trigger] adj_split_pos(df, a, j0) && insert_adj(df, a) == split_at(df, a, j0);
        let j = j0 + 1;
        let lhs = insert_adj(s, a);
        let rhs = split_at(s, a, j);
        assert(lhs == seq![s[0]].add(split_at(df, a, j0)));
        assert(lhs.len() == s.len() + 1);
        assert(rhs.len() == s.len() + 1);
        assert forall|i: int| 0 <= i < lhs.len() implies lhs[i] == rhs[i] by {
            if i == 0 {
                assert(lhs[0] == s[0]);
                assert(rhs[0] == s.take(j)[0]);
            } else {
                assert(lhs[i] == split_at(df, a, j0)[i - 1]);
                if i - 1 < j0 {
                    assert(split_at(df, a, j0)[i - 1] == df.take(j0)[i - 1]);
                    assert(df.take(j0)[i - 1] == df[i - 1]);
                    assert(df[i - 1] == s[i]);
                    assert(rhs[i] == s.take(j)[i]);
                } else if i - 1 == j0 {
                    assert(split_at(df, a, j0)[i - 1] == a);
                    assert(rhs[j] == a);
                } else {
                    assert(split_at(df, a, j0)[i - 1] == df.skip(j0)[i - 1 - j0 - 1]);
                    assert(df.skip(j0)[i - 1 - j0 - 1] == df[i - 2]);
                    assert(df[i - 2] == s[i - 1]);
                    assert(rhs[i] == s.skip(j)[i - j - 1]);
                    assert(s.skip(j)[i - j - 1] == s[i - 1]);
                }
            }
        }
        assert(lhs =~= rhs);
        assert forall|i: int| 0 <= i < j implies adj_before(#[trigger] s[i], a) by {
            if i > 0 {
                assert(s[i] == df[i - 1]);
            }
        }
        assert(j < s.len() ==> !adj_before(s[j], a)) by {
            if j < s.len() {
                assert(s[j] == df[j0]);
            }
        }
        assert(adj_split_pos(s, a, j) && insert_adj(s, a) == split_at(s, a, j));
    }
}

/// The split position is unique, so inserting at it is exactly
/// `insert_adj`.
pub proof fn lemma_insert_adj_at(s: Seq<AdjustmentModel>, a: AdjustmentModel, j: int)
    requires
        adj_split_pos(s, a, j),
    ensures
        insert_adj(s, a) == split_at(s, a, j),
{
    lemma_insert_adj_parts(s, a);
    let j0 = choose|j0: int|
        #[trigger] adj_split_pos(s, a, j0) && insert_adj(s, a) == split_at(s, a, j0);
    if j0 < j {
        assert(adj_before(s[j0], a));
        assert(false);
    } else if j < j0 {
        assert(adj_before(s[j], a));
        assert(false);
    }
}

/// Inserting a record with a fresh id keeps the log in replay order.
pub proof fn lemma_insert_adj_ordered(s: Seq<AdjustmentModel>, a: AdjustmentModel)
    requires
        adjs_ordered(s),
        forall|i: int| 0 <= i < s.len() ==> (#[trigger] s[i]).id != a.id,
    ensures
        adjs_ordered(insert_adj(s, a)),
{
    lemma_insert_adj_parts(s, a);
    let j = choose|j: int|
        #[trigger] adj_split_pos(s, a, j) && insert_adj(s, a) == split_at(s, a, j);
    let t = insert_adj(s, a);
    assert(t.len() == s.len() + 1);
    assert forall|i: int| 0 <= i < t.len() implies t[i] == (if i < j {
        s[i]
    } else if i == j {
        a
    } else {
        s[i - 1]
    }) by {
        if i < j {
            assert(t[i] == s.take(j)[i]);
        } else if i == j {
            assert(t[j] == a);
        } else {
            assert(t[i] == s.skip(j)[i - j - 1]);
        }
    }
    assert forall|x: int, y: int| 0 <= x < y < t.len() implies adj_before(t[x], t[y]) by {
        if y == j {
            assert(adj_before(s[x], a));
        } else if x == j {
            // the record at the split does not come before `a`, and their
            // (created, id) pairs differ, so `a` comes before it and all
            // that follow it
            assert(!adj_before(s[j], a));
            assert(s[j].id != a.id);
            assert(adj_before(a, s[j]));
            if y - 1 > j {
                assert(adj_before(s[j], s[y - 1]));
            }
            assert(adj_before(a, s[y - 1]));
        } else if x < j && y > j {
            assert(adj_before(s[x], s[y - 1]));
        } else if y < j {
            assert(adj_before(s[x], s[y]));
        } else {
            assert(adj_before(s[x - 1], s[y - 1]));
        }
    }
}

/// Strict replay order on time entries: by creation time, ties by id.
pub open spec fn entry_before(a: TimeEntryModel, b: TimeEntryModel) -> bool {
    a.created < b.created || (a.created == b.created && a.id < b.id)
}

/// The time entry log is in replay order.
pub open spec fn entries_ordered(s: Seq<TimeEntryModel>) -> bool {
    forall|i: int, j: int| 0 <= i < j < s.len() ==> entry_before(s[i], s[j])
}

/// Where a time entry belongs in an ordered log.
pub open spec fn insert_entry(s: Seq<TimeEntryModel>, a: TimeEntryModel) -> Seq<TimeEntryModel>
    decreases s.len(),
{
    if s.len() == 0 {
        seq![a]
    } else if !entry_before(s[0], a) {
        seq![a].add(s)
    } else {
        seq![s[0]].add(insert_entry(s.drop_first(), a))
    }
}

/// `j` is the position at which `a` belongs in the time entry log.
pub open spec fn entry_split_pos(s: Seq<TimeEntryModel>, a: TimeEntryModel, j: int) -> bool {
    &&& 0 <= j <= s.len()
    &&& forall|i: int| 0 <= i < j ==> entry_before(#[trigger] s[i], a)
    &&& j < s.len() ==> !entry_before(s[j], a)
}

/// `insert_entry` splits the log at the first record that does not come
/// before the inserted one.
pub proof fn lemma_insert_entry_parts(s: Seq<TimeEntryModel>, a: TimeEntryModel)
    ensures
        exists|j: int|
            #[trigger] entry_split_pos(s, a, j) && insert_entry(s, a) == split_at(s, a, j),
    decreases s.len(),
{
    if s.len() == 0 {
        assert(insert_entry(s, a) =~= split_at(s, a, 0));
        assert(entry_split_pos(s, a, 0) && insert_entry(s, a) == split_at(s, a, 0));
    } else if !entry_before(s[0], a) {
        assert(insert_entry(s, a) =~= split_at(s, a, 0));
        assert(entry_split_pos(s, a, 0) && insert_entry(s, a) == split_at(s, a, 0));
    } else {
        let df = s.drop_first();
        lemma_insert_entry_parts(df, a);
        let j0 = choose|j0: int|
            #[trigger] entry_split_pos(df, a, j0) && insert_entry(df, a) == split_at(df, a, j0);
        let j = j0 + 1;
        let lhs = insert_entry(s, a);
        let rhs = split_at(s, a, j);
        assert(lhs == seq![s[0]].add(split_at(df, a, j0)));
        assert(lhs.len() == s.len() + 1);
        assert(rhs.len() == s.len() + 1);
        assert forall|i: int| 0 <= i < lhs.len() implies lhs[i] == rhs[i] by {
            if i == 0 {
                assert(lhs[0] == s[0]);
                assert(rhs[0] == s.take(j)[0]);
            } else {
                assert(lhs[i] == split_at(df, a, j0)[i - 1]);
                if i - 1 < j0 {
                    assert(split_at(df, a, j0)[i - 1] == df.take(j0)[i - 1]);
                    assert(df.take(j0)[i - 1] == df[i - 1]);
                    assert(df[i - 1] == s[i]);
                    assert(rhs[i] == s.take(j)[i]);
                } else if i - 1 == j0 {
                    assert(split_at(df, a, j0)[i - 1] == a);
                    assert(rhs[j] == a);
                } else {
                    assert(split_at(df, a, j0)[i - 1] == df.skip(j0)[i - 1 - j0 - 1]);
                    assert(df.skip(j0)[i - 1 - j0 - 1] == df[i - 2]);
                    assert(df[i - 2] == s[i - 1]);
                    assert(rhs[i] == s.skip(j)[i - j - 1]);
                    assert(s.skip(j)[i - j - 1] == s[i - 1]);
                }
            }
        }
        assert(lhs =~= rhs);
        assert forall|i: int| 0 <= i < j implies entry_before(#[trigger] s[i], a) by {
            if i > 0 {
                assert(s[i] == df[i - 1]);
            }
        }
        assert(j < s.len() ==> !entry_before(s[j], a)) by {
            if j < s.len() {
                assert(s[j] == df[j0]);
            }
        }
        assert(entry_split_pos(s, a, j) && insert_entry(s, a) == split_at(s, a, j));
    }
}

/// The split position is unique, so inserting at it is exactly
/// `insert_entry`.
pub proof fn lemma_insert_entry_at(s: Seq<TimeEntryModel>, a: TimeEntryModel, j: int)
    requires
        entry_split_pos(s, a, j),
    ensures
        insert_entry(s, a) == split_at(s, a, j),
{
    lemma_insert_entry_parts(s, a);
    let j0 = choose|j0: int|
        #[trigger] entry_split_pos(s, a, j0) && insert_entry(s, a) == split_at(s, a, j0);
    if j0 < j {
        assert(entry_before(s[j0], a));
        assert(false);
    } else if j < j0 {
        assert(entry_before(s[j], a));
        assert(false);
    }
}

/// Inserting a time entry with a fresh id keeps the log in replay order.
pub proof fn lemma_insert_entry_ordered(s: Seq<TimeEntryModel>, a: TimeEntryModel)
    requires
        entries_ordered(s),
        forall|i: int| 0 <= i < s.len() ==> (#[trigger] s[i]).id != a.id,
    ensures
        entries_ordered(insert_entry(s, a)),
{
    lemma_insert_entry_parts(s, a);
    let j = choose|j: int|
        #[trigger] entry_split_pos(s, a, j) && insert_entry(s, a) == split_at(s, a, j);
    let t = insert_entry(s, a);
    assert(t.len() == s.len() + 1);
    assert forall|i: int| 0 <= i < t.len() implies t[i] == (if i < j {
        s[i]
    } else if i == j {
        a
    } else {
        s[i - 1]
    }) by {
        if i < j {
            assert(t[i] == s.take(j)[i]);
        } else if i == j {
            assert(t[j] == a);
        } else {
            assert(t[i] == s.skip(j)[i - j - 1]);
        }
    }
    assert forall|x: int, y: int| 0 <= x < y < t.len() implies entry_before(t[x], t[y]) by {
        if y == j {
            assert(entry_before(s[x], a));
        } else if x == j {
            assert(!entry_before(s[j], a));
            assert(s[j].id != a.id);
            assert(entry_before(a, s[j]));
            if y - 1 > j {
                assert(entry_before(s[j], s[y - 1]));
            }
            assert(entry_before(a, s[y - 1]));
        } else if x < j && y > j {
            assert(entry_before(s[x], s[y - 1]));
        } else if y < j {
            assert(entry_before(s[x], s[y]));
        } else {
            assert(entry_before(s[x - 1], s[y - 1]));
        }
    }
}

/// How `split_at` places the records of the split log.
pub proof fn lemma_split_at_parts<A>(s: Seq<A>, a: A, j: int)
    requires
        0 <= j <= s.len(),
    ensures
        split_at(s, a, j).len() == s.len() + 1,
        forall|k: int| 0 <= k < j ==> #[trigger] split_at(s, a, j)[k] == s[k],
        split_at(s, a, j)[j] == a,
        forall|k: int| j < k < s.len() + 1 ==> #[trigger] split_at(s, a, j)[k] == s[k - 1],
{
    assert forall|k: int| 0 <= k < j implies #[trigger] split_at(s, a, j)[k] == s[k] by {
        assert(split_at(s, a, j)[k] == s.take(j)[k]);
    }
    assert forall|k: int| j < k < s.len() + 1 implies #[trigger] split_at(s, a, j)[k] == s[k
        - 1] by {
        assert(split_at(s, a, j)[k] == s.skip(j)[k - j - 1]);
    }
}

/// Every record of a filtered log stands in the log it was filtered from.
pub broadcast proof fn lemma_filter_subset<A>(s: Seq<A>, p: spec_fn(A) -> bool, x: A)
    ensures
        #[trigger] s.filter(p).contains(x) ==> s.contains(x),
    decreases s.len(),
{
    reveal(Seq::filter);
    if s.len() != 0 && s.filter(p).contains(x) {
        let df = s.drop_last();
        lemma_filter_subset(df, p, x);
        let k = choose|k: int| 0 <= k < s.filter(p).len() && s.filter(p)[k] == x;
        if p(s.last()) {
            assert(s.filter(p) == df.filter(p).push(s.last()));
            if k < df.filter(p).len() {
                assert(df.filter(p)[k] == x);
                assert(df.filter(p).contains(x));
                assert(df.contains(x));
                let i = choose|i: int| 0 <= i < df.len() && df[i] == x;
                assert(s[i] == x);
            } else {
                assert(x == s.last());
                assert(s[s.len() - 1] == x);
            }
        } else {
            assert(s.filter(p) == df.filter(p));
            assert(df.filter(p).contains(x));
            assert(df.contains(x));
            let i = choose|i: int| 0 <= i < df.len() && df[i] == x;
            assert(s[i] == x);
        }
    }
}

} // verus!
