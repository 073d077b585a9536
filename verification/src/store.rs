//! The record store: three append-only logs held in memory, with the
//! create, read and delete operations the tracker is built from.
//!
//! The adjustment and time entry logs are kept in replay order (creation
//! time, ties by id), ids are unique and handed out from per-log
//! counters, and every adjustment references an existing adjustment
//! type; `StoreView::wf` states all of this and every operation
//! preserves it.

use crate::models::{
    adjs_view, entries_view, lemma_adjs_view_index, lemma_adjs_view_len, lemma_entries_view_index,
    lemma_entries_view_len, lemma_types_view_index, lemma_types_view_len, types_view, Adjustment,
    AdjustmentModel, AdjustmentType, AdjustmentTypeModel, TimeEntry, TimeEntryModel,
};
use crate::digits::dec_chars;
use crate::digits::u64_to_dec;
use crate::order::{
    adj_before, adj_split_pos, adjs_ordered, entries_ordered, entry_before, entry_split_pos,
    insert_adj, insert_entry, lemma_filter_subset, lemma_insert_adj_at, lemma_insert_adj_ordered,
    lemma_insert_entry_at, lemma_insert_entry_ordered, lemma_split_at_parts, split_at,
};
use std::collections::HashMap;
use vstd::prelude::*;

verus! {

broadcast use {
    vstd::seq_lib::group_filter_ensures,
    lemma_filter_subset,
    lemma_types_view_len,
    lemma_types_view_index,
    lemma_adjs_view_len,
    lemma_adjs_view_index,
    lemma_entries_view_len,
    lemma_entries_view_index,
};

/// The spec-level contents of a store.
pub struct StoreView {
    pub adjustment_types: Seq<AdjustmentTypeModel>,
    pub adjustments: Seq<AdjustmentModel>,
    pub time_entries: Seq<TimeEntryModel>,
    pub next_adjustment_type_id: u64,
    pub next_adjustment_id: u64,
    pub next_time_entry_id: u64,
    pub now: i64,
}

/// The adjustment type log holds a record with this id.
pub open spec fn has_type(types: Seq<AdjustmentTypeModel>, id: u64) -> bool {
    exists|i: int| 0 <= i < types.len() && types[i].id == id
}

/// The index of the adjustment type with this id.
pub open spec fn type_index(types: Seq<AdjustmentTypeModel>, id: u64) -> int {
    choose|i: int| 0 <= i < types.len() && types[i].id == id
}

/// The adjustment type with this id; meaningful when `has_type` holds.
pub open spec fn type_with_id(types: Seq<AdjustmentTypeModel>, id: u64) -> AdjustmentTypeModel {
    types[type_index(types, id)]
}

/// The adjustment log holds a record with this id.
pub open spec fn has_adjustment(adjs: Seq<AdjustmentModel>, id: u64) -> bool {
    exists|i: int| 0 <= i < adjs.len() && adjs[i].id == id
}

/// The index of the adjustment with this id.
pub open spec fn adjustment_index(adjs: Seq<AdjustmentModel>, id: u64) -> int {
    choose|i: int| 0 <= i < adjs.len() && adjs[i].id == id
}

/// The adjustment with this id; meaningful when `has_adjustment` holds.
pub open spec fn adjustment_with_id(adjs: Seq<AdjustmentModel>, id: u64) -> AdjustmentModel {
    adjs[adjustment_index(adjs, id)]
}

/// The time entry log holds a record with this id.
pub open spec fn has_entry(entries: Seq<TimeEntryModel>, id: u64) -> bool {
    exists|i: int| 0 <= i < entries.len() && entries[i].id == id
}

/// The index of the time entry with this id.
pub open spec fn entry_index(entries: Seq<TimeEntryModel>, id: u64) -> int {
    choose|i: int| 0 <= i < entries.len() && entries[i].id == id
}

/// The time entry with this id; meaningful when `has_entry` holds.
pub open spec fn entry_with_id(entries: Seq<TimeEntryModel>, id: u64) -> TimeEntryModel {
    entries[entry_index(entries, id)]
}

/// Some adjustment applies the adjustment type with this id.
pub open spec fn references_type(adjs: Seq<AdjustmentModel>, id: u64) -> bool {
    exists|i: int| 0 <= i < adjs.len() && adjs[i].adjustment_type_id == id
}

/// How many records a listing returns: the requested limit, ten when
/// none is given, capped by what is available.
pub open spec fn limit_count(limit: Option<u8>, available: int) -> int {
    let l: int = match limit {
        None => 10,
        Some(n) => n as int,
    };
    if l <= available {
        l
    } else {
        available
    }
}

/// A filter for the adjustment listing: an optional cap on the number of
/// records returned (ten when missing), an optional adjustment type, and
/// an optional inclusive lower bound on creation time.
pub struct AdjustmentQueryFilter {
    pub limit: Option<u8>,
    pub atid: Option<u64>,
    pub since: Option<i64>,
}

impl Default for AdjustmentQueryFilter {
    /// The filter that selects everything, with the default cap of ten.
    fn default() -> (r: Self)
        ensures
            r.limit is None,
            r.atid is None,
            r.since is None,
    {
        AdjustmentQueryFilter { limit: None, atid: None, since: None }
    }
}

/// The adjustment meets the optional type and creation time bounds.
pub open spec fn matches_filter(a: AdjustmentModel, atid: Option<u64>, since: Option<i64>) -> bool {
    &&& match atid {
        None => true,
        Some(t) => a.adjustment_type_id == t,
    }
    &&& match since {
        None => true,
        Some(c) => a.created >= c,
    }
}

/// The adjustments that meet the bounds, in log order.
pub open spec fn selected_adjs(
    adjs: Seq<AdjustmentModel>,
    atid: Option<u64>,
    since: Option<i64>,
) -> Seq<AdjustmentModel> {
    adjs.filter(|a: AdjustmentModel| matches_filter(a, atid, since))
}

/// How one more record of the log changes the selection.
pub proof fn lemma_selected_adjs_step(
    adjs: Seq<AdjustmentModel>,
    atid: Option<u64>,
    since: Option<i64>,
    i: int,
)
    requires
        0 <= i < adjs.len(),
    ensures
        selected_adjs(adjs.take(i + 1), atid, since) == (if matches_filter(adjs[i], atid, since) {
            selected_adjs(adjs.take(i), atid, since).push(adjs[i])
        } else {
            selected_adjs(adjs.take(i), atid, since)
        }),
{
    reveal(Seq::filter);
    assert(adjs.take(i + 1).drop_last() =~= adjs.take(i));
    assert(adjs.take(i + 1).last() == adjs[i]);
}

/// The message with which deleting a still-referenced adjustment type is
/// refused.
pub open spec fn type_in_use_msg(id: u64) -> Seq<char> {
    "There are still adjustments referencing adjustment type "@.add(dec_chars(id as nat))
}

impl StoreView {
    /// Well-formedness: unique ids below the id counters, both dated
    /// logs in replay order, and no adjustment without its type.
    pub open spec fn wf(self) -> bool {
        &&& forall|i: int|
            0 <= i < self.adjustment_types.len() ==> (#[trigger] self.adjustment_types[i]).id
                < self.next_adjustment_type_id
        &&& forall|i: int, j: int|
            0 <= i < j < self.adjustment_types.len() ==> (#[trigger] self.adjustment_types[i]).id
                != (#[trigger] self.adjustment_types[j]).id
        &&& forall|i: int|
            0 <= i < self.adjustments.len() ==> (#[trigger] self.adjustments[i]).id
                < self.next_adjustment_id
        &&& forall|i: int, j: int|
            0 <= i < j < self.adjustments.len() ==> (#[trigger] self.adjustments[i]).id
                != (#[trigger] self.adjustments[j]).id
        &&& adjs_ordered(self.adjustments)
        &&& forall|i: int|
            0 <= i < self.adjustments.len() ==> has_type(
                self.adjustment_types,
                (#[trigger] self.adjustments[i]).adjustment_type_id,
            )
        &&& forall|i: int|
            0 <= i < self.time_entries.len() ==> (#[trigger] self.time_entries[i]).id
                < self.next_time_entry_id
        &&& forall|i: int, j: int|
            0 <= i < j < self.time_entries.len() ==> (#[trigger] self.time_entries[i]).id
                != (#[trigger] self.time_entries[j]).id
        &&& entries_ordered(self.time_entries)
    }
}

/// The record store. Everything it holds is plain data; the surrounding
/// application decides where the contents come from and go to.
pub struct Store {
    pub adjustment_types: Vec<AdjustmentType>,
    pub adjustments: Vec<Adjustment>,
    pub time_entries: Vec<TimeEntry>,
    pub next_adjustment_type_id: u64,
    pub next_adjustment_id: u64,
    pub next_time_entry_id: u64,
    pub now: i64,
}

impl View for Store {
    type V = StoreView;

    open spec fn view(&self) -> StoreView {
        StoreView {
            adjustment_types: types_view(self.adjustment_types@),
            adjustments: adjs_view(self.adjustments@),
            time_entries: entries_view(self.time_entries@),
            next_adjustment_type_id: self.next_adjustment_type_id,
            next_adjustment_id: self.next_adjustment_id,
            next_time_entry_id: self.next_time_entry_id,
            now: self.now,
        }
    }
}

impl Store {
    /// An empty store. Ids start at one, as the usual auto-increment
    /// column does; the insertion clock starts at zero.
    pub fn new() -> (s: Store)
        ensures
            s@.wf(),
            s@.adjustment_types.len() == 0,
            s@.adjustments.len() == 0,
            s@.time_entries.len() == 0,
            s@.next_adjustment_type_id == 1,
            s@.next_adjustment_id == 1,
            s@.next_time_entry_id == 1,
            s@.now == 0,
    {
        let s = Store {
            adjustment_types: Vec::new(),
            adjustments: Vec::new(),
            time_entries: Vec::new(),
            next_adjustment_type_id: 1,
            next_adjustment_id: 1,
            next_time_entry_id: 1,
            now: 0,
        };
        proof {
            assert(s@.adjustment_types =~= Seq::<AdjustmentTypeModel>::empty());
            assert(s@.adjustments =~= Seq::<AdjustmentModel>::empty());
            assert(s@.time_entries =~= Seq::<TimeEntryModel>::empty());
        }
        s
    }

    /// Sets the moment that a record created "now" is stamped with.
    pub fn set_now(&mut self, now: i64)
        ensures
            final(self)@ == (StoreView { now, ..old(self)@ }),
    {
        self.now = now;
        proof {
            assert(final(self)@ =~= (StoreView { now, ..old(self)@ }));
        }
    }

    /// Returns the adjustment type with the given id, or nothing when no
    /// record has it.
    pub fn get_adjustment_type(&self, atid: u64) -> (r: Option<AdjustmentType>)
        requires
            self@.wf(),
        ensures
            match r {
                Some(t) => has_type(self@.adjustment_types, atid) && t@ == type_with_id(
                    self@.adjustment_types,
                    atid,
                ),
                None => !has_type(self@.adjustment_types, atid),
            },
    {
        let n = self.adjustment_types.len();
        let mut i: usize = 0;
        while i < n
            invariant
                n == self.adjustment_types.len(),
                0 <= i <= n,
                self@.wf(),
                forall|k: int| 0 <= k < i ==> (#[trigger] self@.adjustment_types[k]).id != atid,
            decreases n - i,
        {
            if self.adjustment_types[i].id == atid {
                let t = self.adjustment_types[i].clone();
                proof {
                    assert(self@.adjustment_types[i as int].id == atid);
                    let j = type_index(self@.adjustment_types, atid);
                    assert(0 <= j < self@.adjustment_types.len() && self@.adjustment_types[j].id
                        == atid);
                    assert(j == i as int);
                }
                return Some(t);
            }
            i += 1;
        }
        None
    }

    /// Returns the first `limit` adjustment types (ten when no limit is
    /// given), in insertion order.
    pub fn get_adjustment_types(&self, limit: Option<u8>) -> (r: Vec<AdjustmentType>)
        ensures
            types_view(r@) == self@.adjustment_types.take(
                limit_count(limit, self@.adjustment_types.len() as int),
            ),
    {
        let l: usize = match limit {
            None => 10,
            Some(n) => n as usize,
        };
        let n = if l <= self.adjustment_types.len() {
            l
        } else {
            self.adjustment_types.len()
        };
        proof {
            assert(n as int == limit_count(limit, self@.adjustment_types.len() as int));
        }
        let mut r: Vec<AdjustmentType> = Vec::new();
        let mut i: usize = 0;
        while i < n
            invariant
                n <= self.adjustment_types.len(),
                0 <= i <= n,
                types_view(r@) =~= self@.adjustment_types.take(i as int),
            decreases n - i,
        {
            let t = self.adjustment_types[i].clone();
            r.push(t);
            proof {
                assert(types_view(r@) =~= self@.adjustment_types.take(i as int + 1));
            }
            i += 1;
        }
        r
    }

    /// Creates an adjustment type and returns the number of records
    /// inserted, which is always one.
    pub fn add_adjustment_type(&mut self, description: String, adjustment: i8) -> (r: usize)
        requires
            old(self)@.wf(),
            old(self)@.next_adjustment_type_id < u64::MAX,
        ensures
            r == 1,
            final(self)@.wf(),
            final(self)@.adjustment_types == old(self)@.adjustment_types.push(
                (AdjustmentTypeModel {
                    id: old(self)@.next_adjustment_type_id,
                    description: description@,
                    adjustment,
                }),
            ),
            final(self)@.adjustments == old(self)@.adjustments,
            final(self)@.time_entries == old(self)@.time_entries,
            final(self)@.next_adjustment_type_id == old(self)@.next_adjustment_type_id + 1,
            final(self)@.next_adjustment_id == old(self)@.next_adjustment_id,
            final(self)@.next_time_entry_id == old(self)@.next_time_entry_id,
            final(self)@.now == old(self)@.now,
    {
        let id = self.next_adjustment_type_id;
        let ghost desc = description@;
        self.adjustment_types.push(AdjustmentType { id, description, adjustment });
        self.next_adjustment_type_id = id + 1;
        proof {
            let new_rec = AdjustmentTypeModel { id, description: desc, adjustment };
            assert(self@.adjustment_types =~= old(self)@.adjustment_types.push(new_rec));
            assert(self@.adjustments =~= old(self)@.adjustments);
            assert(self@.time_entries =~= old(self)@.time_entries);
            let types = self@.adjustment_types;
            assert forall|i: int|
                0 <= i < self@.adjustments.len() implies has_type(
                types,
                (#[trigger] self@.adjustments[i]).adjustment_type_id,
            ) by {
                let tid = self@.adjustments[i].adjustment_type_id;
                assert(has_type(old(self)@.adjustment_types, tid));
                let j = choose|j: int|
                    0 <= j < old(self)@.adjustment_types.len() && old(
                        self,
                    )@.adjustment_types[j].id == tid;
                assert(types[j].id == tid);
            }
        }
        1
    }

    /// Returns the adjustments that meet the filter, newest first (ties
    /// broken towards the record inserted later), capped by the
    /// filter's limit, ten when it gives none.
    pub fn get_adjustments(&self, filter: &AdjustmentQueryFilter) -> (r: Vec<Adjustment>)
        ensures
            adjs_view(r@) == ({
                let sel = selected_adjs(self@.adjustments, filter.atid, filter.since);
                sel.reverse().take(limit_count(filter.limit, sel.len() as int))
            }),
    {
        let ghost log = self@.adjustments;
        let n = self.adjustments.len();
        let mut sel: Vec<Adjustment> = Vec::new();
        let mut i: usize = 0;
        while i < n
            invariant
                n == self.adjustments.len(),
                0 <= i <= n,
                log == self@.adjustments,
                adjs_view(sel@) =~= selected_adjs(log.take(i as int), filter.atid, filter.since),
            decreases n - i,
        {
            let a = &self.adjustments[i];
            let keep = (match filter.atid {
                Some(t) => a.adjustment_type_id == t,
                None => true,
            }) && (match filter.since {
                Some(c) => a.created >= c,
                None => true,
            });
            proof {
                assert(keep == matches_filter(log[i as int], filter.atid, filter.since));
                lemma_selected_adjs_step(log, filter.atid, filter.since, i as int);
            }
            if keep {
                let c = a.clone();
                sel.push(c);
            }
            proof {
                assert(adjs_view(sel@) =~= selected_adjs(
                    log.take(i as int + 1),
                    filter.atid,
                    filter.since,
                ));
            }
            i += 1;
        }
        proof {
            assert(log.take(n as int) =~= log);
        }
        let ghost selv = selected_adjs(log, filter.atid, filter.since);
        let l: usize = match filter.limit {
            None => 10,
            Some(m) => m as usize,
        };
        let mut r: Vec<Adjustment> = Vec::new();
        let mut left = sel.len();
        while left > 0 && r.len() < l
            invariant
                0 <= left <= sel.len(),
                adjs_view(sel@) == selv,
                sel.len() == selv.len(),
                r.len() == sel.len() - left,
                r.len() <= l,
                adjs_view(r@) =~= selv.reverse().take(r.len() as int),
            decreases left,
        {
            left -= 1;
            let c = sel[left].clone();
            r.push(c);
            proof {
                assert(selv.reverse()[r.len() - 1] == selv[left as int]);
                assert(adjs_view(r@) =~= selv.reverse().take(r.len() as int));
            }
        }
        proof {
            assert(r.len() as int == limit_count(filter.limit, selv.len() as int));
        }
        r
    }

    /// Returns the adjustment with the given id, or nothing when no
    /// record has it.
    pub fn get_adjustment(&self, id: u64) -> (r: Option<Adjustment>)
        requires
            self@.wf(),
        ensures
            match r {
                Some(a) => has_adjustment(self@.adjustments, id) && a@ == adjustment_with_id(
                    self@.adjustments,
                    id,
                ),
                None => !has_adjustment(self@.adjustments, id),
            },
    {
        let n = self.adjustments.len();
        let mut i: usize = 0;
        while i < n
            invariant
                n == self.adjustments.len(),
                0 <= i <= n,
                self@.wf(),
                forall|k: int| 0 <= k < i ==> (#[trigger] self@.adjustments[k]).id != id,
            decreases n - i,
        {
            if self.adjustments[i].id == id {
                let a = self.adjustments[i].clone();
                proof {
                    assert(self@.adjustments[i as int].id == id);
                    let j = adjustment_index(self@.adjustments, id);
                    assert(0 <= j < self@.adjustments.len() && self@.adjustments[j].id == id);
                    assert(j == i as int);
                }
                return Some(a);
            }
            i += 1;
        }
        None
    }

    /// Deletes the adjustment with the given id and returns the number
    /// of records removed: one when it existed, zero otherwise.
    #[verifier::loop_isolation(false)]
    pub fn delete_adjustment(&mut self, id: u64) -> (r: usize)
        requires
            old(self)@.wf(),
        ensures
            final(self)@.wf(),
            has_adjustment(old(self)@.adjustments, id) ==> r == 1 && final(self)@.adjustments
                == old(self)@.adjustments.remove(adjustment_index(old(self)@.adjustments, id)),
            !has_adjustment(old(self)@.adjustments, id) ==> r == 0 && final(self)@.adjustments
                == old(self)@.adjustments,
            final(self)@.adjustment_types == old(self)@.adjustment_types,
            final(self)@.time_entries == old(self)@.time_entries,
            final(self)@.next_adjustment_type_id == old(self)@.next_adjustment_type_id,
            final(self)@.next_adjustment_id == old(self)@.next_adjustment_id,
            final(self)@.next_time_entry_id == old(self)@.next_time_entry_id,
            final(self)@.now == old(self)@.now,
    {
        let ghost log = old(self)@.adjustments;
        let n = self.adjustments.len();
        let mut i: usize = 0;
        while i < n
            invariant
                n == self.adjustments.len(),
                0 <= i <= n,
                self@.wf(),
                self.adjustments@ == old(self).adjustments@,
                self.adjustment_types@ == old(self).adjustment_types@,
                self.time_entries@ == old(self).time_entries@,
                self.next_adjustment_type_id == old(self).next_adjustment_type_id,
                self.next_adjustment_id == old(self).next_adjustment_id,
                self.next_time_entry_id == old(self).next_time_entry_id,
                self.now == old(self).now,
                forall|k: int| 0 <= k < i ==> (#[trigger] self@.adjustments[k]).id != id,
            decreases n - i,
        {
            if self.adjustments[i].id == id {
                let ghost j = i as int;
                self.adjustments.remove(i);
                proof {
                    assert(log[j].id == id);
                    assert(adjustment_index(log, id) == j);
                    old(self).adjustments@.remove_ensures(j);
                    log.remove_ensures(j);
                    assert(self.adjustments@ == old(self).adjustments@.remove(j));
                    assert(adjs_view(self.adjustments@) =~= log.remove(j));
                    assert(self@.adjustment_types =~= old(self)@.adjustment_types);
                    assert(self@.time_entries =~= old(self)@.time_entries);
                    let t = self@.adjustments;
                    assert forall|x: int, y: int| 0 <= x < y < t.len() implies adj_before(
                        t[x],
                        t[y],
                    ) by {
                        if y < j {
                            assert(adj_before(log[x], log[y]));
                        } else if x < j {
                            assert(adj_before(log[x], log[y + 1]));
                        } else {
                            assert(adj_before(log[x + 1], log[y + 1]));
                        }
                    }
                }
                return 1;
            }
            i += 1;
        }
        proof {
            assert(!has_adjustment(old(self)@.adjustments, id));
        }
        0
    }

    /// Creates an adjustment applying the given adjustment type, with an
    /// optional comment, stamped with the given creation time or with
    /// the store's current moment when none is given. Returns the
    /// number of records inserted, which is always one.
    #[verifier::loop_isolation(false)]
    pub fn add_adjustment(
        &mut self,
        adjustment_type: &AdjustmentType,
        comment: &Option<String>,
        created: &Option<i64>,
    ) -> (r: usize)
        requires
            old(self)@.wf(),
            has_type(old(self)@.adjustment_types, adjustment_type.id),
            old(self)@.next_adjustment_id < u64::MAX,
        ensures
            r == 1,
            final(self)@.wf(),
            final(self)@.adjustments == insert_adj(
                old(self)@.adjustments,
                (AdjustmentModel {
                    id: old(self)@.next_adjustment_id,
                    adjustment_type_id: adjustment_type.id,
                    created: match *created {
                        Some(t) => t,
                        None => old(self)@.now,
                    },
                    comment: match *comment {
                        Some(c) => Some(c@),
                        None => None,
                    },
                }),
            ),
            final(self)@.adjustment_types == old(self)@.adjustment_types,
            final(self)@.time_entries == old(self)@.time_entries,
            final(self)@.next_adjustment_type_id == old(self)@.next_adjustment_type_id,
            final(self)@.next_adjustment_id == old(self)@.next_adjustment_id + 1,
            final(self)@.next_time_entry_id == old(self)@.next_time_entry_id,
            final(self)@.now == old(self)@.now,
    {
        let ghost log = old(self)@.adjustments;
        let id = self.next_adjustment_id;
        let created_at: i64 = match created {
            Some(t) => *t,
            None => self.now,
        };
        let rec = Adjustment {
            id,
            adjustment_type_id: adjustment_type.id,
            created: created_at,
            comment: match comment {
                Some(c) => Some(c.clone()),
                None => None,
            },
        };
        let ghost recv = rec@;
        let n = self.adjustments.len();
        let mut j: usize = 0;
        while j < n && (self.adjustments[j].created < created_at || (self.adjustments[j].created
            == created_at && self.adjustments[j].id < id))
            invariant
                n == self.adjustments.len(),
                0 <= j <= n,
                self.adjustments@ == old(self).adjustments@,
                self.adjustment_types@ == old(self).adjustment_types@,
                self.time_entries@ == old(self).time_entries@,
                self.next_adjustment_type_id == old(self).next_adjustment_type_id,
                self.next_adjustment_id == old(self).next_adjustment_id,
                self.next_time_entry_id == old(self).next_time_entry_id,
                self.now == old(self).now,
                forall|k: int| 0 <= k < j ==> adj_before(#[trigger] log[k], recv),
            decreases n - j,
        {
            proof {
                assert(adj_before(log[j as int], recv));
            }
            j += 1;
        }
        proof {
            assert(adj_split_pos(log, recv, j as int));
        }
        self.adjustments.insert(j, rec);
        self.next_adjustment_id = id + 1;
        proof {
            lemma_insert_adj_at(log, recv, j as int);
            lemma_split_at_parts(log, recv, j as int);
            assert(self.adjustments@ == old(self).adjustments@.insert(j as int, rec));
            assert(adjs_view(self.adjustments@) =~= split_at(log, recv, j as int)) by {
                assert forall|k: int|
                    0 <= k < self.adjustments@.len() implies self.adjustments@[k]@ == split_at(
                    log,
                    recv,
                    j as int,
                )[k] by {
                    if k < j as int {
                        assert(self.adjustments@[k] == old(self).adjustments@[k]);
                    } else if k == j as int {
                        assert(self.adjustments@[k] == rec);
                    } else {
                        assert(self.adjustments@[k] == old(self).adjustments@[k - 1]);
                    }
                }
            }
            assert(self@.adjustments == insert_adj(log, recv));
            assert(self@.adjustment_types =~= old(self)@.adjustment_types);
            assert(self@.time_entries =~= old(self)@.time_entries);
            assert forall|i: int| 0 <= i < log.len() implies (#[trigger] log[i]).id != recv.id by {
                assert(log[i].id < old(self)@.next_adjustment_id);
            }
            lemma_insert_adj_ordered(log, recv);
            let t = self@.adjustments;
            assert forall|i: int|
                0 <= i < t.len() implies (#[trigger] t[i]).id < self@.next_adjustment_id by {
                if i < j as int {
                    assert(t[i] == log[i]);
                } else if i > j as int {
                    assert(t[i] == log[i - 1]);
                }
            }
            assert forall|x: int, y: int| 0 <= x < y < t.len() implies (#[trigger] t[x]).id != (
            #[trigger] t[y]).id by {
                if y == j as int {
                    assert(t[x] == log[x] && t[x].id < recv.id);
                } else if x == j as int {
                    assert(t[y] == log[y - 1] && t[y].id < recv.id);
                } else if x < j as int && y > j as int {
                    assert(t[x] == log[x] && t[y] == log[y - 1]);
                } else if y < j as int {
                    assert(t[x] == log[x] && t[y] == log[y]);
                } else {
                    assert(t[x] == log[x - 1] && t[y] == log[y - 1]);
                }
            }
            assert forall|i: int|
                0 <= i < t.len() implies has_type(
                self@.adjustment_types,
                (#[trigger] t[i]).adjustment_type_id,
            ) by {
                if i < j as int {
                    assert(t[i] == log[i]);
                } else if i == j as int {
                    assert(t[i] == recv);
                } else {
                    assert(t[i] == log[i - 1]);
                }
            }
        }
        1
    }

    /// Deletes the adjustment type with the given id. While any
    /// adjustment still references it the deletion is refused with a
    /// message naming the id; otherwise the number of records removed is
    /// returned: one when the type existed, zero otherwise.
    #[verifier::loop_isolation(false)]
    pub fn delete_adjustment_type(&mut self, id: u64) -> (r: Result<usize, String>)
        requires
            old(self)@.wf(),
        ensures
            final(self)@.wf(),
            match r {
                Err(e) => references_type(old(self)@.adjustments, id) && e@ == type_in_use_msg(id)
                    && final(self)@ == old(self)@,
                Ok(k) => {
                    &&& !references_type(old(self)@.adjustments, id)
                    &&& has_type(old(self)@.adjustment_types, id) ==> k == 1
                        && final(self)@.adjustment_types == old(self)@.adjustment_types.remove(
                        type_index(old(self)@.adjustment_types, id),
                    )
                    &&& !has_type(old(self)@.adjustment_types, id) ==> k == 0 && final(self)@
                        == old(self)@
                    &&& final(self)@.adjustments == old(self)@.adjustments
                    &&& final(self)@.time_entries == old(self)@.time_entries
                    &&& final(self)@.next_adjustment_type_id == old(self)@.next_adjustment_type_id
                    &&& final(self)@.next_adjustment_id == old(self)@.next_adjustment_id
                    &&& final(self)@.next_time_entry_id == old(self)@.next_time_entry_id
                    &&& final(self)@.now == old(self)@.now
                },
            },
    {
        let probe = AdjustmentQueryFilter { limit: None, atid: Some(id), since: None };
        let referencing = self.get_adjustments(&probe);
        let ghost sel = selected_adjs(self@.adjustments, Some(id), None);
        if referencing.len() > 0 {
            proof {
                assert(sel.len() > 0);
                assert(sel.contains(sel[0]));
                assert(self@.adjustments.contains(sel[0]));
                let k = choose|k: int|
                    0 <= k < self@.adjustments.len() && self@.adjustments[k] == sel[0];
                assert(matches_filter(sel[0], Some(id), None));
                assert(self@.adjustments[k].adjustment_type_id == id);
            }
            let mut msg = String::from_str(
                "There are still adjustments referencing adjustment type ",
            );
            let digits = u64_to_dec(id);
            msg.append(digits.as_str());
            return Err(msg);
        }
        proof {
            assert(limit_count(None, sel.len() as int) == 0);
            assert(sel.len() == 0);
            assert(!references_type(self@.adjustments, id)) by {
                if references_type(self@.adjustments, id) {
                    let k = choose|k: int|
                        0 <= k < self@.adjustments.len()
                            && self@.adjustments[k].adjustment_type_id == id;
                    assert(matches_filter(self@.adjustments[k], Some(id), None));
                    assert(sel.contains(self@.adjustments[k]));
                }
            }
        }
        let ghost types = old(self)@.adjustment_types;
        let n = self.adjustment_types.len();
        let mut i: usize = 0;
        while i < n
            invariant
                n == self.adjustment_types.len(),
                0 <= i <= n,
                self@.wf(),
                self.adjustments@ == old(self).adjustments@,
                self.adjustment_types@ == old(self).adjustment_types@,
                self.time_entries@ == old(self).time_entries@,
                self.next_adjustment_type_id == old(self).next_adjustment_type_id,
                self.next_adjustment_id == old(self).next_adjustment_id,
                self.next_time_entry_id == old(self).next_time_entry_id,
                self.now == old(self).now,
                forall|k: int| 0 <= k < i ==> (#[trigger] self@.adjustment_types[k]).id != id,
            decreases n - i,
        {
            if self.adjustment_types[i].id == id {
                let ghost j = i as int;
                self.adjustment_types.remove(i);
                proof {
                    assert(types[j].id == id);
                    assert(type_index(types, id) == j);
                    old(self).adjustment_types@.remove_ensures(j);
                    types.remove_ensures(j);
                    assert(self.adjustment_types@ == old(self).adjustment_types@.remove(j));
                    assert(types_view(self.adjustment_types@) =~= types.remove(j));
                    assert(self@.adjustments =~= old(self)@.adjustments);
                    assert(self@.time_entries =~= old(self)@.time_entries);
                    assert forall|x: int|
                        0 <= x < self@.adjustments.len() implies has_type(
                        self@.adjustment_types,
                        (#[trigger] self@.adjustments[x]).adjustment_type_id,
                    ) by {
                        let tid = self@.adjustments[x].adjustment_type_id;
                        assert(has_type(types, tid));
                        let k = choose|k: int| 0 <= k < types.len() && types[k].id == tid;
                        assert(tid != id);
                        if k < j {
                            assert(self@.adjustment_types[k].id == tid);
                        } else {
                            assert(k != j);
                            assert(self@.adjustment_types[k - 1].id == tid);
                        }
                    }
                }
                return Ok(1);
            }
            i += 1;
        }
        proof {
            assert(!has_type(old(self)@.adjustment_types, id));
        }
        Ok(0)
    }

    /// Returns the current time entry: the one with the greatest
    /// creation time (ties broken towards the record inserted later), or
    /// nothing while the log is empty.
    pub fn get_current_time_entry(&self) -> (r: Option<TimeEntry>)
        requires
            self@.wf(),
        ensures
            match r {
                Some(e) => self@.time_entries.len() > 0 && e@ == self@.time_entries.last()
                    && forall|i: int|
                    0 <= i < self@.time_entries.len()
                        ==> (#[trigger] self@.time_entries[i]).created <= e@.created,
                None => self@.time_entries.len() == 0,
            },
    {
        let n = self.time_entries.len();
        if n == 0 {
            return None;
        }
        let e = self.time_entries[n - 1].clone();
        proof {
            assert(e@ == self@.time_entries.last());
            assert forall|i: int|
                0 <= i < self@.time_entries.len() implies (#[trigger] self@.time_entries[i]).created
                <= e@.created by {
                if i < self@.time_entries.len() - 1 {
                    assert(entry_before(self@.time_entries[i], self@.time_entries.last()));
                }
            }
        }
        Some(e)
    }

    /// Returns the first `limit` time entries (ten when no limit is
    /// given), newest first, ties broken towards the record inserted
    /// later.
    pub fn get_time_entries(&self, limit: Option<u8>) -> (r: Vec<TimeEntry>)
        ensures
            entries_view(r@) == self@.time_entries.reverse().take(
                limit_count(limit, self@.time_entries.len() as int),
            ),
    {
        let ghost log = self@.time_entries;
        let l: usize = match limit {
            None => 10,
            Some(m) => m as usize,
        };
        let mut r: Vec<TimeEntry> = Vec::new();
        let mut left = self.time_entries.len();
        while left > 0 && r.len() < l
            invariant
                0 <= left <= self.time_entries.len(),
                log == self@.time_entries,
                log.len() == self.time_entries.len(),
                r.len() == self.time_entries.len() - left,
                r.len() <= l,
                entries_view(r@) =~= log.reverse().take(r.len() as int),
            decreases left,
        {
            left -= 1;
            let c = self.time_entries[left].clone();
            r.push(c);
            proof {
                assert(log.reverse()[r.len() - 1] == log[left as int]);
                assert(entries_view(r@) =~= log.reverse().take(r.len() as int));
            }
        }
        proof {
            assert(r.len() as int == limit_count(limit, log.len() as int));
        }
        r
    }

    /// Creates a time entry holding the given number of minutes, stamped
    /// with the given creation time or with the store's current moment
    /// when none is given. Returns the number of records inserted, which
    /// is always one.
    #[verifier::loop_isolation(false)]
    pub fn add_time_entry(&mut self, time: u16, created: Option<i64>) -> (r: usize)
        requires
            old(self)@.wf(),
            old(self)@.next_time_entry_id < u64::MAX,
        ensures
            r == 1,
            final(self)@.wf(),
            final(self)@.time_entries == insert_entry(
                old(self)@.time_entries,
                (TimeEntryModel {
                    id: old(self)@.next_time_entry_id,
                    time,
                    created: match created {
                        Some(t) => t,
                        None => old(self)@.now,
                    },
                }),
            ),
            final(self)@.adjustment_types == old(self)@.adjustment_types,
            final(self)@.adjustments == old(self)@.adjustments,
            final(self)@.next_adjustment_type_id == old(self)@.next_adjustment_type_id,
            final(self)@.next_adjustment_id == old(self)@.next_adjustment_id,
            final(self)@.next_time_entry_id == old(self)@.next_time_entry_id + 1,
            final(self)@.now == old(self)@.now,
    {
        let ghost log = old(self)@.time_entries;
        let id = self.next_time_entry_id;
        let created_at: i64 = match created {
            Some(t) => t,
            None => self.now,
        };
        let rec = TimeEntry { id, time, created: created_at };
        let ghost recv = rec@;
        let n = self.time_entries.len();
        let mut j: usize = 0;
        while j < n && (self.time_entries[j].created < created_at || (self.time_entries[j].created
            == created_at && self.time_entries[j].id < id))
            invariant
                n == self.time_entries.len(),
                0 <= j <= n,
                self.adjustments@ == old(self).adjustments@,
                self.adjustment_types@ == old(self).adjustment_types@,
                self.time_entries@ == old(self).time_entries@,
                self.next_adjustment_type_id == old(self).next_adjustment_type_id,
                self.next_adjustment_id == old(self).next_adjustment_id,
                self.next_time_entry_id == old(self).next_time_entry_id,
                self.now == old(self).now,
                forall|k: int| 0 <= k < j ==> entry_before(#[trigger] log[k], recv),
            decreases n - j,
        {
            proof {
                assert(entry_before(log[j as int], recv));
            }
            j += 1;
        }
        proof {
            assert(entry_split_pos(log, recv, j as int));
        }
        self.time_entries.insert(j, rec);
        self.next_time_entry_id = id + 1;
        proof {
            lemma_insert_entry_at(log, recv, j as int);
            lemma_split_at_parts(log, recv, j as int);
            assert(self.time_entries@ == old(self).time_entries@.insert(j as int, rec));
            assert(entries_view(self.time_entries@) =~= split_at(log, recv, j as int)) by {
                assert forall|k: int|
                    0 <= k < self.time_entries@.len() implies self.time_entries@[k]@ == split_at(
                    log,
                    recv,
                    j as int,
                )[k] by {
                    if k < j as int {
                        assert(self.time_entries@[k] == old(self).time_entries@[k]);
                    } else if k == j as int {
                        assert(self.time_entries@[k] == rec);
                    } else {
                        assert(self.time_entries@[k] == old(self).time_entries@[k - 1]);
                    }
                }
            }
            assert(self@.time_entries == insert_entry(log, recv));
            assert(self@.adjustment_types =~= old(self)@.adjustment_types);
            assert(self@.adjustments =~= old(self)@.adjustments);
            assert forall|i: int| 0 <= i < log.len() implies (#[trigger] log[i]).id != recv.id by {
                assert(log[i].id < old(self)@.next_time_entry_id);
            }
            lemma_insert_entry_ordered(log, recv);
            let t = self@.time_entries;
            assert forall|i: int|
                0 <= i < t.len() implies (#[trigger] t[i]).id < self@.next_time_entry_id by {
                if i < j as int {
                    assert(t[i] == log[i]);
                } else if i > j as int {
                    assert(t[i] == log[i - 1]);
                }
            }
            assert forall|x: int, y: int| 0 <= x < y < t.len() implies (#[trigger] t[x]).id != (
            #[trigger] t[y]).id by {
                if y == j as int {
                    assert(t[x] == log[x] && t[x].id < recv.id);
                } else if x == j as int {
                    assert(t[y] == log[y - 1] && t[y].id < recv.id);
                } else if x < j as int && y > j as int {
                    assert(t[x] == log[x] && t[y] == log[y - 1]);
                } else if y < j as int {
                    assert(t[x] == log[x] && t[y] == log[y]);
                } else {
                    assert(t[x] == log[x - 1] && t[y] == log[y - 1]);
                }
            }
        }
        1
    }

    /// Returns the time entry with the given id, or nothing when no
    /// record has it.
    pub fn get_time_entry(&self, id: u64) -> (r: Option<TimeEntry>)
        requires
            self@.wf(),
        ensures
            match r {
                Some(e) => has_entry(self@.time_entries, id) && e@ == entry_with_id(
                    self@.time_entries,
                    id,
                ),
                None => !has_entry(self@.time_entries, id),
            },
    {
        let n = self.time_entries.len();
        let mut i: usize = 0;
        while i < n
            invariant
                n == self.time_entries.len(),
                0 <= i <= n,
                self@.wf(),
                forall|k: int| 0 <= k < i ==> (#[trigger] self@.time_entries[k]).id != id,
            decreases n - i,
        {
            if self.time_entries[i].id == id {
                let e = self.time_entries[i].clone();
                proof {
                    assert(self@.time_entries[i as int].id == id);
                    let j = entry_index(self@.time_entries, id);
                    assert(0 <= j < self@.time_entries.len() && self@.time_entries[j].id == id);
                    assert(j == i as int);
                }
                return Some(e);
            }
            i += 1;
        }
        None
    }

    /// Deletes the time entry with the given id and returns the number
    /// of records removed: one when it existed, zero otherwise.
    #[verifier::loop_isolation(false)]
    pub fn delete_time_entry(&mut self, id: u64) -> (r: usize)
        requires
            old(self)@.wf(),
        ensures
            final(self)@.wf(),
            has_entry(old(self)@.time_entries, id) ==> r == 1 && final(self)@.time_entries == old(
                self,
            )@.time_entries.remove(entry_index(old(self)@.time_entries, id)),
            !has_entry(old(self)@.time_entries, id) ==> r == 0 && final(self)@.time_entries == old(
                self,
            )@.time_entries,
            final(self)@.adjustment_types == old(self)@.adjustment_types,
            final(self)@.adjustments == old(self)@.adjustments,
            final(self)@.next_adjustment_type_id == old(self)@.next_adjustment_type_id,
            final(self)@.next_adjustment_id == old(self)@.next_adjustment_id,
            final(self)@.next_time_entry_id == old(self)@.next_time_entry_id,
            final(self)@.now == old(self)@.now,
    {
        let ghost log = old(self)@.time_entries;
        let n = self.time_entries.len();
        let mut i: usize = 0;
        while i < n
            invariant
                n == self.time_entries.len(),
                0 <= i <= n,
                self@.wf(),
                self.adjustments@ == old(self).adjustments@,
                self.adjustment_types@ == old(self).adjustment_types@,
                self.time_entries@ == old(self).time_entries@,
                self.next_adjustment_type_id == old(self).next_adjustment_type_id,
                self.next_adjustment_id == old(self).next_adjustment_id,
                self.next_time_entry_id == old(self).next_time_entry_id,
                self.now == old(self).now,
                forall|k: int| 0 <= k < i ==> (#[trigger] self@.time_entries[k]).id != id,
            decreases n - i,
        {
            if self.time_entries[i].id == id {
                let ghost j = i as int;
                self.time_entries.remove(i);
                proof {
                    assert(log[j].id == id);
                    assert(entry_index(log, id) == j);
                    old(self).time_entries@.remove_ensures(j);
                    log.remove_ensures(j);
                    assert(self.time_entries@ == old(self).time_entries@.remove(j));
                    assert(entries_view(self.time_entries@) =~= log.remove(j));
                    assert(self@.adjustment_types =~= old(self)@.adjustment_types);
                    assert(self@.adjustments =~= old(self)@.adjustments);
                    let t = self@.time_entries;
                    assert forall|x: int, y: int| 0 <= x < y < t.len() implies entry_before(
                        t[x],
                        t[y],
                    ) by {
                        if y < j {
                            assert(entry_before(log[x], log[y]));
                        } else if x < j {
                            assert(entry_before(log[x], log[y + 1]));
                        } else {
                            assert(entry_before(log[x + 1], log[y + 1]));
                        }
                    }
                }
                return 1;
            }
            i += 1;
        }
        proof {
            assert(!has_entry(old(self)@.time_entries, id));
        }
        0
    }

    /// Returns a map from each adjustment type id that the given
    /// adjustments reference, and that the store holds, to its record.
    pub fn get_adjustment_types_for_adjustments(&self, adjustments: &[Adjustment]) -> (r: HashMap<
        u64,
        AdjustmentType,
    >)
        requires
            self@.wf(),
        ensures
            forall|k: u64|
                #[trigger] r@.contains_key(k) <==> references_type(adjs_view(adjustments@), k)
                    && has_type(self@.adjustment_types, k),
            forall|k: u64|
                #[trigger] r@.contains_key(k) ==> r@[k]@ == type_with_id(
                    self@.adjustment_types,
                    k,
                ),
    {
        broadcast use vstd::std_specs::hash::group_hash_axioms;

        let ghost avs = adjs_view(adjustments@);
        let mut r: HashMap<u64, AdjustmentType> = HashMap::new();
        let n = adjustments.len();
        let mut i: usize = 0;
        while i < n
            invariant
                n == adjustments@.len(),
                0 <= i <= n,
                self@.wf(),
                avs == adjs_view(adjustments@),
                forall|k: u64|
                    #[trigger] r@.contains_key(k) <==> (exists|x: int|
                        0 <= x < i && (#[trigger] avs[x]).adjustment_type_id == k) && has_type(
                        self@.adjustment_types,
                        k,
                    ),
                forall|k: u64|
                    #[trigger] r@.contains_key(k) ==> r@[k]@ == type_with_id(
                        self@.adjustment_types,
                        k,
                    ),
            decreases n - i,
        {
            let tid = adjustments[i].adjustment_type_id;
            proof {
                assert(avs[i as int].adjustment_type_id == tid);
            }
            match self.get_adjustment_type(tid) {
                Some(t) => {
                    r.insert(tid, t);
                }
                None => {}
            }
            proof {
                assert forall|k: u64| #[trigger] r@.contains_key(k) implies (exists|x: int|
                    0 <= x < i + 1 && (#[trigger] avs[x]).adjustment_type_id == k) && has_type(
                    self@.adjustment_types,
                    k,
                ) by {
                    if k != tid {
                        let x = choose|x: int|
                            0 <= x < i && (#[trigger] avs[x]).adjustment_type_id == k;
                        assert(0 <= x < i + 1 && avs[x].adjustment_type_id == k);
                    } else {
                        assert(avs[i as int].adjustment_type_id == k);
                    }
                }
                assert forall|k: u64|
                    ((exists|x: int| 0 <= x < i + 1 && (#[trigger] avs[x]).adjustment_type_id == k)
                        && has_type(self@.adjustment_types, k)) implies #[trigger] r@.contains_key(
                    k,
                ) by {
                    let x = choose|x: int|
                        0 <= x < i + 1 && (#[trigger] avs[x]).adjustment_type_id == k;
                    if x < i {
                        assert(r@.contains_key(k));
                    } else {
                        assert(k == tid);
                    }
                }
            }
            i += 1;
        }
        r
    }
}

} // verus!
