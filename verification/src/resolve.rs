//! The adjusted-time resolver: the one computation the store feeds.
//!
//! The current value is the latest time entry's minutes — zero while
//! there is none — with every adjustment created at or after that entry
//! applied in replay order, the running total clamped to zero after
//! every step. The cap that listing reads apply elsewhere does not hold
//! here: the whole window is replayed.

use crate::models::{AdjustmentModel, TimeEntryModel};
use crate::models::adjs_view;
use crate::store::{
    has_type, matches_filter, references_type, selected_adjs, type_with_id, Store, StoreView,
};
use vstd::prelude::*;

verus! {

/// A running total clamped to zero: screen time cannot be negative.
pub open spec fn clamp0(x: int) -> int {
    if x < 0 {
        0
    } else {
        x
    }
}

/// The running total after replaying `deltas` from `base`, clamped to
/// zero after every step: an intermediate negative excursion is not
/// remembered as debt.
pub open spec fn clamped_fold(base: int, deltas: Seq<int>) -> int
    decreases deltas.len(),
{
    if deltas.len() == 0 {
        base
    } else {
        clamp0(clamped_fold(base, deltas.drop_last()) + deltas.last())
    }
}

/// The current time entry: the last of the log, which replay order
/// keeps newest-last; nothing while the log is empty.
pub open spec fn current_entry(entries: Seq<TimeEntryModel>) -> Option<TimeEntryModel> {
    if entries.len() == 0 {
        None
    } else {
        Some(entries.last())
    }
}

/// The inclusive lower bound of the resolution window: the current time
/// entry's creation time, or none while the log is empty.
pub open spec fn window_cutoff(entries: Seq<TimeEntryModel>) -> Option<i64> {
    match current_entry(entries) {
        None => None,
        Some(e) => Some(e.created),
    }
}

/// The base the replay starts from: the current time entry's minutes,
/// or zero while there is none.
pub open spec fn base_minutes(entries: Seq<TimeEntryModel>) -> int {
    match current_entry(entries) {
        None => 0,
        Some(e) => e.time as int,
    }
}

/// The adjustments the resolution replays: those created at or after
/// the current time entry — all of them while there is none — in
/// replay order.
pub open spec fn window(s: StoreView) -> Seq<AdjustmentModel> {
    selected_adjs(s.adjustments, None, window_cutoff(s.time_entries))
}

/// The deltas the resolution applies, in replay order.
pub open spec fn window_deltas(s: StoreView) -> Seq<int> {
    window(s).map_values(
        |a: AdjustmentModel| type_with_id(s.adjustment_types, a.adjustment_type_id).adjustment
            as int,
    )
}

pub proof fn lemma_window_deltas_len(s: StoreView)
    ensures
        window_deltas(s).len() == window(s).len(),
{
}

pub proof fn lemma_window_deltas_index(s: StoreView, i: int)
    requires
        0 <= i < window(s).len(),
    ensures
        window_deltas(s)[i] == type_with_id(
            s.adjustment_types,
            window(s)[i].adjustment_type_id,
        ).adjustment as int,
{
}

/// The resolved adjusted time: the clamped replay of the window's
/// deltas over the base.
pub open spec fn resolved_time(s: StoreView) -> int {
    clamped_fold(base_minutes(s.time_entries), window_deltas(s))
}

/// Every intermediate running total, and so the result, fits the
/// unsigned 16-bit minute type. A store whose resolution would overflow
/// it is outside the resolver's contract: the conversion is checked,
/// never truncated.
pub open spec fn resolution_in_range(s: StoreView) -> bool {
    forall|k: int|
        0 <= k <= window_deltas(s).len() ==> clamped_fold(
            base_minutes(s.time_entries),
            window_deltas(s).take(k),
        ) <= u16::MAX
}

impl Store {
    /// The adjustments created at or after the given moment — all of
    /// them when none is given — in replay order, without any cap.
    fn adjustments_since(&self, since: Option<i64>) -> (r: Vec<crate::models::Adjustment>)
        ensures
            adjs_view(r@) == selected_adjs(self@.adjustments, None, since),
    {
        let ghost log = self@.adjustments;
        let n = self.adjustments.len();
        let mut r: Vec<crate::models::Adjustment> = Vec::new();
        let mut i: usize = 0;
        while i < n
            invariant
                n == self.adjustments.len(),
                0 <= i <= n,
                log == self@.adjustments,
                adjs_view(r@) =~= selected_adjs(log.take(i as int), None, since),
            decreases n - i,
        {
            let a = &self.adjustments[i];
            let keep = match since {
                Some(c) => a.created >= c,
                None => true,
            };
            proof {
                assert(keep == matches_filter(log[i as int], None, since));
                crate::store::lemma_selected_adjs_step(log, None, since, i as int);
            }
            if keep {
                let c = a.clone();
                r.push(c);
            }
            proof {
                assert(adjs_view(r@) =~= selected_adjs(log.take(i as int + 1), None, since));
            }
            i += 1;
        }
        proof {
            assert(log.take(n as int) =~= log);
        }
        r
    }

    /// Resolves the current adjusted time if every intermediate running
    /// total fits the unsigned 16-bit minute type, and reports the
    /// overflow otherwise: the conversion is checked, never truncated.
    #[verifier::loop_isolation(false)]
    pub fn try_get_adjusted_time(&self) -> (r: Option<u16>)
        requires
            self@.wf(),
        ensures
            match r {
                Some(v) => resolution_in_range(self@) && v as int == resolved_time(self@),
                None => !resolution_in_range(self@),
            },
    {
        broadcast use vstd::std_specs::hash::group_hash_axioms;
        broadcast use crate::order::lemma_filter_subset;
        broadcast use vstd::seq_lib::group_filter_ensures;

        let time_entry = self.get_current_time_entry();
        let mut adjusted_time: i64 = match &time_entry {
            None => 0,
            Some(te) => te.time as i64,
        };
        let since: Option<i64> = match &time_entry {
            None => None,
            Some(te) => Some(te.created),
        };
        let ghost base = base_minutes(self@.time_entries);
        proof {
            assert(since == window_cutoff(self@.time_entries));
            assert(adjusted_time as int == base);
        }
        let adjustments = self.adjustments_since(since);
        let adjustment_types = self.get_adjustment_types_for_adjustments(adjustments.as_slice());
        let ghost deltas = window_deltas(self@);
        proof {
            assert(adjs_view(adjustments@) == window(self@));
            lemma_window_deltas_len(self@);
            assert(deltas.take(0) =~= Seq::<int>::empty());
        }
        let n = adjustments.len();
        let mut i: usize = 0;
        while i < n
            invariant
                0 <= i <= n,
                adjusted_time as int == clamped_fold(base, deltas.take(i as int)),
                0 <= adjusted_time <= u16::MAX as i64,
                forall|k: int|
                    0 <= k <= i ==> clamped_fold(base, deltas.take(k)) <= u16::MAX,
            decreases n - i,
        {
            let tid = adjustments[i].adjustment_type_id;
            proof {
                assert(window(self@)[i as int] == adjustments@[i as int]@);
                assert(window(self@)[i as int].adjustment_type_id == tid);
                assert(window(self@).contains(window(self@)[i as int]));
                assert(self@.adjustments.contains(window(self@)[i as int]));
                let x = choose|x: int|
                    0 <= x < self@.adjustments.len() && self@.adjustments[x] == window(
                        self@,
                    )[i as int];
                assert(has_type(self@.adjustment_types, tid));
                assert(references_type(adjs_view(adjustments@), tid));
                assert(adjustment_types@.contains_key(tid));
            }
            let at_opt = adjustment_types.get(&tid);
            proof {
                assert(at_opt is Some);
            }
            let at = at_opt.unwrap();
            proof {
                assert(at@ == type_with_id(self@.adjustment_types, tid));
                lemma_window_deltas_index(self@, i as int);
                assert(at.adjustment as int == deltas[i as int]);
            }
            adjusted_time = adjusted_time + at.adjustment as i64;
            if adjusted_time < 0 {
                adjusted_time = 0;
            }
            proof {
                assert(deltas.take(i as int + 1).drop_last() =~= deltas.take(i as int));
                assert(deltas.take(i as int + 1).last() == deltas[i as int]);
                assert(adjusted_time as int == clamped_fold(base, deltas.take(i as int + 1)));
            }
            if adjusted_time > u16::MAX as i64 {
                proof {
                    assert(clamped_fold(base, deltas.take(i as int + 1)) > u16::MAX);
                    assert(!resolution_in_range(self@));
                }
                return None;
            }
            i += 1;
        }
        proof {
            assert(deltas.take(n as int) =~= deltas);
            assert(adjusted_time as int == resolved_time(self@));
            assert forall|k: int|
                0 <= k <= window_deltas(self@).len() implies clamped_fold(
                base_minutes(self@.time_entries),
                window_deltas(self@).take(k),
            ) <= u16::MAX by {
                assert(clamped_fold(base, deltas.take(k)) <= u16::MAX);
            }
        }
        Some(adjusted_time as u16)
    }

    /// Resolves the current adjusted time: the current time entry's
    /// minutes — zero while there is none — with every adjustment
    /// created at or after that entry applied in replay order, the
    /// running total clamped to zero after every step.
    pub fn get_adjusted_time(&self) -> (r: u16)
        requires
            self@.wf(),
            resolution_in_range(self@),
        ensures
            r as int == resolved_time(self@),
    {
        match self.try_get_adjusted_time() {
            Some(v) => v,
            None => {
                proof {
                    assert(false);
                }
                0
            }
        }
    }
}

/// With no time entry and no adjustment the resolved time is zero.
pub proof fn lemma_resolved_time_empty(s: StoreView)
    requires
        s.time_entries.len() == 0,
        s.adjustments.len() == 0,
    ensures
        resolved_time(s) == 0,
{
    reveal(Seq::filter);
    assert(s.adjustments =~= Seq::<AdjustmentModel>::empty());
    assert(window(s) =~= Seq::<AdjustmentModel>::empty());
    assert(window_deltas(s) =~= Seq::<int>::empty());
}

/// With a current time entry and no adjustment created at or after it,
/// the resolved time is exactly that entry's minutes.
pub proof fn lemma_resolved_time_entry_only(s: StoreView)
    requires
        s.time_entries.len() > 0,
        forall|i: int|
            0 <= i < s.adjustments.len() ==> (#[trigger] s.adjustments[i]).created
                < s.time_entries.last().created,
    ensures
        resolved_time(s) == s.time_entries.last().time,
{
    broadcast use vstd::seq_lib::group_filter_ensures;
    broadcast use crate::order::lemma_filter_subset;

    if window(s).len() > 0 {
        let a = window(s)[0];
        assert(window(s).contains(a));
        assert(s.adjustments.contains(a));
        let x = choose|x: int| 0 <= x < s.adjustments.len() && s.adjustments[x] == a;
        assert(matches_filter(a, None, window_cutoff(s.time_entries)));
        assert(a.created >= s.time_entries.last().created);
        assert(false);
    }
    lemma_window_deltas_len(s);
    assert(window_deltas(s) =~= Seq::<int>::empty());
}

/// Resolution reads only the three logs: two resolutions of stores with
/// the same contents — in particular two resolutions of one store with
/// no write in between — give the same value.
pub proof fn lemma_resolution_deterministic(s1: StoreView, s2: StoreView)
    requires
        s1.adjustment_types == s2.adjustment_types,
        s1.adjustments == s2.adjustments,
        s1.time_entries == s2.time_entries,
    ensures
        resolved_time(s1) == resolved_time(s2),
{
    assert(window(s1) == window(s2));
    lemma_window_deltas_len(s1);
    lemma_window_deltas_len(s2);
    assert(window_deltas(s1) =~= window_deltas(s2)) by {
        assert forall|i: int|
            0 <= i < window_deltas(s1).len() implies window_deltas(s1)[i] == window_deltas(
            s2,
        )[i] by {
            lemma_window_deltas_index(s1, i);
            lemma_window_deltas_index(s2, i);
        }
    }
}

/// The floor holds: replayed from a nonnegative base, the running total
/// is nonnegative after every step, so once it is clamped at zero no
/// later negative adjustment can push the final value below zero.
pub proof fn lemma_running_total_floor(base: int, deltas: Seq<int>)
    requires
        base >= 0,
    ensures
        clamped_fold(base, deltas) >= 0,
        forall|k: int| 0 <= k <= deltas.len() ==> clamped_fold(base, deltas.take(k)) >= 0,
{
    assert forall|k: int| 0 <= k <= deltas.len() implies clamped_fold(base, deltas.take(k)) >= 0 by {
        if deltas.take(k).len() == 0 {
            assert(clamped_fold(base, deltas.take(k)) == base);
        }
    }
    if deltas.len() == 0 {
        assert(clamped_fold(base, deltas) == base);
    }
}

/// The resolved time of any store is nonnegative.
pub proof fn lemma_resolved_time_nonnegative(s: StoreView)
    ensures
        resolved_time(s) >= 0,
{
    lemma_running_total_floor(base_minutes(s.time_entries), window_deltas(s));
}

} // verus!
