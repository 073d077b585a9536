//! The three record kinds of the tracker, their spec-level views, and the
//! `h:mm` rendering of a number of minutes.
//!
//! Timestamps are held as signed seconds; the surrounding application
//! converts calendar dates to and from that representation.

use crate::digits::{dec_chars, two_dec_chars, u64_to_dec, u64_to_two_dec};
use vstd::prelude::*;

verus! {

/// A reusable, named signed point value, applied through adjustments.
pub struct AdjustmentType {
    pub id: u64,
    pub description: String,
    pub adjustment: i8,
}

/// The spec-level value of an [`AdjustmentType`].
pub struct AdjustmentTypeModel {
    pub id: u64,
    pub description: Seq<char>,
    pub adjustment: i8,
}

impl View for AdjustmentType {
    type V = AdjustmentTypeModel;

    open spec fn view(&self) -> AdjustmentTypeModel {
        AdjustmentTypeModel {
            id: self.id,
            description: self.description@,
            adjustment: self.adjustment,
        }
    }
}

impl Clone for AdjustmentType {
    fn clone(&self) -> (r: Self)
        ensures
            r@ == self@,
    {
        AdjustmentType { id: self.id, description: self.description.clone(), adjustment: self.adjustment }
    }
}

/// The payload from which an [`AdjustmentType`] record is created.
pub struct NewAdjustmentType {
    pub description: String,
    pub adjustment: i8,
}

/// One application of an adjustment type at a point in time.
pub struct Adjustment {
    pub id: u64,
    pub adjustment_type_id: u64,
    pub created: i64,
    pub comment: Option<String>,
}

/// The spec-level value of an [`Adjustment`].
pub struct AdjustmentModel {
    pub id: u64,
    pub adjustment_type_id: u64,
    pub created: i64,
    pub comment: Option<Seq<char>>,
}

impl View for Adjustment {
    type V = AdjustmentModel;

    open spec fn view(&self) -> AdjustmentModel {
        AdjustmentModel {
            id: self.id,
            adjustment_type_id: self.adjustment_type_id,
            created: self.created,
            comment: match self.comment {
                Some(c) => Some(c@),
                None => None,
            },
        }
    }
}

impl Clone for Adjustment {
    fn clone(&self) -> (r: Self)
        ensures
            r@ == self@,
    {
        Adjustment {
            id: self.id,
            adjustment_type_id: self.adjustment_type_id,
            created: self.created,
            comment: match &self.comment {
                Some(c) => Some(c.clone()),
                None => None,
            },
        }
    }
}

/// The payload from which an [`Adjustment`] record is created. A missing
/// `created` stands for the moment of insertion.
pub struct NewAdjustment {
    pub adjustment_type_id: u64,
    pub comment: Option<String>,
    pub created: Option<i64>,
}

/// An authoritative snapshot of the allotted minutes at a point in time.
pub struct TimeEntry {
    pub id: u64,
    pub time: u16,
    pub created: i64,
}

/// The spec-level value of a [`TimeEntry`].
pub struct TimeEntryModel {
    pub id: u64,
    pub time: u16,
    pub created: i64,
}

impl View for TimeEntry {
    type V = TimeEntryModel;

    open spec fn view(&self) -> TimeEntryModel {
        TimeEntryModel { id: self.id, time: self.time, created: self.created }
    }
}

impl Clone for TimeEntry {
    fn clone(&self) -> (r: Self)
        ensures
            r@ == self@,
    {
        TimeEntry { id: self.id, time: self.time, created: self.created }
    }
}

/// The payload from which a [`TimeEntry`] record is created. A missing
/// `created` stands for the moment of insertion.
pub struct NewTimeEntry {
    pub time: u16,
    pub created: Option<i64>,
}

/// The adjustment type records of a log, as spec-level values.
pub open spec fn types_view(s: Seq<AdjustmentType>) -> Seq<AdjustmentTypeModel> {
    s.map_values(|t: AdjustmentType| t@)
}

/// The adjustment records of a log, as spec-level values.
pub open spec fn adjs_view(s: Seq<Adjustment>) -> Seq<AdjustmentModel> {
    s.map_values(|a: Adjustment| a@)
}

/// The time entry records of a log, as spec-level values.
pub open spec fn entries_view(s: Seq<TimeEntry>) -> Seq<TimeEntryModel> {
    s.map_values(|e: TimeEntry| e@)
}

pub broadcast proof fn lemma_types_view_len(s: Seq<AdjustmentType>)
    ensures
        (#[trigger] types_view(s)).len() == s.len(),
{
}

pub broadcast proof fn lemma_types_view_index(s: Seq<AdjustmentType>, i: int)
    requires
        0 <= i < s.len(),
    ensures
        #[trigger] types_view(s)[i] == s[i]@,
{
}

pub broadcast proof fn lemma_adjs_view_len(s: Seq<Adjustment>)
    ensures
        (#[trigger] adjs_view(s)).len() == s.len(),
{
}

pub broadcast proof fn lemma_adjs_view_index(s: Seq<Adjustment>, i: int)
    requires
        0 <= i < s.len(),
    ensures
        #[trigger] adjs_view(s)[i] == s[i]@,
{
}

pub broadcast proof fn lemma_entries_view_len(s: Seq<TimeEntry>)
    ensures
        (#[trigger] entries_view(s)).len() == s.len(),
{
}

pub broadcast proof fn lemma_entries_view_index(s: Seq<TimeEntry>, i: int)
    requires
        0 <= i < s.len(),
    ensures
        #[trigger] entries_view(s)[i] == s[i]@,
{
}

/// The `h:mm` rendering of a number of minutes: the hours without
/// padding, a colon, then the remaining minutes as two digits.
pub open spec fn time_chars(time: u16) -> Seq<char> {
    dec_chars((time / 60) as nat).add(seq![':']).add(two_dec_chars((time % 60) as nat))
}

/// Formats a number of minutes as `h:mm`.
pub fn format_time(time: &u16) -> (r: String)
    ensures
        r@ == time_chars(*time),
{
    proof {
        reveal_strlit(":");
    }
    let mut s = u64_to_dec((*time / 60) as u64);
    s.append(":");
    let mins = u64_to_two_dec((*time % 60) as u64);
    s.append(mins.as_str());
    proof {
        assert(s@ =~= time_chars(*time));
    }
    s
}

impl TimeEntry {
    /// Returns the `time` field rendered as `h:mm`.
    pub fn get_formatted_time(&self) -> (r: String)
        ensures
            r@ == time_chars(self.time),
    {
        format_time(&self.time)
    }
}

} // verus!
