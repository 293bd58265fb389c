//! One logged interval of work on a sheet.

use vstd::prelude::*;

use crate::config::Config;
use crate::time::{
    naive_text_instant, reads_as, str_to_datetime, without_utc_marker, Duration, TimeError,
    Timestamp, MAX_SECS, MIN_SECS,
};

verus! {

/// An entry as a mathematical value.
pub struct EntryView {
    pub id: Option<usize>,
    pub start: Timestamp,
    pub end: Option<Timestamp>,
    pub name: Seq<char>,
    pub sheet: Seq<char>,
}

/// A time entry: a task on a sheet, from `start` until `end`, or still
/// running while `end` is absent. `id` is absent until the entry is stored.
#[derive(Debug)]
pub struct Entry {
    pub id: Option<usize>,
    pub start: Timestamp,
    pub end: Option<Timestamp>,
    pub name: String,
    pub sheet: String,
}

impl View for Entry {
    type V = EntryView;

    open spec fn view(&self) -> EntryView {
        EntryView {
            id: self.id,
            start: self.start,
            end: self.end,
            name: self.name@,
            sheet: self.sheet@,
        }
    }
}

impl EntryView {
    /// Its timestamps are representable.
    pub open spec fn times_wf(self) -> bool {
        &&& self.start.wf()
        &&& self.end matches Some(e) ==> e.wf()
    }

    /// Its timestamps are representable and it names a sheet.
    pub open spec fn wf(self) -> bool {
        &&& self.times_wf()
        &&& self.sheet.len() > 0
    }

    pub open spec fn is_running(self) -> bool {
        self.end is None
    }

    /// The entry with `end` set to `t`.
    pub open spec fn stopped_at(self, t: Timestamp) -> EntryView {
        EntryView { end: Some(t), ..self }
    }

    /// The instant the entry ends, or `now` while it runs.
    pub open spec fn end_or(self, now: Timestamp) -> Timestamp {
        match self.end {
            Some(e) => e,
            None => now,
        }
    }

    /// Nanoseconds from the start to the end, or to `now` while it runs.
    pub open spec fn duration(self, now: Timestamp) -> int {
        self.start.nanos_until(self.end_or(now))
    }
}

/// Every entry has representable timestamps and names a sheet.
pub open spec fn all_wf(v: Seq<Entry>) -> bool {
    forall|i: int| 0 <= i < v.len() ==> (#[trigger] v[i])@.wf()
}

impl Clone for Entry {
    fn clone(&self) -> (r: Self)
        ensures
            r@ == self@,
    {
        Entry {
            id: self.id,
            start: self.start,
            end: self.end,
            name: self.name.clone(),
            sheet: self.sheet.clone(),
        }
    }
}

impl Entry {
    /// A running, unstored entry with an empty name on the configured
    /// default sheet, starting now.
    pub fn new(config: Config) -> (r: Entry)
        requires
            config.wf(),
        ensures
            r@.id is None,
            r@.end is None,
            r@.name.len() == 0,
            r@.sheet == config.default_sheet@,
            r@.wf(),
    {
        Entry {
            id: None,
            start: Timestamp::now(),
            end: None,
            name: String::new(),
            sheet: config.default_sheet,
        }
    }

    /// A running, unstored entry for task `name` on `sheet`, begun at `start`.
    pub fn start(name: &str, sheet: &str, start: Timestamp) -> (r: Entry)
        ensures
            r@ == (EntryView { id: None, start, end: None, name: name@, sheet: sheet@ }),
    {
        Entry {
            id: None,
            start,
            end: None,
            name: name.to_owned(),
            sheet: sheet.to_owned(),
        }
    }

    /// Ends the entry at `end`. Whether `end` comes after the start is for
    /// the caller to check.
    pub fn stop(&mut self, end: Timestamp)
        ensures
            final(self)@ == old(self)@.stopped_at(end),
    {
        self.end = Some(end);
    }

    /// Whether the entry's timestamps are representable and it names a
    /// sheet.
    pub fn is_valid(&self) -> (r: bool)
        ensures
            r == self@.wf(),
    {
        self.start.is_valid() && match self.end {
            Some(e) => e.is_valid(),
            None => true,
        } && self.sheet.as_str().unicode_len() > 0
    }

    pub fn is_running(&self) -> (r: bool)
        ensures
            r == self@.is_running(),
    {
        self.end.is_none()
    }

    /// The time from the start to the end, or to `now` while it runs.
    pub fn get_duration(&self, now: &Timestamp) -> (r: Duration)
        requires
            self@.wf(),
            now.wf(),
        ensures
            r.wf(),
            r.total() == self@.duration(*now),
            MIN_SECS - MAX_SECS - 1 <= r.secs <= MAX_SECS - MIN_SECS,
    {
        let end = match self.end {
            Some(e) => e,
            None => *now,
        };
        self.start.until(&end)
    }

    /// Builds an entry from a stored row. A start or end that does not read
    /// as a stored timestamp fails the whole row.
    pub fn from_row(id: usize, note: String, start: &str, end: Option<&str>, sheet: String) -> (r:
        Result<Entry, TimeError>)
        ensures
            match r {
                Ok(e) => {
                    &&& e@.times_wf()
                    &&& e@.id == Some(id)
                    &&& e@.name == note@
                    &&& e@.sheet == sheet@
                    &&& reads_as(start@, e@.start)
                    &&& match end {
                        None => e@.end is None,
                        Some(t) => e@.end matches Some(x) && reads_as(t@, x),
                    }
                },
                Err(err) => {
                    &&& err == TimeError::InvalidTimestamp
                    &&& naive_text_instant(without_utc_marker(start@)) is None || (end matches Some(
                        t,
                    ) && naive_text_instant(without_utc_marker(t@)) is None)
                },
            },
    {
        let start = match str_to_datetime(start) {
            Ok(t) => t,
            Err(e) => {
                return Err(e);
            },
        };
        let end = match end {
            Some(text) => match str_to_datetime(text) {
                Ok(t) => Some(t),
                Err(e) => {
                    return Err(e);
                },
            },
            None => None,
        };
        Ok(Entry { id: Some(id), start, end, name: note, sheet })
    }
}

/// Stopping an entry at `t` and measuring it at `t` gives the time from its
/// start to `t`.
pub proof fn lemma_stop_then_duration(e: EntryView, t: Timestamp)
    requires
        e.times_wf(),
        t.wf(),
        t.instant() >= e.start.instant(),
    ensures
        e.stopped_at(t).duration(t) == t.instant() - e.start.instant(),
{
}

} // verus!
