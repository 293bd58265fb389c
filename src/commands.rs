//! The tracker's commands as decisions on the entry table and the pointer
//! state: checking in and out, editing an entry and removing a sheet.

use vstd::prelude::*;

use crate::entry::{Entry, EntryView};
use crate::state::{names_of, State, StateView};
use crate::store::{
    create_entry, current_entry, distinct_sheets, first_running, get_all_sheets, get_entry_by_id,
    lemma_first_running_is_row, lemma_latest_running_is_row, lemma_lookup_is_row, lookup,
    latest_running, remove_entries_by_sheet, running_entry, update_entry, EntryStore,
    StoreError,
};
use crate::text::contains_text;
use crate::time::Timestamp;

verus! {

/// What checking in did.
#[derive(Debug)]
pub enum StartOutcome {
    /// The active sheet already has a running entry, which stays as it is.
    AlreadyRunning { sheet: String },
    /// A running entry was stored under `id`.
    Started { id: usize },
}

/// What checking out did.
#[derive(Clone, Copy, Debug, PartialEq, Eq, Structural)]
pub enum StopOutcome {
    /// The active sheet has no running entry.
    NoActiveTask,
    /// The requested end comes before the running entry's start; nothing
    /// changed.
    EndsBeforeStart,
    /// The running entry with id `id` was stopped.
    Stopped { id: usize },
}

/// What editing did.
#[derive(Debug)]
pub enum EditOutcome {
    /// Neither the given id nor a running entry names an entry.
    NotFound,
    /// The entry now reads `entry`.
    Updated { entry: Entry },
}

/// The view of an optional text.
pub open spec fn text_of(t: Option<&str>) -> Option<Seq<char>> {
    match t {
        Some(s) => Some(s@),
        None => None,
    }
}

/// An entry with the given fields replaced.
pub open spec fn edited(
    e: EntryView,
    start: Option<Timestamp>,
    end: Option<Timestamp>,
    move_to: Option<Seq<char>>,
    notes: Option<Seq<char>>,
) -> EntryView {
    EntryView {
        start: match start {
            Some(t) => t,
            None => e.start,
        },
        end: match end {
            Some(t) => Some(t),
            None => e.end,
        },
        sheet: match move_to {
            Some(s) => s,
            None => e.sheet,
        },
        name: match notes {
            Some(n) => n,
            None => e.name,
        },
        id: e.id,
    }
}

/// The entry that an edit applies to: the one with the given id, or the
/// oldest running entry when no id is given. An id that no entry has names
/// nothing.
pub open spec fn edit_target(rows: Seq<EntryView>, id: Option<usize>) -> Option<EntryView> {
    match id {
        Some(i) => lookup(rows, i),
        None => first_running(rows),
    }
}

/// Checks into the active sheet with task `task` from `start`, unless that
/// sheet already has a running entry.
pub fn start_task(task: &str, start: Timestamp, store: &mut EntryStore, state: &State) -> (r: Result<
    StartOutcome,
    StoreError,
>)
    requires
        old(store)@.wf(),
        state@.wf(),
        start.wf(),
    ensures
        final(store)@.wf(),
        match latest_running(old(store)@.rows, state@.current_sheet) {
            Some(e) => final(store)@ == old(store)@ && (r matches Ok(
                StartOutcome::AlreadyRunning { sheet },
            ) && sheet@ == e.sheet),
            None => if old(store)@.next_id < usize::MAX {
                (r matches Ok(StartOutcome::Started { id }) && id == old(store)@.next_id)
                    && final(store)@ == old(store)@.created(
                    EntryView {
                        id: None,
                        start,
                        end: None,
                        name: task@,
                        sheet: state@.current_sheet,
                    },
                )
            } else {
                r == Err::<StartOutcome, StoreError>(StoreError::IdsExhausted) && final(store)@
                    == old(store)@
            },
        },
{
    match running_entry(store, state.current_sheet.as_str()) {
        Some(cur) => Ok(StartOutcome::AlreadyRunning { sheet: cur.sheet }),
        None => {
            let entry = Entry::start(task, state.current_sheet.as_str(), start);
            match create_entry(&entry, store) {
                Ok(id) => Ok(StartOutcome::Started { id }),
                Err(e) => Err(e),
            }
        },
    }
}

/// Checks out of the active sheet at `end`: stops its running entry and
/// records it as the last task, unless `end` comes before that entry's
/// start.
pub fn stop_task(end: Timestamp, store: &mut EntryStore, state: &mut State) -> (r: StopOutcome)
    requires
        old(store)@.wf(),
        old(state)@.wf(),
        end.wf(),
    ensures
        final(store)@.wf(),
        final(state)@.wf(),
        match latest_running(old(store)@.rows, old(state)@.current_sheet) {
            None => r == StopOutcome::NoActiveTask && final(store)@ == old(store)@ && final(state)@
                == old(state)@,
            Some(e) => if end.instant() < e.start.instant() {
                r == StopOutcome::EndsBeforeStart && final(store)@ == old(store)@ && final(state)@
                    == old(state)@
            } else {
                &&& e.id matches Some(id) && r == (StopOutcome::Stopped { id })
                &&& final(store)@ == old(store)@.updated(e.stopped_at(end))
                &&& final(state)@ == (StateView { last_task: e.id, ..old(state)@ })
            },
        },
{
    proof {
        lemma_latest_running_is_row(store@.rows, state@.current_sheet);
    }
    match running_entry(store, state.current_sheet.as_str()) {
        None => StopOutcome::NoActiveTask,
        Some(mut e) => {
            if end.is_before(&e.start) {
                return StopOutcome::EndsBeforeStart;
            }
            let id = match e.id {
                Some(id) => id,
                None => {
                    return StopOutcome::NoActiveTask;
                },
            };
            e.stop(end);
            update_entry(&e, store);
            state.set_last_task(id);
            StopOutcome::Stopped { id }
        },
    }
}

/// Edits the entry with id `id`, or the oldest running entry when no id is
/// given: each given field replaces the entry's own. An id that no entry
/// has changes nothing.
pub fn edit_task(
    id: Option<usize>,
    start: Option<Timestamp>,
    end: Option<Timestamp>,
    move_to: Option<&str>,
    notes: Option<&str>,
    store: &mut EntryStore,
) -> (r: EditOutcome)
    requires
        old(store)@.wf(),
        start matches Some(t) ==> t.wf(),
        end matches Some(t) ==> t.wf(),
        move_to matches Some(m) ==> m@.len() > 0,
    ensures
        final(store)@.wf(),
        match edit_target(old(store)@.rows, id) {
            None => r is NotFound && final(store)@ == old(store)@,
            Some(e) => {
                let changed = edited(e, start, end, text_of(move_to), text_of(notes));
                &&& r matches EditOutcome::Updated { entry } && entry@ == changed
                &&& final(store)@ == old(store)@.updated(changed)
            },
        },
{
    let target = match id {
        Some(i) => get_entry_by_id(i, store),
        None => current_entry(store),
    };
    proof {
        lemma_first_running_is_row(store@.rows);
        if let Some(i) = id {
            lemma_lookup_is_row(store@.rows, i);
        }
    }
    let mut entry = match target {
        Some(e) => e,
        None => {
            return EditOutcome::NotFound;
        },
    };
    if let Some(t) = start {
        entry.start = t;
    }
    if let Some(t) = end {
        entry.end = Some(t);
    }
    if let Some(m) = move_to {
        entry.sheet = m.to_owned();
    }
    if let Some(n) = notes {
        entry.name = n.to_owned();
    }
    update_entry(&entry, store);
    EditOutcome::Updated { entry }
}

/// Removes every entry of sheet `sheet` and moves the pointers off it;
/// returns false, changing nothing, when no entry belongs to that sheet.
pub fn kill_sheet(sheet: &str, default_sheet: &str, store: &mut EntryStore, state: &mut State) -> (r:
    bool)
    requires
        old(store)@.wf(),
        old(state)@.wf(),
        default_sheet@.len() > 0,
    ensures
        final(store)@.wf(),
        final(state)@.wf(),
        r == old(store)@.sheet_names().contains(sheet@),
        !r ==> final(store)@ == old(store)@ && final(state)@ == old(state)@,
        r ==> final(store)@ == old(store)@.without_sheet(sheet@),
        r ==> final(state)@ == old(state)@.after_removal(
            sheet@,
            distinct_sheets(final(store)@.rows),
            default_sheet@,
        ),
{
    let sheets = get_all_sheets(store);
    if !contains_text(&sheets, sheet) {
        proof {
            if store@.sheet_names().contains(sheet@) {
                assert(names_of(sheets@).contains(sheet@));
                let k = choose|k: int| 0 <= k < names_of(sheets@).len() && names_of(sheets@)[k] == sheet@;
                assert(sheets@[k]@ == sheet@);
            }
        }
        return false;
    }
    proof {
        let k = choose|k: int| 0 <= k < sheets@.len() && (#[trigger] sheets@[k])@ == sheet@;
        assert(names_of(sheets@)[k] == sheet@);
    }
    remove_entries_by_sheet(sheet, store);
    let remaining = get_all_sheets(store);
    proof {
        assert forall|i: int| 0 <= i < remaining@.len() implies (#[trigger] remaining@[i])@.len() > 0 by {
            let n = remaining@[i]@;
            assert(names_of(remaining@)[i] == n);
            assert(store@.sheet_names().contains(n));
            let j = choose|j: int| 0 <= j < store@.rows.len() && (#[trigger] store@.rows[j]).sheet == n;
            assert(store@.rows[j].wf());
        }
    }
    state.after_sheet_removed(sheet, &remaining, default_sheet);
    true
}

} // verus!
