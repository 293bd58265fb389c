//! The entry table: every stored entry under the id it was given, with the
//! commands and queries that the tracker runs on it.

use vstd::prelude::*;

use crate::entry::{all_wf, Entry, EntryView};
use crate::state::names_of;
use crate::text::{contains_text, same_text};

verus! {

broadcast use vstd::seq_lib::group_filter_ensures;

/// Why the entry table refused a command.
#[derive(Clone, Copy, Debug, PartialEq, Eq, Structural)]
pub enum StoreError {
    /// Every id that the table can hand out is taken.
    IdsExhausted,
    /// Loaded rows lack an id, hold an invalid entry, or have ids that do
    /// not rise strictly and stay below the next id.
    InvalidRows,
}

/// The entries that a sequence of entries holds, as values.
pub open spec fn views(v: Seq<Entry>) -> Seq<EntryView> {
    v.map_values(|e: Entry| e@)
}

/// The id of a stored row (zero stands in for an absent id).
pub open spec fn id_of(e: EntryView) -> nat {
    match e.id {
        Some(id) => id as nat,
        None => 0,
    }
}

/// The table as a mathematical value: its rows, oldest first, and the id
/// that the next stored entry gets.
pub struct StoreView {
    pub rows: Seq<EntryView>,
    pub next_id: nat,
}

/// The entry table. Ids are handed out in rising order, so none is handed
/// out twice while the table lives; a table loaded with `from_entries`
/// goes on after the highest id it was given.
pub struct EntryStore {
    entries: Vec<Entry>,
    next_id: usize,
}

impl View for EntryStore {
    type V = StoreView;

    closed spec fn view(&self) -> StoreView {
        StoreView { rows: views(self.entries@), next_id: self.next_id as nat }
    }
}

/// Rows other than the one with id `id`.
pub open spec fn other_id(id: usize) -> spec_fn(EntryView) -> bool {
    |r: EntryView| r.id != Some(id)
}

/// Rows of a sheet other than `sheet`.
pub open spec fn other_sheet(sheet: Seq<char>) -> spec_fn(EntryView) -> bool {
    |r: EntryView| r.sheet != sheet
}

/// Rows of sheet `sheet`.
pub open spec fn in_sheet(sheet: Seq<char>) -> spec_fn(EntryView) -> bool {
    |r: EntryView| r.sheet == sheet
}

/// The row with id `id`, searching from the newest.
pub open spec fn lookup(rows: Seq<EntryView>, id: usize) -> Option<EntryView>
    decreases rows.len(),
{
    if rows.len() == 0 {
        None
    } else if rows.last().id == Some(id) {
        Some(rows.last())
    } else {
        lookup(rows.drop_last(), id)
    }
}

/// The oldest running row.
pub open spec fn first_running(rows: Seq<EntryView>) -> Option<EntryView>
    decreases rows.len(),
{
    if rows.len() == 0 {
        None
    } else if rows[0].is_running() {
        Some(rows[0])
    } else {
        first_running(rows.skip(1))
    }
}

/// The newest running row of sheet `sheet`.
pub open spec fn latest_running(rows: Seq<EntryView>, sheet: Seq<char>) -> Option<EntryView>
    decreases rows.len(),
{
    if rows.len() == 0 {
        None
    } else if rows.last().is_running() && rows.last().sheet == sheet {
        Some(rows.last())
    } else {
        latest_running(rows.drop_last(), sheet)
    }
}

/// The sheet names of the rows, each once, in the order in which they
/// first appear.
pub open spec fn distinct_sheets(rows: Seq<EntryView>) -> Seq<Seq<char>>
    decreases rows.len(),
{
    if rows.len() == 0 {
        Seq::empty()
    } else {
        let earlier = distinct_sheets(rows.drop_last());
        if earlier.contains(rows.last().sheet) {
            earlier
        } else {
            earlier.push(rows.last().sheet)
        }
    }
}

/// Whether row `i` is the newest running row of its sheet.
pub open spec fn is_running_head(rows: Seq<EntryView>, i: int) -> bool {
    &&& rows[i].is_running()
    &&& forall|j: int|
        i < j < rows.len() ==> !(#[trigger] rows[j].is_running() && rows[j].sheet
            == rows[i].sheet)
}

/// The newest running row of each sheet among the first `k` rows, in table
/// order.
pub open spec fn running_heads(rows: Seq<EntryView>, k: int) -> Seq<EntryView>
    decreases k,
{
    if k <= 0 {
        Seq::empty()
    } else if is_running_head(rows, k - 1) {
        running_heads(rows, k - 1).push(rows[k - 1])
    } else {
        running_heads(rows, k - 1)
    }
}

impl StoreView {
    /// Every row has an id and representable timestamps; ids rise strictly
    /// and lie below `next_id`.
    pub open spec fn wf(self) -> bool {
        &&& 0 < self.next_id <= usize::MAX
        &&& forall|i: int| 0 <= i < self.rows.len() ==> (#[trigger] self.rows[i]).wf()
        &&& forall|i: int| 0 <= i < self.rows.len() ==> (#[trigger] self.rows[i]).id is Some
        &&& forall|i: int| 0 <= i < self.rows.len() ==> id_of(#[trigger] self.rows[i]) < self.next_id
        &&& forall|i: int, j: int|
            0 <= i < j < self.rows.len() ==> id_of(#[trigger] self.rows[i]) < id_of(
                #[trigger] self.rows[j],
            )
    }

    /// The table after `e` is stored under the next id.
    pub open spec fn created(self, e: EntryView) -> StoreView {
        StoreView {
            rows: self.rows.push(EntryView { id: Some(self.next_id as usize), ..e }),
            next_id: self.next_id + 1,
        }
    }

    /// The table after the row with `e`'s id takes `e`'s fields.
    pub open spec fn updated(self, e: EntryView) -> StoreView {
        StoreView {
            rows: Seq::new(
                self.rows.len(),
                |i: int|
                    if self.rows[i].id == e.id {
                        e
                    } else {
                        self.rows[i]
                    },
            ),
            ..self
        }
    }

    /// The table without the row with id `id`.
    pub open spec fn without_id(self, id: usize) -> StoreView {
        StoreView { rows: self.rows.filter(other_id(id)), ..self }
    }

    /// The table without the rows of sheet `sheet`.
    pub open spec fn without_sheet(self, sheet: Seq<char>) -> StoreView {
        StoreView { rows: self.rows.filter(other_sheet(sheet)), ..self }
    }

    /// The table with sheet `old_name` renamed to `new_name`.
    pub open spec fn with_sheet_renamed(self, old_name: Seq<char>, new_name: Seq<char>) -> StoreView {
        StoreView {
            rows: Seq::new(
                self.rows.len(),
                |i: int|
                    if self.rows[i].sheet == old_name {
                        EntryView { sheet: new_name, ..self.rows[i] }
                    } else {
                        self.rows[i]
                    },
            ),
            ..self
        }
    }

    /// The rows of sheet `sheet`, in table order.
    pub open spec fn of_sheet(self, sheet: Seq<char>) -> Seq<EntryView> {
        self.rows.filter(in_sheet(sheet))
    }

    /// The names of the sheets that hold at least one row.
    pub open spec fn sheet_names(self) -> Set<Seq<char>> {
        Set::new(|n: Seq<char>| exists|i: int| 0 <= i < self.rows.len() && (#[trigger] self.rows[i]).sheet == n)
    }
}

impl EntryStore {
    /// An empty table; the first entry stored gets id 1.
    pub fn new() -> (r: EntryStore)
        ensures
            r@.rows.len() == 0,
            r@.next_id == 1,
            r@.wf(),
    {
        EntryStore { entries: Vec::new(), next_id: 1 }
    }

    /// A table holding rows read back from storage, oldest first, that
    /// hands out `next_id` next. Fails unless every row is valid and has an
    /// id, the ids rise strictly, and `next_id` is above them all and not
    /// zero.
    pub fn from_entries(rows: Vec<Entry>, next_id: usize) -> (r: Result<EntryStore, StoreError>)
        ensures
            match r {
                Ok(s) => s@.wf() && s@.rows == views(rows@) && s@.next_id == next_id,
                Err(e) => e == StoreError::InvalidRows && !(StoreView {
                    rows: views(rows@),
                    next_id: next_id as nat,
                }).wf(),
            },
    {
        let mut i: usize = 0;
        let mut prev: usize = 0;
        while i < rows.len()
            invariant
                i <= rows@.len(),
                forall|k: int| 0 <= k < i ==> (#[trigger] rows@[k]@).id is Some,
                forall|k: int| 0 <= k < i ==> (#[trigger] rows@[k]@).wf(),
                forall|k: int| 0 <= k < i ==> id_of(#[trigger] rows@[k]@) <= prev,
                i > 0 ==> prev == id_of(rows@[i - 1]@),
                forall|k: int, m: int|
                    0 <= k < m < i ==> id_of(#[trigger] rows@[k]@) < id_of(#[trigger] rows@[m]@),
            decreases rows@.len() - i,
        {
            if !rows[i].is_valid() {
                proof {
                    assert(views(rows@)[i as int] == rows@[i as int]@);
                }
                return Err(StoreError::InvalidRows);
            }
            match rows[i].id {
                Some(id) => {
                    if i > 0 && id <= prev {
                        proof {
                            let v = views(rows@);
                            assert(v[i - 1] == rows@[i - 1]@);
                            assert(v[i as int] == rows@[i as int]@);
                        }
                        return Err(StoreError::InvalidRows);
                    }
                    prev = id;
                },
                None => {
                    proof {
                        assert(views(rows@)[i as int] == rows@[i as int]@);
                    }
                    return Err(StoreError::InvalidRows);
                },
            }
            i = i + 1;
        }
        if next_id == 0 || (rows.len() > 0 && next_id <= prev) {
            proof {
                if rows@.len() > 0 {
                    assert(views(rows@)[rows@.len() - 1] == rows@[rows@.len() - 1]@);
                }
            }
            return Err(StoreError::InvalidRows);
        }
        let store = EntryStore { entries: rows, next_id };
        proof {
            let v = store@.rows;
            assert forall|k: int| 0 <= k < v.len() implies id_of(#[trigger] v[k]) < store@.next_id && v[k].wf() by {
                assert(v[k] == store.entries@[k]@);
            }
            assert forall|k: int, m: int|
                0 <= k < m < v.len() implies id_of(#[trigger] v[k]) < id_of(#[trigger] v[m]) by {
                assert(v[k] == store.entries@[k]@);
                assert(v[m] == store.entries@[m]@);
            }
        }
        Ok(store)
    }

}

impl EntryStore {
    /// Keeps the rows that `keep` accepts; `keep` is `other_id(id)` when
    /// `by_id`, else `other_sheet(sheet)`.
    fn retain_rows(&mut self, by_id: bool, id: usize, sheet: &str)
        requires
            old(self)@.wf(),
        ensures
            final(self)@ == (StoreView {
                rows: old(self)@.rows.filter(
                    if by_id {
                        other_id(id)
                    } else {
                        other_sheet(sheet@)
                    },
                ),
                ..old(self)@
            }),
            final(self)@.wf(),
    {
        let ghost keep = if by_id {
            other_id(id)
        } else {
            other_sheet(sheet@)
        };
        let ghost rows = self@.rows;
        let ghost next = self@.next_id;
        let mut kept: Vec<Entry> = Vec::new();
        let mut i: usize = 0;
        proof {
            assert(rows.take(0) =~= Seq::<EntryView>::empty());
            assert(views(kept@) =~= Seq::<EntryView>::empty());
        }
        while i < self.entries.len()
            invariant
                self.entries == old(self).entries,
                self.next_id == old(self).next_id,
                rows == old(self)@.rows,
                old(self)@.wf(),
                next == old(self)@.next_id,
                rows == views(self.entries@),
                i <= rows.len(),
                keep == (if by_id {
                    other_id(id)
                } else {
                    other_sheet(sheet@)
                }),
                views(kept@) == rows.take(i as int).filter(keep),
                all_wf(kept@),
                forall|k: int| 0 <= k < kept@.len() ==> (#[trigger] kept@[k])@.id is Some,
                forall|k: int| 0 <= k < kept@.len() ==> id_of((#[trigger] kept@[k])@) < next,
                forall|k: int, m: int|
                    0 <= k < m < kept@.len() ==> id_of((#[trigger] kept@[k])@) < id_of(
                        (#[trigger] kept@[m])@,
                    ),
                forall|k: int, m: int|
                    0 <= k < kept@.len() && i <= m < rows.len() ==> id_of(
                        (#[trigger] kept@[k])@,
                    ) < id_of(#[trigger] rows[m]),
            decreases rows.len() - i,
        {
            let drop = if by_id {
                self.entries[i].id == Some(id)
            } else {
                same_text(self.entries[i].sheet.as_str(), sheet)
            };
            let ghost before = kept@;
            proof {
                assert(rows[i as int] == self.entries@[i as int]@);
                assert(rows.take(i + 1) =~= rows.take(i as int).push(rows[i as int]));
                rows.take(i as int).lemma_filter_push(rows[i as int], keep);
                assert(drop == !keep(rows[i as int]));
            }
            if !drop {
                kept.push(self.entries[i].clone());
                proof {
                    assert(views(kept@) =~= views(before).push(rows[i as int]));
                }
            }
            i = i + 1;
        }
        proof {
            assert(rows.take(rows.len() as int) =~= rows);
        }
        self.entries = kept;
    }

    /// Whether row `i` is the newest running row of its sheet.
    fn is_head(&self, i: usize) -> (r: bool)
        requires
            i < self@.rows.len(),
        ensures
            r == is_running_head(self@.rows, i as int),
    {
        let ghost rows = self@.rows;
        proof {
            assert(rows[i as int] == self.entries@[i as int]@);
            assert(rows.len() == self.entries@.len());
        }
        if self.entries[i].end.is_some() {
            return false;
        }
        let n = self.entries.len();
        let mut j: usize = i + 1;
        while j < n
            invariant
                rows == views(self.entries@),
                n == rows.len(),
                i < j <= rows.len(),
                rows[i as int].is_running(),
                forall|k: int|
                    i < k < j ==> !(#[trigger] rows[k].is_running() && rows[k].sheet
                        == rows[i as int].sheet),
            decreases rows.len() - j,
        {
            proof {
                assert(rows[j as int] == self.entries@[j as int]@);
                assert(rows[i as int] == self.entries@[i as int]@);
            }
            if self.entries[j].end.is_none() && same_text(
                self.entries[j].sheet.as_str(),
                self.entries[i].sheet.as_str(),
            ) {
                proof {
                    assert(rows[j as int].is_running() && rows[j as int].sheet == rows[i as int].sheet);
                }
                return false;
            }
            j = j + 1;
        }
        true
    }
}

/// Stores `entry` under the next id and returns that id.
pub fn create_entry(entry: &Entry, db: &mut EntryStore) -> (r: Result<usize, StoreError>)
    requires
        old(db)@.wf(),
        entry@.wf(),
    ensures
        final(db)@.wf(),
        old(db)@.next_id < usize::MAX ==> r == Ok::<usize, StoreError>(
            old(db)@.next_id as usize,
        ) && final(db)@ == old(db)@.created(entry@),
        old(db)@.next_id == usize::MAX ==> r == Err::<usize, StoreError>(
            StoreError::IdsExhausted,
        ) && final(db)@ == old(db)@,
{
    if db.next_id == usize::MAX {
        return Err(StoreError::IdsExhausted);
    }
    let id = db.next_id;
    let mut stored = entry.clone();
    stored.id = Some(id);
    let ghost before = db.entries@;
    db.entries.push(stored);
    db.next_id = id + 1;
    proof {
        assert(views(db.entries@) =~= views(before).push(EntryView { id: Some(id), ..entry@ }));
    }
    Ok(id)
}
/// Writes `entry`'s fields over the row with its id; no row changes if
/// none has that id.
pub fn update_entry(entry: &Entry, db: &mut EntryStore)
    requires
        old(db)@.wf(),
        entry@.wf(),
        entry@.id is Some,
    ensures
        final(db)@ == old(db)@.updated(entry@),
        final(db)@.wf(),
{
    let ghost old_rows = db@.rows;
    let mut i: usize = 0;
    while i < db.entries.len()
        invariant
            entry@.id is Some,
            db.next_id == old(db).next_id,
            i <= db.entries@.len(),
            db.entries@.len() == old_rows.len(),
            old_rows == views(old(db).entries@),
            forall|k: int|
                0 <= k < i ==> (#[trigger] db.entries@[k])@ == (if old_rows[k].id == entry@.id {
                    entry@
                } else {
                    old_rows[k]
                }),
            forall|k: int| i <= k < old_rows.len() ==> (#[trigger] db.entries@[k])@ == old_rows[k],
        decreases old_rows.len() - i,
    {
        if db.entries[i].id == entry.id {
            db.entries[i] = entry.clone();
        }
        i = i + 1;
    }
    proof {
        assert(db@.rows =~= old(db)@.updated(entry@).rows);
        let v = db@.rows;
        assert forall|k: int| 0 <= k < v.len() implies id_of(#[trigger] v[k]) == id_of(old_rows[k]) && v[k].id is Some && v[k].wf() by {
            assert(v[k] == db.entries@[k]@);
        }
    }
}
/// Stores a new entry, or writes an existing one over its row; returns
/// the entry's id.
pub fn write_entry(entry: &Entry, db: &mut EntryStore) -> (r: Result<usize, StoreError>)
    requires
        old(db)@.wf(),
        entry@.wf(),
    ensures
        final(db)@.wf(),
        match entry@.id {
            None => if old(db)@.next_id < usize::MAX {
                r == Ok::<usize, StoreError>(old(db)@.next_id as usize) && final(db)@ == old(db)@.created(entry@)
            } else {
                r == Err::<usize, StoreError>(StoreError::IdsExhausted) && final(db)@ == old(db)@
            },
            Some(id) => r == Ok::<usize, StoreError>(id) && final(db)@ == old(db)@.updated(
                entry@,
            ),
        },
{
    match entry.id {
        None => create_entry(entry, db),
        Some(id) => {
            update_entry(entry, db);
            Ok(id)
        },
    }
}
/// Deletes the row with id `id`, if there is one.
pub fn remove_entry_by_id(id: usize, db: &mut EntryStore)
    requires
        old(db)@.wf(),
    ensures
        final(db)@ == old(db)@.without_id(id),
        final(db)@.wf(),
{
    db.retain_rows(true, id, "");
}
/// Deletes every row of sheet `sheet`.
pub fn remove_entries_by_sheet(sheet: &str, db: &mut EntryStore)
    requires
        old(db)@.wf(),
    ensures
        final(db)@ == old(db)@.without_sheet(sheet@),
        final(db)@.wf(),
{
    db.retain_rows(false, 0, sheet);
}
/// The row with id `id`.
pub fn get_entry_by_id(id: usize, db: &EntryStore) -> (r: Option<Entry>)
    requires
        db@.wf(),
    ensures
        match r {
            Some(e) => lookup(db@.rows, id) == Some(e@),
            None => lookup(db@.rows, id) is None,
        },
{
    let ghost rows = db@.rows;
    let mut found: Option<Entry> = None;
    let mut i: usize = 0;
    proof {
        assert(rows.take(0) =~= Seq::<EntryView>::empty());
    }
    while i < db.entries.len()
        invariant
            rows == views(db.entries@),
            i <= rows.len(),
            match found {
                Some(e) => lookup(rows.take(i as int), id) == Some(e@),
                None => lookup(rows.take(i as int), id) is None,
            },
        decreases rows.len() - i,
    {
        proof {
            assert(rows[i as int] == db.entries@[i as int]@);
            assert(rows.take(i + 1).drop_last() =~= rows.take(i as int));
        }
        if db.entries[i].id == Some(id) {
            found = Some(db.entries[i].clone());
        }
        i = i + 1;
    }
    proof {
        assert(rows.take(rows.len() as int) =~= rows);
    }
    found
}
/// The newest running row of sheet `sheet`. One sheet has at most one
/// running entry while the tracker's rules are kept; should it hold
/// more, the newest is taken.
pub fn running_entry(db: &EntryStore, sheet: &str) -> (r: Option<Entry>)
    requires
        db@.wf(),
    ensures
        match r {
            Some(e) => latest_running(db@.rows, sheet@) == Some(e@),
            None => latest_running(db@.rows, sheet@) is None,
        },
{
    let ghost rows = db@.rows;
    let mut found: Option<Entry> = None;
    let mut i: usize = 0;
    proof {
        assert(rows.take(0) =~= Seq::<EntryView>::empty());
    }
    while i < db.entries.len()
        invariant
            rows == views(db.entries@),
            i <= rows.len(),
            match found {
                Some(e) => latest_running(rows.take(i as int), sheet@) == Some(e@),
                None => latest_running(rows.take(i as int), sheet@) is None,
            },
        decreases rows.len() - i,
    {
        proof {
            assert(rows[i as int] == db.entries@[i as int]@);
            assert(rows.take(i + 1).drop_last() =~= rows.take(i as int));
        }
        if db.entries[i].end.is_none() && same_text(db.entries[i].sheet.as_str(), sheet) {
            found = Some(db.entries[i].clone());
        }
        i = i + 1;
    }
    proof {
        assert(rows.take(rows.len() as int) =~= rows);
    }
    found
}

/// The oldest running row of any sheet.
pub fn current_entry(db: &EntryStore) -> (r: Option<Entry>)
    requires
        db@.wf(),
    ensures
        match r {
            Some(e) => first_running(db@.rows) == Some(e@),
            None => first_running(db@.rows) is None,
        },
{
    let ghost rows = db@.rows;
    let mut i: usize = 0;
    proof {
        assert(rows.skip(0) =~= rows);
    }
    while i < db.entries.len()
        invariant
            rows == views(db.entries@),
            i <= rows.len(),
            first_running(rows.skip(i as int)) == first_running(rows),
        decreases rows.len() - i,
    {
        proof {
            assert(rows[i as int] == db.entries@[i as int]@);
            assert(rows.skip(i as int)[0] == rows[i as int]);
            assert(rows.skip(i as int).skip(1) =~= rows.skip(i + 1));
        }
        if db.entries[i].end.is_none() {
            return Some(db.entries[i].clone());
        }
        i = i + 1;
    }
    proof {
        assert(rows.skip(i as int).len() == 0);
    }
    None
}
/// The newest running row of each sheet that has one, in table order.
pub fn running_entries(db: &EntryStore) -> (r: Vec<Entry>)
    requires
        db@.wf(),
    ensures
        views(r@) == running_heads(db@.rows, db@.rows.len() as int),
{
    let ghost rows = db@.rows;
    let mut out: Vec<Entry> = Vec::new();
    let mut i: usize = 0;
    proof {
        assert(views(out@) =~= Seq::<EntryView>::empty());
    }
    while i < db.entries.len()
        invariant
            rows == views(db.entries@),
            i <= rows.len(),
            views(out@) == running_heads(rows, i as int),
        decreases rows.len() - i,
    {
        let ghost before = out@;
        proof {
            assert(rows[i as int] == db.entries@[i as int]@);
        }
        if db.is_head(i) {
            out.push(db.entries[i].clone());
            proof {
                assert(views(out@) =~= views(before).push(rows[i as int]));
            }
        }
        i = i + 1;
    }
    out
}
/// The rows of sheet `sheet`, in table order.
pub fn get_sheet_entries(sheet: &str, db: &EntryStore) -> (r: Vec<Entry>)
    requires
        db@.wf(),
    ensures
        views(r@) == db@.of_sheet(sheet@),
        all_wf(r@),
{
    let ghost rows = db@.rows;
    let ghost pick = in_sheet(sheet@);
    let mut out: Vec<Entry> = Vec::new();
    let mut i: usize = 0;
    proof {
        assert(rows.take(0) =~= Seq::<EntryView>::empty());
        assert(views(out@) =~= Seq::<EntryView>::empty());
    }
    while i < db.entries.len()
        invariant
            rows == views(db.entries@),
            pick == in_sheet(sheet@),
            db@.wf(),
            all_wf(out@),
            i <= rows.len(),
            views(out@) == rows.take(i as int).filter(pick),
        decreases rows.len() - i,
    {
        let ghost before = out@;
        proof {
            assert(rows[i as int] == db.entries@[i as int]@);
            assert(rows.take(i + 1) =~= rows.take(i as int).push(rows[i as int]));
            rows.take(i as int).lemma_filter_push(rows[i as int], pick);
        }
        if same_text(db.entries[i].sheet.as_str(), sheet) {
            out.push(db.entries[i].clone());
            proof {
                assert(views(out@) =~= views(before).push(rows[i as int]));
            }
        }
        i = i + 1;
    }
    proof {
        assert(rows.take(rows.len() as int) =~= rows);
    }
    out
}
/// Every row, in table order.
pub fn get_all_entries(db: &EntryStore) -> (r: Vec<Entry>)
    requires
        db@.wf(),
    ensures
        views(r@) == db@.rows,
        all_wf(r@),
{
    let ghost rows = db@.rows;
    let mut out: Vec<Entry> = Vec::new();
    let mut i: usize = 0;
    while i < db.entries.len()
        invariant
            rows == views(db.entries@),
            i <= rows.len(),
            views(out@) == rows.take(i as int),
            db@.wf(),
            all_wf(out@),
        decreases rows.len() - i,
    {
        let ghost before = out@;
        proof {
            assert(rows[i as int] == db.entries@[i as int]@);
        }
        out.push(db.entries[i].clone());
        proof {
            assert(views(out@) =~= views(before).push(rows[i as int]));
            assert(rows.take(i + 1) =~= rows.take(i as int).push(rows[i as int]));
        }
        i = i + 1;
    }
    proof {
        assert(rows.take(rows.len() as int) =~= rows);
    }
    out
}
/// The name of every sheet that holds a row, once each, in the order
/// in which they first appear.
pub fn get_all_sheets(db: &EntryStore) -> (r: Vec<String>)
    requires
        db@.wf(),
    ensures
        names_of(r@) == distinct_sheets(db@.rows),
        names_of(r@).no_duplicates(),
        forall|n: Seq<char>| names_of(r@).contains(n) <==> db@.sheet_names().contains(n),
{
    let ghost rows = db@.rows;
    let mut out: Vec<String> = Vec::new();
    let mut i: usize = 0;
    proof {
        assert(rows.take(0) =~= Seq::<EntryView>::empty());
        assert(names_of(out@) =~= Seq::<Seq<char>>::empty());
    }
    while i < db.entries.len()
        invariant
            rows == views(db.entries@),
            i <= rows.len(),
            names_of(out@) == distinct_sheets(rows.take(i as int)),
            names_of(out@).no_duplicates(),
            forall|n: Seq<char>|
                names_of(out@).contains(n) <==> exists|j: int|
                    0 <= j < i && (#[trigger] rows[j]).sheet == n,
        decreases rows.len() - i,
    {
        let ghost before = names_of(out@);
        proof {
            assert(rows[i as int] == db.entries@[i as int]@);
        }
        let known = contains_text(&out, db.entries[i].sheet.as_str());
        proof {
            if known {
                let k = choose|k: int| 0 <= k < out@.len() && (#[trigger] out@[k])@ == db.entries@[i as int].sheet@;
                assert(before[k] == out@[k]@);
            } else {
                assert forall|k: int| 0 <= k < before.len() implies before[k] != rows[i as int].sheet by {
                    assert(before[k] == out@[k]@);
                }
            }
        }
        if !known {
            out.push(db.entries[i].sheet.clone());
            proof {
                assert(names_of(out@) =~= before.push(rows[i as int].sheet));
            }
        }
        proof {
            if known {
                let k = choose|k: int| 0 <= k < out@.len() && (#[trigger] out@[k])@ == db.entries@[i as int].sheet@;
                assert(before[k] == rows[i as int].sheet);
                assert(before.contains(rows[i as int].sheet));
            } else {
                assert(!before.contains(rows[i as int].sheet));
            }
            let upto = rows.take(i + 1);
            assert(upto.drop_last() =~= rows.take(i as int));
            assert(upto.last() == rows[i as int]);
            assert(before == distinct_sheets(rows.take(i as int)));
            assert(distinct_sheets(upto) == (if before.contains(rows[i as int].sheet) {
                before
            } else {
                before.push(rows[i as int].sheet)
            }));
            assert(names_of(out@) == distinct_sheets(rows.take(i + 1)));
        }
        proof {
            assert forall|n: Seq<char>| names_of(out@).contains(n) <==> exists|j: int|
                0 <= j < i + 1 && (#[trigger] rows[j]).sheet == n by {
                if names_of(out@).contains(n) && n != rows[i as int].sheet {
                    let k = choose|k: int| 0 <= k < names_of(out@).len() && names_of(out@)[k] == n;
                    assert(before.contains(n)) by {
                        assert(k < before.len());
                        assert(before[k] == n);
                    }
                }
                if n == rows[i as int].sheet {
                    if known {
                        assert(names_of(out@) == before);
                    } else {
                        assert(names_of(out@)[before.len() as int] == n);
                    }
                } else if exists|j: int| 0 <= j < i + 1 && (#[trigger] rows[j]).sheet == n {
                    let j = choose|j: int| 0 <= j < i + 1 && (#[trigger] rows[j]).sheet == n;
                    assert(j < i);
                    assert(before.contains(n));
                    let k = choose|k: int| 0 <= k < before.len() && before[k] == n;
                    assert(names_of(out@)[k] == n);
                }
            }
        }
        i = i + 1;
    }
    proof {
        assert(rows.take(rows.len() as int) =~= rows);
    }
    out
}
/// Renames sheet `old_name` to `new_name` in every row.
pub fn update_sheet_name(old_name: &str, new_name: &str, db: &mut EntryStore)
    requires
        old(db)@.wf(),
        new_name@.len() > 0,
    ensures
        final(db)@ == old(db)@.with_sheet_renamed(old_name@, new_name@),
        final(db)@.wf(),
{
    let ghost old_rows = db@.rows;
    let mut i: usize = 0;
    while i < db.entries.len()
        invariant
            db.next_id == old(db).next_id,
            i <= db.entries@.len(),
            db.entries@.len() == old_rows.len(),
            old_rows == views(old(db).entries@),
            forall|k: int|
                0 <= k < i ==> (#[trigger] db.entries@[k])@ == (if old_rows[k].sheet
                    == old_name@ {
                    EntryView { sheet: new_name@, ..old_rows[k] }
                } else {
                    old_rows[k]
                }),
            forall|k: int| i <= k < old_rows.len() ==> (#[trigger] db.entries@[k])@ == old_rows[k],
        decreases old_rows.len() - i,
    {
        if same_text(db.entries[i].sheet.as_str(), old_name) {
            let mut e = db.entries[i].clone();
            e.sheet = new_name.to_owned();
            db.entries[i] = e;
        }
        i = i + 1;
    }
    proof {
        assert(db@.rows =~= old(db)@.with_sheet_renamed(old_name@, new_name@).rows);
        let v = db@.rows;
        assert forall|k: int| 0 <= k < v.len() implies id_of(#[trigger] v[k]) == id_of(old_rows[k]) && v[k].id is Some && v[k].wf() by {
            assert(v[k] == db.entries@[k]@);
        }
    }
}

/// Once the rows of a sheet are deleted, that sheet is no longer among
/// the sheet names.
pub proof fn lemma_deleted_sheet_is_gone(s: StoreView, sheet: Seq<char>)
    requires
        s.wf(),
    ensures
        !s.without_sheet(sheet).sheet_names().contains(sheet),
{
    let rows = s.without_sheet(sheet).rows;
    assert forall|i: int| 0 <= i < rows.len() implies (#[trigger] rows[i]).sheet != sheet by {
        assert(other_sheet(sheet)(rows[i]));
    }
}

/// An entry without an id, once stored, is found under the id it was given
/// with all its other fields as they were.
pub proof fn lemma_created_entry_is_found(s: StoreView, e: EntryView)
    requires
        s.wf(),
        e.id is None,
        s.next_id < usize::MAX,
    ensures
        lookup(s.created(e).rows, s.next_id as usize) matches Some(found) && found.id == Some(
            s.next_id as usize,
        ) && found.start == e.start && found.end == e.end && found.name == e.name && found.sheet
            == e.sheet,
{
}


/// The newest running row of a sheet is a running row of that sheet.
pub proof fn lemma_latest_running_is_row(rows: Seq<EntryView>, sheet: Seq<char>)
    ensures
        latest_running(rows, sheet) matches Some(e) ==> exists|i: int|
            0 <= i < rows.len() && rows[i] == e && e.is_running() && e.sheet == sheet,
    decreases rows.len(),
{
    if rows.len() > 0 && !(rows.last().is_running() && rows.last().sheet == sheet) {
        let d = rows.drop_last();
        lemma_latest_running_is_row(d, sheet);
        if latest_running(d, sheet) is Some {
            let i = choose|i: int| 0 <= i < d.len() && d[i] == latest_running(d, sheet)->Some_0;
            assert(rows[i] == d[i]);
        }
    } else if rows.len() > 0 {
        assert(rows[rows.len() - 1] == rows.last());
    }
}

/// The oldest running row is a running row.
pub proof fn lemma_first_running_is_row(rows: Seq<EntryView>)
    ensures
        first_running(rows) matches Some(e) ==> exists|i: int|
            0 <= i < rows.len() && rows[i] == e && e.is_running(),
    decreases rows.len(),
{
    if rows.len() > 0 && !rows[0].is_running() {
        let t = rows.skip(1);
        lemma_first_running_is_row(t);
        if first_running(t) is Some {
            let i = choose|i: int| 0 <= i < t.len() && t[i] == first_running(t)->Some_0;
            assert(rows[i + 1] == t[i]);
        }
    }
}

/// The row found under an id is a row of the table.
pub proof fn lemma_lookup_is_row(rows: Seq<EntryView>, id: usize)
    ensures
        lookup(rows, id) matches Some(e) ==> exists|i: int| 0 <= i < rows.len() && rows[i] == e,
        lookup(rows, id) matches Some(e) ==> e.id == Some(id),
    decreases rows.len(),
{
    if rows.len() > 0 && rows.last().id != Some(id) {
        let d = rows.drop_last();
        lemma_lookup_is_row(d, id);
        if lookup(d, id) is Some {
            let i = choose|i: int| 0 <= i < d.len() && d[i] == lookup(d, id)->Some_0;
            assert(rows[i] == d[i]);
        }
    } else if rows.len() > 0 {
        assert(rows[rows.len() - 1] == rows.last());
    }
}

} // verus!
