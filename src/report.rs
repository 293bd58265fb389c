//! The query engine: sorts a sheet's entries by start, keeps those whose
//! start lies within optional bounds, groups them by local calendar day and
//! sums their durations per day and in all.

use vstd::arithmetic::div_mod::{lemma_fundamental_div_mod, lemma_fundamental_div_mod_converse_div};
use vstd::prelude::*;

use crate::entry::{all_wf, Entry, EntryView};
use crate::store::{first_running, views};
use crate::time::{
    day_begin, day_end, time_from_now, Duration, TimeError, Timestamp, LAST_NANO, MAX_SECS,
    MIN_SECS,
};

verus! {

broadcast use vstd::seq_lib::group_filter_ensures, vstd::seq_lib::group_to_multiset_ensures;

/// `s` with `e` inserted after every element that starts no later than `e`
/// does, counting from the end.
pub open spec fn insert_by_start(s: Seq<EntryView>, e: EntryView) -> Seq<EntryView>
    decreases s.len(),
{
    if s.len() == 0 {
        seq![e]
    } else if e.start.instant() < s.last().start.instant() {
        insert_by_start(s.drop_last(), e).push(s.last())
    } else {
        s.push(e)
    }
}

/// `s` sorted by start instant; entries that start together keep their
/// order.
pub open spec fn sorted_by_start(s: Seq<EntryView>) -> Seq<EntryView>
    decreases s.len(),
{
    if s.len() == 0 {
        s
    } else {
        insert_by_start(sorted_by_start(s.drop_last()), s.last())
    }
}

proof fn lemma_insert_at(s: Seq<EntryView>, e: EntryView, p: int)
    requires
        0 <= p <= s.len(),
        forall|k: int| p <= k < s.len() ==> e.start.instant() < (#[trigger] s[k]).start.instant(),
        p == 0 || s[p - 1].start.instant() <= e.start.instant(),
    ensures
        insert_by_start(s, e) == s.take(p).push(e) + s.skip(p),
    decreases s.len(),
{
    if p == s.len() {
        if s.len() > 0 {
            assert(s.take(p) =~= s);
        }
        assert(s.skip(p) =~= Seq::<EntryView>::empty());
        assert(s.take(p).push(e) + s.skip(p) =~= s.push(e));
    } else {
        let d = s.drop_last();
        lemma_insert_at(d, e, p);
        assert(d.take(p) =~= s.take(p));
        assert(d.skip(p).push(s.last()) =~= s.skip(p));
        assert(s.take(p).push(e) + s.skip(p) =~= (d.take(p).push(e) + d.skip(p)).push(s.last()));
    }
}

/// Whether the entries' starts never decrease.
pub open spec fn starts_in_order(s: Seq<EntryView>) -> bool {
    forall|i: int, j: int|
        0 <= i < j < s.len() ==> (#[trigger] s[i]).start.instant() <= (#[trigger] s[j]).start.instant()
}

proof fn lemma_insert_in_order(t: Seq<EntryView>, e: EntryView, b: int)
    requires
        starts_in_order(t),
        forall|k: int| 0 <= k < t.len() ==> (#[trigger] t[k]).start.instant() <= b,
        e.start.instant() <= b,
    ensures
        starts_in_order(insert_by_start(t, e)),
        forall|k: int|
            0 <= k < insert_by_start(t, e).len() ==> (#[trigger] insert_by_start(t, e)[k]).start.instant()
                <= b,
        insert_by_start(t, e).to_multiset() == t.to_multiset().insert(e),
    decreases t.len(),
{
    if t.len() == 0 {
        assert(seq![e] =~= Seq::<EntryView>::empty().push(e));
    } else if e.start.instant() < t.last().start.instant() {
        let d = t.drop_last();
        let last = t.last();
        assert(t =~= d.push(last));
        lemma_insert_in_order(d, e, last.start.instant());
        let r = insert_by_start(d, e);
        assert(insert_by_start(t, e) == r.push(last));
        assert(r.push(last).to_multiset() =~= r.to_multiset().insert(last));
        assert(t.to_multiset() =~= d.to_multiset().insert(last));
    } else {
        assert(t.push(e).to_multiset() =~= t.to_multiset().insert(e));
        assert forall|i: int, j: int|
            0 <= i < j < t.push(e).len() implies (#[trigger] t.push(e)[i]).start.instant() <= (
            #[trigger] t.push(e)[j]).start.instant() by {
            if j == t.len() {
                assert(t[i].start.instant() <= t.last().start.instant());
            }
        }
    }
}

/// Sorting by start puts the starts in order and keeps every entry, each
/// as often as it occurs.
pub proof fn lemma_sorted_by_start(s: Seq<EntryView>)
    ensures
        starts_in_order(sorted_by_start(s)),
        sorted_by_start(s).to_multiset() == s.to_multiset(),
    decreases s.len(),
{
    if s.len() > 0 {
        let d = s.drop_last();
        let e = s.last();
        lemma_sorted_by_start(d);
        let t = sorted_by_start(d);
        let b = if t.len() > 0 && e.start.instant() <= t.last().start.instant() {
            t.last().start.instant()
        } else {
            e.start.instant()
        };
        assert forall|k: int| 0 <= k < t.len() implies (#[trigger] t[k]).start.instant() <= b by {
            if k < t.len() - 1 {
                assert(t[k].start.instant() <= t[t.len() - 1].start.instant());
            }
        }
        lemma_insert_in_order(t, e, b);
        assert(s =~= d.push(e));
        assert(s.to_multiset() =~= d.to_multiset().insert(e));
    }
}

/// The entries sorted by start instant; entries that start together keep
/// their order.
pub fn sort_by_start(entries: &Vec<Entry>) -> (r: Vec<Entry>)
    requires
        all_wf(entries@),
    ensures
        views(r@) == sorted_by_start(views(entries@)),
        starts_in_order(views(r@)),
        views(r@).to_multiset() == views(entries@).to_multiset(),
        all_wf(r@),
{
    proof {
        lemma_sorted_by_start(views(entries@));
    }
    let ghost s = views(entries@);
    let mut out: Vec<Entry> = Vec::new();
    let mut i: usize = 0;
    proof {
        assert(s.take(0) =~= Seq::<EntryView>::empty());
        assert(views(out@) =~= Seq::<EntryView>::empty());
    }
    while i < entries.len()
        invariant
            s == views(entries@),
            i <= s.len(),
            views(out@) == sorted_by_start(s.take(i as int)),
            all_wf(entries@),
            all_wf(out@),
        decreases s.len() - i,
    {
        let e = entries[i].clone();
        let ghost sorted = views(out@);
        let mut p: usize = out.len();
        proof {
            assert(e@ == entries@[i as int]@);
        }
        while p > 0 && e.start.is_before(&out[p - 1].start)
            invariant
                p <= out@.len(),
                sorted == views(out@),
                all_wf(out@),
                e@.wf(),
                forall|k: int| p <= k < sorted.len() ==> e@.start.instant() < (#[trigger] sorted[k]).start.instant(),
            decreases p,
        {
            proof {
                assert(sorted[p - 1] == out@[p - 1]@);
            }
            p = p - 1;
        }
        proof {
            if p > 0 {
                assert(sorted[p - 1] == out@[p - 1]@);
            }
            lemma_insert_at(sorted, e@, p as int);
            assert(s.take(i + 1).drop_last() =~= s.take(i as int));
            assert(s.take(i + 1).last() == s[i as int]);
            assert(s[i as int] == entries@[i as int]@);
        }
        let ghost before = out@;
        out.insert(p, e);
        proof {
            assert(views(out@) =~= sorted.take(p as int).push(e@) + sorted.skip(p as int));
            assert forall|k: int| 0 <= k < out@.len() implies (#[trigger] out@[k])@.wf() by {
                if k < p {
                    assert(out@[k] == before[k]);
                } else if k > p {
                    assert(out@[k] == before[k - 1]);
                }
            }
        }
        i = i + 1;
    }
    proof {
        assert(s.take(s.len() as int) =~= s);
    }
    out
}


/// Entries whose start lies within the optional inclusive bounds; the end
/// of an entry plays no part.
pub open spec fn starts_within(lower: Option<Timestamp>, upper: Option<Timestamp>) -> spec_fn(
    EntryView,
) -> bool {
    |e: EntryView|
        (lower matches Some(lo) ==> lo.instant() <= e.start.instant()) && (upper matches Some(hi)
            ==> e.start.instant() <= hi.instant())
}

/// The entries whose start lies within the optional inclusive bounds, in
/// their order.
pub fn filter_by_start(entries: &Vec<Entry>, lower: Option<Timestamp>, upper: Option<Timestamp>) -> (r:
    Vec<Entry>)
    requires
        all_wf(entries@),
        lower matches Some(l) ==> l.wf(),
        upper matches Some(u) ==> u.wf(),
    ensures
        views(r@) == views(entries@).filter(starts_within(lower, upper)),
        all_wf(r@),
{
    let ghost s = views(entries@);
    let ghost keep = starts_within(lower, upper);
    let mut out: Vec<Entry> = Vec::new();
    let mut i: usize = 0;
    proof {
        assert(s.take(0) =~= Seq::<EntryView>::empty());
        assert(views(out@) =~= Seq::<EntryView>::empty());
    }
    while i < entries.len()
        invariant
            s == views(entries@),
            keep == starts_within(lower, upper),
            i <= s.len(),
            views(out@) == s.take(i as int).filter(keep),
            all_wf(entries@),
            lower matches Some(l) ==> l.wf(),
            upper matches Some(u) ==> u.wf(),
            all_wf(out@),
        decreases s.len() - i,
    {
        let ghost before = out@;
        proof {
            assert(s[i as int] == entries@[i as int]@);
            assert(s.take(i + 1) =~= s.take(i as int).push(s[i as int]));
            s.take(i as int).lemma_filter_push(s[i as int], keep);
        }
        let start = entries[i].start;
        let after_lower = match lower {
            Some(lo) => !start.is_before(&lo),
            None => true,
        };
        let before_upper = match upper {
            Some(hi) => !hi.is_before(&start),
            None => true,
        };
        if after_lower && before_upper {
            out.push(entries[i].clone());
            proof {
                assert(views(out@) =~= views(before).push(s[i as int]));
            }
        }
        i = i + 1;
    }
    proof {
        assert(s.take(s.len() as int) =~= s);
    }
    out
}

/// How an entry stands to the one before it in a listing grouped by day.
#[derive(Clone, Copy, Debug, PartialEq, Eq, Structural)]
pub enum DayMark {
    /// The first entry: its date is shown.
    FirstDay,
    /// Same day as the entry before: its date is not shown again.
    SameDay,
    /// A new day: the previous day's subtotal closes, and the date is shown.
    NewDay,
}

/// The mark of an entry on local day `day`, after an entry on day `prev`
/// (none for the first entry).
pub open spec fn spec_day_mark(prev: Option<int>, day: int) -> DayMark {
    match prev {
        None => DayMark::FirstDay,
        Some(p) => if p == day {
            DayMark::SameDay
        } else {
            DayMark::NewDay
        },
    }
}

/// The mark of an entry on local day `day`, after an entry on day `prev`.
pub fn day_mark(prev: Option<i64>, day: i64) -> (r: DayMark)
    ensures
        r == spec_day_mark(
            match prev {
                Some(p) => Some(p as int),
                None => None,
            },
            day as int,
        ),
{
    match prev {
        None => DayMark::FirstDay,
        Some(p) => if p == day {
            DayMark::SameDay
        } else {
            DayMark::NewDay
        },
    }
}

/// One local calendar day of a listing, as a value; the subtotal is in
/// nanoseconds.
pub struct GroupView {
    pub day: int,
    pub entries: Seq<EntryView>,
    pub subtotal: int,
}

/// One local calendar day of a listing: its day number (days since
/// 1970-01-01), its entries in order, and the exact sum of their durations.
#[derive(Debug)]
pub struct DayGroup {
    pub day: i64,
    pub entries: Vec<Entry>,
    pub subtotal: Duration,
}

impl View for DayGroup {
    type V = GroupView;

    open spec fn view(&self) -> GroupView {
        GroupView {
            day: self.day as int,
            entries: views(self.entries@),
            subtotal: self.subtotal.total(),
        }
    }
}

/// A listing as a value; the total is in nanoseconds.
pub struct ReportView {
    pub groups: Seq<GroupView>,
    pub total: int,
}

/// A listing: the day groups in order and the exact sum of all durations.
#[derive(Debug)]
pub struct Report {
    pub groups: Vec<DayGroup>,
    pub total: Duration,
}

pub open spec fn group_views(v: Seq<DayGroup>) -> Seq<GroupView> {
    v.map_values(|g: DayGroup| g@)
}

impl View for Report {
    type V = ReportView;

    open spec fn view(&self) -> ReportView {
        ReportView { groups: group_views(self.groups@), total: self.total.total() }
    }
}

/// Runs of entries that start on the same local day, with the sum of
/// their durations measured at `now`.
pub open spec fn grouped(s: Seq<EntryView>, now: Timestamp) -> Seq<GroupView>
    decreases s.len(),
{
    if s.len() == 0 {
        Seq::empty()
    } else {
        let g = grouped(s.drop_last(), now);
        let e = s.last();
        if g.len() > 0 && g.last().day == e.start.day() {
            g.update(
                g.len() - 1,
                GroupView {
                    entries: g.last().entries.push(e),
                    subtotal: g.last().subtotal + e.duration(now),
                    ..g.last()
                },
            )
        } else {
            g.push(GroupView { day: e.start.day(), entries: seq![e], subtotal: e.duration(now) })
        }
    }
}

/// The sum of the entries' durations measured at `now`.
pub open spec fn total_duration(s: Seq<EntryView>, now: Timestamp) -> int
    decreases s.len(),
{
    if s.len() == 0 {
        0
    } else {
        total_duration(s.drop_last(), now) + s.last().duration(now)
    }
}

/// The listing of entries `s`, in the order given, measured at `now`.
pub open spec fn report_of(s: Seq<EntryView>, now: Timestamp) -> ReportView {
    ReportView { groups: grouped(s, now), total: total_duration(s, now) }
}

/// Bound on the whole seconds of any entry's length.
spec fn span() -> int {
    MAX_SECS - MIN_SECS + 1
}

/// The sum of fewer than `usize::MAX + 1` entry lengths, and one more, fits
/// an `i128`.
proof fn lemma_sum_fits(i: int)
    requires
        0 <= i <= usize::MAX,
    ensures
        i128::MIN <= -(i * span()) - span(),
        i * span() + span() + 1 <= i128::MAX,
        (i + 1) * span() == i * span() + span(),
        0 <= i * span(),
{
    let k = span();
    assert((i + 1) * k == i * k + k) by (nonlinear_arith);
    assert(0 <= i * k) by (nonlinear_arith)
        requires
            0 <= i,
            0 < k,
    ;
    assert(0 < k < 0x1_0000_0000_0000);
    assert(i * k <= 0x1_0000_0000_0000_0000 * k) by (nonlinear_arith)
        requires
            0 <= i <= 0x1_0000_0000_0000_0000,
            0 < k,
    ;
}

/// Groups entries, in the order given, into runs that start on the same
/// local day, and sums their durations measured at `now`.
pub fn group_by_day(entries: Vec<Entry>, now: &Timestamp) -> (r: Report)
    requires
        all_wf(entries@),
        now.wf(),
    ensures
        r@ == report_of(views(entries@), *now),
{
    let ghost s = views(entries@);
    let mut done: Vec<DayGroup> = Vec::new();
    let mut current: Option<DayGroup> = None;
    let mut prev_day: Option<i64> = None;
    let mut total = Duration::zero();
    let mut i: usize = 0;
    proof {
        assert(s.take(0) =~= Seq::<EntryView>::empty());
    }
    while i < entries.len()
        invariant
            s == views(entries@),
            forall|k: int| 0 <= k < entries@.len() ==> (#[trigger] entries@[k])@.wf(),
            now.wf(),
            i <= s.len(),
            total.wf(),
            total.total() == total_duration(s.take(i as int), *now),
            -(i * span()) <= total.secs <= i * span(),
            match current {
                None => i == 0 && done@.len() == 0 && prev_day is None,
                Some(g) => {
                    &&& group_views(done@).push(g@) == grouped(s.take(i as int), *now)
                    &&& prev_day == Some(g.day)
                    &&& g.subtotal.wf()
                    &&& -(i * span()) <= g.subtotal.secs <= i * span()
                },
            },
        decreases s.len() - i,
    {
        let ghost before = s.take(i as int);
        proof {
            assert(s[i as int] == entries@[i as int]@);
            assert(s.take(i + 1).drop_last() =~= before);
            assert(s.take(i + 1).last() == s[i as int]);
        }
        let e = entries[i].clone();
        let d = e.get_duration(now);
        let day = e.start.local_day();
        proof {
            lemma_sum_fits(i as int);
        }
        total = total.add(&d);
        match day_mark(prev_day, day) {
            DayMark::SameDay => {
                let mut g = current.unwrap();
                let ghost old_g = g@;
                g.entries.push(e);
                g.subtotal = g.subtotal.add(&d);
                proof {
                    assert(g@.entries =~= old_g.entries.push(s[i as int]));
                    assert(group_views(done@).push(g@) =~= grouped(s.take(i as int), *now).update(
                        grouped(s.take(i as int), *now).len() - 1,
                        g@,
                    ));
                }
                current = Some(g);
            },
            _ => {
                let ghost prefix = grouped(s.take(i as int), *now);
                match current {
                    Some(g) => {
                        done.push(g);
                        proof {
                            assert(group_views(done@) =~= prefix);
                        }
                    },
                    None => {
                        proof {
                            assert(group_views(done@) =~= prefix);
                        }
                    },
                }
                let mut fresh: Vec<Entry> = Vec::new();
                fresh.push(e);
                let g = DayGroup { day, entries: fresh, subtotal: d };
                proof {
                    assert(g@.entries =~= seq![s[i as int]]);
                    assert(group_views(done@).push(g@) =~= prefix.push(g@));
                }
                current = Some(g);
            },
        }
        prev_day = Some(day);
        i = i + 1;
    }
    let ghost finished = group_views(done@);
    match current {
        Some(g) => {
            let ghost gv = g@;
            done.push(g);
            proof {
                assert(group_views(done@) =~= finished.push(gv));
            }
        },
        None => {},
    }
    proof {
        assert(s.take(s.len() as int) =~= s);
        if s.len() == 0 {
            assert(group_views(done@) =~= Seq::<GroupView>::empty());
        }
    }
    Report { groups: done, total }
}


/// The sum of the subtotals of day groups.
pub open spec fn subtotal_sum(g: Seq<GroupView>) -> int
    decreases g.len(),
{
    if g.len() == 0 {
        0
    } else {
        subtotal_sum(g.drop_last()) + g.last().subtotal
    }
}

/// The total of a listing is the sum of its day subtotals, and each day's
/// subtotal is the total of that day's entries.
pub proof fn lemma_total_is_sum_of_subtotals(s: Seq<EntryView>, now: Timestamp)
    ensures
        subtotal_sum(grouped(s, now)) == total_duration(s, now),
        forall|i: int|
            0 <= i < grouped(s, now).len() ==> (#[trigger] grouped(s, now)[i]).subtotal
                == total_duration(grouped(s, now)[i].entries, now),
    decreases s.len(),
{
    if s.len() > 0 {
        let d = s.drop_last();
        lemma_total_is_sum_of_subtotals(d, now);
        let g = grouped(d, now);
        let e = s.last();
        if g.len() > 0 && g.last().day == e.start.day() {
            let last = g.last();
            let g2 = grouped(s, now);
            assert(g2.drop_last() =~= g.drop_last());
            assert(last.entries.push(e).drop_last() =~= last.entries);
            assert(g[g.len() - 1].subtotal == total_duration(g[g.len() - 1].entries, now));
            assert forall|i: int| 0 <= i < g2.len() implies (#[trigger] g2[i]).subtotal
                == total_duration(g2[i].entries, now) by {
                if i < g.len() - 1 {
                    assert(g2[i] == g[i]);
                }
            }
        } else {
            let g2 = grouped(s, now);
            assert(g2.drop_last() =~= g);
            assert(seq![e].drop_last() =~= Seq::<EntryView>::empty());
            assert forall|i: int| 0 <= i < g2.len() implies (#[trigger] g2[i]).subtotal
                == total_duration(g2[i].entries, now) by {
                if i < g.len() {
                    assert(g2[i] == g[i]);
                } else {
                    assert(g2[i].entries == seq![e]);
                    assert(total_duration(Seq::<EntryView>::empty(), now) == 0);
                    assert(total_duration(seq![e], now) == total_duration(seq![e].drop_last(), now)
                        + e.duration(now));
                }
            }
        }
    }
}

/// Whether `b` is the bound `given` widened to its whole local day: to its
/// first instant, or to its last when `at_end`.
pub open spec fn whole_day_bound(given: Option<Timestamp>, b: Option<Timestamp>, at_end: bool) -> bool {
    match given {
        None => b is None,
        Some(t) => b matches Some(x) && x.wf() && if at_end {
            x.wall() == t.day() * 86400 + 86399 && x.nanos == LAST_NANO
        } else {
            x.wall() == t.day() * 86400 && x.nanos == 0
        },
    }
}

/// The bounds that filtering compares with: as given, or, for whole-day
/// filtering, the lower bound moved to 00:00:00 and the upper to 23:59:59
/// of their local days.
pub fn expand_bounds(lower: Option<Timestamp>, upper: Option<Timestamp>, date_only: bool) -> (r:
    Result<(Option<Timestamp>, Option<Timestamp>), TimeError>)
    requires
        lower matches Some(l) ==> l.wf(),
        upper matches Some(u) ==> u.wf(),
    ensures
        !date_only ==> r == Ok::<(Option<Timestamp>, Option<Timestamp>), TimeError>((lower, upper)),
        date_only ==> match r {
            Ok((lo, hi)) => whole_day_bound(lower, lo, false) && whole_day_bound(upper, hi, true),
            Err(e) => e == TimeError::UnresolvedLocalTime && (lower is Some || upper is Some),
        },
{
    if !date_only {
        return Ok((lower, upper));
    }
    let lo = match lower {
        Some(l) => match day_begin(&l) {
            Ok(b) => Some(b),
            Err(e) => {
                return Err(e);
            },
        },
        None => None,
    };
    let hi = match upper {
        Some(u) => match day_end(&u) {
            Ok(b) => Some(b),
            Err(e) => {
                return Err(e);
            },
        },
        None => None,
    };
    Ok((lo, hi))
}

/// The listing of a sheet's entries between two optional inclusive bounds
/// on their start: sorted by start, filtered, grouped by local day, and
/// measured at `now`.
pub fn filter_and_group_within(
    entries: &Vec<Entry>,
    lower: Option<Timestamp>,
    upper: Option<Timestamp>,
    now: &Timestamp,
) -> (r: Report)
    requires
        all_wf(entries@),
        now.wf(),
        lower matches Some(l) ==> l.wf(),
        upper matches Some(u) ==> u.wf(),
    ensures
        r@ == report_of(sorted_by_start(views(entries@)).filter(starts_within(lower, upper)), *now),
{
    let sorted = sort_by_start(entries);
    let kept = filter_by_start(&sorted, lower, upper);
    group_by_day(kept, now)
}

/// The listing of a sheet's entries: sorted by start, filtered by the
/// optional bounds (widened to whole local days when `date_only`), grouped
/// by local day, and measured at `now`.
pub fn filter_and_group(
    entries: &Vec<Entry>,
    lower: Option<Timestamp>,
    upper: Option<Timestamp>,
    date_only: bool,
    now: &Timestamp,
) -> (r: Result<Report, TimeError>)
    requires
        all_wf(entries@),
        now.wf(),
        lower matches Some(l) ==> l.wf(),
        upper matches Some(u) ==> u.wf(),
    ensures
        !date_only ==> (r matches Ok(rep) && rep@ == report_of(
            sorted_by_start(views(entries@)).filter(starts_within(lower, upper)),
            *now,
        )),
        date_only ==> match r {
            Ok(rep) => exists|lo: Option<Timestamp>, hi: Option<Timestamp>|
                whole_day_bound(lower, lo, false) && whole_day_bound(upper, hi, true) && rep@
                    == report_of(
                    sorted_by_start(views(entries@)).filter(starts_within(lo, hi)),
                    *now,
                ),
            Err(e) => e == TimeError::UnresolvedLocalTime && (lower is Some || upper is Some),
        },
{
    match expand_bounds(lower, upper, date_only) {
        Ok((lo, hi)) => Ok(filter_and_group_within(entries, lo, hi, now)),
        Err(e) => Err(e),
    }
}

/// With whole-day bounds both taken from one instant `t`, an entry is kept
/// exactly when it starts on `t`'s local day, provided the local offset
/// does not change across that day.
pub proof fn lemma_whole_day_keeps_the_day(
    s: Seq<EntryView>,
    t: Timestamp,
    lo: Option<Timestamp>,
    hi: Option<Timestamp>,
)
    requires
        t.wf(),
        whole_day_bound(Some(t), lo, false),
        whole_day_bound(Some(t), hi, true),
        forall|i: int| 0 <= i < s.len() ==> (#[trigger] s[i]).times_wf(),
        forall|i: int| 0 <= i < s.len() ==> (#[trigger] s[i]).start.offset == lo->Some_0.offset,
        hi->Some_0.offset == lo->Some_0.offset,
    ensures
        forall|i: int|
            0 <= i < s.len() ==> (s.filter(starts_within(lo, hi)).contains(#[trigger] s[i])
                <==> s[i].start.day() == t.day()),
{
    assert forall|i: int| 0 <= i < s.len() implies (s.filter(starts_within(lo, hi)).contains(
        #[trigger] s[i],
    ) <==> s[i].start.day() == t.day()) by {
        let e = s[i];
        let w = e.start.wall();
        let d = t.day();
        lemma_fundamental_div_mod(w, 86400);
        if e.start.day() == d {
            assert(starts_within(lo, hi)(e));
        } else {
            if d * 86400 <= w <= d * 86400 + 86399 {
                lemma_fundamental_div_mod_converse_div(w, 86400, d, w - d * 86400);
            }
            assert(!starts_within(lo, hi)(e));
        }
    }
}


/// Entries that start on local day `day`.
pub open spec fn starts_on(day: int) -> spec_fn(EntryView) -> bool {
    |e: EntryView| e.start.day() == day
}

/// The running time, today's total and the overall total of one sheet.
#[derive(Clone, Copy, Debug, PartialEq, Eq, Structural)]
pub struct SheetSummary {
    /// Time since the start of the sheet's first running entry; zero when
    /// none runs.
    pub running: Duration,
    /// Durations of the entries that start on the local day of `now`.
    pub today: Duration,
    /// Durations of all entries.
    pub total: Duration,
}

proof fn lemma_first_running_at(rows: Seq<EntryView>, i: int)
    requires
        0 <= i < rows.len(),
        rows[i].is_running(),
        forall|j: int| 0 <= j < i ==> !(#[trigger] rows[j]).is_running(),
    ensures
        first_running(rows) == Some(rows[i]),
    decreases i,
{
    if i > 0 {
        let t = rows.skip(1);
        assert forall|j: int| 0 <= j < i - 1 implies !(#[trigger] t[j]).is_running() by {
            assert(t[j] == rows[j + 1]);
        }
        lemma_first_running_at(t, i - 1);
    }
}

proof fn lemma_none_running(rows: Seq<EntryView>)
    requires
        forall|j: int| 0 <= j < rows.len() ==> !(#[trigger] rows[j]).is_running(),
    ensures
        first_running(rows) is None,
    decreases rows.len(),
{
    if rows.len() > 0 {
        let t = rows.skip(1);
        assert forall|j: int| 0 <= j < t.len() implies !(#[trigger] t[j]).is_running() by {
            assert(t[j] == rows[j + 1]);
        }
        lemma_none_running(t);
    }
}

/// The summary of a sheet's entries at `now`.
pub fn sheet_summary(entries: &Vec<Entry>, now: &Timestamp) -> (r: SheetSummary)
    requires
        all_wf(entries@),
        now.wf(),
    ensures
        r.running.wf() && r.today.wf() && r.total.wf(),
        r.running.total() == match first_running(views(entries@)) {
            Some(e) => e.start.nanos_until(*now),
            None => 0,
        },
        r.today.total() == total_duration(views(entries@).filter(starts_on(now.day())), *now),
        r.total.total() == total_duration(views(entries@), *now),
{
    let ghost s = views(entries@);
    let ghost today_only = starts_on(now.day());
    let today_day = now.local_day();
    let mut running: Option<Duration> = None;
    let mut today = Duration::zero();
    let mut total = Duration::zero();
    let mut i: usize = 0;
    proof {
        assert(s.take(0) =~= Seq::<EntryView>::empty());
    }
    while i < entries.len()
        invariant
            s == views(entries@),
            all_wf(entries@),
            now.wf(),
            today_day == now.day(),
            today_only == starts_on(now.day()),
            i <= s.len(),
            total.wf() && today.wf(),
            total.total() == total_duration(s.take(i as int), *now),
            today.total() == total_duration(s.take(i as int).filter(today_only), *now),
            -(i * span()) <= total.secs <= i * span(),
            -(i * span()) <= today.secs <= i * span(),
            match running {
                None => forall|j: int| 0 <= j < i ==> !(#[trigger] s[j]).is_running(),
                Some(d) => d.wf() && (first_running(s) matches Some(e) && d.total()
                    == e.start.nanos_until(*now)),
            },
        decreases s.len() - i,
    {
        proof {
            assert(s[i as int] == entries@[i as int]@);
            assert(s.take(i + 1).drop_last() =~= s.take(i as int));
            assert(s.take(i + 1) =~= s.take(i as int).push(s[i as int]));
            s.take(i as int).lemma_filter_push(s[i as int], today_only);
            s.take(i as int).lemma_filter_len(today_only);
        }
        let d = entries[i].get_duration(now);
        proof {
            lemma_sum_fits(i as int);
        }
        total = total.add(&d);
        if entries[i].start.local_day() == today_day {
            proof {
                assert(s.take(i + 1).filter(today_only).drop_last() =~= s.take(i as int).filter(today_only));
            }
            today = today.add(&d);
        }
        if running.is_none() && entries[i].end.is_none() {
            proof {
                lemma_first_running_at(s, i as int);
            }
            running = Some(time_from_now(&entries[i].start, now));
        }
        i = i + 1;
    }
    proof {
        assert(s.take(s.len() as int) =~= s);
        if running is None {
            lemma_none_running(s);
        }
    }
    SheetSummary {
        running: match running {
            Some(d) => d,
            None => Duration::zero(),
        },
        today,
        total,
    }
}

} // verus!
