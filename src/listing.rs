//! The layout of a listing: which rows a table of day groups shows, and the
//! options and styles that shape it.

use vstd::prelude::*;

use crate::report::{GroupView, Report, ReportView};

verus! {

/// The kinds of text that a listing styles.
#[derive(Clone, Copy, Debug, PartialEq, Eq, Structural)]
pub enum Styles {
    Error,
    Title,
    Message,
    Primary,
    Secondary,
}

/// What a listing of entries shows.
#[derive(Clone, Copy, Debug, PartialEq, Eq, Structural)]
pub struct ReadableOptions {
    pub show_ids: bool,
    pub show_timesheet: bool,
    pub show_partial_sum: bool,
    pub show_total: bool,
    pub show_headings: bool,
    pub padding: usize,
}

impl ReadableOptions {
    /// Entries alone: no ids, sheet title, sums or headings.
    pub fn new() -> (r: Self)
        ensures
            r == (ReadableOptions {
                show_ids: false,
                show_timesheet: false,
                show_partial_sum: false,
                show_total: false,
                show_headings: false,
                padding: 0,
            }),
    {
        Self {
            show_ids: false,
            show_timesheet: false,
            show_partial_sum: false,
            show_total: false,
            show_headings: false,
            padding: 0,
        }
    }

    /// Everything: ids, sheet title, day subtotals, total and headings.
    pub fn complete() -> (r: Self)
        ensures
            r == (ReadableOptions {
                show_ids: true,
                show_timesheet: true,
                show_partial_sum: true,
                show_total: true,
                show_headings: true,
                padding: 0,
            }),
    {
        Self {
            show_ids: true,
            show_timesheet: true,
            show_partial_sum: true,
            show_total: true,
            show_headings: true,
            padding: 0,
        }
    }
}

/// One row of a listing table.
#[derive(Clone, Copy, Debug, PartialEq, Eq, Structural)]
pub enum Row {
    /// The column headings.
    Heading,
    /// Entry `index` of day group `group`; its date is shown on the first
    /// entry of each day only.
    Entry { group: usize, index: usize, show_date: bool },
    /// The subtotal of day group `group`.
    Subtotal { group: usize },
    /// The total of the listing.
    Total,
}

/// The rows of the first `k` entries of day group number `gi`; only the
/// first shows its date.
pub open spec fn entry_rows(gi: int, k: int) -> Seq<Row>
    decreases k,
{
    if k <= 0 {
        Seq::empty()
    } else {
        entry_rows(gi, k - 1).push(Row::Entry { group: gi as usize, index: (k - 1) as usize, show_date: k == 1 })
    }
}

/// The rows of day group `g`, number `gi`: its entries, then its subtotal
/// if subtotals are shown.
pub open spec fn group_rows(g: GroupView, gi: int, opts: ReadableOptions) -> Seq<Row> {
    entry_rows(gi, g.entries.len() as int) + if opts.show_partial_sum {
        seq![Row::Subtotal { group: gi as usize }]
    } else {
        Seq::empty()
    }
}

/// The rows of the first `k` day groups.
pub open spec fn groups_rows(gs: Seq<GroupView>, k: int, opts: ReadableOptions) -> Seq<Row>
    decreases k,
{
    if k <= 0 {
        Seq::empty()
    } else {
        groups_rows(gs, k - 1, opts) + group_rows(gs[k - 1], k - 1, opts)
    }
}

/// The rows of a listing: headings if shown, each day's entries followed
/// by its subtotal if shown, and the total if shown.
pub open spec fn listing_rows(r: ReportView, opts: ReadableOptions) -> Seq<Row> {
    (if opts.show_headings {
        seq![Row::Heading]
    } else {
        Seq::<Row>::empty()
    }) + groups_rows(r.groups, r.groups.len() as int, opts) + if opts.show_total {
        seq![Row::Total]
    } else {
        Seq::<Row>::empty()
    }
}

/// The rows of a listing of `report` under `options`.
pub fn row_plan(report: &Report, options: &ReadableOptions) -> (r: Vec<Row>)
    ensures
        r@ == listing_rows(report@, *options),
{
    let ghost gs = report@.groups;
    let mut rows: Vec<Row> = Vec::new();
    if options.show_headings {
        rows.push(Row::Heading);
    }
    let ghost head = rows@;
    let mut gi: usize = 0;
    proof {
        assert(rows@ =~= head + groups_rows(gs, 0, *options));
    }
    while gi < report.groups.len()
        invariant
            gs == report@.groups,
            gi <= gs.len(),
            head == (if options.show_headings {
                seq![Row::Heading]
            } else {
                Seq::<Row>::empty()
            }),
            rows@ == head + groups_rows(gs, gi as int, *options),
        decreases gs.len() - gi,
    {
        let ghost g = gs[gi as int];
        proof {
            assert(g == report.groups@[gi as int]@);
        }
        let ghost start = rows@;
        let n = report.groups[gi].entries.len();
        let mut k: usize = 0;
        proof {
            assert(rows@ =~= start + entry_rows(gi as int, 0));
        }
        while k < n
            invariant
                k <= n,
                n == g.entries.len(),
                rows@ == start + entry_rows(gi as int, k as int),
            decreases n - k,
        {
            rows.push(Row::Entry { group: gi, index: k, show_date: k == 0 });
            proof {
                assert(rows@ =~= start + entry_rows(gi as int, k + 1));
            }
            k = k + 1;
        }
        if options.show_partial_sum {
            rows.push(Row::Subtotal { group: gi });
        }
        proof {
            assert(rows@ =~= start + group_rows(g, gi as int, *options));
            assert(groups_rows(gs, gi + 1, *options) == groups_rows(gs, gi as int, *options)
                + group_rows(gs[gi as int], gi as int, *options));
            assert(rows@ =~= head + groups_rows(gs, gi + 1, *options));
        }
        gi = gi + 1;
    }
    if options.show_total {
        rows.push(Row::Total);
    }
    proof {
        assert(rows@ =~= listing_rows(report@, *options));
    }
    rows
}

} // verus!
