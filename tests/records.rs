use timetrack::config::Config;
use timetrack::entry::Entry;
use timetrack::listing::{row_plan, ReadableOptions, Row};
use timetrack::report::{
    day_mark, expand_bounds, filter_and_group, filter_and_group_within, filter_by_start,
    group_by_day, sort_by_start, DayMark,
};
use timetrack::state::State;
use timetrack::store::{
    create_entry, current_entry, get_all_entries, get_all_sheets, get_entry_by_id,
    get_sheet_entries, remove_entries_by_sheet, remove_entry_by_id, running_entries,
    running_entry, update_entry, update_sheet_name, write_entry, EntryStore, StoreError,
};
use timetrack::text::format_duration;
use timetrack::time::{TimeError, Timestamp};

const DAY: i64 = 86_400;

fn at(secs: i64) -> Timestamp {
    Timestamp { secs, nanos: 0, offset: 0 }
}

fn entry(name: &str, sheet: &str, start: i64, end: Option<i64>) -> Entry {
    let mut e = Entry::start(name, sheet, at(start));
    if let Some(end) = end {
        e.stop(at(end));
    }
    e
}

#[test]
fn stopped_entry_lasts_until_stop() {
    let mut e = Entry::start("write", "work", at(1_000));
    assert!(e.is_running());
    assert_eq!(e.get_duration(&at(1_600)).num_seconds(), 600);
    e.stop(at(4_600));
    assert!(!e.is_running());
    assert_eq!(e.end, Some(at(4_600)));
    assert_eq!(e.get_duration(&at(4_600)).num_seconds(), 3_600);
    assert_eq!(e.get_duration(&at(99_999)).num_seconds(), 3_600);
}

#[test]
fn new_entry_uses_default_sheet() {
    let config = Config { database_file: "db".to_string(), default_sheet: "default".to_string() };
    let e = Entry::new(config);
    assert_eq!(e.sheet, "default");
    assert_eq!(e.name, "");
    assert!(e.id.is_none() && e.end.is_none());
}

#[test]
fn rows_are_read_into_entries() {
    let e = Entry::from_row(3, "n".to_string(), "2024-01-02 03:04:05.5+00:00", None, "s".to_string()).unwrap();
    assert_eq!(e.id, Some(3));
    assert_eq!(e.start.nanos, 500_000_000);
    assert!(e.end.is_none());
    let e2 = Entry::from_row(4, "n".to_string(), "2024-01-02 03:04:05", Some("2024-01-02 04:04:05"), "s".to_string()).unwrap();
    assert_eq!(e2.end.unwrap().secs - e2.start.secs, 3600);
    let bad = Entry::from_row(5, "n".to_string(), "2024-01-02 03:04:05", Some("garbage"), "s".to_string());
    assert_eq!(bad.unwrap_err(), TimeError::InvalidTimestamp);
}

fn state(current: &str, last: &str) -> State {
    State { current_sheet: current.to_string(), last_sheet: last.to_string(), last_task: None }
}

#[test]
fn switching_twice_remembers_first() {
    for start in ["default", "work", "life"] {
        let mut s = state(start, "default");
        s.change_sheet("work");
        s.change_sheet("life");
        assert_eq!(s.last_sheet, "work");
        assert_eq!(s.current_sheet, "life");
    }
}

#[test]
fn switching_to_current_sheet_changes_nothing() {
    let mut s = state("work", "life");
    s.change_sheet("work");
    assert_eq!(s.current_sheet, "work");
    assert_eq!(s.last_sheet, "life");
}

#[test]
fn checkout_handles_dash_and_current() {
    let mut s = state("work", "life");
    assert!(!s.checkout("work"));
    assert_eq!((s.current_sheet.as_str(), s.last_sheet.as_str()), ("work", "life"));
    assert!(s.checkout("-"));
    assert_eq!((s.current_sheet.as_str(), s.last_sheet.as_str()), ("life", "work"));
    assert!(s.checkout("fun"));
    assert_eq!((s.current_sheet.as_str(), s.last_sheet.as_str()), ("fun", "life"));
}

#[test]
fn rename_and_last_task() {
    let mut s = state("work", "life");
    s.rename_sheet("life", "home");
    assert_eq!(s.last_sheet, "life");
    s.rename_sheet("work", "job");
    assert_eq!(s.current_sheet, "job");
    s.set_last_task(9);
    assert_eq!(s.last_task, Some(9));
}

#[test]
fn removing_sheets_moves_pointers() {
    let mut s = state("work", "life");
    s.after_sheet_removed("work", &vec!["life".to_string(), "fun".to_string()], "default");
    assert_eq!((s.current_sheet.as_str(), s.last_sheet.as_str()), ("life", "work"));

    let mut s = state("work", "life");
    s.after_sheet_removed("work", &vec!["fun".to_string()], "default");
    assert_eq!(s.current_sheet, "fun");

    let mut s = state("work", "life");
    s.after_sheet_removed("work", &vec![], "default");
    assert_eq!(s.current_sheet, "default");

    let mut s = state("work", "life");
    s.after_sheet_removed("life", &vec!["work".to_string()], "default");
    assert_eq!((s.current_sheet.as_str(), s.last_sheet.as_str()), ("work", "default"));
}

#[test]
fn pointer_file_round_trip() {
    let s = State::from_file_content("work\r\nlife\n12\n", "default");
    assert_eq!((s.current_sheet.as_str(), s.last_sheet.as_str(), s.last_task), ("work", "life", Some(12)));
    assert_eq!(s.to_file_content(), "work\nlife\n12");
    let empty = State::from_file_content("", "default");
    assert_eq!((empty.current_sheet.as_str(), empty.last_sheet.as_str(), empty.last_task), ("default", "default", None));
    let partial = State::from_file_content("\nlife\nx", "default");
    assert_eq!((partial.current_sheet.as_str(), partial.last_sheet.as_str(), partial.last_task), ("default", "life", None));
    let fresh = State::new("default");
    assert_eq!(fresh.to_file_content(), "default\ndefault\n");
}

#[test]
fn written_entry_is_found_by_id() {
    let mut db = EntryStore::new();
    let e = entry("task", "work", 500, Some(900));
    let id = write_entry(&e, &mut db).unwrap();
    assert_eq!(id, 1);
    let found = get_entry_by_id(id, &db).unwrap();
    assert_eq!(found.id, Some(id));
    assert_eq!((found.start, found.end, found.name.as_str(), found.sheet.as_str()), (e.start, e.end, "task", "work"));
    assert!(get_entry_by_id(2, &db).is_none());
}

#[test]
fn deleted_sheet_is_not_listed() {
    let mut db = EntryStore::new();
    for (name, sheet) in [("a", "work"), ("b", "scratch"), ("c", "work"), ("d", "scratch")] {
        create_entry(&entry(name, sheet, 0, Some(10)), &mut db).unwrap();
    }
    let mut names = get_all_sheets(&db);
    names.sort();
    assert_eq!(names, vec!["scratch".to_string(), "work".to_string()]);
    remove_entries_by_sheet("scratch", &mut db);
    assert_eq!(get_all_sheets(&db), vec!["work".to_string()]);
    remove_entries_by_sheet("nothing", &mut db);
    assert_eq!(get_all_entries(&db).len(), 2);
}

#[test]
fn update_and_delete_by_id() {
    let mut db = EntryStore::new();
    let id = write_entry(&entry("a", "work", 0, None), &mut db).unwrap();
    let mut e = get_entry_by_id(id, &db).unwrap();
    e.stop(at(50));
    e.name = "renamed".to_string();
    assert_eq!(write_entry(&e, &mut db), Ok(id));
    let back = get_entry_by_id(id, &db).unwrap();
    assert_eq!((back.name.as_str(), back.end), ("renamed", Some(at(50))));
    update_entry(&entry("ghost", "x", 0, None), &mut db);
    let mut missing = entry("ghost", "x", 0, None);
    missing.id = Some(77);
    update_entry(&missing, &mut db);
    assert_eq!(get_all_entries(&db).len(), 1);
    remove_entry_by_id(77, &mut db);
    assert_eq!(get_all_entries(&db).len(), 1);
    remove_entry_by_id(id, &mut db);
    assert!(get_all_entries(&db).is_empty());
    let next = create_entry(&entry("b", "work", 0, None), &mut db).unwrap();
    assert_eq!(next, 2);
}

#[test]
fn running_entries_are_found() {
    let mut db = EntryStore::new();
    create_entry(&entry("a", "work", 0, Some(10)), &mut db).unwrap();
    create_entry(&entry("b", "life", 5, None), &mut db).unwrap();
    create_entry(&entry("c", "work", 20, None), &mut db).unwrap();
    create_entry(&entry("d", "work", 30, None), &mut db).unwrap();
    assert_eq!(running_entry(&db, "work").unwrap().name, "d");
    assert!(running_entry(&db, "other").is_none());
    assert_eq!(current_entry(&db).unwrap().name, "b");
    let names: Vec<String> = running_entries(&db).into_iter().map(|e| e.name).collect();
    assert_eq!(names, vec!["b".to_string(), "d".to_string()]);
    let work: Vec<String> = get_sheet_entries("work", &db).into_iter().map(|e| e.name).collect();
    assert_eq!(work, vec!["a".to_string(), "c".to_string(), "d".to_string()]);
    update_sheet_name("work", "job", &mut db);
    assert_eq!(get_sheet_entries("job", &db).len(), 3);
    assert!(get_sheet_entries("work", &db).is_empty());
}

#[test]
fn loaded_rows_are_checked() {
    let mut a = entry("a", "work", 0, None);
    a.id = Some(4);
    let mut b = entry("b", "work", 0, None);
    b.id = Some(9);
    let mut db = EntryStore::from_entries(vec![a.clone(), b.clone()], 10).unwrap();
    assert_eq!(create_entry(&entry("c", "work", 0, None), &mut db), Ok(10));
    // An id handed out before, whose row is gone, is not handed out again.
    let mut later = EntryStore::from_entries(vec![a.clone()], 12).unwrap();
    assert_eq!(create_entry(&entry("d", "work", 0, None), &mut later), Ok(12));
    assert_eq!(EntryStore::from_entries(vec![a.clone(), b.clone()], 9).err(), Some(StoreError::InvalidRows));
    assert_eq!(EntryStore::from_entries(vec![], 0).err(), Some(StoreError::InvalidRows));
    assert_eq!(EntryStore::from_entries(vec![b.clone(), a.clone()], 10).err(), Some(StoreError::InvalidRows));
    assert_eq!(EntryStore::from_entries(vec![entry("x", "w", 0, None)], 1).err(), Some(StoreError::InvalidRows));
    let mut last = entry("z", "w", 0, None);
    last.id = Some(usize::MAX - 1);
    let mut full = EntryStore::from_entries(vec![last], usize::MAX).unwrap();
    assert_eq!(create_entry(&entry("c", "work", 0, None), &mut full), Err(StoreError::IdsExhausted));
}

#[test]
fn grouping_sums_days() {
    let day1 = 19_000 * DAY;
    let day2 = 19_001 * DAY;
    let entries = vec![
        entry("late", "work", day2 + 3_600, Some(day2 + 3 * 3_600)),
        entry("one", "work", day1 + 3_600, Some(day1 + 2 * 3_600)),
        entry("two", "work", day1 + 5 * 3_600, Some(day1 + 5 * 3_600 + 1_800)),
    ];
    let report = filter_and_group(&entries, None, None, false, &at(day2 + 10 * 3_600)).unwrap();
    assert_eq!(report.groups.len(), 2);
    assert_eq!(report.groups[0].day, 19_000);
    assert_eq!(report.groups[0].entries.len(), 2);
    assert_eq!(format_duration(&report.groups[0].subtotal), "1:30:00");
    assert_eq!(format_duration(&report.groups[1].subtotal), "2:00:00");
    assert_eq!(format_duration(&report.total), "3:30:00");
}

#[test]
fn subtotals_sum_exact_durations() {
    let d = 19_200 * DAY;
    let part = |start: i64| {
        let mut e = Entry::start("part", "w", Timestamp { secs: d + start, nanos: 0, offset: 0 });
        e.stop(Timestamp { secs: d + start, nanos: 600_000_000, offset: 0 });
        e
    };
    let entries = vec![part(0), part(10), part(20)];
    let report = filter_and_group(&entries, None, None, false, &at(d + DAY)).unwrap();
    assert_eq!(entries[0].get_duration(&at(d)).num_seconds(), 0);
    assert_eq!(format_duration(&report.groups[0].subtotal), "0:00:01");
    assert_eq!(report.total.secs, 1);
    assert_eq!(report.total.nanos, 800_000_000);
}

#[test]
fn whole_day_filter_keeps_the_day() {
    let d = 19_500 * DAY;
    let t = at(d + 23 * 3_600);
    let entries = vec![
        entry("before", "w", d - 1, Some(d)),
        entry("morning", "w", d + 60, Some(d + 120)),
        entry("noon", "w", d + 12 * 3_600, None),
        entry("last", "w", d + DAY - 1, Some(d + DAY)),
        Entry::start("fraction", "w", Timestamp { secs: d + DAY - 1, nanos: 500_000_000, offset: 0 }),
        entry("after", "w", d + DAY, Some(d + DAY + 5)),
    ];
    let now = at(d + 2 * DAY);
    let (lo, hi) = expand_bounds(Some(t), Some(t), true).unwrap();
    let lo = lo.unwrap();
    let hi = hi.unwrap();
    assert_eq!(lo.secs + lo.offset as i64, d);
    assert_eq!(hi.secs + hi.offset as i64, d + DAY - 1);
    if lo.offset == 0 && hi.offset == 0 {
        let report = filter_and_group(&entries, Some(t), Some(t), true, &now).unwrap();
        let names: Vec<&str> = report.groups.iter().flat_map(|g| g.entries.iter().map(|e| e.name.as_str())).collect();
        assert_eq!(names, vec!["morning", "noon", "last", "fraction"]);
    }
    let unbounded = filter_and_group(&entries, None, None, true, &now).unwrap();
    assert_eq!(unbounded.groups.iter().map(|g| g.entries.len()).sum::<usize>(), entries.len());
    let exact = filter_and_group_within(&entries, Some(t), Some(t), &now);
    assert!(exact.groups.is_empty());
    assert_eq!(exact.total.num_seconds(), 0);
}

#[test]
fn sorting_is_stable_and_filter_uses_start() {
    let entries = vec![entry("b", "w", 10, None), entry("a", "w", 5, None), entry("c", "w", 10, None)];
    let sorted: Vec<String> = sort_by_start(&entries).into_iter().map(|e| e.name).collect();
    assert_eq!(sorted, vec!["a".to_string(), "b".to_string(), "c".to_string()]);
    let fine = vec![
        Entry::start("x", "w", Timestamp { secs: 10, nanos: 700, offset: 0 }),
        Entry::start("y", "w", Timestamp { secs: 10, nanos: 300, offset: 0 }),
    ];
    let fine_sorted: Vec<String> = sort_by_start(&fine).into_iter().map(|e| e.name).collect();
    assert_eq!(fine_sorted, vec!["y".to_string(), "x".to_string()]);
    let kept: Vec<String> = filter_by_start(&entries, Some(at(6)), Some(at(10))).into_iter().map(|e| e.name).collect();
    assert_eq!(kept, vec!["b".to_string(), "c".to_string()]);
    let report = group_by_day(Vec::new(), &at(0));
    assert!(report.groups.is_empty());
}

#[test]
fn day_marks_follow_days() {
    assert_eq!(day_mark(None, 3), DayMark::FirstDay);
    assert_eq!(day_mark(Some(3), 3), DayMark::SameDay);
    assert_eq!(day_mark(Some(3), 4), DayMark::NewDay);
}

#[test]
fn row_plan_lays_out_listing() {
    let entries = vec![
        entry("a", "w", 0, Some(10)),
        entry("b", "w", 20, Some(30)),
        entry("c", "w", DAY, Some(DAY + 5)),
    ];
    let report = filter_and_group(&entries, None, None, false, &at(2 * DAY)).unwrap();
    let rows = row_plan(&report, &ReadableOptions::complete());
    assert_eq!(rows, vec![
        Row::Heading,
        Row::Entry { group: 0, index: 0, show_date: true },
        Row::Entry { group: 0, index: 1, show_date: false },
        Row::Subtotal { group: 0 },
        Row::Entry { group: 1, index: 0, show_date: true },
        Row::Subtotal { group: 1 },
        Row::Total,
    ]);
    let bare = row_plan(&report, &ReadableOptions::new());
    assert_eq!(bare.len(), 3);
    assert!(!ReadableOptions::new().show_ids && ReadableOptions::complete().show_ids);
}
