use timetrack::commands::{edit_task, kill_sheet, start_task, stop_task, EditOutcome, StartOutcome, StopOutcome};
use timetrack::state::State;
use timetrack::store::{get_all_entries, get_all_sheets, get_entry_by_id, EntryStore};
use timetrack::time::Timestamp;

fn at(secs: i64) -> Timestamp {
    Timestamp { secs, nanos: 0, offset: 0 }
}

fn state(current: &str, last: &str) -> State {
    State { current_sheet: current.to_string(), last_sheet: last.to_string(), last_task: None }
}

#[test]
fn check_in_once_per_sheet() {
    let mut db = EntryStore::new();
    let st = state("work", "default");
    match start_task("write", at(100), &mut db, &st).unwrap() {
        StartOutcome::Started { id } => assert_eq!(id, 1),
        other => panic!("unexpected {:?}", other),
    }
    match start_task("again", at(200), &mut db, &st).unwrap() {
        StartOutcome::AlreadyRunning { sheet } => assert_eq!(sheet, "work"),
        other => panic!("unexpected {:?}", other),
    }
    assert_eq!(get_all_entries(&db).len(), 1);
    let e = get_entry_by_id(1, &db).unwrap();
    assert_eq!((e.name.as_str(), e.sheet.as_str(), e.start, e.end), ("write", "work", at(100), None));
}

#[test]
fn check_out_stops_and_records() {
    let mut db = EntryStore::new();
    let mut st = state("work", "default");
    assert_eq!(stop_task(at(50), &mut db, &mut st), StopOutcome::NoActiveTask);
    start_task("write", at(100), &mut db, &st).unwrap();
    assert_eq!(stop_task(at(50), &mut db, &mut st), StopOutcome::EndsBeforeStart);
    assert!(get_entry_by_id(1, &db).unwrap().end.is_none());
    assert_eq!(st.last_task, None);
    let just_before = Timestamp { secs: 99, nanos: 999_999_999, offset: 0 };
    assert_eq!(stop_task(just_before, &mut db, &mut st), StopOutcome::EndsBeforeStart);
    assert_eq!(stop_task(at(400), &mut db, &mut st), StopOutcome::Stopped { id: 1 });
    assert_eq!(get_entry_by_id(1, &db).unwrap().end, Some(at(400)));
    assert_eq!(st.last_task, Some(1));
}

#[test]
fn edit_changes_given_fields() {
    let mut db = EntryStore::new();
    let st = state("work", "default");
    assert!(matches!(edit_task(None, None, None, None, None, &mut db), EditOutcome::NotFound));
    start_task("write", at(100), &mut db, &st).unwrap();
    assert!(matches!(
        edit_task(Some(9), Some(at(90)), None, Some("life"), Some("read"), &mut db),
        EditOutcome::NotFound
    ));
    let untouched = get_entry_by_id(1, &db).unwrap();
    assert_eq!((untouched.start, untouched.name.as_str(), untouched.sheet.as_str()), (at(100), "write", "work"));
    match edit_task(None, Some(at(90)), None, Some("life"), Some("read"), &mut db) {
        EditOutcome::Updated { entry } => {
            assert_eq!((entry.id, entry.start, entry.name.as_str(), entry.sheet.as_str()), (Some(1), at(90), "read", "life"));
        }
        other => panic!("unexpected {:?}", other),
    }
    let e = get_entry_by_id(1, &db).unwrap();
    assert_eq!((e.start, e.end, e.name.as_str(), e.sheet.as_str()), (at(90), None, "read", "life"));
    match edit_task(Some(1), None, Some(at(500)), None, None, &mut db) {
        EditOutcome::Updated { entry } => assert_eq!(entry.end, Some(at(500))),
        other => panic!("unexpected {:?}", other),
    }
}

#[test]
fn killing_a_sheet_moves_pointers() {
    let mut db = EntryStore::new();
    let work = state("work", "life");
    let life = state("life", "work");
    start_task("a", at(0), &mut db, &work).unwrap();
    start_task("b", at(0), &mut db, &life).unwrap();
    let mut st = state("work", "life");
    assert!(!kill_sheet("nothing", "default", &mut db, &mut st));
    assert!(kill_sheet("work", "default", &mut db, &mut st));
    assert_eq!(get_all_sheets(&db), vec!["life".to_string()]);
    assert_eq!((st.current_sheet.as_str(), st.last_sheet.as_str()), ("life", "work"));
}
