use chrono::{DateTime, NaiveDate};
use timetrack::time::{MAX_SECS, MIN_SECS};

#[test]
fn supported_instants_are_chronos_range() {
    let first = DateTime::from_timestamp(MIN_SECS, 0).unwrap();
    assert_eq!(first.date_naive(), NaiveDate::MIN);
    assert_eq!(first.time(), chrono::NaiveTime::MIN);
    assert!(DateTime::from_timestamp(MIN_SECS - 1, 0).is_none());
    assert_eq!(NaiveDate::MIN.to_epoch_days() as i64 * 86_400, MIN_SECS);

    let last = DateTime::from_timestamp(MAX_SECS, 999_999_999).unwrap();
    assert_eq!(last.date_naive(), NaiveDate::MAX);
    assert!(DateTime::from_timestamp(MAX_SECS + 1, 0).is_none());
    assert_eq!(NaiveDate::MAX.to_epoch_days() as i64 * 86_400 + 86_399, MAX_SECS);
}
