use mdzk::time::{load_timezone, parse_datestring, store_timezone, UtcOffset};

fn utc() -> UtcOffset {
    UtcOffset::utc()
}

#[test]
fn test_parse_datestring() {
    let d = parse_datestring("1814-05-17T07:20:42Z", utc()).unwrap();
    assert_eq!((0, 0, 0), (d.offset_hours, d.offset_minutes, d.offset_seconds));
    let d = parse_datestring("1814-05-17 07:20:42", utc()).unwrap();
    assert_eq!((7, 20, 42), (d.hour, d.minute, d.second));
    let d = parse_datestring("1814-05-17 07:20", utc()).unwrap();
    assert_eq!((7, 20, 0), (d.hour, d.minute, d.second));
    let d = parse_datestring("1814-05-17", utc()).unwrap();
    assert_eq!((1814, 5, 17), (d.year, d.month, d.day));
    let d = parse_datestring("17 May 1814", utc()).unwrap();
    assert_eq!((1814, 5, 17), (d.year, d.month, d.day));
    let d = parse_datestring("March 8 1857", utc()).unwrap();
    assert_eq!((1857, 3, 8), (d.year, d.month, d.day));
}

#[test]
fn independence_day_keeps_its_offset() {
    let d = parse_datestring("1776-07-04T00:00:00-04:00", utc()).unwrap();
    assert_eq!((d.year, d.month, d.day, d.hour), (1776, 7, 4, 0));
    assert_eq!((d.offset_hours, d.offset_minutes), (-4, 0));
}

#[test]
fn dates_without_offset_take_the_local_one() {
    let local = UtcOffset { hours: 2, minutes: 30, seconds: 0 };
    let d = parse_datestring("2001-01-01 01:01", local).unwrap();
    assert_eq!((d.offset_hours, d.offset_minutes, d.offset_seconds), (2, 30, 0));
    assert_eq!((d.hour, d.minute, d.second), (1, 1, 0));
    let d = parse_datestring("17 May 1814", local).unwrap();
    assert_eq!((d.hour, d.minute), (0, 0));
}

#[test]
fn unreadable_dates_are_none() {
    assert!(parse_datestring("not a date", utc()).is_none());
    assert!(parse_datestring("", utc()).is_none());
}

#[test]
fn timezone_is_stored_and_loaded() {
    let mut store = UtcOffset::utc();
    store_timezone(&mut store);
    let loaded = load_timezone(&store);
    assert_eq!(loaded, store);
    assert!(loaded.hours.abs() <= 25);
}

#[test]
fn found_offsets_are_stored_and_missing_ones_fall_back_to_utc() {
    let mut store = UtcOffset::utc();
    let east = UtcOffset { hours: 2, minutes: 30, seconds: 0 };
    mdzk::time::store_offset(&mut store, Some(east));
    assert_eq!(load_timezone(&store), east);
    mdzk::time::store_offset(&mut store, None);
    assert_eq!(load_timezone(&store), UtcOffset::utc());
}
