use ido::item::{DATETIME_MAX_SECS, DATETIME_MIN_SECS};
use ido::{DateStamp, Ido, IdoItem, IdoItemType};

#[test]
fn test_overwrite_moves_to_end() {
    let mut d = Ido::new();
    d.set_string(&1, "A".to_string());
    d.set_string(&2, "B".to_string());
    d.set_string(&1, "C".to_string());

    assert_eq!(d.size(), 2);
    assert_eq!(d.to_string(), "2=B,1=C");
}

#[test]
fn test_nested_serialization() {
    let mut e = Ido::new();
    e.set_string(&100, "nested".to_string());
    e.set_string(&101, "nested_two".to_string());

    let mut d = Ido::new();
    d.set_string(&1, "Blah".to_string());
    d.set_string(&2, "More Blah".to_string());
    d.append_array(&3, e);
    d.set_integer(&4, 32);

    assert_eq!(d.to_string(), "1=Blah,2=More Blah,3=[100=nested,101=nested_two],4=32");
}

#[test]
fn test_narrowing_truncates() {
    let mut d = Ido::new();
    d.set_integer(&1, 300);

    assert_eq!(d.get_i8(&1), Some(44));
    assert_eq!(d.get_u8(&1), Some(44));
    assert_eq!(d.get_i16(&1), Some(300));
    assert_eq!(d.get_i64(&1), Some(300));

    d.set_integer(&2, -1);
    assert_eq!(d.get_u64(&2), Some(u64::MAX));
    assert_eq!(d.get_u8(&2), Some(255));
}

#[test]
fn test_serialize_idempotent() {
    let mut d = Ido::new();
    d.set_string(&1, "x".to_string());
    d.set_integer(&2, 7);
    d.set_string(&1, "y".to_string());

    let first = d.to_string();
    let second = d.to_string();
    assert_eq!(first, second);
    assert_eq!(first, "2=7,1=y");
}

#[test]
fn test_delete_removes_from_iteration() {
    let mut d = Ido::new();
    d.set_string(&1, "v1".to_string());
    d.set_string(&2, "v2".to_string());
    d.set_string(&3, "v3".to_string());

    d.delete_item(&2);

    // the deleted entry's position becomes a gap, which the walk skips
    assert_eq!(d.to_string(), "1=v1,3=v3");
    assert_eq!(d.size(), 2);
    assert!(d.contains(&3));

    let mut it = d.into_ordered_iterator();
    let (k1, _) = it.next().unwrap();
    assert_eq!(k1, 1);
    let (k2, _) = it.next().unwrap();
    assert_eq!(k2, 3);
    assert!(it.next().is_none());
    assert!(it.next().is_none());
}

#[test]
fn test_delete_absent_is_noop() {
    let mut d = Ido::new();
    d.set_string(&1, "v1".to_string());
    d.delete_item(&9);

    assert_eq!(d.size(), 1);
    assert_eq!(d.to_string(), "1=v1");
}

#[test]
fn test_update_skips_serialization() {
    let mut d = Ido::new();
    d.set_string(&1, "a".to_string());

    let mut other = Ido::new();
    other.set_string(&2, "b".to_string());

    d.update(&other);

    assert_eq!(d.size(), 2);
    assert!(d.contains(&2));
    // the adopted entry has no order slot, so serialization skips it
    assert_eq!(d.to_string(), "1=a");
}

#[test]
fn test_update_overwrite_keeps_slot() {
    let mut d = Ido::new();
    d.set_string(&1, "a".to_string());
    d.set_string(&2, "b".to_string());

    let mut other = Ido::new();
    other.set_string(&2, "B2".to_string());

    d.update(&other);

    assert_eq!(d.to_string(), "1=a,2=B2");
}

#[test]
fn test_clear_restarts_numbering() {
    let mut d = Ido::new();
    d.set_string(&1, "old".to_string());
    d.set_string(&2, "older".to_string());
    d.clear();

    assert_eq!(d.size(), 0);
    assert!(!d.contains(&1));

    d.set_string(&5, "fresh".to_string());
    d.set_string(&6, "next".to_string());
    assert_eq!(d.to_string(), "5=fresh,6=next");
}

#[test]
fn test_empty_array_contributes_no_segment() {
    let mut d = Ido::new();
    d.set_string(&1, "x".to_string());

    let mut empty_array_item = IdoItem::new();
    empty_array_item.m_type = IdoItemType::ARRAY;
    d.set_item(&2, empty_array_item);

    d.set_string(&3, "y".to_string());

    assert_eq!(d.to_string(), "1=x,3=y");
}

#[test]
fn test_array_elements_are_separate_segments() {
    let mut e1 = Ido::new();
    e1.set_string(&100, "a".to_string());
    let mut e2 = Ido::new();
    e2.set_string(&100, "b".to_string());

    let mut d = Ido::new();
    d.append_array(&3, e1);
    d.append_array(&3, e2);

    let item = d.get_item(&3).unwrap();
    assert_eq!(item.m_array.len(), 2);
    assert_eq!(item.m_array[0].to_string(), "100=a");
    assert_eq!(item.m_array[1].to_string(), "100=b");

    assert_eq!(d.to_string(), "3=[100=a],3=[100=b]");
}

#[test]
fn test_append_array_resets_non_array_value() {
    let mut d = Ido::new();
    d.set_string(&1, "scalar".to_string());
    d.set_string(&2, "keep".to_string());

    let mut e = Ido::new();
    e.set_integer(&10, 5);
    d.append_array(&1, e);

    assert!(d.is_type(&1, &IdoItemType::ARRAY));
    let item = d.get_item(&1).unwrap();
    assert_eq!(item.m_array.len(), 1);
    // the re-initializing set renewed key 1's order position
    assert_eq!(d.to_string(), "2=keep,1=[10=5]");
}

#[test]
fn test_datetime_serialization() {
    let mut d = Ido::new();
    let mut item = IdoItem::new();
    item.m_type = IdoItemType::DATETIME;
    item.m_datetime = DateStamp::new(0, 0).unwrap();
    d.set_item(&5, item);

    assert_eq!(d.to_string(), "5=1970-01-01 00:00:00.0000");

    let mut item2 = IdoItem::new();
    item2.m_type = IdoItemType::DATETIME;
    item2.m_datetime = DateStamp::new(947638923, 450_000_000).unwrap();
    d.set_item(&6, item2);
    assert_eq!(d.to_string(), "5=1970-01-01 00:00:00.0000,6=2000-01-12 01:02:03.4500");
}

#[test]
fn test_datetime_range_matches_formatter() {
    assert_eq!(DATETIME_MIN_SECS, chrono::DateTime::<chrono::Utc>::MIN_UTC.timestamp());
    assert_eq!(DATETIME_MAX_SECS, chrono::DateTime::<chrono::Utc>::MAX_UTC.timestamp());

    assert!(chrono::DateTime::<chrono::Utc>::from_timestamp(DATETIME_MIN_SECS, 0).is_some());
    assert!(chrono::DateTime::<chrono::Utc>::from_timestamp(DATETIME_MIN_SECS - 1, 0).is_none());
    assert!(chrono::DateTime::<chrono::Utc>::from_timestamp(DATETIME_MAX_SECS, 0).is_some());
    assert!(chrono::DateTime::<chrono::Utc>::from_timestamp(DATETIME_MAX_SECS + 1, 0).is_none());

    // leap-second nanoseconds are valid only on the last second of a minute
    assert!(chrono::DateTime::<chrono::Utc>::from_timestamp(59, 1_500_000_000).is_some());
    assert!(chrono::DateTime::<chrono::Utc>::from_timestamp(60, 1_500_000_000).is_none());
}

#[test]
fn test_datestamp_bounds() {
    assert!(DateStamp::new(0, 0).is_some());
    assert!(DateStamp::new(DATETIME_MIN_SECS, 0).is_some());
    assert!(DateStamp::new(DATETIME_MIN_SECS - 1, 0).is_none());
    assert!(DateStamp::new(DATETIME_MAX_SECS, 999_999_999).is_some());
    assert!(DateStamp::new(DATETIME_MAX_SECS + 1, 0).is_none());
    assert!(DateStamp::new(59, 1_500_000_000).is_some());
    assert!(DateStamp::new(60, 1_500_000_000).is_none());
    assert!(DateStamp::new(0, 2_000_000_000).is_none());

    let s = DateStamp::new(123, 456).unwrap();
    assert_eq!(s.secs(), 123);
    assert_eq!(s.nanos(), 456);
    assert_eq!(DateStamp::min_value().secs(), DATETIME_MIN_SECS);
    assert_eq!(DateStamp::min_value().nanos(), 0);
}

#[test]
fn test_as_string_variants() {
    let item = IdoItem::new();
    assert_eq!(item.as_string(), Some(String::new()));

    let mut int_item = IdoItem::new();
    int_item.m_type = IdoItemType::INTEGER;
    int_item.m_integer = -42;
    assert_eq!(int_item.as_string(), Some("-42".to_string()));

    let mut float_item = IdoItem::new();
    float_item.m_type = IdoItemType::FLOAT;
    float_item.m_float_text = (2.5f64).to_string();
    assert_eq!(float_item.as_string(), Some("2.5".to_string()));

    let mut dt_item = IdoItem::new();
    dt_item.m_type = IdoItemType::DATETIME;
    dt_item.m_datetime = DateStamp::new(0, 0).unwrap();
    assert_eq!(dt_item.as_string(), Some("1970-01-01 00:00:00.0000".to_string()));

    let mut arr_item = IdoItem::new();
    arr_item.m_type = IdoItemType::ARRAY;
    arr_item.m_array.push(Ido::new());
    arr_item.m_array.push(Ido::new());
    assert_eq!(arr_item.as_string(), Some("<array of 2>".to_string()));
}

#[test]
fn test_datetime_text_agrees_with_formatter() {
    let mut d = Ido::new();
    let mut item = IdoItem::new();
    item.m_type = IdoItemType::DATETIME;
    item.m_datetime = DateStamp::new(1234567890, 123_456_789).unwrap();
    d.set_item(&1, item);

    let prefix = chrono::DateTime::<chrono::Utc>::from_timestamp(1234567890, 123_456_789)
        .unwrap()
        .format("%Y-%m-%d %H:%M:%S")
        .to_string();
    assert_eq!(d.to_string(), format!("1={}.{:04}", prefix, 123_456_789 / 100_000));
}

#[test]
fn test_ordered_iterator_walks_in_order() {
    let mut d = Ido::new();
    d.set_string(&7, "a".to_string());
    d.set_string(&3, "b".to_string());
    d.set_integer(&7, 9);

    // the overwrite of key 7 left a gap at position zero; the walk skips
    // it and yields the remaining entries in position order
    let mut it = d.into_ordered_iterator();
    let (ka, va) = it.next().unwrap();
    assert_eq!(ka, 3);
    assert_eq!(va.m_string, "b");
    let (kb, vb) = it.next().unwrap();
    assert_eq!(kb, 7);
    assert_eq!(vb.m_integer, 9);
    assert!(it.next().is_none());
    assert_eq!(d.to_string(), "3=b,7=9");

    let mut d2 = Ido::new();
    d2.set_string(&7, "a".to_string());
    d2.set_string(&3, "b".to_string());
    let mut it2 = d2.into_ordered_iterator();
    let (k1, v1) = it2.next().unwrap();
    assert_eq!(k1, 7);
    assert_eq!(v1.m_string, "a");
    let (k2, v2) = it2.next().unwrap();
    assert_eq!(k2, 3);
    assert_eq!(v2.m_string, "b");
    assert!(it2.next().is_none());

    // restartable: a fresh iterator begins at position zero again
    let mut it3 = d2.into_ordered_iterator();
    assert_eq!(it3.next().unwrap().0, 7);
}

#[test]
fn test_negative_key_and_extreme_integer() {
    let mut d = Ido::new();
    d.set_string(&-5, "n".to_string());
    assert_eq!(d.to_string(), "-5=n");

    let mut d2 = Ido::new();
    d2.set_integer(&1, i64::MIN);
    d2.set_integer(&2, i64::MAX);
    assert_eq!(d2.to_string(), "1=-9223372036854775808,2=9223372036854775807");
}

#[test]
fn test_float_text_round_trip() {
    let values: [f64; 5] = [0.0, -1.25, 42.42, 1e300, -0.0003];
    for (i, v) in values.iter().enumerate() {
        let key = i as i32;
        let mut d = Ido::new();
        d.set_float_text(&key, v.to_string());
        let back: f64 = d.get_float_text(&key).unwrap().parse().unwrap();
        assert_eq!(back, *v);
        assert_eq!(d.to_string(), format!("{}={}", key, v));
    }
}
