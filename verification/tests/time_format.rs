use openpfe::time::{civil_from_days, format_unix_rfc3339, rfc3339_now};

#[test]
fn epoch_is_first_of_january_1970() {
    assert_eq!(format_unix_rfc3339(0), "1970-01-01T00:00:00Z");
    assert_eq!(civil_from_days(0), (1970, 1, 1));
}

#[test]
fn known_timestamps() {
    assert_eq!(format_unix_rfc3339(951_782_400), "2000-02-29T00:00:00Z");
    assert_eq!(format_unix_rfc3339(1_700_000_000), "2023-11-14T22:13:20Z");
    assert_eq!(format_unix_rfc3339(86_399), "1970-01-01T23:59:59Z");
    assert_eq!(civil_from_days(-1), (1969, 12, 31));
    assert_eq!(civil_from_days(59), (1970, 3, 1));
}

#[test]
fn dates_before_year_zero() {
    assert_eq!(civil_from_days(-719_468), (0, 3, 1));
    assert_eq!(civil_from_days(-719_469), (0, 2, 29));
    assert_eq!(civil_from_days(-719_469 - 365), (-1, 3, 1));
    assert_eq!(civil_from_days(-1_000_000), (-768, 2, 4));
}

#[test]
fn now_has_rfc3339_shape() {
    let s = rfc3339_now();
    assert_eq!(s.len(), 20);
    assert!(s.ends_with('Z'));
    assert_eq!(&s[4..5], "-");
    assert_eq!(&s[10..11], "T");
}
