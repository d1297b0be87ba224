//! Timestamps, ids and the small pieces everything is made of.

use macrame::error::DbError;
use macrame::schema::OPEN_SENTINEL;
use macrame::sql::slots;
use macrame::table::Table;
use macrame::temporal::Interval;
use macrame::text::{contains, find, text_order, Order};
use macrame::util::ids::validate_id;
use macrame::util::instant::{parse, END};
use macrame::util::timestamp::normalize;

#[test]
fn timestamps_are_widened_to_microseconds() {
    assert_eq!(normalize("2026-01-06T07:08:09Z").unwrap(), "2026-01-06T07:08:09.000000Z");
    assert_eq!(normalize("2026-01-06T07:08:09.5Z").unwrap(), "2026-01-06T07:08:09.500000Z");
    assert_eq!(normalize(OPEN_SENTINEL).unwrap(), OPEN_SENTINEL);
    assert!(normalize("2024-02-29T00:00:00Z").is_ok());
    for bad in [
        "",
        "2026-01-06",
        "2026-01-06T07:08:09",
        "2026-01-06 07:08:09Z",
        "2026-13-06T07:08:09Z",
        "2026-02-29T07:08:09Z",
        "2026-01-06T24:08:09Z",
        "2026-01-06T07:08:09.Z",
        "2026-01-06T07:08:09.1234567Z",
        "2026-01-06T07:08:09+00:00",
    ] {
        assert!(
            matches!(normalize(bad), Err(DbError::InvalidTimestamp { value, .. }) if value == bad),
            "{bad:?}"
        );
    }
}

#[test]
fn a_moment_is_written_as_it_was_read() {
    assert_eq!(parse("0001-01-01T00:00:00Z").unwrap(), 0);
    assert_eq!(parse("0001-01-02T00:00:00.000001Z").unwrap(), 86_400_000_001);
    assert_eq!(parse(OPEN_SENTINEL).unwrap(), END - 1);
    for ts in [
        "0001-01-01T00:00:00.000000Z",
        "1970-01-01T00:00:00.000000Z",
        "2024-02-29T23:59:59.999999Z",
        "2026-12-31T12:34:56.789012Z",
        OPEN_SENTINEL,
    ] {
        assert_eq!(macrame::util::instant::format(parse(ts).unwrap()), ts);
    }
    assert_eq!(
        parse("1970-01-01T00:00:00Z").unwrap() / 86_400_000_000,
        719_162
    );
}

#[test]
fn text_is_ordered_and_searched() {
    assert_eq!(text_order("a", "b"), Order::Less);
    assert_eq!(text_order("ab", "a"), Order::Greater);
    assert_eq!(text_order("é", "é"), Order::Equal);
    assert_eq!(find("links_current", "cur"), Some(6));
    assert!(contains("abc", "") && !contains("abc", "d"));
    assert_eq!(slots(3, 3), "?3, ?4, ?5");
    assert_eq!(slots(1, 0), "");
}

#[test]
fn a_table_keeps_its_keys_in_order() {
    let mut t: Table<u8> = Table::new();
    assert_eq!(t.insert("b".into(), 1), None);
    assert_eq!(t.insert("a".into(), 2), None);
    assert_eq!(t.insert("b".into(), 3), Some(1));
    assert_eq!(t.get("b"), Some(&3));
    assert_eq!(t.get("c"), None);
    assert_eq!(t.rows.iter().map(|r| r.0.as_str()).collect::<Vec<_>>(), ["a", "b"]);
}

#[test]
fn an_id_may_not_hold_the_separator() {
    assert!(validate_id("").is_ok() && validate_id("ÉTAT 1").is_ok());
    assert!(matches!(validate_id("a|b"), Err(DbError::InvalidId { id, .. }) if id == "a|b"));
}

#[test]
fn half_open_intervals_meet_without_overlapping() {
    let i = |a: &str, b: &str| Interval::new(a.into(), b.into());
    assert!(!i("1", "2").overlaps(&i("2", "3")));
    assert!(i("1", "3").overlaps(&i("2", "4")));
    assert!(i("1", OPEN_SENTINEL).is_open() && !i("1", "2").is_open());
}

#[test]
fn a_weight_is_worded_as_it_is_written() {
    let e = DbError::NegativeEdgeWeight {
        source_id: "a".into(),
        target_id: "b".into(),
        weight: (-1.5f64).to_bits(),
    };
    assert_eq!(
        e.message_with("-1.5"),
        "edge a -> b has weight -1.5, which shortest-path analytics cannot use"
    );
    assert_eq!(DbError::NotFound("x".into()).message_with(""), "node x not found");
}

#[test]
fn a_refusal_says_why() {
    match normalize("now") {
        Err(DbError::InvalidTimestamp { value, reason }) => {
            assert_eq!((value.as_str(), reason.as_str()), ("now", "expected YYYY-MM-DDTHH:MM:SS[.ffffff]Z"));
        }
        other => panic!("{other:?}"),
    }
    match parse("2026-13-01T00:00:00Z") {
        Err(DbError::InvalidTimestamp { reason, .. }) => {
            assert_eq!(reason, "expected YYYY-MM-DDTHH:MM:SS[.ffffff]Z");
        }
        other => panic!("{other:?}"),
    }
    match validate_id("a|b") {
        Err(DbError::InvalidId { reason, .. }) => {
            assert_eq!(reason, "the log key separates its parts with '|'");
        }
        other => panic!("{other:?}"),
    }
}
