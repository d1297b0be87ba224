//! The key-value side table.

use macrame::kv::{deleted, prefix_end, put, scan, validate_kv_key, validate_kv_prefix, MAX_KV_KEY};
use macrame::sql::SqlValue;
use macrame::DbError;

#[test]
fn keys_admit_paths_and_namespaces() {
    for good in [
        "okf:epoch",
        "okf:filehash:notes/a.md",
        "myapp.cursor",
        "a_b-c",
        "OKF:EPOCH",
        &"k".repeat(MAX_KV_KEY),
    ] {
        assert!(validate_kv_key(good).is_ok(), "{good:?} should be ok");
    }

    for bad in [
        "",
        "has space",
        "has|pipe",
        "café",
        &"k".repeat(MAX_KV_KEY + 1),
    ] {
        assert!(validate_kv_key(bad).is_err(), "{bad:?} should be rejected");
    }
}

#[test]
fn an_empty_prefix_is_legal_and_an_empty_key_is_not() {
    assert!(validate_kv_prefix("").is_ok());
    assert!(validate_kv_key("").is_err());
    assert!(validate_kv_prefix("has space").is_err());
}

#[test]
fn the_prefix_end_is_the_next_string_above_the_range() {
    assert_eq!(prefix_end("okf:").as_deref(), Some("okf;"));
    assert_eq!(prefix_end("a").as_deref(), Some("b"));
    assert_eq!(prefix_end(""), None);

    let end = prefix_end("okf:").unwrap();
    for k in ["okf:", "okf:a", "okf:zzzz", "okf::"] {
        assert!(k >= "okf:" && k < end.as_str(), "{k:?} outside the range");
    }
    for k in ["okf", "okg", "okf;a"] {
        assert!(!(k >= "okf:" && k < end.as_str()), "{k:?} inside the range");
    }
}

#[test]
fn a_scan_is_bound_by_its_prefix() {
    let row = scan("okf:", 7).unwrap();
    assert!(matches!(&row[0], SqlValue::Text(t) if t == "okf:"));
    assert!(matches!(&row[1], SqlValue::Text(t) if t == "okf;"));
    assert!(matches!(row[2], SqlValue::Integer(7)));
    assert!(matches!(scan("", 7).unwrap()[1], SqlValue::Null));
    assert!(matches!(
        scan("has space", 7),
        Err(DbError::InvalidKvKey(k)) if k == "has space"
    ));
}

#[test]
fn a_put_binds_key_value_and_stamp() {
    let row = put("k", "v", "now");
    assert_eq!(row.len(), 3);
    assert!(matches!(&row[2], SqlValue::Text(t) if t == "now"));
    assert!(deleted(1) && !deleted(0));
}
