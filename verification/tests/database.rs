use redis_lite::database::{Database, Error, Value};
use std::time::{Duration, Instant};

fn wait(span: Duration) {
    let start = Instant::now();
    while start.elapsed() <= span {
        std::hint::spin_loop();
    }
}

#[test]
fn no_ttl() {
    let mut db = Database::new();
    db.set("foo".into(), Value::without_ttl("bar".into()));
    assert_eq!(db.get("foo").unwrap().data, "bar");
}

#[test]
fn with_ttl() {
    let mut db = Database::new();
    db.set("foo".into(), Value::with_ttl("bar".into(), 10));
    db.set("bar".into(), Value::with_ttl("baz".into(), 1000));
    wait(Duration::from_millis(20));
    assert_eq!(db.get("foo"), Err(Error::Expired));
    assert_eq!(db.get("bar").unwrap().data, "baz");
}

#[test]
fn never_set_key_is_not_found() {
    let mut db = Database::new();
    assert_eq!(db.get("foo"), Err(Error::KeyNotFound));
    assert_eq!(db.get_after("foo", 0), Err(Error::KeyNotFound));
    db.set("bar".into(), Value::without_ttl("baz".into()));
    assert_eq!(db.get("foo"), Err(Error::KeyNotFound));
    assert_eq!(db.get(""), Err(Error::KeyNotFound));
    assert_eq!(db.get_after("foo", u128::MAX), Err(Error::KeyNotFound));
}

#[test]
fn value_without_ttl_is_read_at_any_time() {
    let mut db = Database::new();
    db.set("foo".into(), Value::new("bar".into(), None));
    assert_eq!(db.get_after("foo", 0).unwrap().data, "bar");
    assert_eq!(db.get_after("foo", 1).unwrap().data, "bar");
    assert_eq!(db.get_after("foo", u128::MAX).unwrap().data, "bar");
}

#[test]
fn value_expires_once_more_than_its_ttl_has_passed() {
    let mut db = Database::new();
    db.set("foo".into(), Value::new("bar".into(), Some(10)));
    assert_eq!(db.get_after("foo", 0).unwrap().data, "bar");
    assert_eq!(db.get_after("foo", 9_999_999).unwrap().data, "bar");
    assert_eq!(db.get_after("foo", 10_000_000).unwrap().data, "bar");
    assert_eq!(db.get_after("foo", 10_000_001), Err(Error::Expired));
    assert_eq!(db.get_after("foo", u128::MAX), Err(Error::Expired));
}

#[test]
fn zero_ttl_expires_with_the_first_nanosecond() {
    let mut db = Database::new();
    db.set("foo".into(), Value::with_ttl("bar".into(), 0));
    assert_eq!(db.get_after("foo", 0).unwrap().data, "bar");
    assert_eq!(db.get_after("foo", 1), Err(Error::Expired));
}

#[test]
fn largest_ttl_does_not_overflow() {
    let value = Value::with_ttl("bar".into(), u64::MAX);
    let limit = u64::MAX as u128 * 1_000_000;
    assert!(!value.is_expired_after(limit));
    assert!(value.is_expired_after(limit + 1));
}

#[test]
fn expired_value_stays_in_the_store() {
    let mut db = Database::new();
    db.set("foo".into(), Value::with_ttl("bar".into(), 1));
    assert_eq!(db.get_after("foo", 2_000_000), Err(Error::Expired));
    assert_eq!(db.get_after("foo", 2_000_000), Err(Error::Expired));
    assert_eq!(db.get_after("foo", 500_000).unwrap().data, "bar");
}

#[test]
fn second_set_replaces_data_and_ttl() {
    let mut db = Database::new();
    db.set("foo".into(), Value::with_ttl("bar".into(), 1));
    db.set("foo".into(), Value::without_ttl("baz".into()));
    assert_eq!(db.get_after("foo", u128::MAX).unwrap().data, "baz");
    db.set("foo".into(), Value::with_ttl("qux".into(), 5));
    assert_eq!(db.get_after("foo", 5_000_000).unwrap().data, "qux");
    assert_eq!(db.get_after("foo", 5_000_001), Err(Error::Expired));
}

#[test]
fn fresh_value_with_ttl_is_read_at_once() {
    let mut db = Database::new();
    db.set("foo".into(), Value::with_ttl("bar".into(), 60_000));
    assert_eq!(db.get("foo").unwrap().data, "bar");
}

#[test]
fn keys_are_told_apart_exactly() {
    let mut db = Database::new();
    db.set("foo".into(), Value::without_ttl("1".into()));
    db.set("Foo".into(), Value::without_ttl("2".into()));
    db.set("foo ".into(), Value::without_ttl("3".into()));
    db.set("".into(), Value::without_ttl("4".into()));
    assert_eq!(db.get("foo").unwrap().data, "1");
    assert_eq!(db.get("Foo").unwrap().data, "2");
    assert_eq!(db.get("foo ").unwrap().data, "3");
    assert_eq!(db.get("").unwrap().data, "4");
}

#[test]
fn values_are_equal_when_their_data_is() {
    assert_eq!(
        Value::with_ttl("bar".into(), 10),
        Value::without_ttl("bar".into())
    );
    assert_ne!(
        Value::without_ttl("bar".into()),
        Value::without_ttl("baz".into())
    );
    let value = Value::with_ttl("bar".into(), 10);
    let copy = value.clone();
    assert_eq!(copy, value);
    assert!(copy.is_expired_after(10_000_001));
    assert!(!copy.is_expired_after(10_000_000));
}
