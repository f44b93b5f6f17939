use chrono::Utc;
use rcqs::{Expiration, Score};

#[test]
fn from_now_with_offset() {
    let expiration = Expiration::from_now_with_offset(60);
    assert!(
        match expiration {
            Expiration::Timestamp(t) => t > Utc::now().timestamp(),
            _ => false,
        },
        "expected timestamp greater than now"
    )
}

#[test]
fn from_timestamp() {
    let expiration = Expiration::from_timestamp(0);
    assert!(
        match expiration {
            Expiration::Timestamp(t) => t < Utc::now().timestamp(),
            _ => false,
        },
        "expected timestamp less than now"
    )
}

#[test]
fn from_ttl() {
    let expiration = Expiration::from_ttl(3);
    assert!(
        match expiration {
            Expiration::Ttl(t) => t == 3,
            _ => false,
        },
        "expected TTL equal 3"
    )
}

#[test]
fn resolve_never_is_unbounded() {
    assert_eq!(Expiration::Never.resolve_at(12345), Score::Never);
    assert_eq!(Expiration::Never.as_timestamp(), Score::Never);
}

#[test]
fn resolve_timestamp_ignores_clock() {
    assert_eq!(Expiration::Timestamp(77).resolve_at(0), Score::At(77));
    assert_eq!(Expiration::Timestamp(77).resolve_at(1_000_000), Score::At(77));
    assert_eq!(Expiration::Timestamp(77).as_timestamp(), Score::At(77));
}

#[test]
fn resolve_ttl_adds_to_clock() {
    assert_eq!(Expiration::Ttl(5).resolve_at(100), Score::At(105));
    assert_eq!(Expiration::Ttl(-5).resolve_at(100), Score::At(95));
}

#[test]
fn resolve_ttl_saturates() {
    assert_eq!(Expiration::Ttl(i64::MAX).resolve_at(5), Score::At(i64::MAX));
    assert_eq!(Expiration::Ttl(i64::MIN).resolve_at(-5), Score::At(i64::MIN));
}

#[test]
fn score_order_puts_never_last() {
    assert!(Score::At(3).le(Score::Never));
    assert!(!Score::Never.le(Score::At(3)));
    assert!(Score::At(3).le(Score::At(3)));
    assert!(Score::At(-10).le(Score::At(3)));
    assert!(Score::Never.le(Score::Never));
}

#[test]
fn default_expiration_is_never() {
    let expiration: Expiration = Default::default();
    assert_eq!(expiration, Expiration::Never);
}
