use rcqs::{CatalogItem, Codec, Expiration, Score};
use uuid::Uuid;

#[test]
fn item_api_getters() {
    const EXPIRATION: Expiration = Expiration::Never;

    let content = Uuid::new_v4().to_string();
    let item = CatalogItem::new_with_expiration(EXPIRATION, content.clone());

    assert!(!format!("{}", item.id()).is_empty());
    assert_eq!(item.contents(), &content);
    assert_eq!(item.expires_on_timestamp(), Some(Score::Never));
    assert!(item.created_on() > 0);
    assert_eq!(item.take_contents(), content);
}

#[test]
fn new_item_has_no_expiration() {
    let item = CatalogItem::new(7u32);
    assert_eq!(item.expires_on_timestamp(), None);
    assert_eq!(item.contents(), &7u32);
}

#[test]
fn item_expiration_resolved_at_construction() {
    let item = CatalogItem::new_with_expiration(Expiration::Timestamp(99), 1u32);
    assert_eq!(item.expires_on_timestamp(), Some(Score::At(99)));
}

#[test]
fn fresh_ids_differ() {
    let a = CatalogItem::new(0u32);
    let b = CatalogItem::new(0u32);
    assert_ne!(a.id(), b.id(), "two freshly drawn identifiers should differ");
}

#[test]
fn codec_replicas_are_equal() {
    let s = Uuid::new_v4().to_string();
    assert_eq!(s.replica(), s);
    assert_eq!(42u32.replica(), 42u32);
    assert_eq!((-3i64).replica(), -3i64);
    assert_eq!(true.replica(), true);
}
