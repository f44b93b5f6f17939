use chrono::Utc;
use rcqs::{Catalog, CatalogItem, CatalogStore, Expiration};
use uuid::Uuid;

fn random_catalog<T>() -> Catalog<T> {
    Catalog::new(
        "rcqs:testing".to_owned(),
        Uuid::new_v4().to_string(),
        Expiration::Ttl(60),
        Expiration::Ttl(30),
    )
}

fn random_item() -> CatalogItem<String> {
    CatalogItem::new(Uuid::new_v4().to_string())
}

fn random_item_with_expiration(expiration: Expiration) -> CatalogItem<String> {
    CatalogItem::new_with_expiration(expiration, Uuid::new_v4().to_string())
}

/// A sweep instant safely past every short expiration this file registers.
fn well_past_now() -> i64 {
    Utc::now().timestamp() + 300
}

#[test]
fn register_with_expiration_passed() {
    let expiration: Expiration = Expiration::from_now_with_offset(1);

    let mut store: CatalogStore<String> = CatalogStore::new();
    let catalog: Catalog<String> = random_catalog();
    let item: CatalogItem<String> = random_item_with_expiration(expiration);

    let (z, h) = catalog.register_with_expiration(&mut store, item, expiration);
    assert_eq!(z, h, "equal item set and catalog hash entry count");

    let (z, h) = catalog.expire_items_at(&mut store, well_past_now());
    assert_eq!(z, 1, "expired one item");
    assert_eq!(z, h, "equal item set and catalog hash expiration count");

    let item = catalog.checkout(&mut store);
    assert!(item.is_none(), "registered item should have expired");

    let n = catalog.destroy_catalog(&mut store);
    assert_eq!(n, 0, "zero keys deleted");
}

#[test]
fn register_and_get_with_expiration_passed() {
    let expiration: Expiration = Expiration::from_ttl(1);

    let mut store: CatalogStore<String> = CatalogStore::new();
    let catalog: Catalog<String> = random_catalog();
    let item: CatalogItem<String> = random_item_with_expiration(expiration);
    let id = item.id();

    let (z, h) = catalog.register_with_expiration(&mut store, item, expiration);
    assert_eq!(z, h, "equal item set and catalog hash entry count");

    let items: Vec<CatalogItem<String>> =
        catalog.expire_and_get_items_at(&mut store, well_past_now());
    assert_eq!(items.len(), 1, "expired one item");
    assert_eq!(
        items.first().unwrap().id(),
        id,
        "expired and fetched registered item"
    );

    let n = catalog.destroy_catalog(&mut store);
    assert_eq!(n, 0, "zero keys deleted");
}

#[test]
fn register_multiple_with_expiration_passed() {
    const CNT: usize = 100;
    let expiration: Expiration = Expiration::from_ttl(1);

    let mut store: CatalogStore<String> = CatalogStore::new();
    let catalog: Catalog<String> = random_catalog();
    let items: Vec<CatalogItem<String>> = (0..CNT).map(|_| random_item()).collect();
    let ids: Vec<u128> = items.iter().map(|item| item.id()).collect();

    let (z, h) = catalog.register_multiple_with_expiration(&mut store, &items, expiration);
    assert_eq!(z, CNT, "{} checkout set entries", CNT);
    assert!(h, "true catalog hash entry result");

    let (z, h) = catalog.expire_items_at(&mut store, well_past_now());
    assert_eq!(z, CNT, "expired {} items", CNT);
    assert_eq!(z, h, "equal item set and catalog hash expiration count");

    let item = catalog.checkout_multiple_by_id(&mut store, &ids);
    assert!(item.is_empty(), "registered items should have expired");

    let n = catalog.destroy_catalog(&mut store);
    assert_eq!(n, 0, "zero keys deleted");
}

#[test]
fn checkout_by_id_with_timeout_passed() {
    const TIMEOUT: Expiration = Expiration::Ttl(1);

    let mut store: CatalogStore<String> = CatalogStore::new();
    let catalog: Catalog<String> = random_catalog();
    let item: CatalogItem<String> = random_item();
    let id = item.id();

    let (z, h) = catalog.register(&mut store, item);
    assert_eq!(z, h, "equal item set and catalog hash entry count");

    let item = catalog.checkout_by_id_with_timeout(&mut store, id, TIMEOUT);
    assert!(
        item.is_some(),
        "registered item should have been checked out"
    );

    let (zi, zc) = catalog.timeout_checkouts_at(&mut store, well_past_now());
    assert_eq!(zi, 1, "one checkout timed out");
    assert_eq!(zi, zc, "item set additions equals checkout set removals");

    let item = catalog.checkout_by_id_with_timeout(&mut store, id, TIMEOUT);
    assert!(
        item.is_some(),
        "previous checkout expired and item checked out again"
    );

    let n = catalog.destroy_catalog(&mut store);
    assert_eq!(n, 2, "two keys deleted");
}

#[test]
fn checkout_by_id_multiple_with_timeout_passed() {
    const CNT: usize = 100;
    const TIMEOUT: Expiration = Expiration::Ttl(1);

    let mut store: CatalogStore<String> = CatalogStore::new();
    let catalog: Catalog<String> = random_catalog();
    let items: Vec<CatalogItem<String>> = (0..CNT).map(|_| random_item()).collect();
    let ids: Vec<u128> = items.iter().map(|item| item.id()).collect();

    let (z, h) = catalog.register_multiple(&mut store, &items);
    assert_eq!(z, CNT, "{} checkout set entries", CNT);
    assert!(h, "true catalog hash entry result");

    let items_checked_out = catalog.checkout_multiple_by_id_with_timeout(&mut store, &ids, TIMEOUT);
    assert_eq!(
        items_checked_out.len(),
        items.len(),
        "registered item should have been checked out"
    );

    let (zi, zc) = catalog.timeout_checkouts_at(&mut store, well_past_now());
    assert_eq!(zi, CNT, "{} checkout timed out", CNT);
    assert_eq!(zi, zc, "item set additions equals checkout set removals");

    let items_checked_out = catalog.checkout_multiple_by_id_with_timeout(&mut store, &ids, TIMEOUT);
    assert_eq!(
        items_checked_out.len(),
        items.len(),
        "previous checkouts expired and items checked out again"
    );

    let n = catalog.destroy_catalog(&mut store);
    assert_eq!(n, 2, "two keys deleted");
}

#[test]
fn checkout_with_timeout_passed() {
    const TIMEOUT: Expiration = Expiration::Ttl(1);

    let mut store: CatalogStore<String> = CatalogStore::new();
    let catalog: Catalog<String> = random_catalog();
    let item: CatalogItem<String> = random_item();

    let (z, h) = catalog.register(&mut store, item);
    assert_eq!(z, h, "equal item set and catalog hash entry count");

    let item = catalog.checkout_with_timeout(&mut store, TIMEOUT);
    assert!(
        item.is_some(),
        "registered item should have been checked out"
    );

    let (zi, zc) = catalog.timeout_checkouts_at(&mut store, well_past_now());
    assert_eq!(zi, 1, "one checkout timed out");
    assert_eq!(zi, zc, "item set additions equals checkout set removals");

    let item = catalog.checkout_with_timeout(&mut store, TIMEOUT);
    assert!(
        item.is_some(),
        "previous checkout expired and item checked out again"
    );

    let n = catalog.destroy_catalog(&mut store);
    assert_eq!(n, 2, "two keys deleted");
}

#[test]
fn checkout_multiple_with_timeout_passed() {
    const CNT: usize = 100;
    const TIMEOUT: Expiration = Expiration::Ttl(1);

    let mut store: CatalogStore<String> = CatalogStore::new();
    let catalog: Catalog<String> = random_catalog();
    let items: Vec<CatalogItem<String>> = (0..CNT).map(|_| random_item()).collect();

    let (z, h) = catalog.register_multiple(&mut store, &items);
    assert_eq!(z, CNT, "{} checkout set entries", CNT);
    assert!(h, "true catalog hash entry result");

    let items_checked_out = catalog.checkout_multiple_with_timeout(&mut store, CNT, TIMEOUT);
    assert_eq!(
        items_checked_out.len(),
        items.len(),
        "registered item should have been checked out"
    );

    let (zi, zc) = catalog.timeout_checkouts_at(&mut store, well_past_now());
    assert_eq!(zi, CNT, "{} checkout timed out", CNT);
    assert_eq!(zi, zc, "item set additions equals checkout set removals");

    let items_checked_out = catalog.checkout_multiple_with_timeout(&mut store, CNT, TIMEOUT);
    assert_eq!(
        items_checked_out.len(),
        items.len(),
        "previous checkouts expired and items checked out again"
    );

    let n = catalog.destroy_catalog(&mut store);
    assert_eq!(n, 2, "two keys deleted");
}

#[test]
fn checkout_and_relinquish() {
    const TIMEOUT: Expiration = Expiration::Ttl(1);

    let mut store: CatalogStore<String> = CatalogStore::new();
    let catalog: Catalog<String> = random_catalog();
    let item: CatalogItem<String> = random_item();
    let id = item.id();

    let (z, h) = catalog.register(&mut store, item);
    assert_eq!(z, h, "equal item set and catalog hash entry count");

    let item = catalog
        .checkout(&mut store)
        .expect("registered and checked out item");
    assert_eq!(
        item.id(),
        id,
        "registered and fetched item IDs should match"
    );

    let item = catalog.checkout(&mut store);
    assert!(
        item.is_none(),
        "should not be able to check out the same item id again"
    );

    let (zc, zi) = catalog.relinquish_by_id(&mut store, id);
    assert_eq!(zi, 1, "one checkout relinquished");
    assert_eq!(zi, zc, "item set additions equals checkout set removals");

    let item = catalog.checkout_by_id_with_timeout(&mut store, id, TIMEOUT);
    assert!(
        item.is_some(),
        "previous checkout relinquished and item checked out again"
    );

    let n = catalog.destroy_catalog(&mut store);
    assert_eq!(n, 2, "two keys deleted");
}

#[test]
fn relinquish_of_unleased_id_is_a_no_op() {
    let mut store: CatalogStore<String> = CatalogStore::new();
    let catalog: Catalog<String> = random_catalog();
    let item = random_item();
    let id = item.id();
    catalog.register(&mut store, item);

    let (zc, zi) = catalog.relinquish_by_id(&mut store, id);
    assert_eq!((zc, zi), (0, 0), "id is pending, not checked out");

    let (zc, zi) = catalog.relinquish_by_id(&mut store, 98765u128);
    assert_eq!((zc, zi), (0, 0), "unknown id relinquishes nothing");
}

#[test]
fn sweep_windows_differ_on_negative_scores() {
    let mut store: CatalogStore<String> = CatalogStore::new();
    let catalog: Catalog<String> = random_catalog();
    let item = random_item();
    let id = item.id();
    catalog.register_with_expiration(&mut store, item, Expiration::Timestamp(-5));

    let (h, z) = catalog.expire_items_at(&mut store, well_past_now());
    assert_eq!(
        (h, z),
        (0, 0),
        "the counting sweep scans from zero and skips a negative score"
    );

    let swept = catalog.expire_and_get_items_at(&mut store, well_past_now());
    assert_eq!(
        swept.len(),
        1,
        "the returning sweep scans from the far past and takes it"
    );
    assert_eq!(swept.first().unwrap().id(), id);
}

#[test]
fn expire_keeps_items_not_yet_due() {
    let mut store: CatalogStore<u32> = CatalogStore::new();
    let catalog: Catalog<u32> = random_catalog();
    let due = CatalogItem::new_with_expiration(Expiration::Timestamp(1_000), 1u32);
    let not_due = CatalogItem::new_with_expiration(Expiration::Timestamp(9_000), 2u32);
    let due_id = due.id();
    let kept_id = not_due.id();
    catalog.register(&mut store, due);
    catalog.register(&mut store, not_due);

    let (h, z) = catalog.expire_items_at(&mut store, 5_000);
    assert_eq!((h, z), (1, 1), "exactly the due item is swept");

    assert!(catalog.checkout_by_id(&mut store, due_id).is_none());
    let kept = catalog
        .checkout_by_id(&mut store, kept_id)
        .expect("the item not yet due stays available");
    assert_eq!(*kept.contents(), 2u32);
}

#[test]
fn timeout_sweep_drops_dangling_checkouts() {
    let mut store: CatalogStore<String> = CatalogStore::new();
    let catalog: Catalog<String> = random_catalog();
    let item = random_item();
    let id = item.id();
    catalog.register(&mut store, item);
    catalog
        .checkout_with_timeout(&mut store, Expiration::Ttl(1))
        .expect("registered and checked out item");

    let n = store.items.remove(id);
    assert_eq!(n, 1, "interfered to delete item from catalog");

    let (zi, zc) = catalog.timeout_checkouts_at(&mut store, well_past_now());
    assert_eq!(
        (zi, zc),
        (0, 1),
        "the due lease is dropped but nothing returns to pending"
    );
    assert!(catalog.checkout_by_id(&mut store, id).is_none());
}

#[test]
fn never_expiring_item_is_not_swept() {
    let mut store: CatalogStore<String> = CatalogStore::new();
    let catalog: Catalog<String> = random_catalog();
    let item = random_item();
    let id = item.id();
    catalog.register_with_expiration(&mut store, item, Expiration::Never);

    let (h, z) = catalog.expire_items_at(&mut store, i64::MAX);
    assert_eq!((h, z), (0, 0));
    let swept = catalog.expire_and_get_items_at(&mut store, i64::MAX);
    assert!(swept.is_empty());

    let kept = catalog
        .checkout_by_id(&mut store, id)
        .expect("an item that never expires stays available");
    assert_eq!(kept.id(), id);
}

#[test]
fn dangling_reference_is_tolerated() {
    let mut store: CatalogStore<String> = CatalogStore::new();
    let catalog: Catalog<String> = random_catalog();
    let item = random_item();
    let id = item.id();
    catalog.register(&mut store, item);

    let n = store.items.remove(id);
    assert_eq!(n, 1, "interfered to delete item from catalog");

    assert!(
        catalog.checkout_by_id(&mut store, id).is_none(),
        "a dangling id checks out as nothing"
    );
    let (zi, zc, h) = catalog.delete_by_id(&mut store, id);
    assert_eq!((zi, zc, h), (0, 0, 0), "nothing of the id is left");
}
