use rcqs::{Catalog, CatalogItem, CatalogStore, Expiration};
use uuid::Uuid;

fn random_catalog<T>() -> Catalog<T> {
    Catalog::new(
        "rcqs:testing".to_owned(),
        Uuid::new_v4().to_string(),
        Expiration::Ttl(60),
        Expiration::Ttl(30),
    )
}

fn random_item() -> CatalogItem<String> {
    CatalogItem::new(Uuid::new_v4().to_string())
}

#[test]
fn checkout_register_and_checkout_item() {
    let mut store: CatalogStore<String> = CatalogStore::new();
    let catalog: Catalog<String> = random_catalog();
    let item: CatalogItem<String> = random_item();
    let id = item.id();

    let (z, h) = catalog.register(&mut store, item);
    assert_eq!(z, h, "equal item set and catalog hash entry count");

    let item = catalog
        .checkout(&mut store)
        .expect("registered and checked out item");
    assert_eq!(
        item.id(),
        id,
        "registered and fetched item IDs should match"
    );

    let (zi, zc, h) = catalog.delete_by_id(&mut store, id);
    assert_eq!(zi, 0, "zero expiration set entry");
    assert_eq!(zc, 1, "one checkout set entry");
    assert_eq!(h, 1, "one catalog hash entry");

    assert!(
        catalog.checkout_by_id(&mut store, id).is_none(),
        "should not be able to check out the same item id again"
    );

    assert!(
        catalog.checkout(&mut store).is_none(),
        "should have no items left to checkout"
    );

    let n = catalog.destroy_catalog(&mut store);
    assert_eq!(n, 0, "zero keys deleted");
}

#[test]
fn checkout_register_and_checkout_item_by_id() {
    let mut store: CatalogStore<String> = CatalogStore::new();
    let catalog: Catalog<String> = random_catalog();
    let item: CatalogItem<String> = random_item();
    let id = item.id();

    let (z, h) = catalog.register(&mut store, item);
    assert_eq!(z, h, "equal item set and catalog hash entry count");

    let item = catalog
        .checkout_by_id(&mut store, id)
        .expect("item with ID as registered");
    assert_eq!(item.id(), id, "registered and fetch item IDs should match");

    let (zi, zc, h) = catalog.delete_by_id(&mut store, id);
    assert!(zi == 0, "zero expiration set entry");
    assert!(zc == 1, "one checkout set entry");
    assert!(h == 1, "one catalog hash entry");

    assert!(
        catalog.checkout_by_id(&mut store, id).is_none(),
        "should not be able to check out the same item id again"
    );

    assert!(
        catalog.checkout(&mut store).is_none(),
        "should have no items left to checkout"
    );

    let n = catalog.destroy_catalog(&mut store);
    assert_eq!(n, 0, "zero keys deleted");
}

#[test]
fn checkout_register_and_checkout_multiple_items() {
    const CNT: usize = 100;

    let mut store: CatalogStore<String> = CatalogStore::new();
    let catalog: Catalog<String> = random_catalog();
    let items: Vec<CatalogItem<String>> = (0..CNT).map(|_| random_item()).collect();
    let mut ids: Vec<u128> = items.iter().map(|item| item.id()).collect();

    let (z, h) = catalog.register_multiple(&mut store, &items);
    assert_eq!(z, CNT, "{} checkout set entries", CNT);
    assert!(h, "true catalog hash entry result");

    let items_checked_out = catalog.checkout_multiple(&mut store, CNT);
    let mut ids_checked_out: Vec<u128> = items_checked_out.iter().map(|item| item.id()).collect();

    assert_eq!(
        items.len(),
        items_checked_out.len(),
        "registered and fetched item count should match"
    );

    ids.sort();
    ids_checked_out.sort();

    let matching = ids
        .iter()
        .zip(ids_checked_out.iter())
        .filter(|&(id, id_checked_out)| *id == *id_checked_out)
        .count();

    assert_eq!(
        items.len(),
        matching,
        "registered and fetched item IDs should match"
    );

    let n = catalog.destroy_catalog(&mut store);
    assert_eq!(n, 2, "two keys deleted");
}

#[test]
fn checkout_register_and_checkout_multiple_items_by_id() {
    const CNT: usize = 100;
    let mut store: CatalogStore<String> = CatalogStore::new();
    let catalog: Catalog<String> = random_catalog();
    let items: Vec<CatalogItem<String>> = (0..CNT).map(|_| random_item()).collect();
    let ids: Vec<u128> = items.iter().map(|item| item.id()).collect();

    let (z, h) = catalog.register_multiple(&mut store, &items);
    assert_eq!(z, CNT, "{} checkout set entries", CNT);
    assert!(h, "true catalog hash entry result");

    let items_checked_out = catalog.checkout_multiple_by_id(&mut store, &ids);

    assert_eq!(
        items.len(),
        items_checked_out.len(),
        "registered and fetched item count should match"
    );

    let matching = ids
        .iter()
        .zip(items_checked_out.iter().flatten())
        .filter(|&(id, item)| *id == item.id())
        .count();

    assert_eq!(
        items.len(),
        matching,
        "registered and fetched item IDs should match"
    );

    let n = catalog.destroy_catalog(&mut store);
    assert_eq!(n, 2, "two keys deleted");
}

#[test]
fn checkout_returns_soonest_expiring_first() {
    let mut store: CatalogStore<u32> = CatalogStore::new();
    let catalog: Catalog<u32> = random_catalog();

    let late = CatalogItem::new_with_expiration(Expiration::Timestamp(3_000), 3u32);
    let early = CatalogItem::new_with_expiration(Expiration::Timestamp(1_000), 1u32);
    let middle = CatalogItem::new_with_expiration(Expiration::Timestamp(2_000), 2u32);

    catalog.register(&mut store, late);
    catalog.register(&mut store, early);
    catalog.register(&mut store, middle);

    let a = catalog.checkout(&mut store).expect("first item");
    let b = catalog.checkout(&mut store).expect("second item");
    let c = catalog.checkout(&mut store).expect("third item");
    assert_eq!(
        (*a.contents(), *b.contents(), *c.contents()),
        (1u32, 2u32, 3u32),
        "items should come out in ascending expiration order"
    );
}

#[test]
fn concurrent_style_checkouts_never_share_an_item() {
    let mut store: CatalogStore<String> = CatalogStore::new();
    let catalog: Catalog<String> = random_catalog();
    let items: Vec<CatalogItem<String>> = (0..4).map(|_| random_item()).collect();
    catalog.register_multiple(&mut store, &items);

    let mut seen: Vec<u128> = Vec::new();
    for _ in 0..4 {
        let item = catalog.checkout(&mut store).expect("a pending item");
        assert!(
            !seen.contains(&item.id()),
            "an item must be handed out at most once"
        );
        seen.push(item.id());
    }
}

#[test]
fn checkout_multiple_returns_fewer_when_pending_runs_out() {
    let mut store: CatalogStore<String> = CatalogStore::new();
    let catalog: Catalog<String> = random_catalog();
    let items: Vec<CatalogItem<String>> = (0..3).map(|_| random_item()).collect();
    catalog.register_multiple(&mut store, &items);

    let checked_out = catalog.checkout_multiple(&mut store, 10);
    assert_eq!(checked_out.len(), 3, "only the pending items come out");
    assert!(catalog.checkout(&mut store).is_none());
}

#[test]
fn checkout_by_id_of_absent_id_is_none() {
    let mut store: CatalogStore<String> = CatalogStore::new();
    let catalog: Catalog<String> = random_catalog();
    assert!(catalog.checkout_by_id(&mut store, 12345u128).is_none());
    let (zi, zc, h) = catalog.delete_by_id(&mut store, 12345u128);
    assert_eq!((zi, zc, h), (0, 0, 0));
}
