use rcqs::{Catalog, CatalogItem, CatalogStore, Expiration};
use uuid::Uuid;

fn random_catalog<T>() -> Catalog<T> {
    Catalog::new(
        "rcqs:testing".to_owned(),
        Uuid::new_v4().to_string(),
        Expiration::Ttl(60),
        Expiration::Ttl(30),
    )
}

fn random_item() -> CatalogItem<String> {
    CatalogItem::new(Uuid::new_v4().to_string())
}

#[test]
fn randomized_catalogs_delete_catalog() {
    let mut store: CatalogStore<String> = CatalogStore::new();
    let catalog: Catalog<String> = random_catalog();
    let item: CatalogItem<String> = random_item();

    let (z, h) = catalog.register(&mut store, item);
    assert_eq!(z, 1, "one item set entry");
    assert_eq!(z, h, "equal item set and catalog hash entry count");

    let n = catalog.destroy_catalog(&mut store);
    assert_eq!(n, 2, "two keys deleted");
}

#[test]
fn randomized_catalogs_register_and_checkout_item() {
    let mut store: CatalogStore<String> = CatalogStore::new();
    let catalog: Catalog<String> = random_catalog();
    let item: CatalogItem<String> = random_item();
    let id = item.id();

    let (z, h) = catalog.register(&mut store, item);
    assert_eq!(z, h, "equal item set and catalog hash entry count");

    let item = catalog
        .checkout(&mut store)
        .expect("item with ID as registered");
    assert_eq!(item.id(), id, "registered and fetch item IDs should match");

    let (zi, zc, h) = catalog.delete_by_id(&mut store, id);
    assert_eq!(zi, 0, "zero expiration set entry");
    assert_eq!(zc, 1, "one checkout set entry");
    assert_eq!(h, 1, "one catalog hash entry");

    assert!(
        catalog.checkout_by_id(&mut store, id).is_none(),
        "should not be able to check out the same item id again"
    );

    assert!(
        catalog.checkout(&mut store).is_none(),
        "should have no items left to checkout"
    );
}

#[test]
fn randomized_catalogs_register_and_checkout_item_by_id() {
    let mut store: CatalogStore<String> = CatalogStore::new();
    let catalog: Catalog<String> = random_catalog();
    let item: CatalogItem<String> = random_item();
    let id = item.id();

    let (z, h) = catalog.register(&mut store, item);
    assert_eq!(z, h, "equal item set and catalog hash entry count");

    let item = catalog
        .checkout_by_id(&mut store, id)
        .expect("item with ID as registered");
    assert_eq!(item.id(), id, "registered and fetch item IDs should match");

    let (zi, zc, h) = catalog.delete_by_id(&mut store, id);
    assert!(zi == 0, "zero expiration set entry");
    assert!(zc == 1, "one checkout set entry");
    assert!(h == 1, "one catalog hash entry");

    assert!(
        catalog.checkout_by_id(&mut store, id).is_none(),
        "should not be able to check out the same item id again"
    );

    assert!(
        catalog.checkout(&mut store).is_none(),
        "should have no items left to checkout"
    );
}

#[test]
fn randomized_catalogs_register_and_checkout_multiple_items() {
    const CNT: usize = 100;

    let mut store: CatalogStore<String> = CatalogStore::new();
    let catalog: Catalog<String> = random_catalog();
    let items: Vec<CatalogItem<String>> = (0..CNT).map(|_| random_item()).collect();
    let ids: Vec<u128> = items.iter().map(|item| item.id()).collect();

    let (z, h) = catalog.register_multiple(&mut store, &items);
    assert_eq!(z, CNT, "{} checkout set entries", CNT);
    assert!(h, "true catalog hash entry result");

    let items_checked_out = catalog.checkout_multiple(&mut store, CNT);

    assert_eq!(
        items.len(),
        items_checked_out.len(),
        "registered and fetched item count should match"
    );

    let found = items_checked_out
        .iter()
        .filter(|item| ids.contains(&item.id()))
        .count();

    assert_eq!(
        items.len(),
        found,
        "registered and fetched item IDs should match"
    );
}

#[test]
fn randomized_catalogs_register_and_checkout_multiple_items_by_id() {
    const CNT: usize = 100;
    let mut store: CatalogStore<String> = CatalogStore::new();
    let catalog: Catalog<String> = random_catalog();
    let items: Vec<CatalogItem<String>> = (0..CNT).map(|_| random_item()).collect();
    let ids: Vec<u128> = items.iter().map(|item| item.id()).collect();

    let (z, h) = catalog.register_multiple(&mut store, &items);
    assert_eq!(z, CNT, "{} checkout set entries", CNT);
    assert!(h, "true catalog hash entry result");

    let items_checked_out = catalog.checkout_multiple_by_id(&mut store, &ids);

    assert_eq!(
        items.len(),
        items_checked_out.len(),
        "registered and fetched item count should match"
    );

    let matching = items
        .iter()
        .zip(items_checked_out.iter().flatten())
        .filter(|&(a, b)| a.id() == b.id())
        .count();

    assert_eq!(
        items.len(),
        matching,
        "registered and fetched item IDs should match"
    );
}

#[test]
fn register_and_delete_item() {
    let mut store: CatalogStore<String> = CatalogStore::new();
    let catalog: Catalog<String> = random_catalog();
    let item: CatalogItem<String> = random_item();
    let id = item.id();

    let (z, h) = catalog.register(&mut store, item);
    assert_eq!(z, h, "equal item set and catalog hash entry count");

    let (zi, zc, h) = catalog.delete_by_id(&mut store, id);
    assert!(zi == 1, "one expiration set entry");
    assert!(zc == 0, "zero checkout set entry");
    assert!(h == 1, "one catalog hash entry");

    let n = catalog.destroy_catalog(&mut store);
    assert_eq!(n, 0, "zero keys deleted");
}

#[test]
fn register_and_delete_multiple_items() {
    const CNT: usize = 100;
    let mut store: CatalogStore<String> = CatalogStore::new();
    let catalog: Catalog<String> = random_catalog();
    let items: Vec<CatalogItem<String>> = (0..CNT).map(|_| random_item()).collect();
    let ids: Vec<u128> = items.iter().map(|item| item.id()).collect();

    let (z, h) = catalog.register_multiple(&mut store, &items);
    assert_eq!(z, CNT, "{} checkout set entries", CNT);
    assert!(h, "true catalog hash entry result");

    let (zi, zc, h) = catalog.delete_multiple_by_id(&mut store, &ids);
    assert!(zi == CNT, "{} expiration set entry", CNT);
    assert!(zc == 0, "zero checkout set entry");
    assert!(h == CNT, "{} catalog hash entry", CNT);

    let n = catalog.destroy_catalog(&mut store);
    assert_eq!(n, 0, "zero keys deleted");
}

#[test]
fn register_same_id_twice_overwrites() {
    let mut store: CatalogStore<u32> = CatalogStore::new();
    let catalog: Catalog<u32> = random_catalog();
    let first = CatalogItem {
        id: 11u128,
        contents: 1u32,
        created_on: 0,
        expires_on: Some(rcqs::Score::At(500)),
    };
    let second = CatalogItem {
        id: 11u128,
        contents: 2u32,
        created_on: 0,
        expires_on: Some(rcqs::Score::At(700)),
    };

    let (z, h) = catalog.register(&mut store, first);
    assert_eq!((z, h), (1, 1), "a fresh id adds one entry to each collection");

    let (z, h) = catalog.register(&mut store, second);
    assert_eq!((z, h), (0, 0), "re-registering an id overwrites in place");

    let item = catalog
        .checkout_by_id(&mut store, 11u128)
        .expect("the overwritten item");
    assert_eq!(*item.contents(), 2u32, "the later payload wins");
}
