use rcqs::{Catalog, CatalogItem, CatalogStore, Expiration};
use uuid::Uuid;

fn random_catalog<T>() -> Catalog<T> {
    Catalog::new(
        "rcqs:testing".to_owned(),
        Uuid::new_v4().to_string(),
        Expiration::Ttl(60),
        Expiration::Ttl(30),
    )
}

fn random_item() -> CatalogItem<String> {
    CatalogItem::new(Uuid::new_v4().to_string())
}

#[test]
fn deletetion_delete_catalog() {
    let mut store: CatalogStore<String> = CatalogStore::new();
    let catalog: Catalog<String> = random_catalog();
    let item: CatalogItem<String> = random_item();

    let (z, h) = catalog.register(&mut store, item);
    assert_eq!(z, 1, "one item set entry");
    assert_eq!(z, h, "equal item set and catalog hash entry count");

    let n = catalog.destroy_catalog(&mut store);
    assert_eq!(n, 2, "two keys deleted");
}

#[test]
fn delete_by_id() {
    let mut store: CatalogStore<String> = CatalogStore::new();
    let catalog: Catalog<String> = random_catalog();
    let item: CatalogItem<String> = random_item();
    let id = item.id();

    let (z, h) = catalog.register(&mut store, item);
    assert_eq!(z, h, "equal item set and catalog hash entry count");

    let (zi, zc, h) = catalog.delete_by_id(&mut store, id);
    assert!(zi == 1, "one expiration set entry");
    assert!(zc == 0, "zero checkout set entry");
    assert!(h == 1, "one catalog hash entry");

    let n = catalog.destroy_catalog(&mut store);
    assert_eq!(n, 0, "zero keys deleted");
}

#[test]
fn delete_and_get_by_id() {
    let mut store: CatalogStore<String> = CatalogStore::new();
    let catalog: Catalog<String> = random_catalog();
    let item: CatalogItem<String> = random_item();
    let id = item.id();

    let (z, h) = catalog.register(&mut store, item);
    assert_eq!(z, h, "equal item set and catalog hash entry count");

    let item_fetched = catalog.delete_and_get_by_id(&mut store, id);
    let item_fetched = item_fetched.expect("same item returned");

    assert_eq!(
        item_fetched.id(),
        id,
        "registered and fetched item IDs should match"
    );

    let n = catalog.destroy_catalog(&mut store);
    assert_eq!(n, 0, "zero keys deleted");
}

#[test]
fn delete_multiple_by_id() {
    const CNT: usize = 100;
    let mut store: CatalogStore<String> = CatalogStore::new();
    let catalog: Catalog<String> = random_catalog();
    let items: Vec<CatalogItem<String>> = (0..CNT).map(|_| random_item()).collect();
    let ids: Vec<u128> = items.iter().map(|item| item.id()).collect();

    let (z, h) = catalog.register_multiple(&mut store, &items);
    assert_eq!(z, CNT, "{} checkout set entries", CNT);
    assert!(h, "true catalog hash entry result");

    let (zi, zc, h) = catalog.delete_multiple_by_id(&mut store, &ids);
    assert!(zi == CNT, "{} expiration set entry", CNT);
    assert!(zc == 0, "zero checkout set entry");
    assert!(h == CNT, "{} catalog hash entry", CNT);

    let n = catalog.destroy_catalog(&mut store);
    assert_eq!(n, 0, "zero keys deleted");
}

#[test]
fn delete_and_get_multiple_by_id() {
    const CNT: usize = 100;
    let mut store: CatalogStore<String> = CatalogStore::new();
    let catalog: Catalog<String> = random_catalog();
    let items: Vec<CatalogItem<String>> = (0..CNT).map(|_| random_item()).collect();
    let mut ids: Vec<u128> = items.iter().map(|item| item.id()).collect();

    let (z, h) = catalog.register_multiple(&mut store, &items);
    assert_eq!(z, CNT, "{} checkout set entries", CNT);
    assert!(h, "true catalog hash entry result");

    let items_fetched = catalog.delete_and_get_multiple_by_id(&mut store, &ids);
    let mut ids_fetched: Vec<u128> = items_fetched
        .iter()
        .flatten()
        .map(|item| item.id())
        .collect();

    assert_eq!(
        items.len(),
        items_fetched.len(),
        "registered and fetched item count should match"
    );

    ids.sort();
    ids_fetched.sort();

    let matching = ids
        .iter()
        .zip(ids_fetched.iter())
        .filter(|&(id, id_checked_out)| *id == *id_checked_out)
        .count();

    assert_eq!(
        items.len(),
        matching,
        "registered and fetched item IDs should match"
    );

    let n = catalog.destroy_catalog(&mut store);
    assert_eq!(n, 0, "zero keys deleted");
}
