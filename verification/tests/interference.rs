use rcqs::{Catalog, CatalogItem, CatalogStore, Expiration};
use uuid::Uuid;

fn random_catalog<T>() -> Catalog<T> {
    Catalog::new(
        "rcqs:testing".to_owned(),
        Uuid::new_v4().to_string(),
        Expiration::Ttl(60),
        Expiration::Ttl(30),
    )
}

fn random_item() -> CatalogItem<String> {
    CatalogItem::new(Uuid::new_v4().to_string())
}

#[test]
fn interference_register_and_checkout_item() {
    let mut store: CatalogStore<String> = CatalogStore::new();
    let catalog: Catalog<String> = random_catalog();
    let item: CatalogItem<String> = random_item();
    let id = item.id();

    let (z, h) = catalog.register(&mut store, item);
    assert_eq!(z, h, "equal item set and catalog hash entry count");

    let n = store.items.remove(id);
    assert_eq!(n, 1, "interfered to delete item from catalog");

    let item = catalog.checkout(&mut store);
    assert!(item.is_none(), "registered item externally removed");

    let (zi, zc, h) = catalog.delete_by_id(&mut store, id);
    assert_eq!(zi, 0, "zero expiration set entry");
    assert_eq!(zc, 0, "one checkout set entry");
    assert_eq!(h, 0, "one catalog hash entry");

    let n = catalog.destroy_catalog(&mut store);
    assert_eq!(n, 0, "zero keys deleted");
}
