use rcqs::{Catalog, CatalogItem, CatalogStore, Expiration};
use uuid::Uuid;

fn random_catalog<T>() -> Catalog<T> {
    Catalog::new(
        "rcqs:testing".to_owned(),
        Uuid::new_v4().to_string(),
        Expiration::Ttl(60),
        Expiration::Ttl(30),
    )
}

fn random_item() -> CatalogItem<String> {
    CatalogItem::new(Uuid::new_v4().to_string())
}

#[test]
fn catalog_api_getters() {
    const ROOT_NAMESPACE: &str = "rcqs:testing";
    const NAME: &str = "catalog-getters";
    const ITEM_EXPIRATION: Expiration = Expiration::Never;
    const CHECKOUT_EXPIRATION: Expiration = Expiration::Ttl(30);

    let catalog_ns = format!("{}:{}", ROOT_NAMESPACE, NAME);

    let catalog: Catalog<u32> = Catalog::new(
        ROOT_NAMESPACE.to_owned(),
        NAME.to_owned(),
        ITEM_EXPIRATION,
        CHECKOUT_EXPIRATION,
    );

    assert_eq!(catalog.root_namespace(), ROOT_NAMESPACE);
    assert_eq!(catalog.name(), NAME);
    assert!(catalog.catalog_key().starts_with(&catalog_ns));
    assert!(catalog.catalog_expirations_key().starts_with(&catalog_ns));
    assert!(catalog.checkouts_expirations_key().starts_with(&catalog_ns));
    assert_eq!(catalog.default_item_expiration(), ITEM_EXPIRATION);
    assert_eq!(catalog.default_checkout_expiration(), CHECKOUT_EXPIRATION);
}

#[test]
fn mod_delete_catalog() {
    let mut store: CatalogStore<String> = CatalogStore::new();
    let catalog: Catalog<String> = random_catalog();
    let item = random_item();

    let (z, h) = catalog.register(&mut store, item);
    assert_eq!(z, h);

    let n = catalog.destroy_catalog(&mut store);
    assert_eq!(n, 2);
}

#[test]
fn add_item() {
    let mut store: CatalogStore<String> = CatalogStore::new();
    let catalog: Catalog<String> = random_catalog();
    let item = random_item();
    let id = item.id();

    let (z, h) = catalog.register(&mut store, item);
    assert_eq!(z, h);

    let (zi, zc, h) = catalog.delete_by_id(&mut store, id);
    assert!(zi == 1);
    assert!(zc == 0);
    assert!(h == 1);

    let n = catalog.destroy_catalog(&mut store);
    assert_eq!(n, 0);
}

#[test]
fn key_derivation() {
    let catalog: Catalog<u32> = Catalog::new(
        "ns".to_owned(),
        "jobs".to_owned(),
        Expiration::Never,
        Expiration::Never,
    );
    assert_eq!(catalog.catalog_key(), "ns:jobs:catalog");
    assert_eq!(catalog.catalog_expirations_key(), "ns:jobs:item-expirations");
    assert_eq!(
        catalog.checkouts_expirations_key(),
        "ns:jobs:checkout-expirations"
    );
}
