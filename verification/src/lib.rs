//! A lease-based item catalog: producers register items, consumers check
//! them out under a time-bounded lease, and two sweeps purge expired items
//! and reclaim overdue leases.
//!
//! The catalog's three coupled collections (payload map, pending-expiration
//! ordering, checkout-deadline ordering) are modelled by [`CatalogStore`],
//! and every operation is verified against an exact transition function on
//! that model.

pub mod catalog;
pub mod expire;
pub mod hash;
pub mod item;
pub mod laws;
pub mod score;
pub mod store;
pub mod zset;

pub use catalog::Catalog;
pub use expire::Expiration;
pub use item::{CatalogItem, Codec};
pub use score::Score;
pub use store::CatalogStore;
pub use zset::ScoredId;
