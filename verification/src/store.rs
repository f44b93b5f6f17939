//! One catalog's slice of the key-value store: the payload map and the
//! two ordered sets, with the well-formedness they keep together.

use vstd::prelude::*;

use crate::hash::{h_wf, ItemHash, PayloadEntry};
use crate::zset::{z_wf, ScoredId, Zset};

verus! {

/// The mathematical model of one catalog's store state.
#[verifier::ext_equal]
pub struct StoreModel<I> {
    /// The payload map: id to persisted item.
    pub items: Seq<PayloadEntry<I>>,
    /// The pending ordering: id scored by the item's own expiration.
    pub pending: Seq<ScoredId>,
    /// The checkout ordering: id scored by the lease deadline.
    pub checkouts: Seq<ScoredId>,
}

/// Each collection is well-formed on its own. Cross-collection exclusivity
/// (an id pending or checked out, never both) is deliberately not assumed:
/// the protocol must tolerate states that outside writers left behind.
pub open spec fn store_wf<I>(m: StoreModel<I>) -> bool {
    h_wf(m.items) && z_wf(m.pending) && z_wf(m.checkouts)
}

/// One catalog's three collections. The fields are public the way the
/// underlying store's keys are open to every client: tests and callers
/// may read or tamper with them directly, and every catalog operation
/// states what it does against whatever state it finds.
#[derive(Debug)]
pub struct CatalogStore<I> {
    pub items: ItemHash<I>,
    pub pending: Zset,
    pub checkouts: Zset,
}

impl<I> View for CatalogStore<I> {
    type V = StoreModel<I>;

    open spec fn view(&self) -> StoreModel<I> {
        StoreModel { items: self.items@, pending: self.pending@, checkouts: self.checkouts@ }
    }
}

impl<I> CatalogStore<I> {
    /// An empty store slice.
    pub fn new() -> (r: Self)
        ensures
            r@.items.len() == 0,
            r@.pending.len() == 0,
            r@.checkouts.len() == 0,
            store_wf(r@),
    {
        CatalogStore { items: ItemHash::new(), pending: Zset::new(), checkouts: Zset::new() }
    }
}

} // verus!
