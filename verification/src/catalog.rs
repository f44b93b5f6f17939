//! The catalog: every operation of the lease protocol, verified against
//! exact transition functions on the store model.

use vstd::prelude::*;
use vstd::string::StringExecFns;

use core::marker::PhantomData;

use crate::expire::{now_timestamp, resolve_spec, Expiration};
use crate::hash::{h_find, h_find_all, h_found, h_has, h_remove, h_remove_seq};
use crate::item::{item_ids, CatalogItem, Codec};
use crate::score::Score;
use crate::store::{store_wf, CatalogStore, StoreModel};
use crate::zset::{
    entry_ids, min_len, z_add, z_add_pairs, z_add_seq, z_has, z_range_ids, z_remove, z_remove_seq,
    ScoredId,
};

verus! {

/// The score an item is registered or reclaimed under: its own stored
/// expiration when it has one, else the given default.
pub open spec fn stored_score<I>(item: CatalogItem<I>, dflt: Score) -> Score {
    match item.expires_on {
        Some(sc) => sc,
        None => dflt,
    }
}

/// Registration: the item is stored under its id and its id enters the
/// pending ordering at `score`. The counts are what the store reports:
/// new pending entries and new map fields, 1 each for a fresh id.
pub open spec fn register_spec<I>(m: StoreModel<I>, item: CatalogItem<I>, score: Score) -> (
    StoreModel<I>,
    (usize, usize),
) {
    let zc: usize = if z_has(m.pending, item.id) {
        0
    } else {
        1
    };
    let hc: usize = if h_has(m.items, item.id) {
        0
    } else {
        1
    };
    (
        StoreModel {
            items: crate::hash::h_set(m.items, item),
            pending: z_add(m.pending, item.id, score),
            ..m
        },
        (zc, hc),
    )
}

/// Batched registration, one score per item, applied in order.
pub open spec fn register_all_spec<I>(
    m: StoreModel<I>,
    items: Seq<CatalogItem<I>>,
    scores: Seq<Score>,
) -> StoreModel<I>
    decreases items.len(),
{
    if items.len() == 0 {
        m
    } else {
        register_all_spec(
            register_spec(m, items[0], scores[0]).0,
            items.drop_first(),
            scores.drop_first(),
        )
    }
}

/// Checkout: the pending entry with the smallest score is popped. When its
/// payload is stored, the id enters the checkout ordering at `deadline` and
/// the item is returned; a dangling id is dropped without being restored.
pub open spec fn checkout_spec<I>(m: StoreModel<I>, deadline: Score) -> (
    StoreModel<I>,
    Option<CatalogItem<I>>,
) {
    if m.pending.len() == 0 {
        (m, None)
    } else {
        let e = m.pending[0];
        let rest = m.pending.drop_first();
        match h_find(m.items, e.id) {
            None => (StoreModel { pending: rest, ..m }, None),
            Some(it) => (
                StoreModel {
                    pending: rest,
                    checkouts: z_add(m.checkouts, e.id, deadline),
                    ..m
                },
                Some(it),
            ),
        }
    }
}

/// Checkout of up to `count` items: the lowest-scored pending entries are
/// popped; items are returned for the popped ids whose payload is stored,
/// and only those ids enter the checkout ordering.
pub open spec fn checkout_multiple_spec<I>(m: StoreModel<I>, count: int, deadline: Score) -> (
    StoreModel<I>,
    Seq<CatalogItem<I>>,
) {
    let k = min_len(count, m.pending.len() as int);
    let popped_ids = entry_ids(m.pending.take(k));
    let found = h_found(m.items, popped_ids);
    (
        StoreModel {
            pending: m.pending.skip(k),
            checkouts: z_add_seq(m.checkouts, item_ids(found), deadline),
            ..m
        },
        found,
    )
}

/// Checkout by id: the id leaves the pending ordering; when it was not
/// pending nothing else happens, and when its payload is missing the id is
/// dropped without entering the checkout ordering.
pub open spec fn checkout_by_id_spec<I>(m: StoreModel<I>, id: u128, deadline: Score) -> (
    StoreModel<I>,
    Option<CatalogItem<I>>,
) {
    if !z_has(m.pending, id) {
        (m, None)
    } else {
        let rest = z_remove(m.pending, id);
        match h_find(m.items, id) {
            None => (StoreModel { pending: rest, ..m }, None),
            Some(it) => (
                StoreModel {
                    pending: rest,
                    checkouts: z_add(m.checkouts, id, deadline),
                    ..m
                },
                Some(it),
            ),
        }
    }
}

/// The given ids that have a pending entry, in the order they were given.
pub open spec fn pending_members(pending: Seq<ScoredId>, ids: Seq<u128>) -> Seq<u128>
    decreases ids.len(),
{
    if ids.len() == 0 {
        Seq::empty()
    } else if z_has(pending, ids[0]) {
        seq![ids[0]] + pending_members(pending, ids.drop_first())
    } else {
        pending_members(pending, ids.drop_first())
    }
}

/// Checkout of several ids: membership is read first, so only ids pending
/// at that moment count as found; all named ids leave the pending ordering.
/// The result holds one slot per found id, in the order the ids were
/// given, `None` where the found id's payload was missing; when no id was
/// pending the result is empty.
pub open spec fn checkout_multiple_by_id_spec<I>(
    m: StoreModel<I>,
    ids: Seq<u128>,
    deadline: Score,
) -> (StoreModel<I>, Seq<Option<CatalogItem<I>>>) {
    let found_ids = pending_members(m.pending, ids);
    let rest = z_remove_seq(m.pending, ids);
    if found_ids.len() == 0 {
        (StoreModel { pending: rest, ..m }, Seq::empty())
    } else {
        let queried = h_find_all(m.items, found_ids);
        let fitems = h_found(m.items, found_ids);
        (
            StoreModel {
                pending: rest,
                checkouts: z_add_seq(m.checkouts, item_ids(fitems), deadline),
                ..m
            },
            queried,
        )
    }
}

/// The expiration sweep at clock reading `now`, scanning pending scores
/// from `lo`: every pending entry whose score lies in `[lo, now]` leaves
/// both the payload map and the pending ordering. The counts are fields
/// removed from the map and entries removed from the ordering.
pub open spec fn expire_spec<I>(m: StoreModel<I>, lo: Score, now: i64) -> (
    StoreModel<I>,
    (usize, usize),
) {
    let due = z_range_ids(m.pending, lo, Score::At(now));
    if due.len() == 0 {
        (m, (0, 0))
    } else {
        let items2 = h_remove_seq(m.items, due);
        let pend2 = z_remove_seq(m.pending, due);
        (
            StoreModel { items: items2, pending: pend2, ..m },
            ((m.items.len() - items2.len()) as usize, (m.pending.len() - pend2.len()) as usize),
        )
    }
}

/// The reclaim entries for a sweep of due checkouts: each due id whose
/// payload is stored, at its item's own expiration, falling back to the
/// default; dangling ids contribute nothing.
pub open spec fn reclaim_pairs<I>(
    items: Seq<crate::hash::PayloadEntry<I>>,
    ids: Seq<u128>,
    dflt: Score,
) -> Seq<ScoredId>
    decreases ids.len(),
{
    if ids.len() == 0 {
        Seq::empty()
    } else {
        match h_find(items, ids[0]) {
            Some(it) => seq![ScoredId { id: ids[0], score: stored_score(it, dflt) }]
                + reclaim_pairs(items, ids.drop_first(), dflt),
            None => reclaim_pairs(items, ids.drop_first(), dflt),
        }
    }
}

/// The checkout-timeout sweep at clock reading `now`: every checkout whose
/// deadline has passed leaves the checkout ordering, and each such id with
/// a stored payload returns to the pending ordering at its re-resolved
/// expiration. The counts are entries newly pending and entries removed
/// from the checkout ordering.
pub open spec fn timeout_spec<I>(m: StoreModel<I>, dflt: Score, now: i64) -> (
    StoreModel<I>,
    (usize, usize),
) {
    let due = z_range_ids(m.checkouts, Score::At(i64::MIN), Score::At(now));
    if due.len() == 0 {
        (m, (0, 0))
    } else {
        let pend2 = z_add_pairs(m.pending, reclaim_pairs(m.items, due, dflt));
        let co2 = z_remove_seq(m.checkouts, due);
        (
            StoreModel { pending: pend2, checkouts: co2, ..m },
            ((pend2.len() - m.pending.len()) as usize, (m.checkouts.len() - co2.len()) as usize),
        )
    }
}

/// An early lease return: when `id` is checked out it leaves the checkout
/// ordering and, if its payload is stored, returns to pending at its
/// re-resolved expiration; otherwise nothing happens and both counts are
/// zero. The counts are checkout removals and pending additions.
pub open spec fn relinquish_spec<I>(m: StoreModel<I>, id: u128, dflt: Score) -> (
    StoreModel<I>,
    (usize, usize),
) {
    if !z_has(m.checkouts, id) {
        (m, (0, 0))
    } else {
        let co2 = z_remove(m.checkouts, id);
        match h_find(m.items, id) {
            None => (StoreModel { checkouts: co2, ..m }, (1, 0)),
            Some(it) => {
                let sc = stored_score(it, dflt);
                let zi: usize = if z_has(m.pending, id) {
                    0
                } else {
                    1
                };
                (
                    StoreModel { pending: z_add(m.pending, id, sc), checkouts: co2, ..m },
                    (1, zi),
                )
            },
        }
    }
}

/// Unconditional deletion of one id from all three collections, with the
/// removal count of each: pending, checkout, payload map.
pub open spec fn delete_spec<I>(m: StoreModel<I>, id: u128) -> (
    StoreModel<I>,
    (usize, usize, usize),
) {
    let zi: usize = if z_has(m.pending, id) {
        1
    } else {
        0
    };
    let zc: usize = if z_has(m.checkouts, id) {
        1
    } else {
        0
    };
    let hc: usize = if h_has(m.items, id) {
        1
    } else {
        0
    };
    (
        StoreModel {
            items: h_remove(m.items, id),
            pending: z_remove(m.pending, id),
            checkouts: z_remove(m.checkouts, id),
        },
        (zi, zc, hc),
    )
}

/// Batched unconditional deletion, with aggregate removal counts in the
/// same order.
pub open spec fn delete_multiple_spec<I>(m: StoreModel<I>, ids: Seq<u128>) -> (
    StoreModel<I>,
    (usize, usize, usize),
) {
    let items2 = h_remove_seq(m.items, ids);
    let pend2 = z_remove_seq(m.pending, ids);
    let co2 = z_remove_seq(m.checkouts, ids);
    (
        StoreModel { items: items2, pending: pend2, checkouts: co2 },
        (
            (m.pending.len() - pend2.len()) as usize,
            (m.checkouts.len() - co2.len()) as usize,
            (m.items.len() - items2.len()) as usize,
        ),
    )
}

/// Destruction: all three collections are dropped; the count says how many
/// of them existed, that is, held at least one entry.
pub open spec fn destroy_spec<I>(m: StoreModel<I>) -> (StoreModel<I>, usize) {
    let count = (if m.items.len() > 0 {
        1int
    } else {
        0int
    }) + (if m.pending.len() > 0 {
        1int
    } else {
        0int
    }) + (if m.checkouts.len() > 0 {
        1int
    } else {
        0int
    });
    (
        StoreModel {
            items: Seq::empty(),
            pending: Seq::empty(),
            checkouts: Seq::empty(),
        },
        count as usize,
    )
}

/// The immutable configuration of one catalog: where its three collections
/// live in the store's keyspace, and the default expirations applied when
/// an item or a checkout names none of its own.
#[derive(Debug)]
pub struct Catalog<I> {
    pub root_namespace: String,
    pub name: String,
    pub catalog_key: String,
    pub item_expirations_key: String,
    pub checkout_expirations_key: String,
    pub default_item_expiration: Expiration,
    pub default_checkout_expiration: Expiration,
    pub _item_type: PhantomData<CatalogItem<I>>,
}

impl<I> Catalog<I> {
    /// A new catalog under the given root namespace and name, with a
    /// default item expiration and a default checkout expiration.
    pub fn new(
        root_namespace: String,
        name: String,
        default_item_expiration: Expiration,
        default_checkout_expiration: Expiration,
    ) -> (r: Self)
        ensures
            r.root_namespace@ == root_namespace@,
            r.name@ == name@,
            r.default_item_expiration == default_item_expiration,
            r.default_checkout_expiration == default_checkout_expiration,
            r.catalog_key@ == root_namespace@ + ":"@ + name@ + ":catalog"@,
            r.item_expirations_key@ == root_namespace@ + ":"@ + name@ + ":item-expirations"@,
            r.checkout_expirations_key@ == root_namespace@ + ":"@ + name@
                + ":checkout-expirations"@,
    {
        let catalog_ns = root_namespace.clone().concat(":").concat(name.as_str());
        let catalog_key = catalog_ns.clone().concat(":catalog");
        let item_expirations_key = catalog_ns.clone().concat(":item-expirations");
        let checkout_expirations_key = catalog_ns.concat(":checkout-expirations");
        Catalog {
            root_namespace,
            name,
            catalog_key,
            item_expirations_key,
            checkout_expirations_key,
            default_item_expiration,
            default_checkout_expiration,
            _item_type: PhantomData,
        }
    }

    /// Root namespace or prefix for keys related to this catalog.
    pub fn root_namespace(&self) -> (r: &str)
        ensures
            r@ == self.root_namespace@,
    {
        self.root_namespace.as_str()
    }

    /// Name of this catalog.
    pub fn name(&self) -> (r: &str)
        ensures
            r@ == self.name@,
    {
        self.name.as_str()
    }

    /// Key for the map containing items.
    pub fn catalog_key(&self) -> (r: &str)
        ensures
            r@ == self.catalog_key@,
    {
        self.catalog_key.as_str()
    }

    /// Key for the ordered set containing item expirations.
    pub fn catalog_expirations_key(&self) -> (r: &str)
        ensures
            r@ == self.item_expirations_key@,
    {
        self.item_expirations_key.as_str()
    }

    /// Key for the ordered set containing checkout expirations.
    pub fn checkouts_expirations_key(&self) -> (r: &str)
        ensures
            r@ == self.checkout_expirations_key@,
    {
        self.checkout_expirations_key.as_str()
    }

    /// Default item expiration.
    pub fn default_item_expiration(&self) -> (r: Expiration)
        ensures
            r == self.default_item_expiration,
    {
        self.default_item_expiration
    }

    /// Default checkout expiration.
    pub fn default_checkout_expiration(&self) -> (r: Expiration)
        ensures
            r == self.default_checkout_expiration,
    {
        self.default_checkout_expiration
    }

    /// Delete all three collections of this catalog from the store,
    /// consuming the catalog handle. Returns how many of its keys existed.
    pub fn destroy_catalog(self, store: &mut CatalogStore<I>) -> (r: usize)
        ensures
            store_wf(final(store)@),
            final(store)@ == destroy_spec(old(store)@).0,
            r == destroy_spec(old(store)@).1,
    {
        let mut count: usize = 0;
        if !store.items.is_empty() {
            count = count + 1;
        }
        if !store.pending.is_empty() {
            count = count + 1;
        }
        if !store.checkouts.is_empty() {
            count = count + 1;
        }
        store.items.clear();
        store.pending.clear();
        store.checkouts.clear();
        proof {
            assert(final(store)@ =~= destroy_spec(old(store)@).0);
        }
        count
    }

    /// Register `item` under the given resolved pending score.
    pub fn register_with_timestamp(
        &self,
        store: &mut CatalogStore<I>,
        item: CatalogItem<I>,
        expires_on: Score,
    ) -> (r: (usize, usize))
        requires
            store_wf(old(store)@),
        ensures
            store_wf(final(store)@),
            final(store)@ == register_spec(old(store)@, item, expires_on).0,
            r == register_spec(old(store)@, item, expires_on).1,
    {
        let id = item.id();
        let zc = store.pending.add(id, expires_on);
        let hc = store.items.set(item);
        proof {
            assert(final(store)@ =~= register_spec(old(store)@, item, expires_on).0);
        }
        (zc, hc)
    }
}

/// What a clock-resolved registration leaves behind: the transition under
/// the score the item gets when the clock reads `now`.
pub open spec fn register_now_post<I>(
    cat: Catalog<I>,
    pre: StoreModel<I>,
    post: StoreModel<I>,
    r: (usize, usize),
    item: CatalogItem<I>,
    now: i64,
) -> bool {
    let sc = stored_score(item, resolve_spec(cat.default_item_expiration, now));
    post == register_spec(pre, item, sc).0 && r == register_spec(pre, item, sc).1
}

/// What a registration under an explicit expiration leaves behind when the
/// clock reads `now`.
pub open spec fn register_with_expiration_now_post<I>(
    pre: StoreModel<I>,
    post: StoreModel<I>,
    r: (usize, usize),
    item: CatalogItem<I>,
    expiration: Expiration,
    now: i64,
) -> bool {
    let sc = resolve_spec(expiration, now);
    post == register_spec(pre, item, sc).0 && r == register_spec(pre, item, sc).1
}

impl<I> Catalog<I> {
    /// Register `item` under its own stored expiration, falling back to
    /// the catalog's default resolved against the clock.
    pub fn register(&self, store: &mut CatalogStore<I>, item: CatalogItem<I>) -> (r: (
        usize,
        usize,
    ))
        requires
            store_wf(old(store)@),
        ensures
            store_wf(final(store)@),
            exists|now: i64|
                now >= 0 && #[trigger] register_now_post(
                    *self,
                    old(store)@,
                    final(store)@,
                    r,
                    item,
                    now,
                ),
            item.expires_on matches Some(sc) ==> final(store)@ == register_spec(
                old(store)@,
                item,
                sc,
            ).0 && r == register_spec(old(store)@, item, sc).1,
    {
        let now: i64 = now_timestamp();
        let expires_on = match item.expires_on_timestamp() {
            Some(sc) => sc,
            None => self.default_item_expiration.resolve_at(now),
        };
        let r = self.register_with_timestamp(store, item, expires_on);
        proof {
            assert(register_now_post(*self, old(store)@, final(store)@, r, item, now));
        }
        r
    }

    /// Register `item` under the given expiration, resolved against the
    /// clock; the item's own stored expiration is not consulted.
    pub fn register_with_expiration(
        &self,
        store: &mut CatalogStore<I>,
        item: CatalogItem<I>,
        expiration: Expiration,
    ) -> (r: (usize, usize))
        requires
            store_wf(old(store)@),
        ensures
            store_wf(final(store)@),
            exists|now: i64|
                now >= 0 && #[trigger] register_with_expiration_now_post(
                    old(store)@,
                    final(store)@,
                    r,
                    item,
                    expiration,
                    now,
                ),
            expiration matches Expiration::Never ==> final(store)@ == register_spec(
                old(store)@,
                item,
                Score::Never,
            ).0 && r == register_spec(old(store)@, item, Score::Never).1,
            forall|t: i64|
                expiration == Expiration::Timestamp(t) ==> final(store)@ == register_spec(
                    old(store)@,
                    item,
                    Score::At(t),
                ).0 && r == register_spec(old(store)@, item, Score::At(t)).1,
    {
        let now: i64 = now_timestamp();
        let expires_on = expiration.resolve_at(now);
        let r = self.register_with_timestamp(store, item, expires_on);
        proof {
            assert(register_with_expiration_now_post(
                old(store)@,
                final(store)@,
                r,
                item,
                expiration,
                now,
            ));
        }
        r
    }

    /// Delete `id` unconditionally from all three collections. Returns the
    /// removal counts: pending, checkout, payload map.
    pub fn delete_by_id(&self, store: &mut CatalogStore<I>, id: u128) -> (r: (
        usize,
        usize,
        usize,
    ))
        requires
            store_wf(old(store)@),
        ensures
            store_wf(final(store)@),
            final(store)@ == delete_spec(old(store)@, id).0,
            r == delete_spec(old(store)@, id).1,
    {
        let zi = store.pending.remove(id);
        let zc = store.checkouts.remove(id);
        let hc = store.items.remove(id);
        proof {
            assert(final(store)@ =~= delete_spec(old(store)@, id).0);
        }
        (zi, zc, hc)
    }

    /// Delete the given ids unconditionally from all three collections.
    /// Returns the aggregate removal counts: pending, checkout, payload
    /// map.
    pub fn delete_multiple_by_id(&self, store: &mut CatalogStore<I>, ids: &Vec<u128>) -> (r: (
        usize,
        usize,
        usize,
    ))
        requires
            store_wf(old(store)@),
        ensures
            store_wf(final(store)@),
            final(store)@ == delete_multiple_spec(old(store)@, ids@).0,
            r == delete_multiple_spec(old(store)@, ids@).1,
    {
        let zi = store.pending.remove_ids(ids);
        let zc = store.checkouts.remove_ids(ids);
        let hc = store.items.remove_ids(ids);
        proof {
            assert(final(store)@ =~= delete_multiple_spec(old(store)@, ids@).0);
        }
        (zi, zc, hc)
    }
}

impl<I: Codec> Catalog<I> {
    /// Delete `id` unconditionally and return the item that was stored
    /// under it, if any.
    pub fn delete_and_get_by_id(&self, store: &mut CatalogStore<I>, id: u128) -> (r: Option<
        CatalogItem<I>,
    >)
        requires
            store_wf(old(store)@),
        ensures
            store_wf(final(store)@),
            final(store)@ == delete_spec(old(store)@, id).0,
            r == h_find(old(store)@.items, id),
    {
        store.pending.remove(id);
        store.checkouts.remove(id);
        let r = store.items.get_copy(id);
        store.items.remove(id);
        proof {
            assert(final(store)@ =~= delete_spec(old(store)@, id).0);
        }
        r
    }

    /// Delete the given ids unconditionally and return, for each, the item
    /// that was stored under it, in the order the ids were given.
    pub fn delete_and_get_multiple_by_id(
        &self,
        store: &mut CatalogStore<I>,
        ids: &Vec<u128>,
    ) -> (r: Vec<Option<CatalogItem<I>>>)
        requires
            store_wf(old(store)@),
        ensures
            store_wf(final(store)@),
            final(store)@ == delete_multiple_spec(old(store)@, ids@).0,
            r@ == h_find_all(old(store)@.items, ids@),
    {
        store.pending.remove_ids(ids);
        store.checkouts.remove_ids(ids);
        let r = store.items.get_copies(ids);
        store.items.remove_ids(ids);
        proof {
            assert(final(store)@ =~= delete_multiple_spec(old(store)@, ids@).0);
        }
        r
    }
}

/// What a clock-resolved checkout leaves behind: the transition under the
/// deadline the lease gets when the clock reads `now`.
pub open spec fn checkout_now_post<I>(
    cat: Catalog<I>,
    pre: StoreModel<I>,
    post: StoreModel<I>,
    r: Option<CatalogItem<I>>,
    now: i64,
) -> bool {
    let d = resolve_spec(cat.default_checkout_expiration, now);
    post == checkout_spec(pre, d).0 && r == checkout_spec(pre, d).1
}

/// What a checkout under an explicit lease expiration leaves behind when
/// the clock reads `now`.
pub open spec fn checkout_with_timeout_now_post<I>(
    pre: StoreModel<I>,
    post: StoreModel<I>,
    r: Option<CatalogItem<I>>,
    timeout: Expiration,
    now: i64,
) -> bool {
    let d = resolve_spec(timeout, now);
    post == checkout_spec(pre, d).0 && r == checkout_spec(pre, d).1
}

/// What a clock-resolved checkout by id leaves behind.
pub open spec fn checkout_by_id_now_post<I>(
    cat: Catalog<I>,
    pre: StoreModel<I>,
    post: StoreModel<I>,
    r: Option<CatalogItem<I>>,
    id: u128,
    now: i64,
) -> bool {
    let d = resolve_spec(cat.default_checkout_expiration, now);
    post == checkout_by_id_spec(pre, id, d).0 && r == checkout_by_id_spec(pre, id, d).1
}

/// What a checkout by id under an explicit lease expiration leaves behind
/// when the clock reads `now`.
pub open spec fn checkout_by_id_with_timeout_now_post<I>(
    pre: StoreModel<I>,
    post: StoreModel<I>,
    r: Option<CatalogItem<I>>,
    id: u128,
    timeout: Expiration,
    now: i64,
) -> bool {
    let d = resolve_spec(timeout, now);
    post == checkout_by_id_spec(pre, id, d).0 && r == checkout_by_id_spec(pre, id, d).1
}

/// What a clock-driven expiration sweep leaves behind.
pub open spec fn expire_now_post<I>(
    pre: StoreModel<I>,
    post: StoreModel<I>,
    r: (usize, usize),
    lo: Score,
    now: i64,
) -> bool {
    post == expire_spec(pre, lo, now).0 && r == expire_spec(pre, lo, now).1
}

/// What a clock-driven expiration sweep that returns the removed items
/// leaves behind.
pub open spec fn expire_get_now_post<I>(
    pre: StoreModel<I>,
    post: StoreModel<I>,
    r: Seq<CatalogItem<I>>,
    now: i64,
) -> bool {
    post == expire_spec(pre, Score::At(i64::MIN), now).0 && r == h_found(
        pre.items,
        z_range_ids(pre.pending, Score::At(i64::MIN), Score::At(now)),
    )
}

/// What a clock-driven checkout-timeout sweep leaves behind.
pub open spec fn timeout_now_post<I>(
    cat: Catalog<I>,
    pre: StoreModel<I>,
    post: StoreModel<I>,
    r: (usize, usize),
    now: i64,
) -> bool {
    let dflt = resolve_spec(cat.default_item_expiration, now);
    post == timeout_spec(pre, dflt, now).0 && r == timeout_spec(pre, dflt, now).1
}

/// What a clock-resolved early lease return leaves behind.
pub open spec fn relinquish_now_post<I>(
    cat: Catalog<I>,
    pre: StoreModel<I>,
    post: StoreModel<I>,
    r: (usize, usize),
    id: u128,
    now: i64,
) -> bool {
    let dflt = resolve_spec(cat.default_item_expiration, now);
    post == relinquish_spec(pre, id, dflt).0 && r == relinquish_spec(pre, id, dflt).1
}

impl<I: Codec> Catalog<I> {
    /// Checkout under an already-resolved lease deadline: pop the pending
    /// entry with the smallest score; when its payload is stored, lease it
    /// until `timeout_on` and return it.
    pub fn checkout_with_timestamp_timeout(
        &self,
        store: &mut CatalogStore<I>,
        timeout_on: Score,
    ) -> (r: Option<CatalogItem<I>>)
        requires
            store_wf(old(store)@),
        ensures
            store_wf(final(store)@),
            final(store)@ == checkout_spec(old(store)@, timeout_on).0,
            r == checkout_spec(old(store)@, timeout_on).1,
    {
        let ghost m0 = store@;
        let popped = store.pending.pop_min(1);
        if popped.len() == 0 {
            proof {
                assert(m0.pending.len() == 0);
                assert(m0.pending.skip(0) =~= m0.pending);
                assert(final(store)@ =~= m0);
            }
            return None;
        }
        proof {
            assert(min_len(1, m0.pending.len() as int) == 1);
            assert(popped@[0] == m0.pending.take(1)[0]);
            assert(m0.pending.take(1)[0] == m0.pending[0]);
            assert(store@.pending =~= m0.pending.drop_first());
        }
        let e = popped[0];
        match store.items.get_copy(e.id) {
            None => {
                proof {
                    assert(final(store)@ =~= checkout_spec(m0, timeout_on).0);
                }
                None
            },
            Some(it) => {
                store.checkouts.add(e.id, timeout_on);
                proof {
                    assert(final(store)@ =~= checkout_spec(m0, timeout_on).0);
                }
                Some(it)
            },
        }
    }

    /// Checkout under the catalog's default lease expiration, resolved
    /// against the clock.
    pub fn checkout(&self, store: &mut CatalogStore<I>) -> (r: Option<CatalogItem<I>>)
        requires
            store_wf(old(store)@),
        ensures
            store_wf(final(store)@),
            exists|now: i64|
                now >= 0 && #[trigger] checkout_now_post(
                    *self,
                    old(store)@,
                    final(store)@,
                    r,
                    now,
                ),
    {
        let now: i64 = now_timestamp();
        let timeout_on = self.default_checkout_expiration.resolve_at(now);
        let r = self.checkout_with_timestamp_timeout(store, timeout_on);
        proof {
            assert(checkout_now_post(*self, old(store)@, final(store)@, r, now));
        }
        r
    }

    /// Checkout under the given lease expiration, resolved against the
    /// clock.
    pub fn checkout_with_timeout(&self, store: &mut CatalogStore<I>, timeout: Expiration) -> (r:
        Option<CatalogItem<I>>)
        requires
            store_wf(old(store)@),
        ensures
            store_wf(final(store)@),
            exists|now: i64|
                now >= 0 && #[trigger] checkout_with_timeout_now_post(
                    old(store)@,
                    final(store)@,
                    r,
                    timeout,
                    now,
                ),
    {
        let now: i64 = now_timestamp();
        let timeout_on = timeout.resolve_at(now);
        let r = self.checkout_with_timestamp_timeout(store, timeout_on);
        proof {
            assert(checkout_with_timeout_now_post(old(store)@, final(store)@, r, timeout, now));
        }
        r
    }

    /// Checkout of one specific id under an already-resolved lease
    /// deadline.
    pub fn checkout_by_id_with_timestamp_timeout(
        &self,
        store: &mut CatalogStore<I>,
        id: u128,
        timeout_on: Score,
    ) -> (r: Option<CatalogItem<I>>)
        requires
            store_wf(old(store)@),
        ensures
            store_wf(final(store)@),
            final(store)@ == checkout_by_id_spec(old(store)@, id, timeout_on).0,
            r == checkout_by_id_spec(old(store)@, id, timeout_on).1,
    {
        let ghost m0 = store@;
        let zc = store.pending.remove(id);
        if zc == 0 {
            proof {
                crate::zset::lemma_z_find_iff(m0.pending, id);
                crate::zset::lemma_z_remove_absent(m0.pending, id);
                assert(final(store)@ =~= m0);
            }
            return None;
        }
        match store.items.get_copy(id) {
            None => {
                proof {
                    assert(final(store)@ =~= checkout_by_id_spec(m0, id, timeout_on).0);
                }
                None
            },
            Some(it) => {
                store.checkouts.add(id, timeout_on);
                proof {
                    assert(final(store)@ =~= checkout_by_id_spec(m0, id, timeout_on).0);
                }
                Some(it)
            },
        }
    }

    /// Checkout of one specific id under the catalog's default lease
    /// expiration, resolved against the clock.
    pub fn checkout_by_id(&self, store: &mut CatalogStore<I>, id: u128) -> (r: Option<
        CatalogItem<I>,
    >)
        requires
            store_wf(old(store)@),
        ensures
            store_wf(final(store)@),
            exists|now: i64|
                now >= 0 && #[trigger] checkout_by_id_now_post(
                    *self,
                    old(store)@,
                    final(store)@,
                    r,
                    id,
                    now,
                ),
    {
        let now: i64 = now_timestamp();
        let timeout_on = self.default_checkout_expiration.resolve_at(now);
        let r = self.checkout_by_id_with_timestamp_timeout(store, id, timeout_on);
        proof {
            assert(checkout_by_id_now_post(*self, old(store)@, final(store)@, r, id, now));
        }
        r
    }

    /// Checkout of one specific id under the given lease expiration,
    /// resolved against the clock.
    pub fn checkout_by_id_with_timeout(
        &self,
        store: &mut CatalogStore<I>,
        id: u128,
        timeout: Expiration,
    ) -> (r: Option<CatalogItem<I>>)
        requires
            store_wf(old(store)@),
        ensures
            store_wf(final(store)@),
            exists|now: i64|
                now >= 0 && #[trigger] checkout_by_id_with_timeout_now_post(
                    old(store)@,
                    final(store)@,
                    r,
                    id,
                    timeout,
                    now,
                ),
    {
        let now: i64 = now_timestamp();
        let timeout_on = timeout.resolve_at(now);
        let r = self.checkout_by_id_with_timestamp_timeout(store, id, timeout_on);
        proof {
            assert(checkout_by_id_with_timeout_now_post(
                old(store)@,
                final(store)@,
                r,
                id,
                timeout,
                now,
            ));
        }
        r
    }
}

impl<I> Catalog<I> {
    /// The expiration sweep at clock reading `now`: remove from the map
    /// and the pending ordering every pending entry whose score lies in
    /// `[0, now]`. Returns fields removed from the map and entries removed
    /// from the ordering.
    pub fn expire_items_at(&self, store: &mut CatalogStore<I>, now: i64) -> (r: (usize, usize))
        requires
            store_wf(old(store)@),
        ensures
            store_wf(final(store)@),
            final(store)@ == expire_spec(old(store)@, Score::At(0), now).0,
            r == expire_spec(old(store)@, Score::At(0), now).1,
    {
        let ghost m0 = store@;
        let due = store.pending.range_ids(Score::At(0), Score::At(now));
        if due.is_empty() {
            return (0, 0);
        }
        let hc = store.items.remove_ids(&due);
        let zc = store.pending.remove_ids(&due);
        proof {
            assert(final(store)@ =~= expire_spec(m0, Score::At(0), now).0);
        }
        (hc, zc)
    }

    /// The expiration sweep under the catalog's clock. This variant scans
    /// the pending scores from zero, so an entry with a negative score is
    /// not swept here.
    pub fn expire_items(&self, store: &mut CatalogStore<I>) -> (r: (usize, usize))
        requires
            store_wf(old(store)@),
        ensures
            store_wf(final(store)@),
            exists|now: i64|
                now >= 0 && #[trigger] expire_now_post(
                    old(store)@,
                    final(store)@,
                    r,
                    Score::At(0),
                    now,
                ),
    {
        let now: i64 = now_timestamp();
        let r = self.expire_items_at(store, now);
        proof {
            assert(expire_now_post(old(store)@, final(store)@, r, Score::At(0), now));
        }
        r
    }

    /// The checkout-timeout sweep at clock reading `now`: every checkout
    /// whose deadline lies at or before `now` leaves the checkout
    /// ordering, and each such id with a stored payload returns to the
    /// pending ordering at its re-resolved expiration. Returns entries
    /// newly pending and entries removed from the checkout ordering.
    pub fn timeout_checkouts_at(&self, store: &mut CatalogStore<I>, now: i64) -> (r: (
        usize,
        usize,
    ))
        requires
            store_wf(old(store)@),
        ensures
            store_wf(final(store)@),
            final(store)@ == timeout_spec(
                old(store)@,
                resolve_spec(self.default_item_expiration, now),
                now,
            ).0,
            r == timeout_spec(old(store)@, resolve_spec(self.default_item_expiration, now), now).1,
    {
        let ghost m0 = store@;
        let ghost dflt = resolve_spec(self.default_item_expiration, now);
        let due = store.checkouts.range_ids(Score::At(i64::MIN), Score::At(now));
        if due.is_empty() {
            return (0, 0);
        }
        let n = due.len();
        let mut zi: usize = 0;
        let mut i: usize = 0;
        proof {
            assert(due@.skip(0) =~= due@);
        }
        while i < n
            invariant
                i <= n,
                n == due@.len(),
                dflt == resolve_spec(self.default_item_expiration, now),
                store_wf(store@),
                store@.items == m0.items,
                store@.checkouts == m0.checkouts,
                z_add_pairs(m0.pending, reclaim_pairs(m0.items, due@, dflt)) == z_add_pairs(
                    store@.pending,
                    reclaim_pairs(m0.items, due@.skip(i as int), dflt),
                ),
                zi as int == store@.pending.len() - m0.pending.len(),
                zi <= i,
            decreases n - i,
        {
            let ghost pre = store@.pending;
            proof {
                assert(due@.skip(i as int)[0] == due@[i as int]);
                assert(due@.skip(i as int).drop_first() =~= due@.skip(i as int + 1));
            }
            let id = due[i];
            match store.items.get_expires(id) {
                Some(expires) => {
                    let sc = match expires {
                        Some(s) => s,
                        None => self.default_item_expiration.resolve_at(now),
                    };
                    let c = store.pending.add(id, sc);
                    zi = zi + c;
                    proof {
                        crate::zset::lemma_z_add_props(pre, id, sc);
                        assert(crate::hash::h_expires(m0.items, due@[i as int]) == Some(expires));
                        assert(h_find(m0.items, due@[i as int]) is Some);
                        let it = h_find(m0.items, due@[i as int]).unwrap();
                        assert(it.expires_on == expires);
                        assert(sc == stored_score(it, dflt));
                        let pair = ScoredId { id: due@[i as int], score: sc };
                        let rest = reclaim_pairs(m0.items, due@.skip(i as int + 1), dflt);
                        assert(reclaim_pairs(m0.items, due@.skip(i as int), dflt) == seq![pair]
                            + rest);
                        assert((seq![pair] + rest)[0] == pair);
                        assert((seq![pair] + rest).drop_first() =~= rest);
                        assert(z_add_pairs(pre, seq![pair] + rest) == z_add_pairs(
                            z_add(pre, pair.id, pair.score),
                            rest,
                        ));
                    }
                },
                None => {
                    proof {
                        assert(reclaim_pairs(m0.items, due@.skip(i as int), dflt)
                            == reclaim_pairs(m0.items, due@.skip(i as int + 1), dflt));
                    }
                },
            }
            i = i + 1;
        }
        let zc = store.checkouts.remove_ids(&due);
        proof {
            assert(due@.skip(n as int) =~= Seq::<u128>::empty());
            assert(z_add_pairs(store@.pending, reclaim_pairs(m0.items, Seq::empty(), dflt))
                == store@.pending);
            assert(final(store)@ =~= timeout_spec(m0, dflt, now).0);
        }
        (zi, zc)
    }

    /// The checkout-timeout sweep under the catalog's clock.
    pub fn timeout_checkouts(&self, store: &mut CatalogStore<I>) -> (r: (usize, usize))
        requires
            store_wf(old(store)@),
        ensures
            store_wf(final(store)@),
            exists|now: i64|
                now >= 0 && #[trigger] timeout_now_post(
                    *self,
                    old(store)@,
                    final(store)@,
                    r,
                    now,
                ),
    {
        let now: i64 = now_timestamp();
        let r = self.timeout_checkouts_at(store, now);
        proof {
            assert(timeout_now_post(*self, old(store)@, final(store)@, r, now));
        }
        r
    }

    /// Return a leased id to the pending ordering at clock reading `now`,
    /// ahead of its deadline. Returns checkout removals and pending
    /// additions; both are zero when `id` was not checked out.
    pub fn relinquish_by_id_at(&self, store: &mut CatalogStore<I>, id: u128, now: i64) -> (r: (
        usize,
        usize,
    ))
        requires
            store_wf(old(store)@),
        ensures
            store_wf(final(store)@),
            final(store)@ == relinquish_spec(
                old(store)@,
                id,
                resolve_spec(self.default_item_expiration, now),
            ).0,
            r == relinquish_spec(old(store)@, id, resolve_spec(self.default_item_expiration, now)).1,
    {
        let ghost m0 = store@;
        let ghost dflt = resolve_spec(self.default_item_expiration, now);
        let zc = store.checkouts.remove(id);
        if zc == 0 {
            proof {
                crate::zset::lemma_z_find_iff(m0.checkouts, id);
                crate::zset::lemma_z_remove_absent(m0.checkouts, id);
                assert(final(store)@ =~= m0);
            }
            return (0, 0);
        }
        match store.items.get_expires(id) {
            None => {
                proof {
                    assert(final(store)@ =~= relinquish_spec(m0, id, dflt).0);
                }
                (1, 0)
            },
            Some(expires) => {
                let sc = match expires {
                    Some(s) => s,
                    None => self.default_item_expiration.resolve_at(now),
                };
                let zi = store.pending.add(id, sc);
                proof {
                    let it = h_find(m0.items, id).unwrap();
                    assert(sc == stored_score(it, dflt));
                    assert(final(store)@ =~= relinquish_spec(m0, id, dflt).0);
                }
                (1, zi)
            },
        }
    }

    /// Return a leased id to the pending ordering under the catalog's
    /// clock, ahead of its deadline.
    pub fn relinquish_by_id(&self, store: &mut CatalogStore<I>, id: u128) -> (r: (usize, usize))
        requires
            store_wf(old(store)@),
        ensures
            store_wf(final(store)@),
            exists|now: i64|
                now >= 0 && #[trigger] relinquish_now_post(
                    *self,
                    old(store)@,
                    final(store)@,
                    r,
                    id,
                    now,
                ),
    {
        let now: i64 = now_timestamp();
        let r = self.relinquish_by_id_at(store, id, now);
        proof {
            assert(relinquish_now_post(*self, old(store)@, final(store)@, r, id, now));
        }
        r
    }
}

impl<I: Codec> Catalog<I> {
    /// The expiration sweep at clock reading `now` that also returns the
    /// removed items. This variant scans the pending scores from the far
    /// past, so an entry with a negative score is swept here.
    pub fn expire_and_get_items_at(&self, store: &mut CatalogStore<I>, now: i64) -> (r: Vec<
        CatalogItem<I>,
    >)
        requires
            store_wf(old(store)@),
        ensures
            store_wf(final(store)@),
            final(store)@ == expire_spec(old(store)@, Score::At(i64::MIN), now).0,
            r@ == h_found(
                old(store)@.items,
                z_range_ids(old(store)@.pending, Score::At(i64::MIN), Score::At(now)),
            ),
    {
        let ghost m0 = store@;
        let due = store.pending.range_ids(Score::At(i64::MIN), Score::At(now));
        if due.is_empty() {
            proof {
                assert(h_found(m0.items, due@) =~= Seq::<CatalogItem<I>>::empty());
            }
            return Vec::new();
        }
        let items = store.items.found_copies(&due);
        store.items.remove_ids(&due);
        store.pending.remove_ids(&due);
        proof {
            assert(final(store)@ =~= expire_spec(m0, Score::At(i64::MIN), now).0);
        }
        items
    }

    /// The expiration sweep under the catalog's clock that also returns
    /// the removed items.
    pub fn expire_and_get_items(&self, store: &mut CatalogStore<I>) -> (r: Vec<CatalogItem<I>>)
        requires
            store_wf(old(store)@),
        ensures
            store_wf(final(store)@),
            exists|now: i64|
                now >= 0 && #[trigger] expire_get_now_post(old(store)@, final(store)@, r@, now),
    {
        let now: i64 = now_timestamp();
        let r = self.expire_and_get_items_at(store, now);
        proof {
            assert(expire_get_now_post(old(store)@, final(store)@, r@, now));
        }
        r
    }
}

/// The score each item is registered under when the default resolves to
/// `dflt`: its own stored expiration where it has one, else `dflt`.
pub open spec fn stored_scores<I>(items: Seq<CatalogItem<I>>, dflt: Score) -> Seq<Score> {
    items.map_values(|it: CatalogItem<I>| stored_score(it, dflt))
}

/// One shared score for every item of a batch.
pub open spec fn same_scores<I>(items: Seq<CatalogItem<I>>, sc: Score) -> Seq<Score> {
    items.map_values(|it: CatalogItem<I>| sc)
}

/// What a clock-resolved batched registration leaves behind.
pub open spec fn register_multiple_now_post<I>(
    cat: Catalog<I>,
    pre: StoreModel<I>,
    post: StoreModel<I>,
    items: Seq<CatalogItem<I>>,
    now: i64,
) -> bool {
    let dflt = resolve_spec(cat.default_item_expiration, now);
    post == register_all_spec(pre, items, stored_scores(items, dflt))
}

/// What a batched registration under one explicit expiration leaves
/// behind when the clock reads `now`.
pub open spec fn register_multiple_with_expiration_now_post<I>(
    pre: StoreModel<I>,
    post: StoreModel<I>,
    items: Seq<CatalogItem<I>>,
    expiration: Expiration,
    now: i64,
) -> bool {
    let sc = resolve_spec(expiration, now);
    post == register_all_spec(pre, items, same_scores(items, sc))
}

/// What a clock-resolved batched checkout leaves behind.
pub open spec fn checkout_multiple_now_post<I>(
    cat: Catalog<I>,
    pre: StoreModel<I>,
    post: StoreModel<I>,
    r: Seq<CatalogItem<I>>,
    count: int,
    now: i64,
) -> bool {
    let d = resolve_spec(cat.default_checkout_expiration, now);
    post == checkout_multiple_spec(pre, count, d).0 && r == checkout_multiple_spec(pre, count, d).1
}

/// What a batched checkout under an explicit lease expiration leaves
/// behind when the clock reads `now`.
pub open spec fn checkout_multiple_with_timeout_now_post<I>(
    pre: StoreModel<I>,
    post: StoreModel<I>,
    r: Seq<CatalogItem<I>>,
    count: int,
    timeout: Expiration,
    now: i64,
) -> bool {
    let d = resolve_spec(timeout, now);
    post == checkout_multiple_spec(pre, count, d).0 && r == checkout_multiple_spec(pre, count, d).1
}

/// What a clock-resolved checkout of several ids leaves behind.
pub open spec fn checkout_multiple_by_id_now_post<I>(
    cat: Catalog<I>,
    pre: StoreModel<I>,
    post: StoreModel<I>,
    r: Seq<Option<CatalogItem<I>>>,
    ids: Seq<u128>,
    now: i64,
) -> bool {
    let d = resolve_spec(cat.default_checkout_expiration, now);
    post == checkout_multiple_by_id_spec(pre, ids, d).0 && r == checkout_multiple_by_id_spec(
        pre,
        ids,
        d,
    ).1
}

/// What a checkout of several ids under an explicit lease expiration
/// leaves behind when the clock reads `now`.
pub open spec fn checkout_multiple_by_id_with_timeout_now_post<I>(
    pre: StoreModel<I>,
    post: StoreModel<I>,
    r: Seq<Option<CatalogItem<I>>>,
    ids: Seq<u128>,
    timeout: Expiration,
    now: i64,
) -> bool {
    let d = resolve_spec(timeout, now);
    post == checkout_multiple_by_id_spec(pre, ids, d).0 && r == checkout_multiple_by_id_spec(
        pre,
        ids,
        d,
    ).1
}

impl<I: Codec> Catalog<I> {
    /// Register each item under its already-resolved score, in order. The
    /// count is the number of new pending entries; the flag mirrors the
    /// store's unconditional acknowledgement of the batched map write.
    pub fn register_multiple_with_timestamps(
        &self,
        store: &mut CatalogStore<I>,
        items: &Vec<CatalogItem<I>>,
        expirations: &Vec<Score>,
    ) -> (r: (usize, bool))
        requires
            store_wf(old(store)@),
            items@.len() == expirations@.len(),
        ensures
            store_wf(final(store)@),
            final(store)@ == register_all_spec(old(store)@, items@, expirations@),
            r.0 as int == final(store)@.pending.len() - old(store)@.pending.len(),
            r.1 == true,
    {
        let ghost m0 = store@;
        let n = items.len();
        let mut zc: usize = 0;
        let mut i: usize = 0;
        proof {
            assert(items@.skip(0) =~= items@);
            assert(expirations@.skip(0) =~= expirations@);
        }
        while i < n
            invariant
                i <= n,
                n == items@.len(),
                items@.len() == expirations@.len(),
                store_wf(store@),
                register_all_spec(m0, items@, expirations@) == register_all_spec(
                    store@,
                    items@.skip(i as int),
                    expirations@.skip(i as int),
                ),
                zc as int == store@.pending.len() - m0.pending.len(),
                zc <= i,
            decreases n - i,
        {
            let ghost pre = store@;
            let item = items[i].replica();
            let c = self.register_with_timestamp(store, item, expirations[i]);
            zc = zc + c.0;
            proof {
                assert(items@.skip(i as int)[0] == items@[i as int]);
                assert(items@.skip(i as int).drop_first() =~= items@.skip(i as int + 1));
                assert(expirations@.skip(i as int)[0] == expirations@[i as int]);
                assert(expirations@.skip(i as int).drop_first() =~= expirations@.skip(
                    i as int + 1,
                ));
                assert(register_all_spec(pre, items@.skip(i as int), expirations@.skip(i as int))
                    == register_all_spec(
                    register_spec(pre, items@[i as int], expirations@[i as int]).0,
                    items@.skip(i as int + 1),
                    expirations@.skip(i as int + 1),
                ));
                crate::zset::lemma_z_add_props(
                    pre.pending,
                    items@[i as int].id,
                    expirations@[i as int],
                );
            }
            i = i + 1;
        }
        proof {
            assert(items@.skip(n as int) =~= Seq::<CatalogItem<I>>::empty());
            assert(expirations@.skip(n as int) =~= Seq::<Score>::empty());
            assert(register_all_spec(store@, Seq::empty(), Seq::empty()) == store@);
        }
        (zc, true)
    }

    /// Register each item under its own stored expiration, falling back to
    /// the catalog's default resolved against the clock once for the whole
    /// batch.
    pub fn register_multiple(&self, store: &mut CatalogStore<I>, items: &Vec<CatalogItem<I>>) -> (r:
        (usize, bool))
        requires
            store_wf(old(store)@),
        ensures
            store_wf(final(store)@),
            exists|now: i64|
                now >= 0 && #[trigger] register_multiple_now_post(
                    *self,
                    old(store)@,
                    final(store)@,
                    items@,
                    now,
                ),
            r.0 as int == final(store)@.pending.len() - old(store)@.pending.len(),
            r.1 == true,
    {
        let now: i64 = now_timestamp();
        let dflt = self.default_item_expiration.resolve_at(now);
        let n = items.len();
        let mut expirations: Vec<Score> = Vec::new();
        let mut i: usize = 0;
        while i < n
            invariant
                i <= n,
                n == items@.len(),
                expirations@ == stored_scores(items@.take(i as int), dflt),
            decreases n - i,
        {
            let sc = match items[i].expires_on_timestamp() {
                Some(s) => s,
                None => dflt,
            };
            expirations.push(sc);
            proof {
                assert(expirations@ =~= stored_scores(items@.take(i as int + 1), dflt));
            }
            i = i + 1;
        }
        proof {
            assert(items@.take(n as int) =~= items@);
        }
        let r = self.register_multiple_with_timestamps(store, items, &expirations);
        proof {
            assert(register_multiple_now_post(*self, old(store)@, final(store)@, items@, now));
        }
        r
    }

    /// Register each item under one explicit expiration, resolved against
    /// the clock once for the whole batch; the items' own stored
    /// expirations are not consulted.
    pub fn register_multiple_with_expiration(
        &self,
        store: &mut CatalogStore<I>,
        items: &Vec<CatalogItem<I>>,
        expiration: Expiration,
    ) -> (r: (usize, bool))
        requires
            store_wf(old(store)@),
        ensures
            store_wf(final(store)@),
            exists|now: i64|
                now >= 0 && #[trigger] register_multiple_with_expiration_now_post(
                    old(store)@,
                    final(store)@,
                    items@,
                    expiration,
                    now,
                ),
            r.0 as int == final(store)@.pending.len() - old(store)@.pending.len(),
            r.1 == true,
    {
        let now: i64 = now_timestamp();
        let sc = expiration.resolve_at(now);
        let n = items.len();
        let mut expirations: Vec<Score> = Vec::new();
        let mut i: usize = 0;
        while i < n
            invariant
                i <= n,
                n == items@.len(),
                expirations@ == same_scores(items@.take(i as int), sc),
            decreases n - i,
        {
            expirations.push(sc);
            proof {
                assert(expirations@ =~= same_scores(items@.take(i as int + 1), sc));
            }
            i = i + 1;
        }
        proof {
            assert(items@.take(n as int) =~= items@);
        }
        let r = self.register_multiple_with_timestamps(store, items, &expirations);
        proof {
            assert(register_multiple_with_expiration_now_post(
                old(store)@,
                final(store)@,
                items@,
                expiration,
                now,
            ));
        }
        r
    }

    /// Checkout of up to `count` items under an already-resolved lease
    /// deadline: pop the `count` lowest-scored pending entries, return the
    /// items stored for them, and lease exactly those.
    pub fn checkout_multiple_with_timestamp_timeout(
        &self,
        store: &mut CatalogStore<I>,
        count: usize,
        timeout_on: Score,
    ) -> (r: Vec<CatalogItem<I>>)
        requires
            store_wf(old(store)@),
            count >= 1,
        ensures
            store_wf(final(store)@),
            final(store)@ == checkout_multiple_spec(old(store)@, count as int, timeout_on).0,
            r@ == checkout_multiple_spec(old(store)@, count as int, timeout_on).1,
    {
        let ghost m0 = store@;
        let popped = store.pending.pop_min(count);
        let np = popped.len();
        let mut ids: Vec<u128> = Vec::new();
        let mut i: usize = 0;
        while i < np
            invariant
                i <= np,
                np == popped@.len(),
                ids@ == entry_ids(popped@.take(i as int)),
            decreases np - i,
        {
            let idv = popped[i].id;
            ids.push(idv);
            proof {
                assert(ids@ =~= entry_ids(popped@.take(i as int + 1)));
            }
            i = i + 1;
        }
        proof {
            assert(popped@.take(np as int) =~= popped@);
        }
        let found = store.items.found_copies(&ids);
        let ghost mid = store@;
        let ghost fids = item_ids(found@);
        let nf = found.len();
        let mut j: usize = 0;
        proof {
            assert(fids.skip(0) =~= fids);
        }
        while j < nf
            invariant
                j <= nf,
                nf == found@.len(),
                fids == item_ids(found@),
                store_wf(store@),
                store@.items == mid.items,
                store@.pending == mid.pending,
                z_add_seq(mid.checkouts, fids, timeout_on) == z_add_seq(
                    store@.checkouts,
                    fids.skip(j as int),
                    timeout_on,
                ),
            decreases nf - j,
        {
            let ghost pre = store@.checkouts;
            let idj = found[j].id();
            store.checkouts.add(idj, timeout_on);
            proof {
                assert(fids.skip(j as int)[0] == fids[j as int]);
                assert(fids[j as int] == found@[j as int].id);
                assert(fids.skip(j as int).drop_first() =~= fids.skip(j as int + 1));
                assert(z_add_seq(pre, fids.skip(j as int), timeout_on) == z_add_seq(
                    z_add(pre, fids[j as int], timeout_on),
                    fids.skip(j as int + 1),
                    timeout_on,
                ));
            }
            j = j + 1;
        }
        proof {
            assert(fids.skip(nf as int) =~= Seq::<u128>::empty());
            assert(z_add_seq(store@.checkouts, Seq::empty(), timeout_on) == store@.checkouts);
            assert(final(store)@ =~= checkout_multiple_spec(m0, count as int, timeout_on).0);
        }
        found
    }

    /// Checkout of up to `count` items under the catalog's default lease
    /// expiration, resolved against the clock.
    pub fn checkout_multiple(&self, store: &mut CatalogStore<I>, count: usize) -> (r: Vec<
        CatalogItem<I>,
    >)
        requires
            store_wf(old(store)@),
            count >= 1,
        ensures
            store_wf(final(store)@),
            exists|now: i64|
                now >= 0 && #[trigger] checkout_multiple_now_post(
                    *self,
                    old(store)@,
                    final(store)@,
                    r@,
                    count as int,
                    now,
                ),
    {
        let now: i64 = now_timestamp();
        let timeout_on = self.default_checkout_expiration.resolve_at(now);
        let r = self.checkout_multiple_with_timestamp_timeout(store, count, timeout_on);
        proof {
            assert(checkout_multiple_now_post(
                *self,
                old(store)@,
                final(store)@,
                r@,
                count as int,
                now,
            ));
        }
        r
    }

    /// Checkout of up to `count` items under the given lease expiration,
    /// resolved against the clock.
    pub fn checkout_multiple_with_timeout(
        &self,
        store: &mut CatalogStore<I>,
        count: usize,
        timeout: Expiration,
    ) -> (r: Vec<CatalogItem<I>>)
        requires
            store_wf(old(store)@),
            count >= 1,
        ensures
            store_wf(final(store)@),
            exists|now: i64|
                now >= 0 && #[trigger] checkout_multiple_with_timeout_now_post(
                    old(store)@,
                    final(store)@,
                    r@,
                    count as int,
                    timeout,
                    now,
                ),
    {
        let now: i64 = now_timestamp();
        let timeout_on = timeout.resolve_at(now);
        let r = self.checkout_multiple_with_timestamp_timeout(store, count, timeout_on);
        proof {
            assert(checkout_multiple_with_timeout_now_post(
                old(store)@,
                final(store)@,
                r@,
                count as int,
                timeout,
                now,
            ));
        }
        r
    }

    /// Checkout of several specific ids under an already-resolved lease
    /// deadline: pending membership is read first, every named id leaves
    /// the pending ordering, and the found ids' stored items are returned
    /// and leased.
    pub fn checkout_multiple_by_id_with_timestamp_timeout(
        &self,
        store: &mut CatalogStore<I>,
        ids: &Vec<u128>,
        timeout_on: Score,
    ) -> (r: Vec<Option<CatalogItem<I>>>)
        requires
            store_wf(old(store)@),
        ensures
            store_wf(final(store)@),
            final(store)@ == checkout_multiple_by_id_spec(old(store)@, ids@, timeout_on).0,
            r@ == checkout_multiple_by_id_spec(old(store)@, ids@, timeout_on).1,
    {
        let ghost m0 = store@;
        let scores = store.pending.scores(ids);
        store.pending.remove_ids(ids);
        let n = ids.len();
        let mut found_ids: Vec<u128> = Vec::new();
        let mut i: usize = 0;
        proof {
            assert(ids@.skip(0) =~= ids@);
            assert(found_ids@ + pending_members(m0.pending, ids@) =~= pending_members(
                m0.pending,
                ids@,
            ));
        }
        while i < n
            invariant
                i <= n,
                n == ids@.len(),
                scores@ == crate::zset::z_find_all(m0.pending, ids@),
                pending_members(m0.pending, ids@) == found_ids@ + pending_members(
                    m0.pending,
                    ids@.skip(i as int),
                ),
            decreases n - i,
        {
            let ghost prev = found_ids@;
            proof {
                assert(ids@.skip(i as int)[0] == ids@[i as int]);
                assert(ids@.skip(i as int).drop_first() =~= ids@.skip(i as int + 1));
                assert(scores@[i as int] == crate::zset::z_find(m0.pending, ids@[i as int]));
            }
            if scores[i].is_some() {
                found_ids.push(ids[i]);
                proof {
                    assert(pending_members(m0.pending, ids@.skip(i as int)) == seq![
                        ids@[i as int],
                    ] + pending_members(m0.pending, ids@.skip(i as int + 1)));
                    assert(prev + (seq![ids@[i as int]] + pending_members(
                        m0.pending,
                        ids@.skip(i as int + 1),
                    )) =~= found_ids@ + pending_members(m0.pending, ids@.skip(i as int + 1)));
                }
            } else {
                proof {
                    assert(pending_members(m0.pending, ids@.skip(i as int)) == pending_members(
                        m0.pending,
                        ids@.skip(i as int + 1),
                    ));
                }
            }
            i = i + 1;
        }
        proof {
            assert(ids@.skip(n as int) =~= Seq::<u128>::empty());
            assert(pending_members(m0.pending, Seq::empty()) =~= Seq::<u128>::empty());
            assert(found_ids@ + Seq::<u128>::empty() =~= found_ids@);
            assert(found_ids@ == pending_members(m0.pending, ids@));
        }
        if found_ids.is_empty() {
            proof {
                assert(final(store)@ =~= checkout_multiple_by_id_spec(m0, ids@, timeout_on).0);
                assert(Seq::<Option<CatalogItem<I>>>::empty() =~= checkout_multiple_by_id_spec(
                    m0,
                    ids@,
                    timeout_on,
                ).1);
            }
            return Vec::new();
        }
        let queried = store.items.get_copies(&found_ids);
        let ghost mid = store@;
        let ghost fitems = h_found(m0.items, found_ids@);
        let ghost fids = item_ids(fitems);
        let nq = queried.len();
        let mut j: usize = 0;
        proof {
            assert(found_ids@.skip(0) =~= found_ids@);
        }
        while j < nq
            invariant
                j <= nq,
                nq == queried@.len(),
                nq == found_ids@.len(),
                queried@ == h_find_all(m0.items, found_ids@),
                store_wf(store@),
                store@.items == mid.items,
                store@.items == m0.items,
                store@.pending == mid.pending,
                z_add_seq(mid.checkouts, item_ids(h_found(m0.items, found_ids@)), timeout_on)
                    == z_add_seq(
                    store@.checkouts,
                    item_ids(h_found(m0.items, found_ids@.skip(j as int))),
                    timeout_on,
                ),
            decreases nq - j,
        {
            let ghost pre = store@.checkouts;
            proof {
                assert(found_ids@.skip(j as int)[0] == found_ids@[j as int]);
                assert(found_ids@.skip(j as int).drop_first() =~= found_ids@.skip(j as int + 1));
                assert(queried@[j as int] == h_find(m0.items, found_ids@[j as int]));
            }
            if queried[j].is_some() {
                store.checkouts.add(found_ids[j], timeout_on);
                proof {
                    crate::hash::lemma_h_find_keyed(m0.items, found_ids@[j as int]);
                    let it = h_find(m0.items, found_ids@[j as int]).unwrap();
                    assert(it.id == found_ids@[j as int]);
                    let rest = h_found(m0.items, found_ids@.skip(j as int + 1));
                    assert(h_found(m0.items, found_ids@.skip(j as int)) == seq![it] + rest);
                    assert(item_ids(seq![it] + rest) =~= seq![it.id] + item_ids(rest));
                    assert((seq![it.id] + item_ids(rest))[0] == it.id);
                    assert((seq![it.id] + item_ids(rest)).drop_first() =~= item_ids(rest));
                    assert(z_add_seq(pre, seq![it.id] + item_ids(rest), timeout_on) == z_add_seq(
                        z_add(pre, it.id, timeout_on),
                        item_ids(rest),
                        timeout_on,
                    ));
                }
            } else {
                proof {
                    assert(h_found(m0.items, found_ids@.skip(j as int)) == h_found(
                        m0.items,
                        found_ids@.skip(j as int + 1),
                    ));
                }
            }
            j = j + 1;
        }
        proof {
            assert(found_ids@.skip(nq as int) =~= Seq::<u128>::empty());
            assert(h_found(m0.items, Seq::<u128>::empty()) =~= Seq::<CatalogItem<I>>::empty());
            assert(item_ids(Seq::<CatalogItem<I>>::empty()) =~= Seq::<u128>::empty());
            assert(z_add_seq(store@.checkouts, Seq::empty(), timeout_on) == store@.checkouts);
            assert(final(store)@ =~= checkout_multiple_by_id_spec(m0, ids@, timeout_on).0);
        }
        queried
    }

    /// Checkout of several specific ids under the catalog's default lease
    /// expiration, resolved against the clock.
    pub fn checkout_multiple_by_id(&self, store: &mut CatalogStore<I>, ids: &Vec<u128>) -> (r: Vec<
        Option<CatalogItem<I>>,
    >)
        requires
            store_wf(old(store)@),
        ensures
            store_wf(final(store)@),
            exists|now: i64|
                now >= 0 && #[trigger] checkout_multiple_by_id_now_post(
                    *self,
                    old(store)@,
                    final(store)@,
                    r@,
                    ids@,
                    now,
                ),
    {
        let now: i64 = now_timestamp();
        let timeout_on = self.default_checkout_expiration.resolve_at(now);
        let r = self.checkout_multiple_by_id_with_timestamp_timeout(store, ids, timeout_on);
        proof {
            assert(checkout_multiple_by_id_now_post(
                *self,
                old(store)@,
                final(store)@,
                r@,
                ids@,
                now,
            ));
        }
        r
    }

    /// Checkout of several specific ids under the given lease expiration,
    /// resolved against the clock.
    pub fn checkout_multiple_by_id_with_timeout(
        &self,
        store: &mut CatalogStore<I>,
        ids: &Vec<u128>,
        timeout: Expiration,
    ) -> (r: Vec<Option<CatalogItem<I>>>)
        requires
            store_wf(old(store)@),
        ensures
            store_wf(final(store)@),
            exists|now: i64|
                now >= 0 && #[trigger] checkout_multiple_by_id_with_timeout_now_post(
                    old(store)@,
                    final(store)@,
                    r@,
                    ids@,
                    timeout,
                    now,
                ),
    {
        let now: i64 = now_timestamp();
        let timeout_on = timeout.resolve_at(now);
        let r = self.checkout_multiple_by_id_with_timestamp_timeout(store, ids, timeout_on);
        proof {
            assert(checkout_multiple_by_id_with_timeout_now_post(
                old(store)@,
                final(store)@,
                r@,
                ids@,
                timeout,
                now,
            ));
        }
        r
    }
}

} // verus!
