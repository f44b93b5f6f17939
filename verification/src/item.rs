//! Catalog items: the persisted envelope around an opaque payload.

use vstd::prelude::*;

use crate::expire::{now_timestamp, resolve_spec, Expiration};
use crate::score::Score;

verus! {

/// What the catalog requires of a payload type: the store's codec must
/// round-trip it exactly. `replica` stands for one serialize–deserialize
/// round trip through that codec, so it must return a value equal to the
/// original; the catalog never inspects a payload beyond this.
pub trait Codec: Sized {
    fn replica(&self) -> (r: Self)
        ensures
            r == *self,
    ;
}

impl Codec for String {
    fn replica(&self) -> (r: Self)
        ensures
            r == *self,
    {
        self.clone()
    }
}

impl Codec for u32 {
    fn replica(&self) -> (r: Self)
        ensures
            r == *self,
    {
        *self
    }
}

impl Codec for u64 {
    fn replica(&self) -> (r: Self)
        ensures
            r == *self,
    {
        *self
    }
}

impl Codec for i64 {
    fn replica(&self) -> (r: Self)
        ensures
            r == *self,
    {
        *self
    }
}

impl Codec for bool {
    fn replica(&self) -> (r: Self)
        ensures
            r == *self,
    {
        *self
    }
}

/// The ids of a sequence of items, in order.
pub open spec fn item_ids<I>(items: Seq<CatalogItem<I>>) -> Seq<u128> {
    items.map_values(|it: CatalogItem<I>| it.id)
}

/// Relies on uuid's `Uuid::new_v4` and `Uuid::as_u128`: a freshly drawn
/// version-4 identifier as its 128-bit value. The value is random, so
/// nothing is assumed of it.
#[verifier::external_body]
pub(crate) fn fresh_id() -> u128 {
    uuid::Uuid::new_v4().as_u128()
}

/// The persisted envelope of one catalog item: a unique identifier, the
/// opaque payload, the creation time in whole seconds since the Unix
/// epoch, and the resolved expiration instant, if one was fixed at
/// construction. `expires_on == None` means the catalog's default applies
/// at registration time.
#[derive(Debug)]
pub struct CatalogItem<I> {
    pub id: u128,
    pub contents: I,
    pub created_on: i64,
    pub expires_on: Option<Score>,
}

impl<I> CatalogItem<I> {
    /// A new item around `contents`, with a fresh identifier and no
    /// expiration of its own: the catalog's default applies when the item
    /// is registered.
    pub fn new(contents: I) -> (r: Self)
        ensures
            r.contents == contents,
            r.expires_on is None,
            r.created_on >= 0,
    {
        CatalogItem {
            id: fresh_id(),
            contents,
            created_on: now_timestamp(),
            expires_on: None,
        }
    }

    /// A new item whose expiration is resolved against the clock once,
    /// here, and never again.
    pub fn new_with_expiration(expiration: Expiration, contents: I) -> (r: Self)
        ensures
            r.contents == contents,
            r.expires_on is Some,
            exists|now: i64| now >= 0 && r.expires_on == Some(resolve_spec(expiration, now)),
            expiration matches Expiration::Never ==> r.expires_on == Some(Score::Never),
            forall|t: i64|
                expiration == Expiration::Timestamp(t) ==> r.expires_on == Some(Score::At(t)),
            r.created_on >= 0,
    {
        let now: i64 = now_timestamp();
        let resolved = expiration.resolve_at(now);
        let r = CatalogItem {
            id: fresh_id(),
            contents,
            created_on: now_timestamp(),
            expires_on: Some(resolved),
        };
        proof {
            assert(r.expires_on == Some(resolve_spec(expiration, now)));
        }
        r
    }

    /// The item's unique identifier.
    pub fn id(&self) -> (r: u128)
        ensures
            r == self.id,
    {
        self.id
    }

    /// A borrow of the payload.
    pub fn contents(&self) -> (r: &I)
        ensures
            r == self.contents,
    {
        &self.contents
    }

    /// The payload, consuming the envelope.
    pub fn take_contents(self) -> (r: I)
        ensures
            r == self.contents,
    {
        self.contents
    }

    /// When the item was constructed, in whole seconds since the Unix
    /// epoch.
    pub fn created_on(&self) -> (r: i64)
        ensures
            r == self.created_on,
    {
        self.created_on
    }

    /// The expiration instant fixed at construction, if any.
    pub fn expires_on_timestamp(&self) -> (r: Option<Score>)
        ensures
            r == self.expires_on,
    {
        self.expires_on
    }
}

impl<I: Codec> CatalogItem<I> {
    /// An equal copy of the envelope, with the payload passed through the
    /// codec round trip.
    pub fn replica(&self) -> (r: Self)
        ensures
            r == *self,
    {
        let r = CatalogItem {
            id: self.id,
            contents: self.contents.replica(),
            created_on: self.created_on,
            expires_on: self.expires_on,
        };
        r
    }
}

} // verus!
