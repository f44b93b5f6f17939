//! The payload map: item id to persisted item, modelling the store's
//! hash primitive for one catalog.

use vstd::prelude::*;

use crate::item::{CatalogItem, Codec};
use crate::score::Score;

verus! {

/// One field of the payload map: an id and the item stored under it.
#[derive(Debug)]
pub struct PayloadEntry<I> {
    pub id: u128,
    pub item: CatalogItem<I>,
}

/// No id appears twice.
pub open spec fn h_unique<I>(s: Seq<PayloadEntry<I>>) -> bool {
    forall|i: int, j: int|
        #![trigger s[i].id, s[j].id]
        0 <= i < j < s.len() ==> s[i].id != s[j].id
}

/// Every entry is stored under its own item's id.
pub open spec fn h_keyed<I>(s: Seq<PayloadEntry<I>>) -> bool {
    forall|i: int| 0 <= i < s.len() ==> #[trigger] s[i].item.id == s[i].id
}

/// A well-formed payload map: unique ids, each keyed by its item's id.
pub open spec fn h_wf<I>(s: Seq<PayloadEntry<I>>) -> bool {
    h_unique(s) && h_keyed(s)
}

/// The item stored under `id`, or `None` when the map has no such field.
pub open spec fn h_find<I>(s: Seq<PayloadEntry<I>>, id: u128) -> Option<CatalogItem<I>>
    decreases s.len(),
{
    if s.len() == 0 {
        None
    } else if s[0].id == id {
        Some(s[0].item)
    } else {
        h_find(s.drop_first(), id)
    }
}

pub open spec fn h_has<I>(s: Seq<PayloadEntry<I>>, id: u128) -> bool {
    h_find(s, id) is Some
}

/// The expiration of the item stored under `id`, when one is stored.
pub open spec fn h_expires<I>(s: Seq<PayloadEntry<I>>, id: u128) -> Option<Option<Score>> {
    match h_find(s, id) {
        None => None,
        Some(it) => Some(it.expires_on),
    }
}

/// The map with `item` stored under `item.id`: an old field for that id
/// is overwritten in place, a new one is appended.
pub open spec fn h_set<I>(s: Seq<PayloadEntry<I>>, item: CatalogItem<I>) -> Seq<PayloadEntry<I>>
    decreases s.len(),
{
    if s.len() == 0 {
        seq![PayloadEntry { id: item.id, item }]
    } else if s[0].id == item.id {
        seq![PayloadEntry { id: item.id, item }] + s.drop_first()
    } else {
        seq![s[0]] + h_set(s.drop_first(), item)
    }
}

/// The map without the field for `id`.
pub open spec fn h_remove<I>(s: Seq<PayloadEntry<I>>, id: u128) -> Seq<PayloadEntry<I>>
    decreases s.len(),
{
    if s.len() == 0 {
        s
    } else if s[0].id == id {
        h_remove(s.drop_first(), id)
    } else {
        seq![s[0]] + h_remove(s.drop_first(), id)
    }
}

/// The map without the fields for the given ids, removed in order.
pub open spec fn h_remove_seq<I>(s: Seq<PayloadEntry<I>>, ids: Seq<u128>) -> Seq<PayloadEntry<I>>
    decreases ids.len(),
{
    if ids.len() == 0 {
        s
    } else {
        h_remove_seq(h_remove(s, ids[0]), ids.drop_first())
    }
}

/// The stored item for each given id, in order.
pub open spec fn h_find_all<I>(s: Seq<PayloadEntry<I>>, ids: Seq<u128>) -> Seq<
    Option<CatalogItem<I>>,
> {
    ids.map_values(|id: u128| h_find(s, id))
}

/// The items found for the given ids, in order, ids without a field
/// silently skipped.
pub open spec fn h_found<I>(s: Seq<PayloadEntry<I>>, ids: Seq<u128>) -> Seq<CatalogItem<I>>
    decreases ids.len(),
{
    if ids.len() == 0 {
        Seq::empty()
    } else {
        match h_find(s, ids[0]) {
            Some(it) => seq![it] + h_found(s, ids.drop_first()),
            None => h_found(s, ids.drop_first()),
        }
    }
}

/// Scanning past a prefix without `id` does not change what is found.
pub proof fn lemma_h_find_skip<I>(s: Seq<PayloadEntry<I>>, id: u128, k: int)
    requires
        0 <= k <= s.len(),
        forall|j: int| 0 <= j < k ==> s[j].id != id,
    ensures
        h_find(s, id) == h_find(s.skip(k), id),
    decreases k,
{
    if k == 0 {
        assert(s.skip(0) =~= s);
    } else {
        lemma_h_find_skip(s.drop_first(), id, k - 1);
        assert(s.drop_first().skip(k - 1) =~= s.skip(k));
    }
}

/// A map without a field for `id` finds nothing for it.
pub proof fn lemma_h_find_absent<I>(s: Seq<PayloadEntry<I>>, id: u128)
    requires
        forall|j: int| 0 <= j < s.len() ==> s[j].id != id,
    ensures
        h_find(s, id) is None,
{
    lemma_h_find_skip(s, id, s.len() as int);
}

/// With unique ids, what is found agrees with membership by index.
pub proof fn lemma_h_find_iff<I>(s: Seq<PayloadEntry<I>>, id: u128)
    requires
        h_unique(s),
    ensures
        h_has(s, id) <==> exists|i: int| 0 <= i < s.len() && s[i].id == id,
        forall|i: int|
            0 <= i < s.len() && s[i].id == id ==> h_find(s, id) == Some(s[i].item),
    decreases s.len(),
{
    if s.len() > 0 && s[0].id != id {
        lemma_h_find_iff(s.drop_first(), id);
        assert forall|i: int| 0 <= i < s.len() && s[i].id == id implies h_find(s, id) == Some(
            s[i].item,
        ) by {
            assert(s.drop_first()[i - 1] == s[i]);
        }
        if h_has(s, id) {
            let i = choose|i: int| 0 <= i < s.drop_first().len() && s.drop_first()[i].id == id;
            assert(s[i + 1].id == id);
        }
    }
}

/// In a well-formed map, a found item carries the id it was looked up by.
pub proof fn lemma_h_find_keyed<I>(s: Seq<PayloadEntry<I>>, id: u128)
    requires
        h_wf(s),
        h_has(s, id),
    ensures
        h_find(s, id) matches Some(it) && it.id == id,
{
    lemma_h_find_iff(s, id);
    let i = choose|i: int| 0 <= i < s.len() && s[i].id == id;
    assert(s[i].item.id == s[i].id);
}

/// Setting skips an untouched prefix.
proof fn lemma_h_set_skip<I>(s: Seq<PayloadEntry<I>>, item: CatalogItem<I>, k: int)
    requires
        0 <= k <= s.len(),
        forall|j: int| 0 <= j < k ==> s[j].id != item.id,
    ensures
        h_set(s, item) == s.take(k) + h_set(s.skip(k), item),
    decreases k,
{
    if k == 0 {
        assert(s.skip(0) =~= s);
        assert(s.take(0) + h_set(s, item) =~= h_set(s, item));
    } else {
        lemma_h_set_skip(s.drop_first(), item, k - 1);
        assert(s.drop_first().skip(k - 1) =~= s.skip(k));
        assert(seq![s[0]] + (s.drop_first().take(k - 1) + h_set(s.skip(k), item)) =~= s.take(k)
            + h_set(s.skip(k), item));
    }
}

/// Removal skips an untouched prefix.
proof fn lemma_h_remove_skip<I>(s: Seq<PayloadEntry<I>>, id: u128, k: int)
    requires
        0 <= k <= s.len(),
        forall|j: int| 0 <= j < k ==> s[j].id != id,
    ensures
        h_remove(s, id) == s.take(k) + h_remove(s.skip(k), id),
    decreases k,
{
    if k == 0 {
        assert(s.skip(0) =~= s);
        assert(s.take(0) + h_remove(s, id) =~= h_remove(s, id));
    } else {
        lemma_h_remove_skip(s.drop_first(), id, k - 1);
        assert(s.drop_first().skip(k - 1) =~= s.skip(k));
        assert(seq![s[0]] + (s.drop_first().take(k - 1) + h_remove(s.skip(k), id)) =~= s.take(k)
            + h_remove(s.skip(k), id));
    }
}

/// Removing an absent id changes nothing.
pub proof fn lemma_h_remove_absent<I>(s: Seq<PayloadEntry<I>>, id: u128)
    requires
        forall|j: int| 0 <= j < s.len() ==> s[j].id != id,
    ensures
        h_remove(s, id) == s,
    decreases s.len(),
{
    if s.len() > 0 {
        lemma_h_remove_absent(s.drop_first(), id);
        assert(seq![s[0]] + s.drop_first() =~= s);
    }
}

/// Removal keeps the map well-formed, drops exactly the field for `id`,
/// and leaves every other field alone.
pub proof fn lemma_h_remove_props<I>(s: Seq<PayloadEntry<I>>, id: u128)
    requires
        h_wf(s),
    ensures
        h_wf(h_remove(s, id)),
        forall|x: u128| #[trigger]
            h_find(h_remove(s, id), x) == if x == id {
                None::<CatalogItem<I>>
            } else {
                h_find(s, x)
            },
        h_remove(s, id).len() == s.len() - (if h_has(s, id) {
            1int
        } else {
            0int
        }),
    decreases s.len(),
{
    lemma_h_find_iff(s, id);
    if s.len() == 0 {
    } else {
        let tail = s.drop_first();
        assert(forall|i: int| 0 <= i < tail.len() ==> #[trigger] tail[i] == s[i + 1]);
        lemma_h_remove_props(tail, id);
        lemma_h_find_iff(tail, id);
        if s[0].id == id {
            lemma_h_find_absent(tail, id);
            lemma_h_remove_absent(tail, id);
        } else {
            let r = seq![s[0]] + h_remove(tail, id);
            assert(r == h_remove(s, id));
            assert(r[0] == s[0]);
            assert(r.drop_first() =~= h_remove(tail, id));
            assert forall|x: u128| #[trigger] h_find(r, x) == if x == id {
                None::<CatalogItem<I>>
            } else {
                h_find(s, x)
            } by {
                if x == s[0].id {
                    assert(h_find(r, x) == Some(s[0].item));
                    assert(h_find(s, x) == Some(s[0].item));
                } else {
                    assert(h_find(r, x) == h_find(h_remove(tail, id), x));
                    assert(h_find(s, x) == h_find(tail, x));
                }
            }
            assert forall|i: int, j: int|
                #![trigger r[i].id, r[j].id]
                0 <= i < j < r.len() implies r[i].id != r[j].id by {
                assert(h_unique(h_remove(tail, id)));
                if i == 0 {
                    assert(r[j] == h_remove(tail, id)[j - 1]);
                    lemma_h_find_absent(tail, s[0].id);
                    assert(h_find(h_remove(tail, id), s[0].id) is None);
                    lemma_h_find_iff(h_remove(tail, id), s[0].id);
                } else {
                    assert(r[i] == h_remove(tail, id)[i - 1]);
                    assert(r[j] == h_remove(tail, id)[j - 1]);
                }
            }
            assert forall|i: int| 0 <= i < r.len() implies #[trigger] r[i].item.id == r[i].id by {
                if i > 0 {
                    assert(r[i] == h_remove(tail, id)[i - 1]);
                    assert(h_keyed(h_remove(tail, id)));
                }
            }
        }
    }
}

/// Setting keeps the map well-formed, stores exactly `item` under its id,
/// and leaves every other field alone.
pub proof fn lemma_h_set_props<I>(s: Seq<PayloadEntry<I>>, item: CatalogItem<I>)
    requires
        h_wf(s),
    ensures
        h_wf(h_set(s, item)),
        forall|x: u128| #[trigger]
            h_find(h_set(s, item), x) == if x == item.id {
                Some(item)
            } else {
                h_find(s, x)
            },
        h_set(s, item).len() == s.len() + (if h_has(s, item.id) {
            0int
        } else {
            1int
        }),
    decreases s.len(),
{
    lemma_h_find_iff(s, item.id);
    let e = PayloadEntry { id: item.id, item };
    if s.len() == 0 {
        let r = h_set(s, item);
        assert(r == seq![e]);
        assert forall|x: u128| #[trigger] h_find(r, x) == if x == item.id {
            Some(item)
        } else {
            h_find(s, x)
        } by {
            assert(r[0] == e);
            if x != item.id {
                assert(r.drop_first() =~= Seq::<PayloadEntry<I>>::empty());
                assert(h_find(Seq::<PayloadEntry<I>>::empty(), x) is None);
                assert(h_find(r, x) is None);
            }
        }
    } else if s[0].id == item.id {
        let r = seq![e] + s.drop_first();
        assert(r == h_set(s, item));
        assert(r[0] == e);
        assert(r.drop_first() =~= s.drop_first());
        assert forall|x: u128| #[trigger] h_find(r, x) == if x == item.id {
            Some(item)
        } else {
            h_find(s, x)
        } by {
            if x != item.id {
                assert(h_find(r, x) == h_find(s.drop_first(), x));
                assert(h_find(s, x) == h_find(s.drop_first(), x));
            }
        }
        assert(forall|i: int|
            0 <= i < r.len() ==> #[trigger] r[i].id == s[i].id && r[i].item.id == r[i].id);
        assert(h_unique(r));
    } else {
        let tail = s.drop_first();
        assert(forall|i: int| 0 <= i < tail.len() ==> #[trigger] tail[i] == s[i + 1]);
        lemma_h_set_props(tail, item);
        lemma_h_find_iff(tail, item.id);
        let rt = h_set(tail, item);
        let r = seq![s[0]] + rt;
        assert(r == h_set(s, item));
        assert(r[0] == s[0]);
        assert(r.drop_first() =~= rt);
        assert forall|x: u128| #[trigger] h_find(r, x) == if x == item.id {
            Some(item)
        } else {
            h_find(s, x)
        } by {
            if x == s[0].id {
                assert(h_find(r, x) == Some(s[0].item));
                assert(h_find(s, x) == Some(s[0].item));
            } else {
                assert(h_find(r, x) == h_find(rt, x));
                assert(h_find(s, x) == h_find(tail, x));
            }
        }
        assert forall|i: int, j: int|
            #![trigger r[i].id, r[j].id]
            0 <= i < j < r.len() implies r[i].id != r[j].id by {
            assert(h_unique(rt));
            if i == 0 {
                assert(r[j] == rt[j - 1]);
                assert(h_find(rt, s[0].id) == h_find(tail, s[0].id)) by {
                    assert(s[0].id != item.id);
                }
                lemma_h_find_absent(tail, s[0].id);
                lemma_h_find_iff(rt, s[0].id);
            } else {
                assert(r[i] == rt[i - 1]);
                assert(r[j] == rt[j - 1]);
            }
        }
        assert forall|i: int| 0 <= i < r.len() implies #[trigger] r[i].item.id == r[i].id by {
            if i > 0 {
                assert(r[i] == rt[i - 1]);
                assert(h_keyed(rt));
            }
        }
    }
}

/// Removing a batch of ids keeps the map well-formed, drops exactly the
/// fields for those ids, and leaves every other field alone.
pub proof fn lemma_h_remove_seq_props<I>(s: Seq<PayloadEntry<I>>, ids: Seq<u128>)
    requires
        h_wf(s),
    ensures
        h_wf(h_remove_seq(s, ids)),
        forall|x: u128| #[trigger]
            h_find(h_remove_seq(s, ids), x) == if ids.contains(x) {
                None::<CatalogItem<I>>
            } else {
                h_find(s, x)
            },
    decreases ids.len(),
{
    if ids.len() > 0 {
        let s1 = h_remove(s, ids[0]);
        lemma_h_remove_props(s, ids[0]);
        lemma_h_remove_seq_props(s1, ids.drop_first());
        assert forall|x: u128| #[trigger] h_find(h_remove_seq(s, ids), x) == if ids.contains(x) {
            None::<CatalogItem<I>>
        } else {
            h_find(s, x)
        } by {
            if ids.contains(x) {
                let i = choose|i: int| 0 <= i < ids.len() && ids[i] == x;
                if i > 0 {
                    assert(ids.drop_first()[i - 1] == x);
                    assert(ids.drop_first().contains(x));
                }
            } else {
                assert(!ids.drop_first().contains(x)) by {
                    if ids.drop_first().contains(x) {
                        let i = choose|i: int|
                            0 <= i < ids.drop_first().len() && ids.drop_first()[i] == x;
                        assert(ids[i + 1] == x);
                    }
                }
                assert(x != ids[0]);
            }
        }
    }
}

/// The payload map, stored as a vector of fields with unique ids.
#[derive(Debug)]
pub struct ItemHash<I> {
    entries: Vec<PayloadEntry<I>>,
}

impl<I> View for ItemHash<I> {
    type V = Seq<PayloadEntry<I>>;

    closed spec fn view(&self) -> Seq<PayloadEntry<I>> {
        self.entries@
    }
}

impl<I> ItemHash<I> {
    /// The empty map.
    pub fn new() -> (r: Self)
        ensures
            r@ == Seq::<PayloadEntry<I>>::empty(),
            h_wf(r@),
    {
        ItemHash { entries: Vec::new() }
    }

    /// How many fields the map holds.
    pub fn len(&self) -> (r: usize)
        ensures
            r == self@.len(),
    {
        self.entries.len()
    }

    pub fn is_empty(&self) -> (r: bool)
        ensures
            r == (self@.len() == 0),
    {
        self.entries.is_empty()
    }

    /// The index of the field for `id`, scanning from the front.
    fn index_of(&self, id: u128) -> (r: Option<usize>)
        ensures
            match r {
                Some(i) => i < self@.len() && self@[i as int].id == id && forall|j: int|
                    0 <= j < i ==> self@[j].id != id,
                None => forall|j: int| 0 <= j < self@.len() ==> self@[j].id != id,
            },
    {
        let n = self.entries.len();
        let mut i: usize = 0;
        while i < n
            invariant
                i <= n,
                n == self@.len(),
                forall|j: int| 0 <= j < i ==> self@[j].id != id,
            decreases n - i,
        {
            if self.entries[i].id == id {
                return Some(i);
            }
            i = i + 1;
        }
        None
    }

    /// Whether a field for `id` exists.
    pub fn contains(&self, id: u128) -> (r: bool)
        ensures
            r == h_has(self@, id),
    {
        match self.index_of(id) {
            Some(i) => {
                proof {
                    lemma_h_find_skip(self@, id, i as int);
                    assert(self@.skip(i as int)[0] == self@[i as int]);
                }
                true
            },
            None => {
                proof {
                    lemma_h_find_absent(self@, id);
                }
                false
            },
        }
    }

    /// The stored expiration of the item under `id`: `None` when no item
    /// is stored, otherwise the item's own optional expiration.
    pub fn get_expires(&self, id: u128) -> (r: Option<Option<Score>>)
        ensures
            r == h_expires(self@, id),
    {
        match self.index_of(id) {
            Some(i) => {
                proof {
                    lemma_h_find_skip(self@, id, i as int);
                    assert(self@.skip(i as int)[0] == self@[i as int]);
                }
                Some(self.entries[i].item.expires_on_timestamp())
            },
            None => {
                proof {
                    lemma_h_find_absent(self@, id);
                }
                None
            },
        }
    }

    /// Store `item` under its own id. Returns how many fields are new, as
    /// the store's hash set does: 1 when the id was absent, 0 when its
    /// field was overwritten.
    pub fn set(&mut self, item: CatalogItem<I>) -> (r: usize)
        requires
            h_wf(old(self)@),
        ensures
            final(self)@ == h_set(old(self)@, item),
            h_wf(final(self)@),
            r == if h_has(old(self)@, item.id) {
                0usize
            } else {
                1usize
            },
            final(self)@.len() == old(self)@.len() + r,
    {
        let ghost orig = self@;
        let ghost itemg = item;
        proof {
            lemma_h_find_iff(orig, item.id);
        }
        match self.index_of(item.id) {
            Some(i) => {
                proof {
                    lemma_h_set_skip(orig, itemg, i as int);
                    assert(orig.skip(i as int)[0] == orig[i as int]);
                    assert(orig.skip(i as int).drop_first() =~= orig.skip(i as int + 1));
                    assert(orig.take(i as int) + (seq![
                        PayloadEntry { id: itemg.id, item: itemg },
                    ] + orig.skip(i as int + 1)) =~= orig.update(
                        i as int,
                        PayloadEntry { id: itemg.id, item: itemg },
                    ));
                }
                let id = item.id;
                self.entries[i] = PayloadEntry { id, item };
                proof {
                    assert(self@ == h_set(orig, itemg));
                    assert(h_unique(self@)) by {
                        assert(forall|j: int|
                            0 <= j < self@.len() && j != i ==> #[trigger] self@[j] == orig[j]);
                    }
                    assert(h_keyed(self@)) by {
                        assert(forall|j: int|
                            0 <= j < self@.len() && j != i ==> #[trigger] self@[j] == orig[j]);
                    }
                }
                0
            },
            None => {
                proof {
                    lemma_h_find_absent(orig, itemg.id);
                    lemma_h_set_skip(orig, itemg, orig.len() as int);
                    assert(orig.skip(orig.len() as int) =~= Seq::<PayloadEntry<I>>::empty());
                    assert(orig.take(orig.len() as int) =~= orig);
                    assert(orig + seq![PayloadEntry { id: itemg.id, item: itemg }] =~= orig.push(
                        PayloadEntry { id: itemg.id, item: itemg },
                    ));
                }
                let id = item.id;
                self.entries.push(PayloadEntry { id, item });
                proof {
                    assert(self@ == h_set(orig, itemg));
                    assert(h_unique(self@)) by {
                        assert(forall|j: int|
                            0 <= j < orig.len() ==> #[trigger] self@[j] == orig[j]);
                    }
                    assert(h_keyed(self@)) by {
                        assert(forall|j: int|
                            0 <= j < orig.len() ==> #[trigger] self@[j] == orig[j]);
                    }
                }
                1
            },
        }
    }

    /// Drop the field for `id`. Returns how many fields were removed.
    pub fn remove(&mut self, id: u128) -> (r: usize)
        requires
            h_wf(old(self)@),
        ensures
            final(self)@ == h_remove(old(self)@, id),
            h_wf(final(self)@),
            r == if h_has(old(self)@, id) {
                1usize
            } else {
                0usize
            },
            final(self)@.len() == old(self)@.len() - r,
    {
        let ghost orig = self@;
        proof {
            lemma_h_remove_props(orig, id);
            lemma_h_find_iff(orig, id);
        }
        match self.index_of(id) {
            Some(i) => {
                self.entries.remove(i);
                proof {
                    lemma_h_remove_skip(orig, id, i as int);
                    assert(orig.skip(i as int)[0] == orig[i as int]);
                    assert(orig.skip(i as int).drop_first() =~= orig.skip(i as int + 1));
                    assert(forall|j: int|
                        0 <= j < orig.skip(i as int + 1).len() ==> #[trigger] orig.skip(
                            i as int + 1,
                        )[j] == orig[j + i + 1]);
                    lemma_h_remove_absent(orig.skip(i as int + 1), id);
                    assert(orig.take(i as int) + orig.skip(i as int + 1) =~= orig.remove(i as int));
                    assert(self@ == h_remove(orig, id));
                }
                1
            },
            None => {
                proof {
                    lemma_h_remove_absent(orig, id);
                    lemma_h_find_absent(orig, id);
                }
                0
            },
        }
    }

    /// Drop the fields for all the given ids. Returns how many fields
    /// were removed; an id named twice is counted once.
    pub fn remove_ids(&mut self, ids: &Vec<u128>) -> (r: usize)
        requires
            h_wf(old(self)@),
        ensures
            final(self)@ == h_remove_seq(old(self)@, ids@),
            h_wf(final(self)@),
            r as int == old(self)@.len() - final(self)@.len(),
    {
        let ghost orig = self@;
        let total = self.entries.len();
        let mut count: usize = 0;
        let n = ids.len();
        let mut i: usize = 0;
        proof {
            assert(ids@.skip(0) =~= ids@);
        }
        while i < n
            invariant
                i <= n,
                n == ids@.len(),
                total == orig.len(),
                h_wf(self@),
                h_remove_seq(orig, ids@) == h_remove_seq(self@, ids@.skip(i as int)),
                count as int == orig.len() - self@.len(),
                count <= total,
            decreases n - i,
        {
            let ghost pre = self@;
            let c = self.remove(ids[i]);
            count = count + c;
            proof {
                assert(ids@.skip(i as int)[0] == ids@[i as int]);
                assert(ids@.skip(i as int).drop_first() =~= ids@.skip(i as int + 1));
                assert(h_remove_seq(pre, ids@.skip(i as int)) == h_remove_seq(
                    h_remove(pre, ids@[i as int]),
                    ids@.skip(i as int + 1),
                ));
            }
            i = i + 1;
        }
        proof {
            assert(ids@.skip(n as int) =~= Seq::<u128>::empty());
            assert(h_remove_seq(self@, Seq::<u128>::empty()) == self@);
        }
        count
    }

    /// Drop every field.
    pub fn clear(&mut self)
        ensures
            final(self)@ == Seq::<PayloadEntry<I>>::empty(),
            h_wf(final(self)@),
    {
        self.entries.clear();
        proof {
            assert(self@ =~= Seq::<PayloadEntry<I>>::empty());
        }
    }
}

impl<I: Codec> ItemHash<I> {
    /// An equal copy of the item stored under `id`, when one is stored.
    pub fn get_copy(&self, id: u128) -> (r: Option<CatalogItem<I>>)
        ensures
            r == h_find(self@, id),
    {
        match self.index_of(id) {
            Some(i) => {
                proof {
                    lemma_h_find_skip(self@, id, i as int);
                    assert(self@.skip(i as int)[0] == self@[i as int]);
                }
                Some(self.entries[i].item.replica())
            },
            None => {
                proof {
                    lemma_h_find_absent(self@, id);
                }
                None
            },
        }
    }

    /// An equal copy of the stored item for each given id, in the order
    /// the ids were given, `None` where no item is stored.
    pub fn get_copies(&self, ids: &Vec<u128>) -> (r: Vec<Option<CatalogItem<I>>>)
        ensures
            r@ == h_find_all(self@, ids@),
    {
        let n = ids.len();
        let mut r: Vec<Option<CatalogItem<I>>> = Vec::new();
        let mut i: usize = 0;
        while i < n
            invariant
                i <= n,
                n == ids@.len(),
                r@ == h_find_all(self@, ids@.take(i as int)),
            decreases n - i,
        {
            let v = self.get_copy(ids[i]);
            r.push(v);
            proof {
                assert(r@ =~= h_find_all(self@, ids@.take(i as int + 1)));
            }
            i = i + 1;
        }
        proof {
            assert(ids@.take(n as int) =~= ids@);
        }
        r
    }

    /// An equal copy of the stored item for each given id that has one,
    /// in the order the ids were given, ids without one skipped.
    pub fn found_copies(&self, ids: &Vec<u128>) -> (r: Vec<CatalogItem<I>>)
        ensures
            r@ == h_found(self@, ids@),
    {
        let n = ids.len();
        let mut r: Vec<CatalogItem<I>> = Vec::new();
        let mut i: usize = 0;
        proof {
            assert(ids@.skip(0) =~= ids@);
            assert(r@ + h_found(self@, ids@) =~= h_found(self@, ids@));
        }
        while i < n
            invariant
                i <= n,
                n == ids@.len(),
                h_found(self@, ids@) == r@ + h_found(self@, ids@.skip(i as int)),
            decreases n - i,
        {
            let ghost pre = r@;
            proof {
                assert(ids@.skip(i as int)[0] == ids@[i as int]);
                assert(ids@.skip(i as int).drop_first() =~= ids@.skip(i as int + 1));
            }
            match self.get_copy(ids[i]) {
                Some(it) => {
                    r.push(it);
                    proof {
                        assert(h_found(self@, ids@.skip(i as int)) == seq![
                            h_find(self@, ids@[i as int]).unwrap(),
                        ] + h_found(self@, ids@.skip(i as int + 1)));
                        assert(pre + (seq![h_find(self@, ids@[i as int]).unwrap()] + h_found(
                            self@,
                            ids@.skip(i as int + 1),
                        )) =~= r@ + h_found(self@, ids@.skip(i as int + 1)));
                    }
                },
                None => {
                    proof {
                        assert(h_found(self@, ids@.skip(i as int)) == h_found(
                            self@,
                            ids@.skip(i as int + 1),
                        ));
                    }
                },
            }
            i = i + 1;
        }
        proof {
            assert(ids@.skip(n as int) =~= Seq::<u128>::empty());
            assert(h_found(self@, Seq::<u128>::empty()) =~= Seq::<CatalogItem<I>>::empty());
            assert(r@ + Seq::<CatalogItem<I>>::empty() =~= r@);
        }
        r
    }
}

} // verus!
