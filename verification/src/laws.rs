//! Laws of the catalog protocol, stated and proved over the transition
//! functions that the operations' contracts name.

use vstd::prelude::*;

use crate::catalog::{
    checkout_by_id_spec, checkout_spec, delete_spec, destroy_spec, expire_spec, reclaim_pairs,
    register_spec, relinquish_spec, stored_score, timeout_spec,
};
use crate::hash::{h_find, lemma_h_find_keyed, lemma_h_set_props, PayloadEntry};
use crate::item::CatalogItem;
use crate::score::{score_le, score_lt, Score};
use crate::store::{store_wf, StoreModel};
use crate::zset::{
    entry_ids, entry_lt, lemma_z_add_pairs_props, lemma_z_add_props, lemma_z_find_iff,
    lemma_z_range_members, lemma_z_remove_props, lemma_z_remove_seq_props, z_find, z_has,
    z_range_ids, ScoredId,
};

verus! {

/// At-most-once checkout: an item a checkout returns has left the pending
/// ordering, which a checkout never grows, so no later checkout can return
/// an item with the same id again; in particular two successive checkouts
/// that both return an item return different ids, whatever their lease
/// deadlines.
pub proof fn lemma_checkout_at_most_once<I>(m: StoreModel<I>, d1: Score, d2: Score)
    requires
        store_wf(m),
    ensures
        ({
            let (m1, r1) = checkout_spec(m, d1);
            r1 matches Some(it) ==> !z_has(m1.pending, it.id)
        }),
        ({
            let (m1, r1) = checkout_spec(m, d1);
            forall|x: u128| z_has(m1.pending, x) ==> #[trigger] z_has(m.pending, x)
        }),
        ({
            let (m1, r1) = checkout_spec(m, d1);
            let (m2, r2) = checkout_spec(m1, d2);
            r1 is Some && r2 is Some ==> r1.unwrap().id != r2.unwrap().id
        }),
{
    let (m1, r1) = checkout_spec(m, d1);
    let (m2, r2) = checkout_spec(m1, d2);
    if m.pending.len() > 0 {
        let e1 = m.pending[0];
        let rest = m.pending.drop_first();
        assert(forall|i: int| 0 <= i < rest.len() ==> #[trigger] rest[i] == m.pending[i + 1]);
        crate::zset::lemma_z_find_absent(rest, e1.id);
        lemma_z_find_iff(rest, e1.id);
        lemma_z_find_iff(m.pending, e1.id);
        assert forall|x: u128| z_has(rest, x) implies #[trigger] z_has(m.pending, x) by {
            lemma_z_find_iff(rest, x);
            lemma_z_find_iff(m.pending, x);
            let i = choose|i: int| 0 <= i < rest.len() && rest[i].id == x;
            assert(m.pending[i + 1].id == x);
        }
        if r1 is Some {
            lemma_h_find_keyed(m.items, e1.id);
        }
        if r1 is Some && r2 is Some {
            let e2 = m1.pending[0];
            assert(e2 == m.pending[1]);
            lemma_h_find_keyed(m1.items, e2.id);
            assert(m.pending[0].id != m.pending[1].id);
        }
    }
}

/// Earliest deadline first: a checkout pops the pending entry with the
/// smallest score, and successive checkouts see scores in ascending order,
/// strictly so when the two front scores differ.
pub proof fn lemma_checkout_earliest_deadline_first<I>(m: StoreModel<I>, d: Score)
    requires
        store_wf(m),
        m.pending.len() > 0,
    ensures
        forall|j: int|
            0 <= j < m.pending.len() ==> score_le(m.pending[0].score, #[trigger] m.pending[j].score),
        checkout_spec(m, d).0.pending.len() > 0 ==> score_le(
            m.pending[0].score,
            checkout_spec(m, d).0.pending[0].score,
        ),
        checkout_spec(m, d).0.pending.len() > 0 && m.pending[0].score != checkout_spec(
            m,
            d,
        ).0.pending[0].score ==> score_lt(m.pending[0].score, checkout_spec(m, d).0.pending[0].score),
{
    assert forall|j: int|
        0 <= j < m.pending.len() implies score_le(
        m.pending[0].score,
        #[trigger] m.pending[j].score,
    ) by {
        if j > 0 {
            assert(entry_lt(m.pending[0], m.pending[j]));
        }
    }
    let m1 = checkout_spec(m, d).0;
    if m1.pending.len() > 0 {
        assert(m1.pending == m.pending.drop_first());
        assert(m1.pending[0] == m.pending[1]);
        assert(entry_lt(m.pending[0], m.pending[1]));
    }
}

/// Round trip: registering an item and then checking it out by id returns
/// exactly that item, after which its id is pending no longer, so no later
/// plain checkout can return an item with its id.
pub proof fn lemma_register_checkout_by_id_round_trip<I>(
    m: StoreModel<I>,
    item: CatalogItem<I>,
    sc: Score,
    d: Score,
    d2: Score,
)
    requires
        store_wf(m),
    ensures
        ({
            let m1 = register_spec(m, item, sc).0;
            let (m2, r) = checkout_by_id_spec(m1, item.id, d);
            r == Some(item) && !z_has(m2.pending, item.id) && (checkout_spec(m2, d2).1 matches Some(
                it2,
            ) ==> it2.id != item.id)
        }),
{
    lemma_z_add_props(m.pending, item.id, sc);
    lemma_h_set_props(m.items, item);
    let m1 = register_spec(m, item, sc).0;
    lemma_z_remove_props(m1.pending, item.id);
    let (m2, r) = checkout_by_id_spec(m1, item.id, d);
    assert(r == Some(item));
    assert(!z_has(m2.pending, item.id));
    if checkout_spec(m2, d2).1 is Some {
        lemma_z_find_iff(m2.pending, item.id);
        assert(m2.pending[0].id != item.id);
        lemma_h_find_keyed(m2.items, m2.pending[0].id);
    }
}

/// Whether the pending entry for `x` is due in the window `[lo, now]`.
pub open spec fn due_pending<I>(m: StoreModel<I>, lo: Score, now: i64, x: u128) -> bool {
    match z_find(m.pending, x) {
        Some(sc) => score_le(lo, sc) && score_le(sc, Score::At(now)),
        None => false,
    }
}

/// An expiration sweep removes exactly the due entries: a pending id whose
/// score lies in the sweep window leaves both the pending ordering and the
/// payload map, and every other id keeps its pending score and its stored
/// item; the checkout ordering is untouched.
pub proof fn lemma_expire_removes_exactly_due<I>(m: StoreModel<I>, lo: Score, now: i64)
    requires
        store_wf(m),
    ensures
        forall|x: u128| #[trigger]
            z_find(expire_spec(m, lo, now).0.pending, x) == if due_pending(m, lo, now, x) {
                None::<Score>
            } else {
                z_find(m.pending, x)
            },
        forall|x: u128| #[trigger]
            h_find(expire_spec(m, lo, now).0.items, x) == if due_pending(m, lo, now, x) {
                None::<CatalogItem<I>>
            } else {
                h_find(m.items, x)
            },
        expire_spec(m, lo, now).0.checkouts == m.checkouts,
{
    let due = z_range_ids(m.pending, lo, Score::At(now));
    lemma_z_range_members(m.pending, lo, Score::At(now));
    assert forall|x: u128| due.contains(x) == due_pending(m, lo, now, x) by {
        if due.contains(x) {
            let i = choose|i: int| 0 <= i < due.len() && due[i] == x;
            let j = choose|j: int|
                0 <= j < m.pending.len() && m.pending[j].id == x && score_le(
                    lo,
                    m.pending[j].score,
                ) && score_le(m.pending[j].score, Score::At(now));
            lemma_z_find_iff(m.pending, x);
            assert(due_pending(m, lo, now, x));
        }
        if due_pending(m, lo, now, x) {
            lemma_z_find_iff(m.pending, x);
            let j = choose|j: int| 0 <= j < m.pending.len() && m.pending[j].id == x;
            assert(z_find(m.pending, x) == Some(m.pending[j].score));
            assert(due.contains(m.pending[j].id));
        }
    }
    if due.len() == 0 {
        assert forall|x: u128| !due_pending(m, lo, now, x) by {
            assert(!due.contains(x));
        }
    } else {
        lemma_z_remove_seq_props(m.pending, due);
        crate::hash::lemma_h_remove_seq_props(m.items, due);
    }
}

/// What a sweep of due checkouts puts back: each due id with a stored
/// payload appears among the reclaim entries, exactly once and at its
/// item's re-resolved score, and nothing else does.
pub proof fn lemma_reclaim_pairs_members<I>(
    items: Seq<PayloadEntry<I>>,
    ids: Seq<u128>,
    dflt: Score,
)
    requires
        ids.no_duplicates(),
    ensures
        entry_ids(reclaim_pairs(items, ids, dflt)).no_duplicates(),
        forall|j: int|
            0 <= j < ids.len() && h_find(items, #[trigger] ids[j]) is Some ==> exists|k: int|
                0 <= k < reclaim_pairs(items, ids, dflt).len() && reclaim_pairs(items, ids, dflt)[k]
                    == (ScoredId {
                    id: ids[j],
                    score: stored_score(h_find(items, ids[j]).unwrap(), dflt),
                }),
        forall|k: int|
            0 <= k < reclaim_pairs(items, ids, dflt).len() ==> ids.contains(
                #[trigger] reclaim_pairs(items, ids, dflt)[k].id,
            ),
    decreases ids.len(),
{
    let ps = reclaim_pairs(items, ids, dflt);
    if ids.len() > 0 {
        let tail = ids.drop_first();
        assert(forall|i: int| 0 <= i < tail.len() ==> #[trigger] tail[i] == ids[i + 1]);
        assert(tail.no_duplicates());
        lemma_reclaim_pairs_members(items, tail, dflt);
        let pt = reclaim_pairs(items, tail, dflt);
        assert forall|k: int|
            0 <= k < ps.len() implies ids.contains(#[trigger] ps[k].id) by {
            match h_find(items, ids[0]) {
                Some(it0) => {
                    if k == 0 {
                        assert(ps[0].id == ids[0]);
                        assert(ids[0] == ids[0]);
                    } else {
                        assert(ps[k] == pt[k - 1]);
                        assert(tail.contains(pt[k - 1].id));
                        let i = choose|i: int| 0 <= i < tail.len() && tail[i] == pt[k - 1].id;
                        assert(ids[i + 1] == ps[k].id);
                    }
                },
                None => {
                    assert(ps == pt);
                    assert(tail.contains(pt[k].id));
                    let i = choose|i: int| 0 <= i < tail.len() && tail[i] == pt[k].id;
                    assert(ids[i + 1] == ps[k].id);
                },
            }
        }
        assert forall|j: int|
            0 <= j < ids.len() && h_find(items, #[trigger] ids[j]) is Some implies exists|k: int|
            0 <= k < ps.len() && ps[k] == (ScoredId {
                id: ids[j],
                score: stored_score(h_find(items, ids[j]).unwrap(), dflt),
            }) by {
            match h_find(items, ids[0]) {
                Some(it0) => {
                    if j == 0 {
                        assert(ps[0] == ScoredId {
                            id: ids[0],
                            score: stored_score(h_find(items, ids[0]).unwrap(), dflt),
                        });
                    } else {
                        assert(tail[j - 1] == ids[j]);
                        let k = choose|k: int|
                            0 <= k < pt.len() && pt[k] == (ScoredId {
                                id: tail[j - 1],
                                score: stored_score(h_find(items, tail[j - 1]).unwrap(), dflt),
                            });
                        assert(ps[k + 1] == pt[k]);
                    }
                },
                None => {
                    assert(j != 0);
                    assert(tail[j - 1] == ids[j]);
                    let k = choose|k: int|
                        0 <= k < pt.len() && pt[k] == (ScoredId {
                            id: tail[j - 1],
                            score: stored_score(h_find(items, tail[j - 1]).unwrap(), dflt),
                        });
                    assert(ps[k] == pt[k]);
                },
            }
        }
        assert forall|a: int, b: int|
            0 <= a < entry_ids(ps).len() && 0 <= b < entry_ids(ps).len() && a != b implies
            entry_ids(ps)[a] != entry_ids(ps)[b] by {
            match h_find(items, ids[0]) {
                Some(it0) => {
                    assert(entry_ids(pt).no_duplicates());
                    if a == 0 || b == 0 {
                        let c = if a == 0 {
                            b
                        } else {
                            a
                        };
                        assert(entry_ids(ps)[0] == ids[0]);
                        assert(entry_ids(ps)[c] == pt[c - 1].id);
                        assert(tail.contains(pt[c - 1].id));
                        let i = choose|i: int| 0 <= i < tail.len() && tail[i] == pt[c - 1].id;
                        assert(ids[i + 1] == pt[c - 1].id);
                        assert(ids[0] != ids[i + 1]);
                    } else {
                        assert(entry_ids(ps)[a] == pt[a - 1].id && entry_ids(ps)[b] == pt[b
                            - 1].id);
                        assert(entry_ids(pt)[a - 1] == pt[a - 1].id);
                        assert(entry_ids(pt)[b - 1] == pt[b - 1].id);
                    }
                },
                None => {
                    assert(entry_ids(ps)[a] == entry_ids(pt)[a]);
                    assert(entry_ids(ps)[b] == entry_ids(pt)[b]);
                    assert(entry_ids(pt).no_duplicates());
                },
            }
        }
    }
}

/// A timeout sweep reclaims exactly the due leases: a checked-out id whose
/// deadline lies at or before `now` leaves the checkout ordering, and when
/// its payload is stored it returns to pending at its item's own
/// expiration, falling back to the default; the payload map is untouched.
pub proof fn lemma_timeout_reclaims_due<I>(m: StoreModel<I>, dflt: Score, now: i64, x: u128)
    requires
        store_wf(m),
        z_find(m.checkouts, x) matches Some(sc) && score_le(sc, Score::At(now)),
    ensures
        ({
            let m2 = timeout_spec(m, dflt, now).0;
            !z_has(m2.checkouts, x) && m2.items == m.items && (h_find(m.items, x) matches Some(it)
                ==> z_find(m2.pending, x) == Some(stored_score(it, dflt)))
        }),
{
    let due = z_range_ids(m.checkouts, Score::At(i64::MIN), Score::At(now));
    lemma_z_range_members(m.checkouts, Score::At(i64::MIN), Score::At(now));
    lemma_z_find_iff(m.checkouts, x);
    let j = choose|j: int| 0 <= j < m.checkouts.len() && m.checkouts[j].id == x;
    assert(z_find(m.checkouts, x) == Some(m.checkouts[j].score));
    assert(score_le(Score::At(i64::MIN), m.checkouts[j].score));
    assert(due.contains(x));
    assert(due.len() > 0);
    let m2 = timeout_spec(m, dflt, now).0;
    lemma_z_remove_seq_props(m.checkouts, due);
    assert(!z_has(m2.checkouts, x));
    assert(due.no_duplicates());
    lemma_reclaim_pairs_members(m.items, due, dflt);
    let ps = reclaim_pairs(m.items, due, dflt);
    lemma_z_add_pairs_props(m.pending, ps);
    if h_find(m.items, x) is Some {
        let it = h_find(m.items, x).unwrap();
        let i = choose|i: int| 0 <= i < due.len() && due[i] == x;
        let k = choose|k: int|
            0 <= k < ps.len() && ps[k] == (ScoredId { id: due[i], score: stored_score(
                h_find(m.items, due[i]).unwrap(),
                dflt,
            ) });
        assert(z_find(m2.pending, ps[k].id) == Some(ps[k].score));
    }
}

/// Relinquishing an id that is not checked out is a no-op with zero counts
/// on both sides; relinquishing a checked-out id whose payload is stored
/// moves it back to pending exactly once.
pub proof fn lemma_relinquish_idempotent_safe<I>(m: StoreModel<I>, id: u128, dflt: Score)
    requires
        store_wf(m),
    ensures
        !z_has(m.checkouts, id) ==> relinquish_spec(m, id, dflt) == (m, (0usize, 0usize)),
        z_has(m.checkouts, id) ==> ({
            let (m2, counts) = relinquish_spec(m, id, dflt);
            counts.0 == 1usize && !z_has(m2.checkouts, id) && (h_find(m.items, id) matches Some(it)
                ==> z_find(m2.pending, id) == Some(stored_score(it, dflt)))
        }),
{
    if z_has(m.checkouts, id) {
        lemma_z_remove_props(m.checkouts, id);
        if h_find(m.items, id) is Some {
            let it = h_find(m.items, id).unwrap();
            lemma_z_add_props(m.pending, id, stored_score(it, dflt));
        }
    }
}

/// Dangling tolerance: when an id is pending but its payload is missing,
/// checking it out by id returns nothing and removes it from pending
/// without touching the checkout ordering; a plain checkout finding it at
/// the front also returns nothing; and a later unconditional delete
/// reports zero for every collection when the id is not checked out
/// either.
pub proof fn lemma_dangling_tolerated<I>(m: StoreModel<I>, id: u128, d: Score)
    requires
        store_wf(m),
        h_find(m.items, id) is None,
        z_has(m.pending, id),
    ensures
        ({
            let (m2, r) = checkout_by_id_spec(m, id, d);
            r is None && !z_has(m2.pending, id) && m2.checkouts == m.checkouts && m2.items
                == m.items && (!z_has(m.checkouts, id) ==> delete_spec(m2, id).1 == (
                0usize,
                0usize,
                0usize,
            ))
        }),
        m.pending.len() > 0 && m.pending[0].id == id ==> checkout_spec(m, d).1 is None
            && checkout_spec(m, d).0.checkouts == m.checkouts,
{
    lemma_z_remove_props(m.pending, id);
    let (m2, r) = checkout_by_id_spec(m, id, d);
    if !z_has(m.checkouts, id) {
        assert(delete_spec(m2, id).1 == (0usize, 0usize, 0usize));
    }
}

/// Destroying an empty catalog deletes nothing, and destruction is
/// idempotent: a second destruction always reports zero.
pub proof fn lemma_destroy_idempotent<I>(m: StoreModel<I>)
    ensures
        m.items.len() == 0 && m.pending.len() == 0 && m.checkouts.len() == 0 ==> destroy_spec(
            m,
        ).1 == 0,
        destroy_spec(destroy_spec(m).0).1 == 0,
{
}

} // verus!
