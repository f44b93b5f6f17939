//! An ordered set of item ids scored by expiration instant, modelling the
//! store's sorted-set primitive: each id appears at most once, and entries
//! are ordered by score, ties broken by id.

use vstd::prelude::*;

use crate::score::{score_le, score_lt, Score};

verus! {

/// One entry of an ordered set: an item id and its score.
#[derive(Clone, Copy, Debug, PartialEq, Eq, Structural)]
pub struct ScoredId {
    pub id: u128,
    pub score: Score,
}

/// Entry order: by score, ties broken by id ascending.
pub open spec fn entry_le(a: ScoredId, b: ScoredId) -> bool {
    score_lt(a.score, b.score) || (a.score == b.score && a.id <= b.id)
}

pub open spec fn entry_lt(a: ScoredId, b: ScoredId) -> bool {
    entry_le(a, b) && a != b
}

/// Entries stand in strictly ascending order.
pub open spec fn z_sorted(s: Seq<ScoredId>) -> bool {
    forall|i: int, j: int|
        #![trigger s[i], s[j]]
        0 <= i < j < s.len() ==> entry_lt(s[i], s[j])
}

/// No id appears twice.
pub open spec fn z_unique(s: Seq<ScoredId>) -> bool {
    forall|i: int, j: int|
        #![trigger s[i].id, s[j].id]
        0 <= i < j < s.len() ==> s[i].id != s[j].id
}

/// A well-formed ordered set: sorted and with unique ids.
pub open spec fn z_wf(s: Seq<ScoredId>) -> bool {
    z_sorted(s) && z_unique(s)
}

/// The score of `id`, or `None` when `id` has no entry.
pub open spec fn z_find(s: Seq<ScoredId>, id: u128) -> Option<Score>
    decreases s.len(),
{
    if s.len() == 0 {
        None
    } else if s[0].id == id {
        Some(s[0].score)
    } else {
        z_find(s.drop_first(), id)
    }
}

pub open spec fn z_has(s: Seq<ScoredId>, id: u128) -> bool {
    z_find(s, id) is Some
}

/// The set without any entry for `id`.
pub open spec fn z_remove(s: Seq<ScoredId>, id: u128) -> Seq<ScoredId>
    decreases s.len(),
{
    if s.len() == 0 {
        s
    } else if s[0].id == id {
        z_remove(s.drop_first(), id)
    } else {
        seq![s[0]] + z_remove(s.drop_first(), id)
    }
}

/// The set without any entry for the given ids, removed in order.
pub open spec fn z_remove_seq(s: Seq<ScoredId>, ids: Seq<u128>) -> Seq<ScoredId>
    decreases ids.len(),
{
    if ids.len() == 0 {
        s
    } else {
        z_remove_seq(z_remove(s, ids[0]), ids.drop_first())
    }
}

/// `e` inserted at its sorted position.
pub open spec fn z_place(s: Seq<ScoredId>, e: ScoredId) -> Seq<ScoredId>
    decreases s.len(),
{
    if s.len() == 0 {
        seq![e]
    } else if entry_le(e, s[0]) {
        seq![e] + s
    } else {
        seq![s[0]] + z_place(s.drop_first(), e)
    }
}

/// The store's scored add: any old entry for `id` is dropped, and the new
/// entry takes its sorted position.
pub open spec fn z_add(s: Seq<ScoredId>, id: u128, score: Score) -> Seq<ScoredId> {
    z_place(z_remove(s, id), ScoredId { id, score })
}

/// Adds for all the given ids at one shared score, applied in order.
pub open spec fn z_add_seq(s: Seq<ScoredId>, ids: Seq<u128>, score: Score) -> Seq<ScoredId>
    decreases ids.len(),
{
    if ids.len() == 0 {
        s
    } else {
        z_add_seq(z_add(s, ids[0], score), ids.drop_first(), score)
    }
}

/// Adds for all the given entries, each at its own score, applied in order.
pub open spec fn z_add_pairs(s: Seq<ScoredId>, ps: Seq<ScoredId>) -> Seq<ScoredId>
    decreases ps.len(),
{
    if ps.len() == 0 {
        s
    } else {
        z_add_pairs(z_add(s, ps[0].id, ps[0].score), ps.drop_first())
    }
}

/// The ids of a sequence of entries, in order.
pub open spec fn entry_ids(ps: Seq<ScoredId>) -> Seq<u128> {
    ps.map_values(|e: ScoredId| e.id)
}

/// The score of each given id, in order.
pub open spec fn z_find_all(s: Seq<ScoredId>, ids: Seq<u128>) -> Seq<Option<Score>> {
    ids.map_values(|id: u128| z_find(s, id))
}

/// The ids whose score lies in the inclusive window `[lo, hi]`, in set order.
pub open spec fn z_range_ids(s: Seq<ScoredId>, lo: Score, hi: Score) -> Seq<u128>
    decreases s.len(),
{
    if s.len() == 0 {
        Seq::empty()
    } else if score_le(lo, s[0].score) && score_le(s[0].score, hi) {
        seq![s[0].id] + z_range_ids(s.drop_first(), lo, hi)
    } else {
        z_range_ids(s.drop_first(), lo, hi)
    }
}

/// Scanning past a prefix without `id` does not change what is found.
pub proof fn lemma_z_find_skip(s: Seq<ScoredId>, id: u128, k: int)
    requires
        0 <= k <= s.len(),
        forall|j: int| 0 <= j < k ==> s[j].id != id,
    ensures
        z_find(s, id) == z_find(s.skip(k), id),
    decreases k,
{
    if k == 0 {
        assert(s.skip(0) =~= s);
    } else {
        lemma_z_find_skip(s.drop_first(), id, k - 1);
        assert(s.drop_first().skip(k - 1) =~= s.skip(k));
    }
}

/// A set without any entry for `id` finds nothing for it.
pub proof fn lemma_z_find_absent(s: Seq<ScoredId>, id: u128)
    requires
        forall|j: int| 0 <= j < s.len() ==> s[j].id != id,
    ensures
        z_find(s, id) is None,
{
    lemma_z_find_skip(s, id, s.len() as int);
}

/// With unique ids, what is found agrees with membership by index.
pub proof fn lemma_z_find_iff(s: Seq<ScoredId>, id: u128)
    requires
        z_unique(s),
    ensures
        z_has(s, id) <==> exists|i: int| 0 <= i < s.len() && s[i].id == id,
        forall|i: int|
            0 <= i < s.len() && s[i].id == id ==> z_find(s, id) == Some(s[i].score),
    decreases s.len(),
{
    if s.len() > 0 && s[0].id != id {
        lemma_z_find_iff(s.drop_first(), id);
        assert forall|i: int| 0 <= i < s.len() && s[i].id == id implies z_find(s, id) == Some(
            s[i].score,
        ) by {
            assert(s.drop_first()[i - 1] == s[i]);
        }
        if z_has(s, id) {
            let i = choose|i: int| 0 <= i < s.drop_first().len() && s.drop_first()[i].id == id;
            assert(s[i + 1].id == id);
        }
    }
}

/// Removal skips an untouched prefix.
pub proof fn lemma_z_remove_skip(s: Seq<ScoredId>, id: u128, k: int)
    requires
        0 <= k <= s.len(),
        forall|j: int| 0 <= j < k ==> s[j].id != id,
    ensures
        z_remove(s, id) == s.take(k) + z_remove(s.skip(k), id),
    decreases k,
{
    if k == 0 {
        assert(s.skip(0) =~= s);
        assert(s.take(0) + z_remove(s, id) =~= z_remove(s, id));
    } else {
        lemma_z_remove_skip(s.drop_first(), id, k - 1);
        assert(s.drop_first().skip(k - 1) =~= s.skip(k));
        assert(seq![s[0]] + (s.drop_first().take(k - 1) + z_remove(s.skip(k), id)) =~= s.take(k)
            + z_remove(s.skip(k), id));
    }
}

/// Removing an absent id changes nothing.
pub proof fn lemma_z_remove_absent(s: Seq<ScoredId>, id: u128)
    requires
        forall|j: int| 0 <= j < s.len() ==> s[j].id != id,
    ensures
        z_remove(s, id) == s,
    decreases s.len(),
{
    if s.len() > 0 {
        lemma_z_remove_absent(s.drop_first(), id);
        assert(seq![s[0]] + s.drop_first() =~= s);
    }
}

/// Removal keeps the set well-formed, drops exactly the entry for `id`,
/// and leaves every other id's score alone.
pub proof fn lemma_z_remove_props(s: Seq<ScoredId>, id: u128)
    requires
        z_wf(s),
    ensures
        z_wf(z_remove(s, id)),
        forall|x: u128| #[trigger]
            z_find(z_remove(s, id), x) == if x == id {
                None::<Score>
            } else {
                z_find(s, x)
            },
        z_remove(s, id).len() == s.len() - (if z_has(s, id) {
            1int
        } else {
            0int
        }),
        forall|i: int|
            0 <= i < z_remove(s, id).len() ==> exists|j: int|
                0 <= j < s.len() && #[trigger] z_remove(s, id)[i] == s[j],
    decreases s.len(),
{
    lemma_z_find_iff(s, id);
    if s.len() == 0 {
    } else {
        let tail = s.drop_first();
        assert(forall|i: int, j: int|
            #![trigger tail[i], tail[j]]
            0 <= i < j < tail.len() ==> tail[i] == s[i + 1] && tail[j] == s[j + 1]);
        lemma_z_remove_props(tail, id);
        lemma_z_find_iff(tail, id);
        if s[0].id == id {
            lemma_z_find_absent(tail, id);
            lemma_z_remove_absent(tail, id);
        } else {
            let r = seq![s[0]] + z_remove(tail, id);
            assert(r == z_remove(s, id));
            assert forall|x: u128| #[trigger] z_find(r, x) == if x == id {
                None::<Score>
            } else {
                z_find(s, x)
            } by {
                assert(r[0] == s[0]);
                assert(r.drop_first() =~= z_remove(tail, id));
                if x == s[0].id {
                    assert(z_find(r, x) == Some(s[0].score));
                    assert(z_find(s, x) == Some(s[0].score));
                } else {
                    assert(z_find(r, x) == z_find(z_remove(tail, id), x));
                    assert(z_find(s, x) == z_find(tail, x));
                }
            }
            assert forall|i: int| 0 <= i < r.len() implies exists|j: int|
                0 <= j < s.len() && #[trigger] r[i] == s[j] by {
                if i == 0 {
                    assert(r[0] == s[0]);
                } else {
                    let ri = r[i];
                    assert(z_remove(tail, id)[i - 1] == ri);
                    let j = choose|j: int| 0 <= j < tail.len() && z_remove(tail, id)[i - 1]
                        == tail[j];
                    assert(ri == s[j + 1]);
                }
            }
            assert forall|i: int, j: int|
                #![trigger r[i], r[j]]
                0 <= i < j < r.len() implies entry_lt(r[i], r[j]) && r[i].id != r[j].id by {
                let a = choose|a: int| 0 <= a < s.len() && r[i] == s[a];
                let b = choose|b: int| 0 <= b < s.len() && r[j] == s[b];
                if i == 0 {
                    assert(r.drop_first()[j - 1] == r[j]);
                    assert(z_sorted(z_remove(tail, id)));
                    if j >= 1 {
                        let c = choose|c: int|
                            0 <= c < tail.len() && z_remove(tail, id)[j - 1] == tail[c];
                        assert(r[j] == s[c + 1]);
                        assert(entry_lt(s[0], s[c + 1]));
                    }
                } else {
                    assert(z_remove(tail, id)[i - 1] == r[i]);
                    assert(z_remove(tail, id)[j - 1] == r[j]);
                    assert(z_sorted(z_remove(tail, id)) && z_unique(z_remove(tail, id)));
                }
            }
        }
    }
}

/// Placing before a strictly smaller prefix keeps the prefix in place.
pub proof fn lemma_z_place_at(s: Seq<ScoredId>, e: ScoredId, k: int)
    requires
        0 <= k <= s.len(),
        forall|j: int| 0 <= j < k ==> !entry_le(e, s[j]),
        k < s.len() ==> entry_le(e, s[k]),
    ensures
        z_place(s, e) == s.insert(k, e),
    decreases k,
{
    if k == 0 {
        if s.len() == 0 {
            assert(z_place(s, e) =~= s.insert(0, e));
        } else {
            assert(seq![e] + s =~= s.insert(0, e));
        }
    } else {
        lemma_z_place_at(s.drop_first(), e, k - 1);
        assert(seq![s[0]] + s.drop_first().insert(k - 1, e) =~= s.insert(k, e));
    }
}

/// Placing a fresh entry keeps the set well-formed and adds exactly it.
pub proof fn lemma_z_place_props(s: Seq<ScoredId>, e: ScoredId)
    requires
        z_wf(s),
        forall|j: int| 0 <= j < s.len() ==> s[j].id != e.id,
    ensures
        z_wf(z_place(s, e)),
        z_place(s, e).len() == s.len() + 1,
        forall|x: u128| #[trigger]
            z_find(z_place(s, e), x) == if x == e.id {
                Some(e.score)
            } else {
                z_find(s, x)
            },
        forall|i: int|
            0 <= i < z_place(s, e).len() ==> #[trigger] z_place(s, e)[i] == e || exists|j: int|
                0 <= j < s.len() && z_place(s, e)[i] == s[j],
    decreases s.len(),
{
    if s.len() == 0 {
        let r = z_place(s, e);
        assert(r =~= seq![e]);
        assert forall|x: u128| #[trigger] z_find(r, x) == if x == e.id {
            Some(e.score)
        } else {
            z_find(s, x)
        } by {
            assert(r.len() == 1 && r[0] == e);
            if x == e.id {
                assert(z_find(r, x) == Some(e.score));
            } else {
                assert(r.drop_first() =~= Seq::<ScoredId>::empty());
                assert(z_find(Seq::<ScoredId>::empty(), x) is None);
                assert(z_find(r, x) is None);
                assert(z_find(s, x) is None);
            }
        }
    } else if entry_le(e, s[0]) {
        let r = seq![e] + s;
        assert(r == z_place(s, e));
        assert(r[0] == e && r.drop_first() =~= s);
        assert forall|x: u128| #[trigger] z_find(r, x) == if x == e.id {
            Some(e.score)
        } else {
            z_find(s, x)
        } by {
            if x == e.id {
                assert(z_find(r, x) == Some(e.score));
            } else {
                assert(z_find(r, x) == z_find(s, x));
            }
        }
        assert(entry_lt(e, s[0])) by {
            assert(e.id != s[0].id);
        }
        assert forall|i: int, j: int|
            #![trigger r[i], r[j]]
            0 <= i < j < r.len() implies entry_lt(r[i], r[j]) && r[i].id != r[j].id by {
            if i == 0 {
                if j > 1 {
                    assert(entry_lt(s[0], s[j - 1]));
                }
                assert(r[j] == s[j - 1]);
            } else {
                assert(r[i] == s[i - 1] && r[j] == s[j - 1]);
            }
        }
    } else {
        let tail = s.drop_first();
        assert(forall|i: int, j: int|
            #![trigger tail[i], tail[j]]
            0 <= i < j < tail.len() ==> tail[i] == s[i + 1] && tail[j] == s[j + 1]);
        lemma_z_place_props(tail, e);
        let rt = z_place(tail, e);
        let r = seq![s[0]] + rt;
        assert(r == z_place(s, e));
        assert(r[0] == s[0] && r.drop_first() =~= rt);
        assert forall|x: u128| #[trigger] z_find(r, x) == if x == e.id {
            Some(e.score)
        } else {
            z_find(s, x)
        } by {
            if x == s[0].id {
                assert(z_find(r, x) == Some(s[0].score));
                assert(z_find(s, x) == Some(s[0].score));
            } else {
                assert(z_find(r, x) == z_find(rt, x));
                assert(z_find(s, x) == z_find(tail, x));
            }
        }
        assert(entry_lt(s[0], e)) by {
            assert(!entry_le(e, s[0]));
            assert(entry_le(s[0], e));
        }
        assert forall|i: int, j: int|
            #![trigger r[i], r[j]]
            0 <= i < j < r.len() implies entry_lt(r[i], r[j]) && r[i].id != r[j].id by {
            if i == 0 {
                assert(r[j] == rt[j - 1]);
                if rt[j - 1] == e {
                } else {
                    let c = choose|c: int| 0 <= c < tail.len() && rt[j - 1] == tail[c];
                    assert(entry_lt(s[0], s[c + 1]));
                }
            } else {
                assert(r[i] == rt[i - 1] && r[j] == rt[j - 1]);
            }
        }
        assert forall|i: int| 0 <= i < r.len() implies #[trigger] r[i] == e || exists|j: int|
            0 <= j < s.len() && r[i] == s[j] by {
            if i == 0 {
                assert(r[0] == s[0]);
            } else {
                assert(r[i] == rt[i - 1]);
                if rt[i - 1] != e {
                    let c = choose|c: int| 0 <= c < tail.len() && rt[i - 1] == tail[c];
                    assert(r[i] == s[c + 1]);
                }
            }
        }
    }
}

/// The scored add keeps the set well-formed, gives `id` the new score, and
/// leaves every other id's score alone.
pub proof fn lemma_z_add_props(s: Seq<ScoredId>, id: u128, score: Score)
    ensures
        z_wf(s) ==> z_wf(z_add(s, id, score)),
        z_wf(s) ==> forall|x: u128| #[trigger]
            z_find(z_add(s, id, score), x) == if x == id {
                Some(score)
            } else {
                z_find(s, x)
            },
        z_wf(s) ==> z_add(s, id, score).len() == s.len() + (if z_has(s, id) {
            0int
        } else {
            1int
        }),
{
    if z_wf(s) {
        lemma_z_remove_props(s, id);
        let mid = z_remove(s, id);
        assert forall|j: int| 0 <= j < mid.len() implies mid[j].id != id by {
            lemma_z_find_iff(mid, id);
        }
        lemma_z_place_props(mid, ScoredId { id, score });
    }
}

/// Removing a batch of ids keeps the set well-formed, drops exactly the
/// entries for those ids, and leaves every other id's score alone.
pub proof fn lemma_z_remove_seq_props(s: Seq<ScoredId>, ids: Seq<u128>)
    requires
        z_wf(s),
    ensures
        z_wf(z_remove_seq(s, ids)),
        forall|x: u128| #[trigger]
            z_find(z_remove_seq(s, ids), x) == if ids.contains(x) {
                None::<Score>
            } else {
                z_find(s, x)
            },
    decreases ids.len(),
{
    if ids.len() > 0 {
        let s1 = z_remove(s, ids[0]);
        lemma_z_remove_props(s, ids[0]);
        lemma_z_remove_seq_props(s1, ids.drop_first());
        assert forall|x: u128| #[trigger] z_find(z_remove_seq(s, ids), x) == if ids.contains(x) {
            None::<Score>
        } else {
            z_find(s, x)
        } by {
            if ids.contains(x) {
                let i = choose|i: int| 0 <= i < ids.len() && ids[i] == x;
                if i > 0 {
                    assert(ids.drop_first()[i - 1] == x);
                    assert(ids.drop_first().contains(x));
                }
            } else {
                assert(!ids.drop_first().contains(x)) by {
                    if ids.drop_first().contains(x) {
                        let i = choose|i: int|
                            0 <= i < ids.drop_first().len() && ids.drop_first()[i] == x;
                        assert(ids[i + 1] == x);
                    }
                }
                assert(x != ids[0]);
            }
        }
    }
}

/// Adding a batch of fresh entries with distinct ids keeps the set
/// well-formed, gives each its own score, and leaves other ids alone.
pub proof fn lemma_z_add_pairs_props(s: Seq<ScoredId>, ps: Seq<ScoredId>)
    requires
        z_wf(s),
        entry_ids(ps).no_duplicates(),
    ensures
        z_wf(z_add_pairs(s, ps)),
        forall|j: int|
            0 <= j < ps.len() ==> z_find(z_add_pairs(s, ps), #[trigger] ps[j].id) == Some(
                ps[j].score,
            ),
        forall|x: u128|
            !entry_ids(ps).contains(x) ==> #[trigger] z_find(z_add_pairs(s, ps), x) == z_find(
                s,
                x,
            ),
    decreases ps.len(),
{
    if ps.len() > 0 {
        let s1 = z_add(s, ps[0].id, ps[0].score);
        lemma_z_add_props(s, ps[0].id, ps[0].score);
        assert(entry_ids(ps.drop_first()).no_duplicates()) by {
            assert(forall|j: int|
                0 <= j < ps.drop_first().len() ==> #[trigger] entry_ids(ps.drop_first())[j]
                    == entry_ids(ps)[j + 1]);
        }
        lemma_z_add_pairs_props(s1, ps.drop_first());
        assert forall|j: int| 0 <= j < ps.len() implies z_find(
            z_add_pairs(s, ps),
            #[trigger] ps[j].id,
        ) == Some(ps[j].score) by {
            if j == 0 {
                assert(!entry_ids(ps.drop_first()).contains(ps[0].id)) by {
                    if entry_ids(ps.drop_first()).contains(ps[0].id) {
                        let i = choose|i: int|
                            0 <= i < ps.drop_first().len() && entry_ids(ps.drop_first())[i]
                                == ps[0].id;
                        assert(entry_ids(ps)[i + 1] == ps[0].id);
                        assert(entry_ids(ps)[0] == ps[0].id);
                    }
                }
                assert(z_find(s1, ps[0].id) == Some(ps[0].score));
            } else {
                assert(ps.drop_first()[j - 1] == ps[j]);
            }
        }
        assert forall|x: u128| !entry_ids(ps).contains(x) implies #[trigger] z_find(
            z_add_pairs(s, ps),
            x,
        ) == z_find(s, x) by {
            assert(entry_ids(ps)[0] == ps[0].id);
            assert(x != ps[0].id);
            assert(!entry_ids(ps.drop_first()).contains(x)) by {
                if entry_ids(ps.drop_first()).contains(x) {
                    let i = choose|i: int|
                        0 <= i < ps.drop_first().len() && entry_ids(ps.drop_first())[i] == x;
                    assert(entry_ids(ps)[i + 1] == x);
                }
            }
        }
    }
}

/// A suffix of a well-formed set is well-formed.
pub proof fn lemma_z_wf_skip(s: Seq<ScoredId>, k: int)
    requires
        z_wf(s),
        0 <= k <= s.len(),
    ensures
        z_wf(s.skip(k)),
{
    assert(forall|i: int|
        0 <= i < s.skip(k).len() ==> #[trigger] s.skip(k)[i] == s[i + k]);
}

/// Extending the scanned set by one entry extends a range query by that
/// entry's id when it lies in the window.
pub proof fn lemma_z_range_push(s: Seq<ScoredId>, e: ScoredId, lo: Score, hi: Score)
    ensures
        z_range_ids(s.push(e), lo, hi) == if score_le(lo, e.score) && score_le(e.score, hi) {
            z_range_ids(s, lo, hi).push(e.id)
        } else {
            z_range_ids(s, lo, hi)
        },
    decreases s.len(),
{
    let sp = s.push(e);
    let inside = score_le(lo, e.score) && score_le(e.score, hi);
    if s.len() == 0 {
        assert(sp.len() == 1 && sp[0] == e);
        assert(sp.drop_first() =~= Seq::<ScoredId>::empty());
        assert(z_range_ids(Seq::<ScoredId>::empty(), lo, hi) == Seq::<u128>::empty());
        assert(z_range_ids(s, lo, hi) == Seq::<u128>::empty());
        if inside {
            assert(z_range_ids(sp, lo, hi) == seq![e.id] + Seq::<u128>::empty());
            assert(seq![e.id] + Seq::<u128>::empty() =~= z_range_ids(s, lo, hi).push(e.id));
        } else {
            assert(z_range_ids(sp, lo, hi) == Seq::<u128>::empty());
        }
    } else {
        assert(sp.len() == s.len() + 1 && sp[0] == s[0]);
        assert(sp.drop_first() =~= s.drop_first().push(e));
        lemma_z_range_push(s.drop_first(), e, lo, hi);
        let rt = z_range_ids(s.drop_first(), lo, hi);
        if score_le(lo, s[0].score) && score_le(s[0].score, hi) {
            assert(z_range_ids(s, lo, hi) == seq![s[0].id] + rt);
            if inside {
                assert(z_range_ids(sp, lo, hi) == seq![s[0].id] + rt.push(e.id));
                assert(seq![s[0].id] + rt.push(e.id) =~= (seq![s[0].id] + rt).push(e.id));
            } else {
                assert(z_range_ids(sp, lo, hi) == seq![s[0].id] + rt);
            }
        } else {
            assert(z_range_ids(s, lo, hi) == rt);
            if inside {
                assert(z_range_ids(sp, lo, hi) == rt.push(e.id));
            } else {
                assert(z_range_ids(sp, lo, hi) == rt);
            }
        }
    }
}

/// Every id a range query returns has its entry in the set, with a score
/// inside the window; and every entry inside the window is returned.
pub proof fn lemma_z_range_members(s: Seq<ScoredId>, lo: Score, hi: Score)
    ensures
        forall|i: int|
            0 <= i < z_range_ids(s, lo, hi).len() ==> exists|j: int|
                0 <= j < s.len() && s[j].id == #[trigger] z_range_ids(s, lo, hi)[i] && score_le(
                    lo,
                    s[j].score,
                ) && score_le(s[j].score, hi),
        forall|j: int|
            0 <= j < s.len() && score_le(lo, #[trigger] s[j].score) && score_le(s[j].score, hi)
                ==> z_range_ids(s, lo, hi).contains(s[j].id),
        z_unique(s) ==> z_range_ids(s, lo, hi).no_duplicates(),
    decreases s.len(),
{
    if s.len() > 0 {
        let tail = s.drop_first();
        assert(forall|i: int| 0 <= i < tail.len() ==> #[trigger] tail[i] == s[i + 1]);
        lemma_z_range_members(tail, lo, hi);
        let r = z_range_ids(s, lo, hi);
        let rt = z_range_ids(tail, lo, hi);
        if score_le(lo, s[0].score) && score_le(s[0].score, hi) {
            assert(r == seq![s[0].id] + rt);
            assert(r[0] == s[0].id);
            assert(forall|i: int| 1 <= i < r.len() ==> #[trigger] r[i] == rt[i - 1]);
            assert forall|j: int|
                0 <= j < s.len() && score_le(lo, #[trigger] s[j].score) && score_le(
                    s[j].score,
                    hi,
                ) implies r.contains(s[j].id) by {
                if j == 0 {
                    assert(r[0] == s[0].id);
                } else {
                    assert(rt.contains(tail[j - 1].id));
                    let c = choose|c: int| 0 <= c < rt.len() && rt[c] == tail[j - 1].id;
                    assert(r[c + 1] == s[j].id);
                }
            }
            if z_unique(s) {
                assert forall|i: int, j: int|
                    0 <= i < r.len() && 0 <= j < r.len() && i != j implies r[i] != r[j] by {
                    if i == 0 || j == 0 {
                        let k = if i == 0 {
                            j
                        } else {
                            i
                        };
                        assert(r[k] == rt[k - 1]);
                        let c = choose|c: int|
                            0 <= c < tail.len() && tail[c].id == rt[k - 1] && score_le(
                                lo,
                                tail[c].score,
                            ) && score_le(tail[c].score, hi);
                        assert(s[c + 1].id != s[0].id);
                    } else {
                        assert(r[i] == rt[i - 1] && r[j] == rt[j - 1]);
                    }
                }
            }
        } else {
            assert(r == rt);
            assert forall|j: int|
                0 <= j < s.len() && score_le(lo, #[trigger] s[j].score) && score_le(
                    s[j].score,
                    hi,
                ) implies r.contains(s[j].id) by {
                assert(j != 0);
                assert(rt.contains(tail[j - 1].id));
            }
        }
    }
}

/// The smaller of two lengths.
pub open spec fn min_len(a: int, b: int) -> int {
    if a <= b {
        a
    } else {
        b
    }
}

/// Whether `a` sorts at or before `b` in entry order.
fn entry_before(a: ScoredId, b: ScoredId) -> (r: bool)
    ensures
        r == entry_le(a, b),
{
    if a.score == b.score {
        a.id <= b.id
    } else {
        a.score.le(b.score)
    }
}

/// An ordered set of scored ids, kept sorted by `(score, id)` with each id
/// present at most once. This models the store's sorted-set primitive.
#[derive(Debug)]
pub struct Zset {
    entries: Vec<ScoredId>,
}

impl View for Zset {
    type V = Seq<ScoredId>;

    closed spec fn view(&self) -> Seq<ScoredId> {
        self.entries@
    }
}

impl Zset {
    /// The empty set.
    pub fn new() -> (r: Zset)
        ensures
            r@ == Seq::<ScoredId>::empty(),
            z_wf(r@),
    {
        Zset { entries: Vec::new() }
    }

    /// How many entries the set holds.
    pub fn len(&self) -> (r: usize)
        ensures
            r == self@.len(),
    {
        self.entries.len()
    }

    pub fn is_empty(&self) -> (r: bool)
        ensures
            r == (self@.len() == 0),
    {
        self.entries.is_empty()
    }

    /// The index of the entry for `id`, scanning from the front.
    fn index_of(&self, id: u128) -> (r: Option<usize>)
        ensures
            match r {
                Some(i) => i < self@.len() && self@[i as int].id == id && forall|j: int|
                    0 <= j < i ==> self@[j].id != id,
                None => forall|j: int| 0 <= j < self@.len() ==> self@[j].id != id,
            },
    {
        let n = self.entries.len();
        let mut i: usize = 0;
        while i < n
            invariant
                i <= n,
                n == self@.len(),
                forall|j: int| 0 <= j < i ==> self@[j].id != id,
            decreases n - i,
        {
            if self.entries[i].id == id {
                return Some(i);
            }
            i = i + 1;
        }
        None
    }

    /// The score of `id`, or `None` when it has no entry.
    pub fn score(&self, id: u128) -> (r: Option<Score>)
        ensures
            r == z_find(self@, id),
    {
        match self.index_of(id) {
            Some(i) => {
                proof {
                    lemma_z_find_skip(self@, id, i as int);
                    assert(self@.skip(i as int)[0] == self@[i as int]);
                }
                Some(self.entries[i].score)
            },
            None => {
                proof {
                    lemma_z_find_absent(self@, id);
                }
                None
            },
        }
    }

    pub fn contains(&self, id: u128) -> (r: bool)
        ensures
            r == z_has(self@, id),
    {
        self.score(id).is_some()
    }

    /// Add `id` at `score`, replacing any old entry for it. Returns how
    /// many entries are new, as the store's scored add does: 1 when `id`
    /// was absent, 0 when only its score changed.
    pub fn add(&mut self, id: u128, score: Score) -> (r: usize)
        requires
            z_wf(old(self)@),
        ensures
            final(self)@ == z_add(old(self)@, id, score),
            z_wf(final(self)@),
            r == if z_has(old(self)@, id) {
                0usize
            } else {
                1usize
            },
    {
        let ghost orig = self@;
        let found = self.index_of(id);
        let r: usize;
        match found {
            Some(i) => {
                self.entries.remove(i);
                proof {
                    lemma_z_remove_skip(orig, id, i as int);
                    assert(orig.skip(i as int)[0] == orig[i as int]);
                    assert(orig.skip(i as int).drop_first() =~= orig.skip(i as int + 1));
                    assert(forall|j: int|
                        0 <= j < orig.skip(i as int + 1).len() ==> #[trigger] orig.skip(
                            i as int + 1,
                        )[j] == orig[j + i + 1]);
                    lemma_z_remove_absent(orig.skip(i as int + 1), id);
                    assert(orig.take(i as int) + orig.skip(i as int + 1) =~= orig.remove(i as int));
                    assert(self@ == z_remove(orig, id));
                    lemma_z_find_iff(orig, id);
                }
                r = 0;
            },
            None => {
                proof {
                    lemma_z_remove_absent(orig, id);
                    lemma_z_find_absent(orig, id);
                }
                r = 1;
            },
        }
        proof {
            lemma_z_remove_props(orig, id);
        }
        let e = ScoredId { id, score };
        let k = self.insert_pos(e);
        proof {
            lemma_z_place_at(self@, e, k as int);
        }
        self.entries.insert(k, e);
        proof {
            lemma_z_add_props(orig, id, score);
        }
        r
    }

    /// The sorted position for `e`: the first index whose entry does not
    /// sort before `e`, or the length when every entry does.
    fn insert_pos(&self, e: ScoredId) -> (r: usize)
        ensures
            r <= self@.len(),
            forall|j: int| 0 <= j < r ==> !entry_le(e, self@[j]),
            r < self@.len() ==> entry_le(e, self@[r as int]),
    {
        let n = self.entries.len();
        let mut k: usize = 0;
        while k < n
            invariant
                k <= n,
                n == self@.len(),
                forall|j: int| 0 <= j < k ==> !entry_le(e, self@[j]),
            decreases n - k,
        {
            let cur = self.entries[k];
            if entry_before(e, cur) {
                return k;
            }
            k = k + 1;
        }
        n
    }

    /// Drop the entry for `id`. Returns how many entries were removed.
    pub fn remove(&mut self, id: u128) -> (r: usize)
        requires
            z_wf(old(self)@),
        ensures
            final(self)@ == z_remove(old(self)@, id),
            z_wf(final(self)@),
            r == if z_has(old(self)@, id) {
                1usize
            } else {
                0usize
            },
            final(self)@.len() == old(self)@.len() - r,
    {
        let ghost orig = self@;
        proof {
            lemma_z_remove_props(orig, id);
            lemma_z_find_iff(orig, id);
        }
        match self.index_of(id) {
            Some(i) => {
                self.entries.remove(i);
                proof {
                    lemma_z_remove_skip(orig, id, i as int);
                    assert(orig.skip(i as int)[0] == orig[i as int]);
                    assert(orig.skip(i as int).drop_first() =~= orig.skip(i as int + 1));
                    assert(forall|j: int|
                        0 <= j < orig.skip(i as int + 1).len() ==> #[trigger] orig.skip(
                            i as int + 1,
                        )[j] == orig[j + i + 1]);
                    lemma_z_remove_absent(orig.skip(i as int + 1), id);
                    assert(orig.take(i as int) + orig.skip(i as int + 1) =~= orig.remove(i as int));
                    assert(self@ == z_remove(orig, id));
                }
                1
            },
            None => {
                proof {
                    lemma_z_remove_absent(orig, id);
                    lemma_z_find_absent(orig, id);
                }
                0
            },
        }
    }

    /// Drop the entries for all the given ids. Returns how many entries
    /// were removed; an id named twice is counted once.
    pub fn remove_ids(&mut self, ids: &Vec<u128>) -> (r: usize)
        requires
            z_wf(old(self)@),
        ensures
            final(self)@ == z_remove_seq(old(self)@, ids@),
            z_wf(final(self)@),
            r as int == old(self)@.len() - final(self)@.len(),
    {
        let ghost orig = self@;
        let total = self.entries.len();
        let mut count: usize = 0;
        let n = ids.len();
        let mut i: usize = 0;
        proof {
            assert(ids@.skip(0) =~= ids@);
        }
        while i < n
            invariant
                i <= n,
                n == ids@.len(),
                total == orig.len(),
                z_wf(self@),
                z_remove_seq(orig, ids@) == z_remove_seq(self@, ids@.skip(i as int)),
                count as int == orig.len() - self@.len(),
                count <= total,
            decreases n - i,
        {
            let ghost pre = self@;
            let c = self.remove(ids[i]);
            count = count + c;
            proof {
                assert(ids@.skip(i as int)[0] == ids@[i as int]);
                assert(ids@.skip(i as int).drop_first() =~= ids@.skip(i as int + 1));
                assert(z_remove_seq(pre, ids@.skip(i as int)) == z_remove_seq(
                    z_remove(pre, ids@[i as int]),
                    ids@.skip(i as int + 1),
                ));
            }
            i = i + 1;
        }
        proof {
            assert(ids@.skip(n as int) =~= Seq::<u128>::empty());
            assert(z_remove_seq(self@, Seq::<u128>::empty()) == self@);
        }
        count
    }

    /// Pop up to `count` entries from the front: the entries with the
    /// smallest scores, in ascending order.
    pub fn pop_min(&mut self, count: usize) -> (r: Vec<ScoredId>)
        requires
            z_wf(old(self)@),
        ensures
            r@ == old(self)@.take(min_len(count as int, old(self)@.len() as int)),
            final(self)@ == old(self)@.skip(min_len(count as int, old(self)@.len() as int)),
            z_wf(final(self)@),
    {
        let ghost orig = self@;
        let n = self.entries.len();
        let k = if count < n {
            count
        } else {
            n
        };
        let mut r: Vec<ScoredId> = Vec::new();
        let mut i: usize = 0;
        while i < k
            invariant
                i <= k,
                k <= n,
                n == orig.len(),
                r@ == orig.take(i as int),
                self@ == orig.skip(i as int),
            decreases k - i,
        {
            let e = self.entries.remove(0);
            r.push(e);
            proof {
                assert(orig.skip(i as int)[0] == orig[i as int]);
                assert(orig.skip(i as int).remove(0) =~= orig.skip(i as int + 1));
                assert(orig.take(i as int).push(orig[i as int]) =~= orig.take(i as int + 1));
            }
            i = i + 1;
        }
        proof {
            lemma_z_wf_skip(orig, k as int);
        }
        r
    }

    /// The ids whose score lies in the inclusive window `[lo, hi]`, in
    /// set order.
    pub fn range_ids(&self, lo: Score, hi: Score) -> (r: Vec<u128>)
        ensures
            r@ == z_range_ids(self@, lo, hi),
    {
        let s = &self.entries;
        let n = s.len();
        let mut r: Vec<u128> = Vec::new();
        let mut i: usize = 0;
        while i < n
            invariant
                i <= n,
                n == self@.len(),
                s@ == self@,
                r@ == z_range_ids(self@.take(i as int), lo, hi),
            decreases n - i,
        {
            let e = s[i];
            proof {
                lemma_z_range_push(self@.take(i as int), self@[i as int], lo, hi);
                assert(self@.take(i as int).push(self@[i as int]) =~= self@.take(i as int + 1));
            }
            if lo.le(e.score) && e.score.le(hi) {
                r.push(e.id);
            }
            i = i + 1;
        }
        proof {
            assert(self@.take(n as int) =~= self@);
        }
        r
    }

    /// The score of each given id, in the order the ids were given.
    pub fn scores(&self, ids: &Vec<u128>) -> (r: Vec<Option<Score>>)
        ensures
            r@ == z_find_all(self@, ids@),
    {
        let n = ids.len();
        let mut r: Vec<Option<Score>> = Vec::new();
        let mut i: usize = 0;
        while i < n
            invariant
                i <= n,
                n == ids@.len(),
                r@ == z_find_all(self@, ids@.take(i as int)),
            decreases n - i,
        {
            let v = self.score(ids[i]);
            r.push(v);
            proof {
                assert(r@ =~= z_find_all(self@, ids@.take(i as int + 1)));
            }
            i = i + 1;
        }
        proof {
            assert(ids@.take(n as int) =~= ids@);
        }
        r
    }

    /// Drop every entry.
    pub fn clear(&mut self)
        ensures
            final(self)@ == Seq::<ScoredId>::empty(),
            z_wf(final(self)@),
    {
        self.entries.clear();
        proof {
            assert(self@ =~= Seq::<ScoredId>::empty());
        }
    }
}

} // verus!
