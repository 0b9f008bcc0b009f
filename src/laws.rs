use vstd::prelude::*;
use crate::book::{adder, apply_quotes, change_one, cleanup_of, run, QuotesEnum};
use crate::side::{
    at, holds, is_slot, lemma_put_wf, lemma_slot, lemma_slot_exists, lemma_take_out_wf,
    locate, occupied, pruned, put, slot, sorted, take_out, wf_levels, LevelView,
};
use crate::types::{key_of, lemma_key_bounds, L3Quote};

verus! {

/// A side with no empty bucket is its own pruning.
proof fn lemma_pruned_of_occupied(s: Seq<LevelView>)
    requires
        forall|k: int| 0 <= k < s.len() ==> occupied(#[trigger] s[k]),
    ensures
        pruned(s) == s,
    decreases s.len(),
{
    reveal(Seq::filter);
    if s.len() > 0 {
        lemma_pruned_of_occupied(s.drop_last());
        assert(s.drop_last().push(s.last()) =~= s);
    } else {
        assert(pruned(s) =~= s);
    }
}

/// Cleaning a book twice leaves it as cleaning it once does, with the same verdict.
pub proof fn cleanup_idempotent(bid: Seq<LevelView>, ask: Seq<LevelView>)
    ensures
        ({
            let (b, a, r) = cleanup_of(bid, ask);
            cleanup_of(b, a) == (b, a, r)
        }),
{
    broadcast use vstd::seq_lib::group_filter_ensures;

    let b = pruned(bid);
    let a = pruned(ask);
    assert forall|k: int| 0 <= k < b.len() implies occupied(#[trigger] b[k]) by {}
    assert forall|k: int| 0 <= k < a.len() implies occupied(#[trigger] a[k]) by {}
    lemma_pruned_of_occupied(b);
    lemma_pruned_of_occupied(a);
}

/// After a cleanup that succeeds, every bid bucket lies strictly below every
/// ask bucket; in particular the highest bid key is below the lowest ask key.
pub proof fn no_crossing_after_cleanup(bid: Seq<LevelView>, ask: Seq<LevelView>)
    requires
        cleanup_of(bid, ask).2 is Ok,
    ensures
        ({
            let (b, a, r) = cleanup_of(bid, ask);
            forall|i: int, j: int| 0 <= i < b.len() && 0 <= j < a.len() ==> b[i].0 < a[j].0
        }),
{
}

/// Changing an order that keeps its bucket empties its place in the queue
/// and puts it at the back of the same queue.
pub proof fn change_moves_to_back(s: Seq<LevelView>, q: L3Quote, tick: int)
    requires
        wf_levels(s),
        holds(s, q.id),
        s[locate(s, q.id).0].0 == key_of(q.price as int, tick),
    ensures
        ({
            let (i, j) = locate(s, q.id);
            change_one(s, q, tick) == Ok::<Seq<LevelView>, crate::types::BookError>(
                s.update(i, (s[i].0, s[i].1.remove(j).push(q))),
            )
        }),
{
    let (i, j) = locate(s, q.id);
    assert(at(s, q.id, i, j));
    lemma_take_out_wf(s, q.id);
    let t = take_out(s, q.id);
    let key = key_of(q.price as int, tick) as i64;
    assert(t[i].0 == key);
    assert forall|k: int| i <= k < t.len() implies key <= t[k].0 by {
        if k > i {
            assert(t[i].0 < t[k].0);
        }
    }
    assert forall|k: int| 0 <= k < i implies t[k].0 < key by {
        assert(t[k].0 < t[i].0);
    }
    assert(is_slot(t, key, i));
    lemma_slot(t, key, i);
    assert(put(t, key, q) =~= s.update(i, (s[i].0, s[i].1.remove(j).push(q))));
}


/// The orders resting on a side, wherever they stand.
pub open spec fn resting(s: Seq<LevelView>) -> Set<L3Quote> {
    Set::new(|x: L3Quote| exists|i: int, j: int| 0 <= i < s.len() && 0 <= j < s[i].1.len() && s[i].1[j] == x)
}

/// Each order rests in the bucket of its own price.
pub open spec fn placed(s: Seq<LevelView>, tick: int) -> bool {
    forall|i: int, j: int| 0 <= i < s.len() && 0 <= j < s[i].1.len() ==> s[i].0 == key_of(
        #[trigger] s[i].1[j].price as int,
        tick,
    )
}

/// No two orders of a list share an id.
pub open spec fn distinct_ids(qs: Seq<L3Quote>) -> bool {
    forall|a: int, b: int| 0 <= a < b < qs.len() ==> qs[a].id != qs[b].id
}

proof fn lemma_put_contents(s: Seq<LevelView>, key: i64, q: L3Quote, tick: int)
    requires
        sorted(s),
        key == key_of(q.price as int, tick),
    ensures
        resting(put(s, key, q)) == resting(s).insert(q),
        placed(s, tick) ==> placed(put(s, key, q), tick),
{
    lemma_slot_exists(s, key);
    let p = slot(s, key);
    let t = put(s, key, q);
    if p < s.len() && s[p].0 == key {
        let n = s[p].1.len() as int;
        assert forall|x: L3Quote| resting(t).contains(x) <==> resting(s).insert(q).contains(x) by {
            if resting(t).contains(x) {
                let (i, j) = choose|i: int, j: int| 0 <= i < t.len() && 0 <= j < t[i].1.len() && t[i].1[j] == x;
                if !(i == p && j == n) {
                    assert(s[i].1[j] == x);
                }
            }
            if resting(s).contains(x) {
                let (i, j) = choose|i: int, j: int| 0 <= i < s.len() && 0 <= j < s[i].1.len() && s[i].1[j] == x;
                assert(t[i].1[j] == x);
            }
            if x == q {
                assert(t[p].1[n] == x);
            }
        }
        assert(resting(t) =~= resting(s).insert(q));
        if placed(s, tick) {
            assert forall|i: int, j: int| 0 <= i < t.len() && 0 <= j < t[i].1.len() implies t[i].0 == key_of(
                #[trigger] t[i].1[j].price as int,
                tick,
            ) by {
                if !(i == p && j == n) {
                    assert(t[i].1[j] == s[i].1[j]);
                }
            }
        }
    } else {
        assert forall|x: L3Quote| resting(t).contains(x) <==> resting(s).insert(q).contains(x) by {
            if resting(t).contains(x) {
                let (i, j) = choose|i: int, j: int| 0 <= i < t.len() && 0 <= j < t[i].1.len() && t[i].1[j] == x;
                if i < p {
                    assert(s[i].1[j] == x);
                } else if i > p {
                    assert(s[i - 1].1[j] == x);
                }
            }
            if resting(s).contains(x) {
                let (i, j) = choose|i: int, j: int| 0 <= i < s.len() && 0 <= j < s[i].1.len() && s[i].1[j] == x;
                if i < p {
                    assert(t[i].1[j] == x);
                } else {
                    assert(t[i + 1].1[j] == x);
                }
            }
            if x == q {
                assert(t[p].1[0] == x);
            }
        }
        assert(resting(t) =~= resting(s).insert(q));
        if placed(s, tick) {
            assert forall|i: int, j: int| 0 <= i < t.len() && 0 <= j < t[i].1.len() implies t[i].0 == key_of(
                #[trigger] t[i].1[j].price as int,
                tick,
            ) by {
                if i < p {
                    assert(t[i] == s[i]);
                } else if i > p {
                    assert(t[i] == s[i - 1]);
                    assert(t[i].1[j] == s[i - 1].1[j]);
                }
            }
        }
    }
}

/// The orders of a list whose price falls in bucket `k`.
pub open spec fn in_bucket(tick: int, k: i64) -> spec_fn(L3Quote) -> bool {
    |x: L3Quote| key_of(x.price as int, tick) == k as int
}

/// Each bucket's queue holds the orders of `qs` in its bucket, in list
/// order, and no bucket is empty.
pub open spec fn queued_in_order(s: Seq<LevelView>, qs: Seq<L3Quote>, tick: int) -> bool {
    forall|i: int| 0 <= i < s.len() ==> (#[trigger] s[i]).1 == qs.filter(in_bucket(tick, s[i].0)) && s[i].1.len() > 0
}

proof fn lemma_put_queues(t: Seq<LevelView>, key: i64, q: L3Quote, d: Seq<L3Quote>, tick: int)
    requires
        sorted(t),
        placed(t, tick),
        resting(t) == d.to_set(),
        key == key_of(q.price as int, tick),
        queued_in_order(t, d, tick),
    ensures
        queued_in_order(put(t, key, q), d.push(q), tick),
{
    reveal(Seq::filter);
    broadcast use vstd::seq_lib::group_filter_ensures;
    broadcast use Seq::lemma_filter_contains_rev;

    let qs = d.push(q);
    assert(qs.drop_last() =~= d);
    assert(qs.last() == q);
    lemma_slot_exists(t, key);
    let p = slot(t, key);
    let u = put(t, key, q);
    if p < t.len() && t[p].0 == key {
        assert forall|i: int| 0 <= i < u.len() implies (#[trigger] u[i]).1 == qs.filter(in_bucket(tick, u[i].0)) && u[i].1.len() > 0 by {
            assert(t[i].1 == d.filter(in_bucket(tick, t[i].0)));
            if i != p {
                if i < p {
                    assert(t[i].0 < t[p].0);
                } else {
                    assert(t[p].0 < t[i].0);
                }
            }
        }
    } else {
        assert forall|k: int| 0 <= k < t.len() implies t[k].0 != key by {
            if k > p {
                assert(t[p].0 < t[k].0);
            }
        }
        if d.filter(in_bucket(tick, key)).len() > 0 {
            let x = d.filter(in_bucket(tick, key))[0];
            assert(d.filter(in_bucket(tick, key)).contains(x));
            assert(d.contains(x));
            assert(resting(t).contains(x));
            let (i, j) = choose|i: int, j: int| 0 <= i < t.len() && 0 <= j < t[i].1.len() && t[i].1[j] == x;
            assert(t[i].0 == key_of(t[i].1[j].price as int, tick));
        }
        assert(d.filter(in_bucket(tick, key)) =~= Seq::<L3Quote>::empty());
        assert forall|i: int| 0 <= i < u.len() implies (#[trigger] u[i]).1 == qs.filter(in_bucket(tick, u[i].0)) && u[i].1.len() > 0 by {
            if i < p {
                assert(u[i] == t[i]);
                assert(t[i].1 == d.filter(in_bucket(tick, t[i].0)));
            } else if i > p {
                assert(u[i] == t[i - 1]);
                assert(t[i - 1].1 == d.filter(in_bucket(tick, t[i - 1].0)));
            } else {
                assert(u[i].1 =~= seq![q]);
            }
        }
    }
}

proof fn lemma_snapshot_run(qs: Seq<L3Quote>, tick: int)
    requires
        tick > 0,
    ensures
        run(Ok(Seq::empty()), qs, adder(tick)) is Ok <==> distinct_ids(qs),
        run(Ok(Seq::empty()), qs, adder(tick)) matches Ok(t) ==> wf_levels(t) && resting(t) == qs.to_set()
            && placed(t, tick) && queued_in_order(t, qs, tick),
    decreases qs.len(),
{
    let r = run(Ok(Seq::empty()), qs, adder(tick));
    if qs.len() == 0 {
        assert(resting(Seq::<LevelView>::empty()) =~= qs.to_set());
    } else {
        let d = qs.drop_last();
        let n = d.len() as int;
        let q = qs.last();
        lemma_snapshot_run(d, tick);
        let rd = run(Ok(Seq::empty()), d, adder(tick));
        if rd is Err {
            if distinct_ids(qs) {
                assert forall|a: int, b: int| 0 <= a < b < d.len() implies d[a].id != d[b].id by {
                    assert(qs[a] == d[a] && qs[b] == d[b]);
                }
            }
        } else {
            let t = rd->Ok_0;
            if holds(t, q.id) {
                let (i, j) = choose|i: int, j: int| at(t, q.id, i, j);
                assert(resting(t).contains(t[i].1[j]));
                assert(d.contains(t[i].1[j]));
                let a = choose|a: int| 0 <= a < d.len() && d[a] == t[i].1[j];
                assert(qs[a] == d[a] && qs[n] == q);
            } else {
                let key = key_of(q.price as int, tick) as i64;
                lemma_key_bounds(q.price as int, tick);
                lemma_put_wf(t, key, q);
                lemma_put_contents(t, key, q, tick);
                assert(qs =~= d.push(q));
                lemma_put_queues(t, key, q, d, tick);
                assert forall|a: int, b: int| 0 <= a < b < qs.len() implies qs[a].id != qs[b].id by {
                    if b == n {
                        assert(d.contains(d[a]));
                        assert(resting(t).contains(d[a]));
                        let (i, j) = choose|i: int, j: int|
                            0 <= i < t.len() && 0 <= j < t[i].1.len() && t[i].1[j] == d[a];
                        assert(at(t, d[a].id, i, j));
                    } else {
                        assert(qs[a] == d[a] && qs[b] == d[b]);
                    }
                }
                assert forall|x: L3Quote| qs.to_set().contains(x) <==> d.to_set().insert(q).contains(x) by {
                    if qs.contains(x) {
                        let a = choose|a: int| 0 <= a < qs.len() && qs[a] == x;
                        if a < n {
                            assert(d[a] == x);
                        }
                    }
                    if d.contains(x) {
                        let a = choose|a: int| 0 <= a < d.len() && d[a] == x;
                        assert(qs[a] == x);
                    }
                    if x == q {
                        assert(qs[n] == x);
                    }
                }
                assert(qs.to_set() =~= d.to_set().insert(q));
            }
        }
    }
}

/// A snapshot replaces its side: what was resting before makes no
/// difference, it succeeds exactly when its ids are distinct, and then the
/// orders resting are exactly those of the snapshot, each in the bucket of its
/// price, and each bucket's queue lists them in the snapshot's order.
pub proof fn snapshot_replaces(before: Seq<LevelView>, other: Seq<LevelView>, v: Vec<L3Quote>, tick: int)
    requires
        tick > 0,
    ensures
        apply_quotes(before, QuotesEnum::SNAPSHOT(v), tick) == apply_quotes(other, QuotesEnum::SNAPSHOT(v), tick),
        apply_quotes(before, QuotesEnum::SNAPSHOT(v), tick) is Ok <==> distinct_ids(v@),
        apply_quotes(before, QuotesEnum::SNAPSHOT(v), tick) matches Ok(t) ==> resting(t) == v@.to_set()
            && placed(t, tick) && queued_in_order(t, v@, tick),
{
    lemma_snapshot_run(v@, tick);
}

} // verus!
