use vstd::prelude::*;
use crate::types::{BookError, L3Quote};
use std::collections::HashMap;

verus! {

broadcast use vstd::std_specs::hash::group_hash_axioms;

/// A price level as contracts see it: its bucket key and its queue, oldest first.
pub type LevelView = (i64, Seq<L3Quote>);

/// One price bucket and the orders resting in it, in arrival order.
#[derive(Clone, Debug, PartialEq)]
pub struct Level {
    pub key: i64,
    pub quotes: Vec<L3Quote>,
}

impl View for Level {
    type V = LevelView;

    open spec fn view(&self) -> LevelView {
        (self.key, self.quotes@)
    }
}

/// Bucket keys rise strictly from one level to the next.
pub open spec fn sorted(s: Seq<LevelView>) -> bool {
    forall|i: int, j: int| 0 <= i < j < s.len() ==> s[i].0 < s[j].0
}

/// The order `id` rests at position `j` of the queue of level `i`.
pub open spec fn at(s: Seq<LevelView>, id: i64, i: int, j: int) -> bool {
    0 <= i < s.len() && 0 <= j < s[i].1.len() && s[i].1[j].id == id
}

/// The order `id` rests somewhere on the side.
pub open spec fn holds(s: Seq<LevelView>, id: i64) -> bool {
    exists|i: int, j: int| at(s, id, i, j)
}

/// Each resting id stands at exactly one place of exactly one bucket.
pub open spec fn unique_ids(s: Seq<LevelView>) -> bool {
    forall|id: i64, i1: int, j1: int, i2: int, j2: int|
        #![trigger at(s, id, i1, j1), at(s, id, i2, j2)]
        at(s, id, i1, j1) && at(s, id, i2, j2) ==> i1 == i2 && j1 == j2
}

/// The invariant of a side.
pub open spec fn wf_levels(s: Seq<LevelView>) -> bool {
    sorted(s) && unique_ids(s)
}

/// `p` is where a bucket of key `key` stands or would be inserted.
pub open spec fn is_slot(s: Seq<LevelView>, key: i64, p: int) -> bool {
    &&& 0 <= p <= s.len()
    &&& forall|i: int| 0 <= i < p ==> s[i].0 < key
    &&& forall|i: int| p <= i < s.len() ==> key <= s[i].0
}

/// The slot of `key` on a sorted side.
pub open spec fn slot(s: Seq<LevelView>, key: i64) -> int {
    choose|p: int| is_slot(s, key, p)
}

/// The side after `q` joins the back of the queue of bucket `key`, which is
/// created in its place if absent.
pub open spec fn put(s: Seq<LevelView>, key: i64, q: L3Quote) -> Seq<LevelView> {
    let p = slot(s, key);
    if p < s.len() && s[p].0 == key {
        s.update(p, (key, s[p].1.push(q)))
    } else {
        s.insert(p, (key, seq![q]))
    }
}

/// Where the order `id` rests.
pub open spec fn locate(s: Seq<LevelView>, id: i64) -> (int, int) {
    choose|i: int, j: int| at(s, id, i, j)
}

/// The side after the order `id` leaves its queue; its bucket stays, even empty.
pub open spec fn take_out(s: Seq<LevelView>, id: i64) -> Seq<LevelView> {
    let (i, j) = locate(s, id);
    s.update(i, (s[i].0, s[i].1.remove(j)))
}

/// A bucket with at least one order.
pub open spec fn occupied(l: LevelView) -> bool {
    l.1.len() > 0
}

/// The side without its empty buckets.
pub open spec fn pruned(s: Seq<LevelView>) -> Seq<LevelView> {
    s.filter(|l: LevelView| occupied(l))
}

/// A sorted side has exactly one slot for each key.
pub proof fn lemma_slot(s: Seq<LevelView>, key: i64, p: int)
    requires
        sorted(s),
        is_slot(s, key, p),
    ensures
        slot(s, key) == p,
{
    let q = slot(s, key);
    assert(is_slot(s, key, q));
    if q < p {
        assert(s[q].0 < key);
    } else if p < q {
        assert(s[p].0 < key);
    }
}

/// Every sorted side has a slot for every key.
pub proof fn lemma_slot_exists(s: Seq<LevelView>, key: i64)
    requires
        sorted(s),
    ensures
        is_slot(s, key, slot(s, key)),
    decreases s.len(),
{
    if s.len() == 0 {
        assert(is_slot(s, key, 0));
    } else {
        let t = s.drop_last();
        assert(sorted(t));
        lemma_slot_exists(t, key);
        let p = slot(t, key);
        let n = s.len() - 1;
        assert forall|i: int| 0 <= i < n implies t[i] == s[i] by {}
        if p < n {
            assert(s[p].0 < s[n].0);
            assert(is_slot(s, key, p));
        } else if s[n].0 < key {
            assert(is_slot(s, key, s.len() as int));
        } else {
            assert(is_slot(s, key, n));
        }
    }
}

/// Adding an order under an id that does not rest there keeps a side
/// well formed: each id still stands in exactly one bucket.
pub proof fn lemma_put_wf(s: Seq<LevelView>, key: i64, q: L3Quote)
    requires
        wf_levels(s),
        !holds(s, q.id),
    ensures
        wf_levels(put(s, key, q)),
        holds(put(s, key, q), q.id),
{
    lemma_slot_exists(s, key);
    let p = slot(s, key);
    let t = put(s, key, q);
    if p < s.len() && s[p].0 == key {
        let n = s[p].1.len() as int;
        assert(at(t, q.id, p, n));
        assert forall|id: i64, i1: int, j1: int, i2: int, j2: int|
            at(t, id, i1, j1) && at(t, id, i2, j2) implies i1 == i2 && j1 == j2 by {
            if i1 == p && j1 == n {
                assert(!at(s, id, i2, j2));
            } else if i2 == p && j2 == n {
                assert(!at(s, id, i1, j1));
            } else {
                assert(at(s, id, i1, j1) && at(s, id, i2, j2));
            }
        }
    } else {
        assert(at(t, q.id, p, 0));
        assert forall|i: int, j: int| 0 <= i < j < t.len() implies t[i].0 < t[j].0 by {
            if j < p {
            } else if i > p {
                assert(t[i] == s[i - 1] && t[j] == s[j - 1]);
            } else if i == p {
                assert(t[j] == s[j - 1]);
            } else if j == p {
            } else {
                assert(t[j] == s[j - 1]);
            }
        }
        assert forall|id: i64, i1: int, j1: int, i2: int, j2: int|
            at(t, id, i1, j1) && at(t, id, i2, j2) implies i1 == i2 && j1 == j2 by {
            let o1 = if i1 < p { i1 } else { i1 - 1 };
            let o2 = if i2 < p { i2 } else { i2 - 1 };
            if i1 == p {
                if i2 != p {
                    assert(at(s, id, o2, j2));
                }
            } else if i2 == p {
                assert(at(s, id, o1, j1));
            } else {
                assert(at(s, id, o1, j1) && at(s, id, o2, j2));
            }
        }
    }
}

/// A well-formed side has one place for each resting id.
pub proof fn lemma_locate(s: Seq<LevelView>, id: i64, i: int, j: int)
    requires
        unique_ids(s),
        at(s, id, i, j),
    ensures
        locate(s, id) == (i, j),
{
    let (a, b) = locate(s, id);
    assert(at(s, id, a, b));
}

/// Removing a resting order keeps a side well formed, and its id no longer
/// rests there.
pub proof fn lemma_take_out_wf(s: Seq<LevelView>, id: i64)
    requires
        wf_levels(s),
        holds(s, id),
    ensures
        wf_levels(take_out(s, id)),
        !holds(take_out(s, id), id),
{
    let (i, j) = locate(s, id);
    assert(at(s, id, i, j));
    let t = take_out(s, id);
    assert forall|x: i64, a: int, b: int| at(t, x, a, b) implies at(
        s,
        x,
        a,
        if a == i && b >= j { b + 1 } else { b },
    ) by {}
    assert forall|x: i64, i1: int, j1: int, i2: int, j2: int|
        at(t, x, i1, j1) && at(t, x, i2, j2) implies i1 == i2 && j1 == j2 by {
        let b1 = if i1 == i && j1 >= j { j1 + 1 } else { j1 };
        let b2 = if i2 == i && j2 >= j { j2 + 1 } else { j2 };
        assert(at(s, x, i1, b1) && at(s, x, i2, b2));
    }
    if holds(t, id) {
        let (a, b) = choose|a: int, b: int| at(t, id, a, b);
        let b1 = if a == i && b >= j { b + 1 } else { b };
        assert(at(s, id, a, b1));
    }
}

/// Dropping the empty buckets keeps a side well formed.
pub proof fn lemma_pruned_wf(s: Seq<LevelView>)
    requires
        wf_levels(s),
    ensures
        wf_levels(pruned(s)),
        forall|k: int| 0 <= k < pruned(s).len() ==> s.contains(#[trigger] pruned(s)[k]),
    decreases s.len(),
{
    broadcast use Seq::lemma_filter_contains_rev;
    reveal(Seq::filter);
    if s.len() > 0 {
        let d = s.drop_last();
        let n = s.len() - 1;
        assert forall|x: i64, i1: int, j1: int, i2: int, j2: int|
            at(d, x, i1, j1) && at(d, x, i2, j2) implies i1 == i2 && j1 == j2 by {
            assert(at(s, x, i1, j1) && at(s, x, i2, j2));
        }
        lemma_pruned_wf(d);
        let pd = pruned(d);
        let t = pruned(s);
        assert forall|k: int| 0 <= k < pd.len() implies d.contains(#[trigger] pd[k]) by {}
        if occupied(s.last()) {
            assert(t == pd.push(s.last()));
            assert forall|k: int| 0 <= k < t.len() implies s.contains(#[trigger] t[k]) by {
                if k < pd.len() {
                    let m = choose|m: int| 0 <= m < d.len() && d[m] == pd[k];
                    assert(s[m] == d[m]);
                } else {
                    assert(t[k] == s[n]);
                }
            }
            assert forall|a: int, b: int| 0 <= a < b < t.len() implies t[a].0 < t[b].0 by {
                if b == pd.len() {
                    let m = choose|m: int| 0 <= m < d.len() && d[m] == pd[a];
                    assert(s[m] == d[m]);
                    assert(s[m].0 < s[n].0);
                }
            }
            assert forall|x: i64, i1: int, j1: int, i2: int, j2: int|
                at(t, x, i1, j1) && at(t, x, i2, j2) implies i1 == i2 && j1 == j2 by {
                if i1 < pd.len() && i2 < pd.len() {
                    assert(t[i1] == pd[i1] && t[i2] == pd[i2]);
                    assert(at(pd, x, i1, j1) && at(pd, x, i2, j2));
                } else if i1 < pd.len() {
                    let m = choose|m: int| 0 <= m < d.len() && d[m] == pd[i1];
                    assert(s[m] == d[m]);
                    assert(t[i1] == pd[i1] && t[i2] == s[n]);
                    assert(at(s, x, m, j1) && at(s, x, n, j2));
                } else if i2 < pd.len() {
                    let m = choose|m: int| 0 <= m < d.len() && d[m] == pd[i2];
                    assert(s[m] == d[m]);
                    assert(t[i2] == pd[i2] && t[i1] == s[n]);
                    assert(at(s, x, m, j2) && at(s, x, n, j1));
                } else {
                    assert(t[i1] == s[n] && t[i2] == s[n]);
                    assert(at(s, x, n, j1) && at(s, x, n, j2));
                }
            }
        } else {
            assert(t == pd);
            assert forall|k: int| 0 <= k < t.len() implies s.contains(#[trigger] t[k]) by {
                let m = choose|m: int| 0 <= m < d.len() && d[m] == pd[k];
                    assert(s[m] == d[m]);
            }
        }
    } else {
        assert(pruned(s) =~= s);
    }
}

/// The id index `m` agrees with the levels: it holds exactly the resting ids,
/// each with the key of the bucket that holds it.
pub open spec fn indexed(s: Seq<LevelView>, m: Map<i64, i64>) -> bool {
    &&& forall|id: i64| #[trigger] m.contains_key(id) <==> holds(s, id)
    &&& forall|id: i64, i: int, j: int| #[trigger] at(s, id, i, j) ==> m[id] == s[i].0
}

/// Adding an order under a fresh id and recording it under its key keeps the
/// index in agreement with the levels.
pub proof fn lemma_put_index(s: Seq<LevelView>, key: i64, q: L3Quote, m: Map<i64, i64>)
    requires
        wf_levels(s),
        indexed(s, m),
        !holds(s, q.id),
    ensures
        indexed(put(s, key, q), m.insert(q.id, key)),
{
    lemma_slot_exists(s, key);
    let p = slot(s, key);
    let t = put(s, key, q);
    let m2 = m.insert(q.id, key);
    if p < s.len() && s[p].0 == key {
        let n = s[p].1.len() as int;
        assert(at(t, q.id, p, n));
        assert forall|x: i64, i: int, j: int| at(t, x, i, j) implies m2[x] == t[i].0 by {
            if !(i == p && j == n) {
                assert(at(s, x, i, j));
            }
        }
        assert forall|x: i64| m2.contains_key(x) <==> holds(t, x) by {
            if holds(t, x) {
                let (i, j) = choose|i: int, j: int| at(t, x, i, j);
                if !(i == p && j == n) {
                    assert(at(s, x, i, j));
                }
            }
            if holds(s, x) {
                let (i, j) = choose|i: int, j: int| at(s, x, i, j);
                assert(at(t, x, i, j));
            }
        }
    } else {
        assert(at(t, q.id, p, 0));
        assert forall|x: i64, i: int, j: int| at(t, x, i, j) implies m2[x] == t[i].0 by {
            if i < p {
                assert(at(s, x, i, j));
            } else if i > p {
                assert(at(s, x, i - 1, j));
            }
        }
        assert forall|x: i64| m2.contains_key(x) <==> holds(t, x) by {
            if holds(t, x) {
                let (i, j) = choose|i: int, j: int| at(t, x, i, j);
                if i < p {
                    assert(at(s, x, i, j));
                } else if i > p {
                    assert(at(s, x, i - 1, j));
                }
            }
            if holds(s, x) {
                let (i, j) = choose|i: int, j: int| at(s, x, i, j);
                if i < p {
                    assert(at(t, x, i, j));
                } else {
                    assert(at(t, x, i + 1, j));
                }
            }
        }
    }
}

/// Taking a resting order out and dropping its id from the index keeps the
/// index in agreement with the levels.
pub proof fn lemma_take_out_index(s: Seq<LevelView>, id: i64, m: Map<i64, i64>)
    requires
        wf_levels(s),
        indexed(s, m),
        holds(s, id),
    ensures
        indexed(take_out(s, id), m.remove(id)),
{
    let (i0, j0) = locate(s, id);
    assert(at(s, id, i0, j0));
    lemma_take_out_wf(s, id);
    let t = take_out(s, id);
    let m2 = m.remove(id);
    assert forall|x: i64, a: int, b: int| at(t, x, a, b) implies m2[x] == t[a].0 by {
        let b1 = if a == i0 && b >= j0 { b + 1 } else { b };
        assert(at(s, x, a, b1));
        assert(x != id);
    }
    assert forall|x: i64| m2.contains_key(x) <==> holds(t, x) by {
        if holds(t, x) {
            let (a, b) = choose|a: int, b: int| at(t, x, a, b);
            let b1 = if a == i0 && b >= j0 { b + 1 } else { b };
            assert(at(s, x, a, b1));
        }
        if holds(s, x) && x != id {
            let (a, b) = choose|a: int, b: int| at(s, x, a, b);
            let b1 = if a == i0 && b > j0 { b - 1 } else { b };
            assert(at(t, x, a, b1));
        }
    }
}

/// Dropping empty buckets leaves the index in agreement with the levels.
pub proof fn lemma_pruned_index(s: Seq<LevelView>, m: Map<i64, i64>)
    requires
        wf_levels(s),
        indexed(s, m),
    ensures
        indexed(pruned(s), m),
{
    broadcast use vstd::seq_lib::group_filter_ensures;

    lemma_pruned_wf(s);
    let t = pruned(s);
    assert forall|x: i64, i: int, j: int| at(t, x, i, j) implies m[x] == t[i].0 by {
        assert(s.contains(t[i]));
        let k = choose|k: int| 0 <= k < s.len() && s[k] == t[i];
        assert(at(s, x, k, j));
    }
    assert forall|x: i64| m.contains_key(x) <==> holds(t, x) by {
        if holds(t, x) {
            let (i, j) = choose|i: int, j: int| at(t, x, i, j);
            assert(s.contains(t[i]));
            let k = choose|k: int| 0 <= k < s.len() && s[k] == t[i];
            assert(at(s, x, k, j));
        }
        if holds(s, x) {
            let (k, j) = choose|k: int, j: int| at(s, x, k, j);
            assert(occupied(s[k]));
            assert(t.contains(s[k]));
            let i = choose|i: int| 0 <= i < t.len() && t[i] == s[k];
            assert(at(t, x, i, j));
        }
    }
}

/// A side as a sequence of levels, kept sorted by key, with unique ids.
pub struct BookSide {
    levels: Vec<Level>,
    ids: HashMap<i64, i64>,
}

impl View for BookSide {
    type V = Seq<LevelView>;

    closed spec fn view(&self) -> Seq<LevelView> {
        self.levels@.map_values(|l: Level| l@)
    }
}

impl BookSide {
    /// The id index: each resting id, with the key of its bucket.
    pub closed spec fn index(&self) -> Map<i64, i64> {
        self.ids@
    }

    pub open spec fn wf(&self) -> bool {
        wf_levels(self@) && indexed(self@, self.index())
    }

    /// An empty side.
    pub fn new() -> (r: BookSide)
        ensures
            r@ == Seq::<LevelView>::empty(),
            r.index() == Map::<i64, i64>::empty(),
            r.wf(),
    {
        let r = BookSide { levels: Vec::new(), ids: HashMap::new() };
        assert(r@ =~= Seq::<LevelView>::empty());
        r
    }

    /// The levels, ascending by key.
    pub fn levels(&self) -> (r: &Vec<Level>)
        ensures
            r@.map_values(|l: Level| l@) == self@,
    {
        &self.levels
    }

    /// Finds where the order `id` rests, through the index.
    pub fn find(&self, id: i64) -> (r: Option<(usize, usize)>)
        requires
            self.wf(),
        ensures
            match r {
                Some((i, j)) => at(self@, id, i as int, j as int),
                None => !holds(self@, id),
            },
    {
        let key = match self.ids.get(&id) {
            None => return None,
            Some(k) => *k,
        };
        let ghost s = self@;
        let ghost (wi, wj) = choose|i: int, j: int| at(s, id, i, j);
        let mut i: usize = 0;
        while i < self.levels.len() && self.levels[i].key != key
            invariant
                s == self@,
                self.wf(),
                at(s, id, wi, wj),
                s[wi].0 == key,
                0 <= i <= wi,
                s.len() == self.levels@.len(),
            decreases self.levels@.len() - i,
        {
            proof {
                if i == wi {
                    assert(self.levels@[i as int]@ == s[i as int]);
                }
            }
            i += 1;
        }
        proof {
            assert(self.levels@[i as int]@ == s[i as int]);
            if i < wi {
                assert(s[i as int].0 < s[wi].0);
            }
        }
        let qs = &self.levels[i].quotes;
        let mut j: usize = 0;
        while j < qs.len() && qs[j].id != id
            invariant
                s == self@,
                i == wi,
                at(s, id, wi, wj),
                qs@ == s[wi].1,
                0 <= j <= wj,
                unique_ids(s),
            decreases qs@.len() - j,
        {
            proof {
                if j == wj {
                    assert(qs@[j as int].id == id);
                }
            }
            j += 1;
        }
        Some((i, j))
    }

    /// Appends an order at the back of the queue of bucket `key`.
    pub fn insert(&mut self, key: i64, q: L3Quote) -> (r: Result<(), BookError>)
        requires
            old(self).wf(),
        ensures
            final(self).wf(),
            holds(old(self)@, q.id) ==> r == Err::<(), BookError>(BookError::DuplicateId { id: q.id })
                && final(self)@ == old(self)@,
            !holds(old(self)@, q.id) ==> r is Ok && final(self)@ == put(old(self)@, key, q),
            r is Ok ==> final(self).index() == old(self).index().insert(q.id, key),
            r is Err ==> final(self).index() == old(self).index(),
    {
        if self.ids.contains_key(&q.id) {
            return Err(BookError::DuplicateId { id: q.id });
        }
        let mut p: usize = 0;
        while p < self.levels.len() && self.levels[p].key < key
            invariant
                0 <= p <= self.levels@.len(),
                self@.len() == self.levels@.len(),
                forall|i: int| 0 <= i < p ==> self@[i].0 < key,
            decreases self.levels@.len() - p,
        {
            p += 1;
        }
        let ghost s0 = self@;
        proof {
            assert forall|i: int| p <= i < s0.len() implies key <= s0[i].0 by {
                if i > p {
                    assert(s0[p as int].0 < s0[i].0);
                }
            }
            lemma_slot(s0, key, p as int);
            lemma_put_wf(s0, key, q);
            lemma_put_index(s0, key, q, self.ids@);
        }
        if p < self.levels.len() && self.levels[p].key == key {
            let mut lvl = Level { key: 0, quotes: Vec::new() };
            self.levels.set_and_swap(p, &mut lvl);
            lvl.quotes.push(q);
            self.levels.set_and_swap(p, &mut lvl);
            assert(self@ =~= put(s0, key, q));
        } else {
            let mut v: Vec<L3Quote> = Vec::new();
            v.push(q);
            self.levels.insert(p, Level { key, quotes: v });
            assert(v@ =~= seq![q]);
            assert(self@ =~= put(s0, key, q));
        }
        self.ids.insert(q.id, key);
        Ok(())
    }

    /// Takes the order `id` out of its queue, wherever it rests.
    pub fn remove(&mut self, id: i64) -> (r: Result<(), BookError>)
        requires
            old(self).wf(),
        ensures
            final(self).wf(),
            !holds(old(self)@, id) ==> r == Err::<(), BookError>(BookError::UnknownId { id })
                && final(self)@ == old(self)@,
            holds(old(self)@, id) ==> r is Ok && final(self)@ == take_out(old(self)@, id),
            r is Ok ==> final(self).index() == old(self).index().remove(id),
            r is Err ==> final(self).index() == old(self).index(),
    {
        match self.find(id) {
            None => Err(BookError::UnknownId { id }),
            Some((i, j)) => {
                let ghost s0 = self@;
                proof {
                    lemma_locate(s0, id, i as int, j as int);
                    lemma_take_out_wf(s0, id);
                    lemma_take_out_index(s0, id, self.ids@);
                }
                let mut lvl = Level { key: 0, quotes: Vec::new() };
                self.levels.set_and_swap(i, &mut lvl);
                lvl.quotes.remove(j);
                self.levels.set_and_swap(i, &mut lvl);
                assert(self@ =~= take_out(s0, id));
                self.ids.remove(&id);
                Ok(())
            },
        }
    }

    /// Removes every bucket at once.
    pub fn clear(&mut self)
        ensures
            final(self)@ == Seq::<LevelView>::empty(),
            final(self).index() == Map::<i64, i64>::empty(),
            final(self).wf(),
    {
        self.levels.clear();
        self.ids.clear();
        assert(self@ =~= Seq::<LevelView>::empty());
    }

    /// Drops every bucket whose queue is empty.
    pub fn prune(&mut self)
        requires
            old(self).wf(),
        ensures
            final(self).wf(),
            final(self)@ == pruned(old(self)@),
            final(self).index() == old(self).index(),
    {
        let ghost s0 = self@;
        let ghost m0 = self.ids@;
        let n = self.levels.len();
        let mut kept: Vec<Level> = Vec::new();
        let mut i: usize = 0;
        while i < n
            invariant
                n == self.levels@.len(),
                s0.len() == n,
                self.ids@ == m0,
                wf_levels(s0),
                indexed(s0, m0),
                0 <= i <= n,
                forall|k: int| i <= k < n ==> self.levels@[k]@ == s0[k],
                kept@.map_values(|l: Level| l@) == pruned(s0.take(i as int)),
            decreases n - i,
        {
            let mut lvl = Level { key: 0, quotes: Vec::new() };
            self.levels.set_and_swap(i, &mut lvl);
            proof {
                reveal(Seq::filter);
                let t = s0.take(i + 1);
                assert(t.drop_last() =~= s0.take(i as int));
                assert(t.last() == s0[i as int]);
            }
            let ghost before = kept@;
            if lvl.quotes.len() > 0 {
                kept.push(lvl);
                assert(kept@.map_values(|l: Level| l@) =~= before.map_values(|l: Level| l@).push(lvl@));
            }
            i += 1;
        }
        self.levels = kept;
        proof {
            assert(s0.take(n as int) =~= s0);
            lemma_pruned_wf(s0);
            lemma_pruned_index(s0, m0);
        }
    }
}

} // verus!
