use vstd::prelude::*;
use crate::side::{holds, pruned, put, take_out, BookSide, Level, LevelView};
use crate::types::{key_of, price_key, BookError, L3Quote, Side};

verus! {

/// The changes of an incremental message, applied deletions first, then
/// changes, then additions.
pub struct Increment {
    pub added: Vec<L3Quote>,
    pub changed: Vec<L3Quote>,
    pub deleted: Vec<i64>,
}

/// The payload of a message: a delta, or the full contents of one side.
pub enum QuotesEnum {
    INCREMENT(Increment),
    SNAPSHOT(Vec<L3Quote>),
}

/// A decoded message. `kind` is informational: the payload's shape alone
/// decides between snapshot and increment.
pub struct Tick {
    pub date: String,
    pub instrument: String,
    pub kind: String,
    pub side: String,
    pub quotes: QuotesEnum,
}

/// A side after some steps, or the first failure among them.
pub type Outcome = Result<Seq<LevelView>, BookError>;

/// Applies `step` to each item of `xs` in order, stopping at the first error.
pub open spec fn run<A>(r: Outcome, xs: Seq<A>, step: spec_fn(Seq<LevelView>, A) -> Outcome) -> Outcome
    decreases xs.len(),
{
    if xs.len() == 0 {
        r
    } else {
        match run(r, xs.drop_last(), step) {
            Ok(t) => step(t, xs.last()),
            Err(e) => Err(e),
        }
    }
}

/// Inserting one order.
pub open spec fn add_one(s: Seq<LevelView>, q: L3Quote, tick: int) -> Outcome {
    if holds(s, q.id) {
        Err(BookError::DuplicateId { id: q.id })
    } else {
        Ok(put(s, key_of(q.price as int, tick) as i64, q))
    }
}

/// Removing one order.
pub open spec fn remove_one(s: Seq<LevelView>, id: i64) -> Outcome {
    if holds(s, id) {
        Ok(take_out(s, id))
    } else {
        Err(BookError::UnknownId { id })
    }
}

/// Changing one order: cancel, then insert anew at the back of its bucket.
pub open spec fn change_one(s: Seq<LevelView>, q: L3Quote, tick: int) -> Outcome {
    match remove_one(s, q.id) {
        Ok(t) => add_one(t, q, tick),
        Err(e) => Err(e),
    }
}

/// The steps of additions, deletions and changes, as functions.
pub open spec fn adder(tick: int) -> spec_fn(Seq<LevelView>, L3Quote) -> Outcome {
    |s: Seq<LevelView>, q: L3Quote| add_one(s, q, tick)
}

pub open spec fn remover() -> spec_fn(Seq<LevelView>, i64) -> Outcome {
    |s: Seq<LevelView>, id: i64| remove_one(s, id)
}

pub open spec fn changer(tick: int) -> spec_fn(Seq<LevelView>, L3Quote) -> Outcome {
    |s: Seq<LevelView>, q: L3Quote| change_one(s, q, tick)
}

/// The side after a payload is applied to it.
pub open spec fn apply_quotes(s: Seq<LevelView>, quotes: QuotesEnum, tick: int) -> Outcome {
    match quotes {
        QuotesEnum::SNAPSHOT(v) => run(Ok(Seq::empty()), v@, adder(tick)),
        QuotesEnum::INCREMENT(inc) => run(
            run(run(Ok(s), inc.deleted@, remover()), inc.changed@, changer(tick)),
            inc.added@,
            adder(tick),
        ),
    }
}

/// Once a run has failed, running more items does not change its error.
pub proof fn lemma_run_err<A>(r: Outcome, xs: Seq<A>, step: spec_fn(Seq<LevelView>, A) -> Outcome, i: int)
    requires
        0 <= i <= xs.len(),
        run(r, xs.take(i), step) is Err,
    ensures
        run(r, xs, step) == run(r, xs.take(i), step),
    decreases xs.len(),
{
    if i < xs.len() {
        assert(xs.drop_last().take(i) =~= xs.take(i));
        lemma_run_err(r, xs.drop_last(), step, i);
    } else {
        assert(xs.take(i) =~= xs);
    }
}

/// Inserts each order of `qs` in turn.
fn add_list(side: &mut BookSide, qs: &Vec<L3Quote>, tick: i64) -> (r: Result<(), BookError>)
    requires
        old(side).wf(),
        tick > 0,
    ensures
        final(side).wf(),
        match run(Ok(old(side)@), qs@, adder(tick as int)) {
            Ok(t) => r is Ok && final(side)@ == t,
            Err(e) => r == Err::<(), BookError>(e),
        },
{
    let ghost s0 = side@;
    let mut i: usize = 0;
    while i < qs.len()
        invariant
            s0 == old(side)@,
            side.wf(),
            tick > 0,
            0 <= i <= qs@.len(),
            run(Ok(s0), qs@.take(i as int), adder(tick as int)) == Ok::<Seq<LevelView>, BookError>(side@),
        decreases qs@.len() - i,
    {
        let q = qs[i];
        let key = price_key(q.price, tick);
        proof {
            assert(qs@.take(i + 1).drop_last() =~= qs@.take(i as int));
            assert(qs@.take(i + 1).last() == qs@[i as int]);
        }
        let res = side.insert(key, q);
        if res.is_err() {
            proof {
                lemma_run_err(Ok(s0), qs@, adder(tick as int), i + 1);
            }
            return res;
        }
        i += 1;
    }
    assert(qs@.take(qs@.len() as int) =~= qs@);
    Ok(())
}

/// Removes each order of `ids` in turn.
fn remove_list(side: &mut BookSide, ids: &Vec<i64>) -> (r: Result<(), BookError>)
    requires
        old(side).wf(),
    ensures
        final(side).wf(),
        match run(Ok(old(side)@), ids@, remover()) {
            Ok(t) => r is Ok && final(side)@ == t,
            Err(e) => r == Err::<(), BookError>(e),
        },
{
    let ghost s0 = side@;
    let mut i: usize = 0;
    while i < ids.len()
        invariant
            s0 == old(side)@,
            side.wf(),
            0 <= i <= ids@.len(),
            run(Ok(s0), ids@.take(i as int), remover()) == Ok::<Seq<LevelView>, BookError>(side@),
        decreases ids@.len() - i,
    {
        let id = ids[i];
        proof {
            assert(ids@.take(i + 1).drop_last() =~= ids@.take(i as int));
            assert(ids@.take(i + 1).last() == ids@[i as int]);
        }
        let res = side.remove(id);
        if res.is_err() {
            proof {
                lemma_run_err(Ok(s0), ids@, remover(), i + 1);
            }
            return res;
        }
        i += 1;
    }
    assert(ids@.take(ids@.len() as int) =~= ids@);
    Ok(())
}

/// Cancels and re-inserts each order of `qs` in turn.
fn change_list(side: &mut BookSide, qs: &Vec<L3Quote>, tick: i64) -> (r: Result<(), BookError>)
    requires
        old(side).wf(),
        tick > 0,
    ensures
        final(side).wf(),
        match run(Ok(old(side)@), qs@, changer(tick as int)) {
            Ok(t) => r is Ok && final(side)@ == t,
            Err(e) => r == Err::<(), BookError>(e),
        },
{
    let ghost s0 = side@;
    let mut i: usize = 0;
    while i < qs.len()
        invariant
            s0 == old(side)@,
            side.wf(),
            tick > 0,
            0 <= i <= qs@.len(),
            run(Ok(s0), qs@.take(i as int), changer(tick as int)) == Ok::<Seq<LevelView>, BookError>(side@),
        decreases qs@.len() - i,
    {
        let q = qs[i];
        proof {
            assert(qs@.take(i + 1).drop_last() =~= qs@.take(i as int));
            assert(qs@.take(i + 1).last() == qs@[i as int]);
        }
        let res = side.remove(q.id);
        if res.is_err() {
            proof {
                lemma_run_err(Ok(s0), qs@, changer(tick as int), i + 1);
            }
            return res;
        }
        let key = price_key(q.price, tick);
        let res = side.insert(key, q);
        if res.is_err() {
            proof {
                lemma_run_err(Ok(s0), qs@, changer(tick as int), i + 1);
            }
            return res;
        }
        i += 1;
    }
    assert(qs@.take(qs@.len() as int) =~= qs@);
    Ok(())
}

/// Applies a payload to one side.
pub fn apply_to_side(side: &mut BookSide, quotes: &QuotesEnum, tick: i64) -> (r: Result<(), BookError>)
    requires
        old(side).wf(),
        tick > 0,
    ensures
        final(side).wf(),
        match apply_quotes(old(side)@, *quotes, tick as int) {
            Ok(t) => r is Ok && final(side)@ == t,
            Err(e) => r == Err::<(), BookError>(e),
        },
{
    match quotes {
        QuotesEnum::SNAPSHOT(v) => {
            side.clear();
            add_list(side, v, tick)
        },
        QuotesEnum::INCREMENT(inc) => {
            let ghost s0 = side@;
            let r1 = remove_list(side, &inc.deleted);
            if r1.is_err() {
                proof {
                    assert(inc.changed@.take(0) =~= Seq::<L3Quote>::empty());
                    lemma_run_err(run(Ok(s0), inc.deleted@, remover()), inc.changed@, changer(tick as int), 0);
                    assert(inc.added@.take(0) =~= Seq::<L3Quote>::empty());
                    lemma_run_err(
                        run(run(Ok(s0), inc.deleted@, remover()), inc.changed@, changer(tick as int)),
                        inc.added@, adder(tick as int), 0);
                }
                return r1;
            }
            let r2 = change_list(side, &inc.changed, tick);
            if r2.is_err() {
                proof {
                    assert(inc.added@.take(0) =~= Seq::<L3Quote>::empty());
                    lemma_run_err(
                        run(run(Ok(s0), inc.deleted@, remover()), inc.changed@, changer(tick as int)),
                        inc.added@, adder(tick as int), 0);
                }
                return r2;
            }
            add_list(side, &inc.added, tick)
        },
    }
}


/// The side that a message names: `"BID"` or `"ASK"`; any other name is
/// no side at all.
pub open spec fn side_of(name: Seq<char>) -> Option<Side> {
    if name == "BID"@ {
        Some(Side::BID)
    } else if name == "ASK"@ {
        Some(Side::ASK)
    } else {
        None
    }
}

impl Side {
    /// Reads a side's name as a message writes it.
    pub fn from_name(name: &String) -> (r: Option<Side>)
        ensures
            r == side_of(name@),
    {
        let bid = "BID".to_owned();
        let ask = "ASK".to_owned();
        if *name == bid {
            Some(Side::BID)
        } else if *name == ask {
            Some(Side::ASK)
        } else {
            None
        }
    }
}

/// A book as contracts see it: the date, the bids and the asks.
pub type BookView = (Seq<char>, Seq<LevelView>, Seq<LevelView>);

/// The book after one message, for a book bound to `instrument` with tick
/// size `tick`. A message that names no side is malformed and touches nothing.
pub open spec fn apply_tick(v: BookView, instrument: Seq<char>, tick: int, t: Tick) -> Result<BookView, BookError> {
    if side_of(t.side@) is None {
        Err(BookError::MalformedRecord)
    } else if t.instrument@ != instrument {
        Err(BookError::InstrumentMismatch)
    } else if side_of(t.side@) == Some(Side::BID) {
        match apply_quotes(v.1, t.quotes, tick) {
            Ok(b) => Ok((t.date@, b, v.2)),
            Err(e) => Err(e),
        }
    } else {
        match apply_quotes(v.2, t.quotes, tick) {
            Ok(a) => Ok((t.date@, v.1, a)),
            Err(e) => Err(e),
        }
    }
}

/// The book after each message of `ts` in turn, up to the first failure.
pub open spec fn replay(v: BookView, instrument: Seq<char>, tick: int, ts: Seq<Tick>) -> Result<BookView, BookError>
    decreases ts.len(),
{
    if ts.len() == 0 {
        Ok(v)
    } else {
        match replay(v, instrument, tick, ts.drop_last()) {
            Ok(w) => apply_tick(w, instrument, tick, ts.last()),
            Err(e) => Err(e),
        }
    }
}

/// Some bid bucket is at or above some ask bucket.
pub open spec fn crossed(bid: Seq<LevelView>, ask: Seq<LevelView>) -> bool {
    exists|i: int, j: int| 0 <= i < bid.len() && 0 <= j < ask.len() && bid[i].0 >= ask[j].0
}

/// The sides after pruning, and the verdict of the crossing check on them.
pub open spec fn cleanup_of(bid: Seq<LevelView>, ask: Seq<LevelView>) -> (Seq<LevelView>, Seq<LevelView>, Result<(), BookError>) {
    let b = pruned(bid);
    let a = pruned(ask);
    if crossed(b, a) {
        (b, a, Err(BookError::CrossedBook { bid_key: b.last().0, ask_key: a[0].0 }))
    } else {
        (b, a, Ok(()))
    }
}

/// The book of one instrument.
pub struct OrderBook {
    instrument: String,
    date: String,
    bid: BookSide,
    ask: BookSide,
    price_step: i64,
}

impl View for OrderBook {
    type V = BookView;

    closed spec fn view(&self) -> BookView {
        (self.date@, self.bid@, self.ask@)
    }
}

impl OrderBook {
    pub closed spec fn wf(&self) -> bool {
        self.bid.wf() && self.ask.wf() && self.price_step > 0
    }

    /// The tick size.
    pub closed spec fn tick(&self) -> int {
        self.price_step as int
    }

    /// The instrument that the book is bound to.
    pub closed spec fn name(&self) -> Seq<char> {
        self.instrument@
    }

    /// The instrument that the book is bound to.
    pub fn instrument(&self) -> (r: &String)
        ensures
            r@ == self.name(),
    {
        &self.instrument
    }

    /// The date of the last message applied.
    pub fn date(&self) -> (r: &String)
        ensures
            r@ == self@.0,
    {
        &self.date
    }

    /// The bids, ascending by key.
    pub fn bid(&self) -> (r: &BookSide)
        ensures
            r@ == self@.1,
            self.wf() ==> r.wf(),
    {
        &self.bid
    }

    /// The asks, ascending by key.
    pub fn ask(&self) -> (r: &BookSide)
        ensures
            r@ == self@.2,
            self.wf() ==> r.wf(),
    {
        &self.ask
    }

    /// The tick size.
    pub fn price_step(&self) -> (r: i64)
        ensures
            r == self.tick(),
            self.wf() ==> r > 0,
    {
        self.price_step
    }

    /// An empty book for `instrument`, with an empty date.
    pub fn new(instrument: String, price_step: i64) -> (r: Result<OrderBook, BookError>)
        ensures
            price_step <= 0 ==> r == Err::<OrderBook, BookError>(BookError::InvalidTickSize),
            price_step > 0 ==> r is Ok,
            r matches Ok(b) ==> b.wf() && b.name() == instrument@ && b.tick() == price_step
                && b@ == (Seq::<char>::empty(), Seq::<LevelView>::empty(), Seq::<LevelView>::empty()),
    {
        if price_step <= 0 {
            return Err(BookError::InvalidTickSize);
        }
        let b = OrderBook { instrument, date: String::new(), bid: BookSide::new(), ask: BookSide::new(), price_step };
        Ok(b)
    }

    /// Applies one message.
    pub fn update(&mut self, t: &Tick) -> (r: Result<(), BookError>)
        requires
            old(self).wf(),
        ensures
            final(self).wf(),
            final(self).name() == old(self).name(),
            final(self).tick() == old(self).tick(),
            t.instrument@ != old(self).name() || side_of(t.side@) is None ==> final(self)@ == old(self)@,
            match apply_tick(old(self)@, old(self).name(), old(self).tick(), *t) {
                Ok(v) => r is Ok && final(self)@ == v,
                Err(e) => r == Err::<(), BookError>(e),
            },
    {
        let side = match Side::from_name(&t.side) {
            None => return Err(BookError::MalformedRecord),
            Some(side) => side,
        };
        if !(self.instrument == t.instrument) {
            return Err(BookError::InstrumentMismatch);
        }
        self.date = t.date.clone();
        match side {
            Side::BID => apply_to_side(&mut self.bid, &t.quotes, self.price_step),
            Side::ASK => apply_to_side(&mut self.ask, &t.quotes, self.price_step),
        }
    }

    /// Drops the empty buckets of both sides, then checks that the highest
    /// bid bucket lies strictly below the lowest ask bucket.
    pub fn cleanup(&mut self) -> (r: Result<(), BookError>)
        requires
            old(self).wf(),
        ensures
            final(self).wf(),
            final(self).name() == old(self).name(),
            final(self).tick() == old(self).tick(),
            final(self)@.0 == old(self)@.0,
            (final(self)@.1, final(self)@.2, r) == cleanup_of(old(self)@.1, old(self)@.2),
            r is Ok ==> forall|i: int, j: int|
                0 <= i < final(self)@.1.len() && 0 <= j < final(self)@.2.len()
                    ==> final(self)@.1[i].0 < final(self)@.2[j].0,
    {
        self.bid.prune();
        self.ask.prune();
        let b = self.bid.levels();
        let a = self.ask.levels();
        let ghost bv = self.bid@;
        let ghost av = self.ask@;
        proof {
            assert forall|k: int| 0 <= k < b@.len() implies b@[k].key == bv[k].0 by {
                assert(b@.map_values(|l: Level| l@)[k] == b@[k]@);
            }
            assert forall|k: int| 0 <= k < a@.len() implies a@[k].key == av[k].0 by {
                assert(a@.map_values(|l: Level| l@)[k] == a@[k]@);
            }
        }
        if b.len() > 0 && a.len() > 0 && b[b.len() - 1].key >= a[0].key {
            let r = Err(BookError::CrossedBook { bid_key: b[b.len() - 1].key, ask_key: a[0].key });
            proof {
                assert(bv[bv.len() - 1].0 >= av[0].0);
                assert(crossed(bv, av));
            }
            r
        } else {
            proof {
                assert forall|i: int, j: int| 0 <= i < bv.len() && 0 <= j < av.len() implies bv[i].0 < av[j].0 by {
                    let n = bv.len() - 1;
                    if i < n {
                        assert(bv[i].0 < bv[n].0);
                    }
                    if j > 0 {
                        assert(av[0].0 < av[j].0);
                    }
                }
            }
            Ok(())
        }
    }

    /// Applies each message of `ticks` in order, stopping at the first
    /// failure, then runs `cleanup` once.
    pub fn update_all(&mut self, ticks: &Vec<Tick>) -> (r: Result<(), BookError>)
        requires
            old(self).wf(),
        ensures
            final(self).wf(),
            final(self).name() == old(self).name(),
            final(self).tick() == old(self).tick(),
            match replay(old(self)@, old(self).name(), old(self).tick(), ticks@) {
                Ok(v) => final(self)@.0 == v.0 && (final(self)@.1, final(self)@.2, r) == cleanup_of(v.1, v.2),
                Err(e) => r == Err::<(), BookError>(e),
            },
    {
        let ghost v0 = self@;
        let ghost instr = self.name();
        let ghost tick = self.tick();
        let mut i: usize = 0;
        while i < ticks.len()
            invariant
                self.wf(),
                v0 == old(self)@,
                self.name() == old(self).name(),
                instr == old(self).name(),
                tick == old(self).tick(),
                self.tick() == tick,
                0 <= i <= ticks@.len(),
                replay(v0, instr, tick, ticks@.take(i as int)) == Ok::<BookView, BookError>(self@),
            decreases ticks@.len() - i,
        {
            proof {
                assert(ticks@.take(i + 1).drop_last() =~= ticks@.take(i as int));
                assert(ticks@.take(i + 1).last() == ticks@[i as int]);
            }
            let res = self.update(&ticks[i]);
            if res.is_err() {
                proof {
                    lemma_replay_err(v0, instr, tick, ticks@, i + 1);
                }
                return res;
            }
            i += 1;
        }
        assert(ticks@.take(ticks@.len() as int) =~= ticks@);
        self.cleanup()
    }

    /// Builds a book for `instrument` from a batch of messages, ending with
    /// `cleanup`.
    pub fn from_ticks(ticks: &Vec<Tick>, instrument: String, price_step: i64) -> (r: Result<OrderBook, BookError>)
        ensures
            price_step <= 0 ==> r == Err::<OrderBook, BookError>(BookError::InvalidTickSize),
            price_step > 0 ==> match replay(
                (Seq::<char>::empty(), Seq::<LevelView>::empty(), Seq::<LevelView>::empty()),
                instrument@,
                price_step as int,
                ticks@,
            ) {
                Ok(v) => match cleanup_of(v.1, v.2) {
                    (b, a, Ok(())) => r matches Ok(book) && book.wf() && book.name() == instrument@
                        && book.tick() == price_step && book@ == (v.0, b, a),
                    (_, _, Err(e)) => r == Err::<OrderBook, BookError>(e),
                },
                Err(e) => r == Err::<OrderBook, BookError>(e),
            },
    {
        let mut book = OrderBook::new(instrument, price_step)?;
        let res = book.update_all(ticks);
        match res {
            Ok(()) => Ok(book),
            Err(e) => Err(e),
        }
    }
}

/// Once a replay has failed, more messages do not change its error.
pub proof fn lemma_replay_err(v: BookView, instrument: Seq<char>, tick: int, ts: Seq<Tick>, i: int)
    requires
        0 <= i <= ts.len(),
        replay(v, instrument, tick, ts.take(i)) is Err,
    ensures
        replay(v, instrument, tick, ts) == replay(v, instrument, tick, ts.take(i)),
    decreases ts.len(),
{
    if i < ts.len() {
        assert(ts.drop_last().take(i) =~= ts.take(i));
        lemma_replay_err(v, instrument, tick, ts.drop_last(), i);
    } else {
        assert(ts.take(i) =~= ts);
    }
}

} // verus!
