use vstd::prelude::*;

verus! {

/// The two sides of a book.
#[derive(Clone, Copy, Debug, PartialEq, Eq, Structural)]
pub enum Side {
    BID,
    ASK,
}

/// A resting order. `price` and `size` are fixed-point integers.
#[derive(Clone, Copy, Debug, PartialEq, Eq, Structural)]
pub struct L3Quote {
    pub id: i64,
    pub price: i64,
    pub size: i64,
}

/// Every way that building or updating a book can fail.
#[derive(Clone, Copy, Debug, PartialEq, Eq, Structural)]
pub enum BookError {
    /// A record did not decode into a message.
    MalformedRecord,
    /// A message names another instrument than the book's.
    InstrumentMismatch,
    /// An order was added under an id that already rests on that side.
    DuplicateId { id: i64 },
    /// An order was removed or changed under an id that does not rest on that side.
    UnknownId { id: i64 },
    /// The highest bid bucket is not strictly below the lowest ask bucket.
    CrossedBook { bid_key: i64, ask_key: i64 },
    /// The tick size is zero or negative.
    InvalidTickSize,
}

/// The bucket of a price: `price / tick` rounded toward zero.
pub open spec fn key_of(price: int, tick: int) -> int {
    if price >= 0 {
        price / tick
    } else {
        -((-price) / tick)
    }
}

proof fn lemma_div_bounds(a: int, t: int)
    requires
        a >= 0,
        t > 0,
    ensures
        0 <= a / t <= a,
{
    assert(0 <= a / t <= a) by (nonlinear_arith)
        requires
            a >= 0,
            t > 0,
    ;
}

/// A bucket key is no farther from zero than its price.
pub proof fn lemma_key_bounds(price: int, tick: int)
    requires
        tick > 0,
    ensures
        price >= 0 ==> 0 <= key_of(price, tick) <= price,
        price < 0 ==> price <= key_of(price, tick) <= 0,
{
    if price >= 0 {
        lemma_div_bounds(price, tick);
    } else {
        lemma_div_bounds(-price, tick);
    }
}

/// Computes the bucket key of `price` for a tick size of `tick`.
pub fn price_key(price: i64, tick: i64) -> (r: i64)
    requires
        tick > 0,
    ensures
        r == key_of(price as int, tick as int),
{
    let p = price as i128;
    let t = tick as i128;
    if p >= 0 {
        let k = p / t;
        proof {
            lemma_div_bounds(p as int, t as int);
        }
        k as i64
    } else {
        let k = (-p) / t;
        proof {
            lemma_div_bounds(-p, t as int);
        }
        (-k) as i64
    }
}

/// The display price of a bucket: `key * tick`.
pub fn key_price(key: i64, tick: i64) -> (r: i128)
    ensures
        r == key * tick,
{
    proof {
        assert(-0x8000_0000_0000_0000 * 0x8000_0000_0000_0000 <= key * tick <= 0x8000_0000_0000_0000 * 0x8000_0000_0000_0000) by (nonlinear_arith)
            requires -0x8000_0000_0000_0000 <= key < 0x8000_0000_0000_0000, -0x8000_0000_0000_0000 <= tick < 0x8000_0000_0000_0000;
    }
    (key as i128) * (tick as i128)
}

} // verus!
