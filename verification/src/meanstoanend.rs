//! Means to an end: timestamped prices go in, and a query asks for the mean
//! price over a span of time.
use vstd::prelude::*;
use vstd::set::fold::{is_fun_commutative, lemma_fold_insert, lemma_fold_empty};
use std::collections::BTreeMap;
use crate::util::{be_u32_at, read_u32};

verus! {

broadcast use {vstd::std_specs::btree::group_btree_axioms, vstd::laws_cmp::group_laws_cmp};

/// The `i32` whose big-endian bytes start at `i`.
pub open spec fn be_i32_at(s: Seq<u8>, i: int) -> i32 {
    be_u32_at(s, i) as i32
}

/// A price at a timestamp.
pub struct Insert {
    pub ts: i32,
    pub price: i32,
}

impl Insert {
    /// Reads the timestamp and the price, each a big-endian `i32`.
    pub fn new(buf: &[u8]) -> (r: Self)
        requires
            buf@.len() == 8,
        ensures
            r.ts == be_i32_at(buf@, 0),
            r.price == be_i32_at(buf@, 4),
    {
        Self { ts: read_u32(buf, 0) as i32, price: read_u32(buf, 4) as i32 }
    }
}

/// A request for the mean price from `mints` to `maxts`, both included.
pub struct Query {
    pub mints: i32,
    pub maxts: i32,
}

impl Query {
    /// Reads the two timestamps, each a big-endian `i32`.
    pub fn new(buf: &[u8]) -> (r: Self)
        requires
            buf@.len() == 8,
        ensures
            r.mints == be_i32_at(buf@, 0),
            r.maxts == be_i32_at(buf@, 4),
    {
        Self { mints: read_u32(buf, 0) as i32, maxts: read_u32(buf, 4) as i32 }
    }
}

/// A client message.
pub enum Message {
    I(Insert),
    Q(Query),
}

/// Reads a nine-byte message: `I` or `Q`, then two big-endian `i32`s.
/// Any other first byte is an error.
pub fn parse_message(buf: &[u8]) -> (r: Result<Message, ()>)
    requires
        buf@.len() >= 9,
    ensures
        match r {
            Ok(Message::I(i)) => buf@[0] == 73 && i.ts == be_i32_at(buf@, 1) && i.price
                == be_i32_at(buf@, 5),
            Ok(Message::Q(q)) => buf@[0] == 81 && q.mints == be_i32_at(buf@, 1) && q.maxts
                == be_i32_at(buf@, 5),
            Err(()) => buf@[0] != 73 && buf@[0] != 81,
        },
{
    let body = vstd::slice::slice_subrange(buf, 1, 9);
    if buf[0] == 73u8 {
        Ok(Message::I(Insert::new(body)))
    } else if buf[0] == 81u8 {
        Ok(Message::Q(Query::new(body)))
    } else {
        Err(())
    }
}

/// The timestamps of `prices` from `mints` to `maxts`.
pub open spec fn window(prices: Map<i32, i32>, mints: i32, maxts: i32) -> Set<i32> {
    prices.dom().filter(|t: i32| mints <= t <= maxts)
}

/// Adds the price at a timestamp to a running sum.
pub open spec fn add_price(prices: Map<i32, i32>) -> spec_fn(int, i32) -> int {
    |acc: int, t: i32| acc + prices[t]
}

/// The sum of the prices at `times`.
pub open spec fn price_sum(prices: Map<i32, i32>, times: Set<i32>) -> int {
    times.fold(0int, add_price(prices))
}

/// Integer division that rounds toward zero, as Rust's `/` does.
pub open spec fn div_toward_zero(a: int, b: int) -> int {
    if a >= 0 {
        a / b
    } else {
        -((-a) / b)
    }
}

/// The mean price from `mints` to `maxts`, rounded toward zero; zero where
/// the span is empty or holds no price.
pub open spec fn mean_price(prices: Map<i32, i32>, mints: i32, maxts: i32) -> i32 {
    let w = window(prices, mints, maxts);
    if mints > maxts || w.len() == 0 {
        0
    } else {
        div_toward_zero(price_sum(prices, w), w.len() as int) as i32
    }
}

proof fn lemma_add_price_commutative(prices: Map<i32, i32>)
    ensures
        is_fun_commutative(add_price(prices)),
{
}

/// Adding one more timestamp adds its price to the sum.
proof fn lemma_price_sum_insert(prices: Map<i32, i32>, times: Set<i32>, t: i32)
    requires
        times.finite(),
        !times.contains(t),
    ensures
        price_sum(prices, times.insert(t)) == price_sum(prices, times) + prices[t],
{
    lemma_add_price_commutative(prices);
    lemma_fold_insert(times, 0int, add_price(prices), t);
}

/// The mean price over the prices from `mints` to `maxts`.
pub fn get_mean_price(prices: &BTreeMap<i32, i32>, mints: i32, maxts: i32) -> (r: i32)
    ensures
        r == mean_price(prices@, mints, maxts),
{
    if mints > maxts {
        return 0;
    }
    let ghost m = prices@;
    let ghost w = window(m, mints, maxts);
    let n = prices.len();
    assert(n == m.dom().len());
    let mut cnt: u64 = 0;
    let mut sum: i128 = 0;
    let ghost mut seen: Set<i32> = Set::empty();
    proof {
        lemma_fold_empty(0int, add_price(m));
    }
    for (k, v) in it: prices.iter()
        invariant
            m == prices@,
            w == window(m, mints, maxts),
            it.seq().len() == m.dom().len(),
            m.dom().len() <= usize::MAX,
            it.seq().no_duplicates(),
            forall|i: int|
                0 <= i < it.seq().len() ==> #[trigger] m.contains_key(*it.seq()[i].0) && m[*it.seq()[i].0]
                    == *it.seq()[i].1,
            forall|t: i32| #[trigger] m.contains_key(t) ==> it.seq().contains((&t, &m[t])),
            seen.finite(),
            seen == Set::new(
                |t: i32|
                    exists|i: int|
                        0 <= i < it.index() && *it.seq()[i].0 == t && mints <= t <= maxts,
            ),
            forall|u: i32| #[trigger] seen.contains(u) ==> w.contains(u),
            forall|u: i32|
                #[trigger] w.contains(u) ==> seen.contains(u) || exists|i: int|
                    it.index() <= i < it.seq().len() && *it.seq()[i].0 == u,
            cnt == seen.len(),
            cnt <= it.index(),
            sum == price_sum(m, seen),
            -0x8000_0000 * cnt <= sum <= 0x7fff_ffff * cnt,
    {
        let ghost idx = it.index();
        let ghost t = *k;
        assert(it.seq()[idx].0 == k);
        if mints <= *k && *k <= maxts {
            proof {
                if seen.contains(t) {
                    let j = choose|j: int|
                        0 <= j < idx && *it.seq()[j].0 == t && mints <= t <= maxts;
                    assert(m.contains_key(*it.seq()[j].0));
                    assert(m.contains_key(*it.seq()[idx].0));
                    assert(it.seq()[j] == it.seq()[idx]);
                }
                lemma_price_sum_insert(m, seen, t);
                assert(m[t] == *v);
            }
            sum = sum + (*v as i128);
            cnt = cnt + 1;
            proof {
                seen = seen.insert(t);
            }
        }
        assert forall|u: i32| #[trigger] w.contains(u) implies seen.contains(u) || exists|i: int|
            idx + 1 <= i < it.seq().len() && *it.seq()[i].0 == u by {
            if !seen.contains(u) {
                let i = choose|i: int| idx <= i < it.seq().len() && *it.seq()[i].0 == u;
                if i == idx {
                    assert(u == t);
                }
                assert(idx + 1 <= i < it.seq().len() && *it.seq()[i].0 == u);
            }
        }
        assert(seen =~= Set::new(
            |u: i32| exists|i: int| 0 <= i < idx + 1 && *it.seq()[i].0 == u && mints <= u <= maxts,
        )) by {
            assert forall|u: i32|
                (exists|i: int| 0 <= i < idx + 1 && *it.seq()[i].0 == u && mints <= u <= maxts)
                implies seen.contains(u) by {
                let i = choose|i: int| 0 <= i < idx + 1 && *it.seq()[i].0 == u && mints <= u <= maxts;
                if i < idx {
                    assert(0 <= i < idx && *it.seq()[i].0 == u && mints <= u <= maxts);
                }
            }
        }
    }
    assert(seen =~= w);
    if cnt == 0 {
        0
    } else {
        let c = cnt as i128;
        let q = if sum >= 0 {
            sum / c
        } else {
            -((-sum) / c)
        };
        q as i32
    }
}

/// Applies one message to a session's prices: an insert records the price
/// at its timestamp, replacing any there; a query leaves the prices as they
/// are and gives the mean price over its span.
pub fn process_message(prices: &mut BTreeMap<i32, i32>, message: &Message) -> (r: Option<i32>)
    ensures
        match message {
            Message::I(i) => final(prices)@ == old(prices)@.insert(i.ts, i.price) && r is None,
            Message::Q(q) => final(prices)@ == old(prices)@ && r == Some(
                mean_price(old(prices)@, q.mints, q.maxts),
            ),
        },
{
    match message {
        Message::I(insert) => {
            prices.insert(insert.ts, insert.price);
            None
        },
        Message::Q(query) => Some(get_mean_price(prices, query.mints, query.maxts)),
    }
}

/// A query over just the timestamp of an insert gives back the inserted
/// price.
pub proof fn lemma_query_after_insert(prices: Map<i32, i32>, ts: i32, price: i32)
    ensures
        mean_price(prices.insert(ts, price), ts, ts) == price,
{
    let m = prices.insert(ts, price);
    let w = window(m, ts, ts);
    assert(w =~= Set::<i32>::empty().insert(ts));
    lemma_fold_empty(0int, add_price(m));
    lemma_price_sum_insert(m, Set::<i32>::empty(), ts);
    assert(w.len() == 1);
}

} // verus!
