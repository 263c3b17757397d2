//! Price levels as a map from price to queue, and what is read off such a
//! map: its prices in rising order, its orders in that order, their number,
//! and the rows of a depth table.

use vstd::prelude::*;
use crate::links::rising;
use crate::order::{OrderView, Price};
use crate::order_stack::{total_size, lemma_total_size_bound};

verus! {

/// The price levels of one side of a book.
pub type Levels = Map<Price, Seq<OrderView>>;

/// The bound above every price.
pub open spec fn price_bound() -> int {
    0x1_0000_0000
}

/// The prices of `prices` below `bound`, rising.
pub open spec fn ascending(prices: Set<Price>, bound: int) -> Seq<Price>
    decreases bound,
{
    if bound <= 0 {
        Seq::empty()
    } else if prices.contains((bound - 1) as Price) && bound <= price_bound() {
        ascending(prices, bound - 1).push((bound - 1) as Price)
    } else {
        ascending(prices, bound - 1)
    }
}

/// The prices of `levels`, rising.
pub open spec fn key_order(levels: Levels) -> Seq<Price> {
    ascending(levels.dom(), price_bound())
}

/// The orders of `levels` at prices below `bound`: level after level by
/// rising price, each level in the order of its queue.
pub open spec fn orders_below(levels: Levels, bound: int) -> Seq<OrderView>
    decreases bound,
{
    if bound <= 0 {
        Seq::empty()
    } else if levels.contains_key((bound - 1) as Price) && bound <= price_bound() {
        orders_below(levels, bound - 1) + levels[(bound - 1) as Price]
    } else {
        orders_below(levels, bound - 1)
    }
}

/// All orders of `levels`, by rising price and, at one price, by arrival.
pub open spec fn all_orders(levels: Levels) -> Seq<OrderView> {
    orders_below(levels, price_bound())
}

/// The number of orders in `levels`: the sum of the lengths of its queues.
pub open spec fn queued(levels: Levels) -> nat {
    all_orders(levels).len()
}

/// The greatest price of `levels`, if it has any.
pub open spec fn highest(levels: Levels) -> Option<Price> {
    if key_order(levels).len() == 0 {
        None
    } else {
        Some(key_order(levels).last())
    }
}

/// The least price of `levels`, if it has any.
pub open spec fn lowest(levels: Levels) -> Option<Price> {
    if key_order(levels).len() == 0 {
        None
    } else {
        Some(key_order(levels).first())
    }
}

/// One row of a depth table: a price, the sum of the sizes resting at it,
/// and the money resting at it and at every better price.
pub struct LevelRow {
    pub price: Price,
    pub size: nat,
    pub notional: nat,
}

/// The depth table of `levels` along `prices`: row after row, each with the
/// running sum of price times size over its own and all earlier rows.
pub open spec fn level_rows(prices: Seq<Price>, levels: Levels) -> Seq<LevelRow>
    decreases prices.len(),
{
    if prices.len() == 0 {
        Seq::empty()
    } else {
        let earlier = level_rows(prices.drop_last(), levels);
        let size = total_size(levels[prices.last()]);
        let so_far: nat = if earlier.len() == 0 {
            0
        } else {
            earlier.last().notional
        };
        earlier.push(
            LevelRow { price: prices.last(), size, notional: so_far + (prices.last() as nat) * size },
        )
    }
}

/// `ascending` lists, rising, exactly the prices of the set below the bound.
pub proof fn lemma_ascending(prices: Set<Price>, bound: int)
    requires
        bound <= price_bound(),
    ensures
        rising(ascending(prices, bound)),
        forall|j: int|
            0 <= j < ascending(prices, bound).len() ==> prices.contains(
                #[trigger] ascending(prices, bound)[j],
            ) && ascending(prices, bound)[j] < bound,
        forall|k: Price|
            prices.contains(k) && k < bound ==> exists|j: int|
                0 <= j < ascending(prices, bound).len() && ascending(prices, bound)[j] == k,
    decreases bound,
{
    if bound > 0 {
        lemma_ascending(prices, bound - 1);
        let earlier = ascending(prices, bound - 1);
        let all = ascending(prices, bound);
        assert forall|k: Price| prices.contains(k) && k < bound implies exists|j: int|
            0 <= j < all.len() && all[j] == k by {
            if k < bound - 1 {
                let j = choose|j: int| 0 <= j < earlier.len() && earlier[j] == k;
                assert(all[j] == k);
            } else {
                assert(all[all.len() - 1] == k);
            }
        }
    }
}

/// Two rising lists of the same prices are the same list.
pub proof fn lemma_rising_unique(a: Seq<Price>, b: Seq<Price>)
    requires
        rising(a),
        rising(b),
        forall|k: Price| a.contains(k) <==> b.contains(k),
    ensures
        a == b,
    decreases a.len(),
{
    if a.len() == 0 {
        if b.len() > 0 {
            assert(b.contains(b[0]));
        }
        assert(a =~= b);
    } else {
        let top = a.last();
        assert(a.contains(top));
        let i = choose|i: int| 0 <= i < b.len() && b[i] == top;
        assert(b.contains(b.last()));
        let j = choose|j: int| 0 <= j < a.len() && a[j] == b.last();
        assert(b.last() == top);
        let a0 = a.drop_last();
        let b0 = b.drop_last();
        assert forall|k: Price| a0.contains(k) <==> b0.contains(k) by {
            if a0.contains(k) {
                let j = choose|j: int| 0 <= j < a0.len() && a0[j] == k;
                assert(a[j] == k);
                assert(a.contains(k));
                let i = choose|i: int| 0 <= i < b.len() && b[i] == k;
                assert(b0[i] == k);
            }
            if b0.contains(k) {
                let j = choose|j: int| 0 <= j < b0.len() && b0[j] == k;
                assert(b[j] == k);
                assert(b.contains(k));
                let i = choose|i: int| 0 <= i < a.len() && a[i] == k;
                assert(a0[i] == k);
            }
        }
        lemma_rising_unique(a0, b0);
        assert(a =~= a0.push(top));
        assert(b =~= b0.push(top));
    }
}

/// A rising list of exactly the prices of `levels` is `key_order(levels)`.
pub proof fn lemma_key_order(levels: Levels, keys: Seq<Price>)
    requires
        rising(keys),
        forall|k: Price| levels.contains_key(k) <==> keys.contains(k),
    ensures
        keys == key_order(levels),
{
    lemma_ascending(levels.dom(), price_bound());
    let sorted = key_order(levels);
    assert forall|k: Price| keys.contains(k) <==> sorted.contains(k) by {
        if sorted.contains(k) {
            let j = choose|j: int| 0 <= j < sorted.len() && sorted[j] == k;
            assert(levels.dom().contains(sorted[j]));
        }
        if keys.contains(k) {
            assert(levels.dom().contains(k));
            let j = choose|j: int| 0 <= j < sorted.len() && sorted[j] == k;
        }
    }
    lemma_rising_unique(keys, sorted);
}

/// The highest price of `levels` is one of its prices and no other is
/// greater; the lowest is one of its prices and no other is smaller; there
/// is neither exactly where there is no price.
pub proof fn lemma_best(levels: Levels)
    ensures
        highest(levels) is None <==> forall|k: Price| !levels.contains_key(k),
        lowest(levels) is None <==> forall|k: Price| !levels.contains_key(k),
        highest(levels) matches Some(top) ==> levels.contains_key(top) && forall|k: Price|
            levels.contains_key(k) ==> k <= top,
        lowest(levels) matches Some(bottom) ==> levels.contains_key(bottom) && forall|k: Price|
            levels.contains_key(k) ==> bottom <= k,
{
    lemma_ascending(levels.dom(), price_bound());
    let sorted = key_order(levels);
    if sorted.len() > 0 {
        assert(levels.dom().contains(sorted[sorted.len() - 1]));
        assert(levels.dom().contains(sorted[0]));
        assert forall|k: Price| levels.contains_key(k) implies sorted[0] <= k <= sorted[sorted.len()
            - 1] by {
            assert(levels.dom().contains(k));
            let j = choose|j: int| 0 <= j < sorted.len() && sorted[j] == k;
        }
    } else {
        assert forall|k: Price| !levels.contains_key(k) by {
            if levels.dom().contains(k) {
                let j = choose|j: int| 0 <= j < sorted.len() && sorted[j] == k;
            }
        }
    }
}

/// Writing one queue changes the number of orders below a bound by the
/// change in length at that price, where the price lies below the bound.
pub proof fn lemma_count_write(levels: Levels, price: Price, queue: Seq<OrderView>, bound: int)
    requires
        bound <= price_bound(),
    ensures
        orders_below(levels.insert(price, queue), bound).len() + (if price < bound
            && levels.contains_key(price) {
            levels[price].len()
        } else {
            0
        }) == orders_below(levels, bound).len() + (if price < bound {
            queue.len()
        } else {
            0
        }),
    decreases bound,
{
    if bound > 0 {
        lemma_count_write(levels, price, queue, bound - 1);
    }
}

/// Taking one level out lowers the number of orders below a bound by the
/// length of its queue, where the price lies below the bound.
pub proof fn lemma_count_erase(levels: Levels, price: Price, bound: int)
    requires
        bound <= price_bound(),
    ensures
        orders_below(levels.remove(price), bound).len() + (if price < bound && levels.contains_key(
            price,
        ) {
            levels[price].len()
        } else {
            0
        }) == orders_below(levels, bound).len(),
    decreases bound,
{
    if bound > 0 {
        lemma_count_erase(levels, price, bound - 1);
    }
}

/// How writing one queue changes the number of orders.
pub proof fn lemma_queued_write(levels: Levels, price: Price, queue: Seq<OrderView>)
    ensures
        queued(levels.insert(price, queue)) + (if levels.contains_key(price) {
            levels[price].len()
        } else {
            0
        }) == queued(levels) + queue.len(),
{
    lemma_count_write(levels, price, queue, price_bound());
}

/// How taking one level out changes the number of orders.
pub proof fn lemma_queued_erase(levels: Levels, price: Price)
    ensures
        queued(levels.remove(price)) + (if levels.contains_key(price) {
            levels[price].len()
        } else {
            0
        }) == queued(levels),
{
    lemma_count_erase(levels, price, price_bound());
}

/// Levels without a price below a bound have no order below it.
pub proof fn lemma_orders_none(levels: Levels, bound: int)
    requires
        forall|k: Price| k < bound ==> !levels.contains_key(k),
    ensures
        orders_below(levels, bound) == Seq::<OrderView>::empty(),
        ascending(levels.dom(), bound) == Seq::<Price>::empty(),
    decreases bound,
{
    if bound > 0 {
        lemma_orders_none(levels, bound - 1);
    }
}

/// Whether every price level holds at least one order.
pub open spec fn no_empty_level(levels: Levels) -> bool {
    forall|k: Price| levels.contains_key(k) ==> #[trigger] levels[k].len() > 0
}

/// The number of orders in the queues of `levels` at the listed prices.
pub open spec fn listed(prices: Seq<Price>, levels: Levels) -> nat
    decreases prices.len(),
{
    if prices.len() == 0 {
        0
    } else {
        listed(prices.drop_last(), levels) + levels[prices.last()].len()
    }
}

/// The orders listed at two lists of prices are those listed at either.
pub proof fn lemma_listed_concat(front: Seq<Price>, back: Seq<Price>, levels: Levels)
    ensures
        listed(front + back, levels) == listed(front, levels) + listed(back, levels),
    decreases back.len(),
{
    if back.len() == 0 {
        assert(front + back =~= front);
    } else {
        lemma_listed_concat(front, back.drop_last(), levels);
        assert((front + back).drop_last() =~= front + back.drop_last());
    }
}

/// The orders listed at a list of prices read backwards are the same.
pub proof fn lemma_listed_reverse(prices: Seq<Price>, levels: Levels)
    ensures
        listed(prices.reverse(), levels) == listed(prices, levels),
    decreases prices.len(),
{
    if prices.len() > 0 {
        let earlier = prices.drop_last();
        let single = seq![prices.last()];
        lemma_listed_reverse(earlier, levels);
        assert(prices.reverse() =~= single + earlier.reverse());
        lemma_listed_concat(single, earlier.reverse(), levels);
        assert(single.drop_last() =~= Seq::<Price>::empty());
        assert(single.last() == prices.last());
        assert(listed(single.drop_last(), levels) == 0);
        assert(listed(single, levels) == levels[prices.last()].len());
    } else {
        assert(prices.reverse() =~= prices);
    }
}

/// The orders listed at the first prices of a list are among those listed.
pub proof fn lemma_listed_take(prices: Seq<Price>, levels: Levels, count: int)
    requires
        0 <= count <= prices.len(),
    ensures
        listed(prices.take(count), levels) <= listed(prices, levels),
{
    lemma_listed_concat(prices.take(count), prices.skip(count), levels);
    assert(prices.take(count) + prices.skip(count) =~= prices);
}

/// The orders listed at the rising prices below a bound are the orders below it.
pub proof fn lemma_listed_below(levels: Levels, bound: int)
    requires
        bound <= price_bound(),
    ensures
        listed(ascending(levels.dom(), bound), levels) == orders_below(levels, bound).len(),
        no_empty_level(levels) ==> ascending(levels.dom(), bound).len() <= orders_below(
            levels,
            bound,
        ).len(),
    decreases bound,
{
    if bound > 0 {
        lemma_listed_below(levels, bound - 1);
        let earlier = ascending(levels.dom(), bound - 1);
        if levels.contains_key((bound - 1) as Price) {
            assert(earlier.push((bound - 1) as Price).drop_last() =~= earlier);
        }
    }
}

/// All orders of `levels` are listed at its prices, in rising order or in
/// falling order; and where no queue is empty there are at least as many
/// orders as prices.
pub proof fn lemma_listed_all(levels: Levels)
    ensures
        listed(key_order(levels), levels) == queued(levels),
        listed(key_order(levels).reverse(), levels) == queued(levels),
        no_empty_level(levels) ==> key_order(levels).len() <= queued(levels),
{
    lemma_listed_below(levels, price_bound());
    lemma_listed_reverse(key_order(levels), levels);
}

/// The row that the numbers of a depth table stand for.
pub open spec fn row_view(row: (Price, u128, u128)) -> LevelRow {
    LevelRow { price: row.0, size: row.1 as nat, notional: row.2 as nat }
}

/// The rows that a depth table of numbers stands for.
pub open spec fn rows_view(rows: Seq<(Price, u128, u128)>) -> Seq<LevelRow> {
    rows.map_values(|row: (Price, u128, u128)| row_view(row))
}

/// The money resting in the last row of a depth table, zero for an empty table.
pub open spec fn running_total(rows: Seq<LevelRow>) -> nat {
    if rows.len() == 0 {
        0
    } else {
        rows.last().notional
    }
}

/// A depth table has a row for each price, and the money in its last row is
/// at most the greatest price times the greatest size for every order listed.
pub proof fn lemma_rows_bound(prices: Seq<Price>, levels: Levels)
    ensures
        level_rows(prices, levels).len() == prices.len(),
        running_total(level_rows(prices, levels)) <= 0xffff_ffff * 0xffff_ffff * listed(prices, levels),
    decreases prices.len(),
{
    if prices.len() > 0 {
        let earlier = prices.drop_last();
        lemma_rows_bound(earlier, levels);
        let queue = levels[prices.last()];
        let price = prices.last() as nat;
        let size = total_size(queue);
        lemma_total_size_bound(queue);
        assert(price * size <= 0xffff_ffff * 0xffff_ffff * queue.len()) by (nonlinear_arith)
            requires
                price <= 0xffff_ffff,
                size <= queue.len() * 0xffff_ffff,
        ;
        assert(0xffff_ffff * 0xffff_ffff * listed(earlier, levels) + 0xffff_ffff * 0xffff_ffff
            * queue.len() == 0xffff_ffff * 0xffff_ffff * (listed(earlier, levels) + queue.len()))
            by (nonlinear_arith);
    }
}

/// The orders of `levels` at the listed prices: queue after queue.
pub open spec fn flatten(prices: Seq<Price>, levels: Levels) -> Seq<OrderView>
    decreases prices.len(),
{
    if prices.len() == 0 {
        Seq::empty()
    } else {
        flatten(prices.drop_last(), levels) + levels[prices.last()]
    }
}

/// The orders at the first prices of a list and at the next one.
pub proof fn lemma_flatten_step(prices: Seq<Price>, levels: Levels, count: int)
    requires
        0 <= count < prices.len(),
    ensures
        flatten(prices.take(count + 1), levels) == flatten(prices.take(count), levels)
            + levels[prices[count]],
{
    assert(prices.take(count + 1).drop_last() =~= prices.take(count));
}

/// The orders at the rising prices below a bound are the orders below it.
pub proof fn lemma_flatten_below(levels: Levels, bound: int)
    requires
        bound <= price_bound(),
    ensures
        flatten(ascending(levels.dom(), bound), levels) == orders_below(levels, bound),
    decreases bound,
{
    if bound > 0 {
        lemma_flatten_below(levels, bound - 1);
        let earlier = ascending(levels.dom(), bound - 1);
        if levels.contains_key((bound - 1) as Price) {
            assert(earlier.push((bound - 1) as Price).drop_last() =~= earlier);
        }
    }
}

/// The orders at the first prices of a list come first among the orders at
/// all of them.
pub proof fn lemma_flatten_prefix(prices: Seq<Price>, levels: Levels, count: int)
    requires
        0 <= count <= prices.len(),
    ensures
        flatten(prices.take(count), levels).len() <= flatten(prices, levels).len(),
        flatten(prices, levels).take(flatten(prices.take(count), levels).len() as int) == flatten(
            prices.take(count),
            levels,
        ),
    decreases prices.len() - count,
{
    if count == prices.len() {
        assert(prices.take(count) =~= prices);
        assert(flatten(prices, levels).take(flatten(prices, levels).len() as int) =~= flatten(
            prices,
            levels,
        ));
    } else {
        lemma_flatten_prefix(prices, levels, count + 1);
        lemma_flatten_step(prices, levels, count);
        let short = flatten(prices.take(count), levels);
        let long = flatten(prices.take(count + 1), levels);
        assert(flatten(prices, levels).take(short.len() as int) =~= long.take(short.len() as int));
        assert(long.take(short.len() as int) =~= short);
    }
}

/// Every order below a bound rests in the queue of one of the prices.
pub proof fn lemma_orders_rest(levels: Levels, bound: int, index: int)
    requires
        0 <= index < orders_below(levels, bound).len(),
    ensures
        exists|price: Price, at: int|
            levels.contains_key(price) && 0 <= at < levels[price].len() && orders_below(
                levels,
                bound,
            )[index] == #[trigger] levels[price][at],
    decreases bound,
{
    if bound > 0 {
        let earlier = orders_below(levels, bound - 1);
        let price = (bound - 1) as Price;
        if index < earlier.len() {
            lemma_orders_rest(levels, bound - 1, index);
        } else {
            assert(orders_below(levels, bound)[index] == levels[price][index - earlier.len()]);
        }
    }
}

} // verus!
