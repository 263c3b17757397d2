//! The book as a mathematical value, and what each operation makes of it.
//!
//! A book is two maps of price levels, an index from uid to the side and
//! price at which the order rests, and a few counters. Every operation of
//! the book is a function from one such value to the next; the executable
//! book is proved to follow these functions step by step. The laws of the
//! book are stated and proved here, over these functions.

use vstd::prelude::*;
use crate::levels::{
    Levels, LevelRow, queued, highest, lowest, key_order, level_rows, lemma_queued_write,
    lemma_queued_erase, lemma_best,
};
use crate::links::pushed;
use crate::order::{OrderView, Price, Side, Size, Submit};
use crate::order_stack::{
    position, has_uid, distinct_uids, lemma_position, lemma_position_at, lemma_has_uid_push,
    lemma_has_uid_remove, lemma_has_uid_update, lemma_distinct_remove, lemma_position_remove,
};

verus! {

/// The unit of the outlier factor: a factor of `FACTOR_SCALE` is one.
pub const FACTOR_SCALE: u32 = 100;

/// The outlier factor of a book made without settings: two.
pub const DEFAULT_OUTLIER_FACTOR: u32 = 200;

/// The largest tree, in nodes, that a book made without settings draws.
pub const DEFAULT_DISPLAY_CUTOFF: usize = 1000;

/// The value of a book.
pub struct BookView {
    pub bids: Levels,
    pub asks: Levels,
    pub index: Map<Seq<char>, (Side, Price)>,
    pub len: nat,
    pub items_processed: nat,
    pub outliers: nat,
    pub timestamp: Seq<char>,
    pub outlier_factor: Option<nat>,
    pub bid_cutoff: nat,
    pub ask_cutoff: nat,
    pub display_cutoff: nat,
    pub error_msgs: Seq<Seq<char>>,
}

impl BookView {
    /// The price levels of one side.
    pub open spec fn side(self, side: Side) -> Levels {
        match side {
            Side::Bids => self.bids,
            Side::Asks => self.asks,
        }
    }

    /// The book with other price levels on one side.
    pub open spec fn with_side(self, side: Side, levels: Levels) -> BookView {
        match side {
            Side::Bids => BookView { bids: levels, ..self },
            Side::Asks => BookView { asks: levels, ..self },
        }
    }

    /// The depth table of one side, from the best price outward: bids by
    /// falling price, asks by rising price. Each row has its price, the sum
    /// of the sizes resting there, and the running sum of price times size.
    pub open spec fn levels(self, side: Side) -> Seq<LevelRow> {
        match side {
            Side::Bids => level_rows(key_order(self.bids).reverse(), self.bids),
            Side::Asks => level_rows(key_order(self.asks), self.asks),
        }
    }

    /// Every resting order: the bids by rising price, then the asks by
    /// rising price, each price level in the order of arrival.
    pub open spec fn orders(self) -> Seq<OrderView> {
        crate::levels::all_orders(self.bids) + crate::levels::all_orders(self.asks)
    }

    /// The number of price levels on both sides.
    pub open spec fn node_count(self) -> nat {
        key_order(self.bids).len() + key_order(self.asks).len()
    }

    /// Whether an order with `uid` rests in the book.
    pub open spec fn has(self, uid: Seq<char>) -> bool {
        self.index.contains_key(uid)
    }

    /// The queue in which the order with `uid` rests.
    pub open spec fn queue_of(self, uid: Seq<char>) -> Seq<OrderView> {
        self.side(self.index[uid].0)[self.index[uid].1]
    }

    /// The resting order with `uid`.
    pub open spec fn order(self, uid: Seq<char>) -> OrderView {
        self.queue_of(uid)[position(self.queue_of(uid), uid)]
    }

    /// The highest bid price, if there is a bid.
    pub open spec fn best_bid(self) -> Option<Price> {
        highest(self.bids)
    }

    /// The lowest ask price, if there is an ask.
    pub open spec fn best_ask(self) -> Option<Price> {
        lowest(self.asks)
    }

    /// Whether the price of `order` lies too far from the best price of its
    /// side: a bid below the best bid divided by the outlier factor, an ask
    /// above the best ask times the factor. No order is an outlier on an
    /// empty side, and none in a book without an outlier factor.
    pub open spec fn is_outlier(self, order: OrderView) -> bool {
        match self.outlier_factor {
            None => false,
            Some(factor) => match order.side {
                Side::Bids => self.best_bid() matches Some(best) && order.price * factor < best
                    * FACTOR_SCALE,
                Side::Asks => self.best_ask() matches Some(best) && order.price * FACTOR_SCALE
                    > best * factor,
            },
        }
    }

    /// Whether `order` would be the new best price of its side.
    pub open spec fn improves(self, order: OrderView) -> bool {
        match order.side {
            Side::Bids => match self.best_bid() {
                Some(best) => order.price > best,
                None => true,
            },
            Side::Asks => match self.best_ask() {
                Some(best) => order.price < best,
                None => true,
            },
        }
    }

    /// The book with the cutoff of the side of `order` set from its price,
    /// where the book has an outlier factor and that price is the new best
    /// of its side: for bids the price divided by the factor, for asks the
    /// price times the factor, each rounded down to a whole tick.
    pub open spec fn guarded(self, order: OrderView) -> BookView {
        match self.outlier_factor {
            Some(factor) if self.improves(order) => match order.side {
                Side::Bids => BookView {
                    bid_cutoff: (order.price * FACTOR_SCALE / factor as int) as nat,
                    ..self
                },
                Side::Asks => BookView {
                    ask_cutoff: (order.price * factor / FACTOR_SCALE as int) as nat,
                    ..self
                },
            },
            _ => self,
        }
    }

    /// Whether inserting `order` puts it into the book: its uid is new and
    /// its price is no outlier.
    pub open spec fn accepts(self, order: OrderView) -> bool {
        !self.has(order.uid) && !self.is_outlier(order)
    }

    /// The book after `insert(order)`. An order whose uid rests already
    /// changes nothing; an outlier is counted and dropped; any other order
    /// joins the back of the queue at its price and is entered in the index.
    pub open spec fn insert(self, order: OrderView) -> BookView {
        if self.has(order.uid) {
            self
        } else if self.is_outlier(order) {
            BookView { outliers: self.outliers + 1, ..self }
        } else {
            let levels = self.side(order.side);
            let guarded = self.guarded(order);
            BookView {
                index: self.index.insert(order.uid, (order.side, order.price)),
                len: self.len + 1,
                ..guarded.with_side(
                    order.side,
                    levels.insert(order.price, pushed(levels, order.price, order)),
                )
            }
        }
    }

    /// The price levels `levels` after the order with `uid` has left the
    /// queue at `price`; a level whose last order leaves is taken out.
    pub open spec fn without(levels: Levels, price: Price, uid: Seq<char>) -> Levels {
        if !levels.contains_key(price) {
            levels
        } else {
            let rest = if has_uid(levels[price], uid) {
                levels[price].remove(position(levels[price], uid))
            } else {
                levels[price]
            };
            if rest.len() == 0 {
                levels.remove(price)
            } else {
                levels.insert(price, rest)
            }
        }
    }

    /// The book after `remove(uid)`. An unknown uid changes nothing; else
    /// the order leaves its queue, the others keeping their order, and the
    /// index forgets it.
    pub open spec fn remove(self, uid: Seq<char>) -> BookView {
        if !self.has(uid) {
            self
        } else {
            let (side, price) = self.index[uid];
            BookView {
                index: self.index.remove(uid),
                len: (self.len - 1) as nat,
                ..self.with_side(side, Self::without(self.side(side), price, uid))
            }
        }
    }

    /// The price levels `levels` after the order with `uid` in the queue at
    /// `price` has been given the size `size`, in place.
    pub open spec fn resized(levels: Levels, price: Price, uid: Seq<char>, size: Size) -> Levels {
        if !levels.contains_key(price) || !has_uid(levels[price], uid) {
            levels
        } else {
            let at = position(levels[price], uid);
            levels.insert(price, levels[price].update(at, levels[price][at].with_size(size)))
        }
    }

    /// The book after `update(uid, size)`. An unknown uid changes nothing; a
    /// size of zero removes the order; any other size is written into the
    /// order where it stands.
    pub open spec fn update(self, uid: Seq<char>, size: Size) -> BookView {
        if !self.has(uid) {
            self
        } else if size == 0 {
            self.remove(uid)
        } else {
            let (side, price) = self.index[uid];
            self.with_side(side, Self::resized(self.side(side), price, uid, size))
        }
    }

    /// The book after `process(order, action)`: the action is applied, one
    /// more item counts as processed, and the timestamp is that of `order`.
    pub open spec fn process(self, order: OrderView, action: Submit) -> BookView {
        let applied = match action {
            Submit::Insert => self.insert(order),
            Submit::Remove => self.remove(order.uid),
            Submit::Update => self.update(order.uid, order.size),
        };
        BookView {
            items_processed: applied.items_processed + 1,
            timestamp: order.timestamp,
            ..applied
        }
    }

    /// The book without orders: empty on both sides, with the given settings.
    pub open spec fn empty(
        outlier_factor: Option<nat>,
        display_cutoff: nat,
        timestamp: Seq<char>,
    ) -> BookView {
        BookView {
            bids: Map::empty(),
            asks: Map::empty(),
            index: Map::empty(),
            len: 0,
            items_processed: 0,
            outliers: 0,
            timestamp,
            outlier_factor,
            bid_cutoff: 0,
            ask_cutoff: 0,
            display_cutoff,
            error_msgs: Seq::empty(),
        }
    }

    /// The book after an audit that found nothing: no message is left.
    pub open spec fn audited(self) -> BookView {
        BookView { error_msgs: Seq::empty(), ..self }
    }

    /// Whether two books hold the same orders at the same places: the same
    /// price levels on both sides, the same index, the same length.
    pub open spec fn same_orders(self, other: BookView) -> bool {
        &&& self.bids == other.bids
        &&& self.asks == other.asks
        &&& self.index == other.index
        &&& self.len == other.len
    }

    /// Whether the queues of one side are as the index says: none is empty,
    /// none has a uid twice, and every order in the queue at a price is an
    /// order of that side and price that the index knows to rest there.
    pub open spec fn side_valid(self, side: Side) -> bool {
        &&& forall|price: Price| #[trigger]
            self.side(side).contains_key(price) ==> self.side(side)[price].len() > 0
                && distinct_uids(self.side(side)[price])
        &&& forall|price: Price, at: int|
            self.side(side).contains_key(price) && 0 <= at < self.side(side)[price].len() ==> {
                let order = #[trigger] self.side(side)[price][at];
                &&& order.side == side
                &&& order.price == price
                &&& self.index.contains_key(order.uid)
                &&& self.index[order.uid] == (side, price)
            }
    }

    /// Whether every uid of the index rests in the queue that the index names.
    pub open spec fn index_valid(self) -> bool {
        forall|uid: Seq<char>| #[trigger]
            self.index.contains_key(uid) ==> self.side(self.index[uid].0).contains_key(
                self.index[uid].1,
            ) && has_uid(self.queue_of(uid), uid)
    }

    /// The invariant of the book: index and queues name each other, one for
    /// one; no price level is empty; and the length of the book is the
    /// number of uids in the index and the sum of the lengths of all queues.
    pub open spec fn valid(self) -> bool {
        &&& self.index.dom().finite()
        &&& self.len == self.index.len()
        &&& self.len == queued(self.bids) + queued(self.asks)
        &&& self.side_valid(Side::Bids)
        &&& self.side_valid(Side::Asks)
        &&& self.index_valid()
        &&& self.outlier_factor != Some(0nat)
    }
}

/// The other side.
pub open spec fn opposite(side: Side) -> Side {
    match side {
        Side::Bids => Side::Asks,
        Side::Asks => Side::Bids,
    }
}

/// In a valid book an order resting in a queue has a uid that no order of
/// any other queue has.
pub proof fn lemma_uid_place(book: BookView, side: Side, price: Price, at: int, uid: Seq<char>)
    requires
        book.valid(),
        book.side(side).contains_key(price),
        0 <= at < book.side(side)[price].len(),
        book.side(side)[price][at].uid == uid,
    ensures
        book.has(uid),
        book.index[uid] == (side, price),
        position(book.side(side)[price], uid) == at,
{
    let order = book.side(side)[price][at];
    match side {
        Side::Bids => {
            assert(book.side_valid(Side::Bids));
        },
        Side::Asks => {
            assert(book.side_valid(Side::Asks));
        },
    }
    lemma_position_at(book.side(side)[price], at);
}

/// An order whose uid is new to a valid book is in none of its queues.
pub proof fn lemma_new_uid(book: BookView, side: Side, price: Price, uid: Seq<char>)
    requires
        book.valid(),
        !book.has(uid),
        book.side(side).contains_key(price),
    ensures
        !has_uid(book.side(side)[price], uid),
{
    let queue = book.side(side)[price];
    lemma_position(queue, uid);
    if has_uid(queue, uid) {
        lemma_uid_place(book, side, price, position(queue, uid), uid);
    }
}

/// Inserting an order: the price levels of its side and of the other side.
pub proof fn lemma_insert_sides(book: BookView, order: OrderView)
    requires
        book.accepts(order),
    ensures
        book.insert(order).side(order.side) == book.side(order.side).insert(
            order.price,
            pushed(book.side(order.side), order.price, order),
        ),
        book.insert(order).side(opposite(order.side)) == book.side(opposite(order.side)),
        book.insert(order).index == book.index.insert(order.uid, (order.side, order.price)),
        book.insert(order).len == book.len + 1,
        book.insert(order).outlier_factor == book.outlier_factor,
        book.insert(order).outliers == book.outliers,
        book.insert(order).items_processed == book.items_processed,
        book.insert(order).timestamp == book.timestamp,
        book.insert(order).display_cutoff == book.display_cutoff,
{
}

/// Removing an order: the price levels of its side and of the other side.
pub proof fn lemma_remove_sides(book: BookView, uid: Seq<char>)
    requires
        book.has(uid),
    ensures
        book.remove(uid).side(book.index[uid].0) == BookView::without(
            book.side(book.index[uid].0),
            book.index[uid].1,
            uid,
        ),
        book.remove(uid).side(opposite(book.index[uid].0)) == book.side(opposite(book.index[uid].0)),
        book.remove(uid).index == book.index.remove(uid),
        book.remove(uid).len == book.len - 1 || book.len == 0,
        book.remove(uid).outlier_factor == book.outlier_factor,
{
}

/// An insert keeps a valid book valid.
pub proof fn lemma_insert_valid(book: BookView, order: OrderView)
    requires
        book.valid(),
    ensures
        book.insert(order).valid(),
{
    if book.accepts(order) {
        let after = book.insert(order);
        let side = order.side;
        let other = opposite(side);
        let price = order.price;
        let uid = order.uid;
        let levels = book.side(side);
        let queue = pushed(levels, price, order);
        lemma_insert_sides(book, order);
        assert(after.index.dom() =~= book.index.dom().insert(uid));
        lemma_queued_write(levels, price, queue);
        if levels.contains_key(price) {
            lemma_new_uid(book, side, price, uid);
            lemma_position(levels[price], uid);
        }
        assert(book.side_valid(side) && book.side_valid(other)) by {
            match side {
                Side::Bids => {},
                Side::Asks => {},
            }
        }
        assert(queue.len() > 0 && distinct_uids(queue) && queue.last() == order);
        assert forall|p: Price, at: int|
            after.side(side).contains_key(p) && 0 <= at < after.side(side)[p].len() implies {
            let resting = #[trigger] after.side(side)[p][at];
            &&& resting.side == side
            &&& resting.price == p
            &&& after.index.contains_key(resting.uid)
            &&& after.index[resting.uid] == (side, p)
        } by {
            if p == price {
                if at < queue.len() - 1 {
                    assert(queue[at] == levels[price][at]);
                }
            } else {
                assert(after.side(side)[p][at] == levels[p][at]);
            }
        }
        assert forall|p: Price| #[trigger] after.side(side).contains_key(p) implies after.side(side)[p].len()
            > 0 && distinct_uids(after.side(side)[p]) by {
            if p != price {
                assert(levels.contains_key(p));
            }
        }
        assert(after.side_valid(side));
        assert forall|p: Price, at: int|
            after.side(other).contains_key(p) && 0 <= at < after.side(other)[p].len() implies {
            let resting = #[trigger] after.side(other)[p][at];
            &&& resting.side == other
            &&& resting.price == p
            &&& after.index.contains_key(resting.uid)
            &&& after.index[resting.uid] == (other, p)
        } by {
            assert(after.side(other)[p][at] == book.side(other)[p][at]);
        }
        assert(after.side_valid(other));
        assert forall|known: Seq<char>| #[trigger] after.index.contains_key(known) implies after.side(
            after.index[known].0,
        ).contains_key(after.index[known].1) && has_uid(after.queue_of(known), known) by {
            if known == uid {
                if levels.contains_key(price) {
                    lemma_has_uid_push(levels[price], order, uid);
                } else {
                    lemma_has_uid_push(Seq::empty(), order, uid);
                    assert(Seq::<OrderView>::empty().push(order) =~= seq![order]);
                }
            } else {
                assert(book.index.contains_key(known));
                let (s, p) = book.index[known];
                if s == side && p == price {
                    lemma_has_uid_push(levels[price], order, known);
                }
            }
        }
        assert(after.index_valid());
        match side {
            Side::Bids => {},
            Side::Asks => {},
        }
    }
}

/// A remove keeps a valid book valid.
pub proof fn lemma_remove_valid(book: BookView, uid: Seq<char>)
    requires
        book.valid(),
    ensures
        book.remove(uid).valid(),
{
    if book.has(uid) {
        let after = book.remove(uid);
        let (side, price) = book.index[uid];
        let other = opposite(side);
        let levels = book.side(side);
        let queue = levels[price];
        let at = position(queue, uid);
        let rest = queue.remove(at);
        lemma_remove_sides(book, uid);
        lemma_position(queue, uid);
        assert(book.index_valid());
        assert(levels.contains_key(price) && has_uid(queue, uid));
        assert(book.side_valid(side) && book.side_valid(other)) by {
            match side {
                Side::Bids => {},
                Side::Asks => {},
            }
        }
        assert(after.index.dom() =~= book.index.dom().remove(uid));
        lemma_distinct_remove(queue, at);
        lemma_position_at(queue, at);
        if rest.len() == 0 {
            lemma_queued_erase(levels, price);
        } else {
            lemma_queued_write(levels, price, rest);
        }
        assert forall|p: Price, i: int|
            after.side(side).contains_key(p) && 0 <= i < after.side(side)[p].len() implies {
            let resting = #[trigger] after.side(side)[p][i];
            &&& resting.side == side
            &&& resting.price == p
            &&& after.index.contains_key(resting.uid)
            &&& after.index[resting.uid] == (side, p)
        } by {
            if p == price {
                let from = if i < at { i } else { i + 1 };
                assert(rest[i] == queue[from]);
                assert(queue[from].uid != queue[at].uid);
            } else {
                let resting = levels[p][i];
                assert(after.side(side)[p][i] == resting);
                assert(book.index[resting.uid] == (side, p));
            }
        }
        assert forall|p: Price| #[trigger] after.side(side).contains_key(p) implies after.side(side)[p].len()
            > 0 && distinct_uids(after.side(side)[p]) by {
            if p != price {
                assert(levels.contains_key(p));
            }
        }
        assert(after.side_valid(side));
        assert forall|p: Price, i: int|
            after.side(other).contains_key(p) && 0 <= i < after.side(other)[p].len() implies {
            let resting = #[trigger] after.side(other)[p][i];
            &&& resting.side == other
            &&& resting.price == p
            &&& after.index.contains_key(resting.uid)
            &&& after.index[resting.uid] == (other, p)
        } by {
            let resting = book.side(other)[p][i];
            assert(after.side(other)[p][i] == resting);
            assert(book.index[resting.uid] == (other, p));
        }
        assert(after.side_valid(other));
        assert forall|known: Seq<char>| #[trigger] after.index.contains_key(known) implies after.side(
            after.index[known].0,
        ).contains_key(after.index[known].1) && has_uid(after.queue_of(known), known) by {
            assert(book.index.contains_key(known));
            let (s, p) = book.index[known];
            if s == side && p == price {
                lemma_has_uid_remove(queue, at, known);
                lemma_position(rest, known);
            }
        }
        assert(after.index_valid());
        match side {
            Side::Bids => {
                assert(after.len == queued(after.bids) + queued(after.asks));
            },
            Side::Asks => {
                assert(after.len == queued(after.bids) + queued(after.asks));
            },
        }
    }
}

/// An update keeps a valid book valid.
pub proof fn lemma_update_valid(book: BookView, uid: Seq<char>, size: Size)
    requires
        book.valid(),
    ensures
        book.update(uid, size).valid(),
{
    if book.has(uid) {
        if size == 0 {
            lemma_remove_valid(book, uid);
        } else {
            let after = book.update(uid, size);
            let (side, price) = book.index[uid];
            let other = opposite(side);
            let levels = book.side(side);
            let queue = levels[price];
            let at = position(queue, uid);
            let edited = queue.update(at, queue[at].with_size(size));
            lemma_position(queue, uid);
            assert(book.index_valid());
            assert(levels.contains_key(price) && has_uid(queue, uid));
            assert(book.side_valid(side) && book.side_valid(other)) by {
                match side {
                    Side::Bids => {},
                    Side::Asks => {},
                }
            }
            assert(after.side(side) == levels.insert(price, edited)) by {
                match side {
                    Side::Bids => {},
                    Side::Asks => {},
                }
            }
            assert(after.side(other) == book.side(other)) by {
                match side {
                    Side::Bids => {},
                    Side::Asks => {},
                }
            }
            lemma_queued_write(levels, price, edited);
            assert(distinct_uids(edited)) by {
                assert forall|i: int, j: int|
                    0 <= i < edited.len() && 0 <= j < edited.len() && i != j implies edited[i].uid
                    != edited[j].uid by {
                    assert(edited[i].uid == queue[i].uid);
                    assert(edited[j].uid == queue[j].uid);
                }
            }
            assert forall|p: Price, i: int|
                after.side(side).contains_key(p) && 0 <= i < after.side(side)[p].len() implies {
                let resting = #[trigger] after.side(side)[p][i];
                &&& resting.side == side
                &&& resting.price == p
                &&& after.index.contains_key(resting.uid)
                &&& after.index[resting.uid] == (side, p)
            } by {
                if p == price {
                    let was = queue[i];
                    assert(edited[i].uid == was.uid && edited[i].side == was.side && edited[i].price
                        == was.price);
                } else {
                    assert(after.side(side)[p][i] == levels[p][i]);
                }
            }
            assert forall|p: Price| #[trigger] after.side(side).contains_key(p) implies after.side(
                side,
            )[p].len() > 0 && distinct_uids(after.side(side)[p]) by {
                if p != price {
                    assert(levels.contains_key(p));
                }
            }
            assert(after.side_valid(side));
            assert forall|p: Price, i: int|
                after.side(other).contains_key(p) && 0 <= i < after.side(other)[p].len() implies {
                let resting = #[trigger] after.side(other)[p][i];
                &&& resting.side == other
                &&& resting.price == p
                &&& after.index.contains_key(resting.uid)
                &&& after.index[resting.uid] == (other, p)
            } by {
                assert(after.side(other)[p][i] == book.side(other)[p][i]);
            }
            assert(after.side_valid(other));
            assert forall|known: Seq<char>| #[trigger] after.index.contains_key(known) implies after.side(
                after.index[known].0,
            ).contains_key(after.index[known].1) && has_uid(after.queue_of(known), known) by {
                let (s, p) = book.index[known];
                if s == side && p == price {
                    lemma_has_uid_update(queue, at, queue[at].with_size(size), known);
                }
            }
            assert(after.index_valid());
            match side {
                Side::Bids => {
                    assert(after.len == queued(after.bids) + queued(after.asks));
                },
                Side::Asks => {
                    assert(after.len == queued(after.bids) + queued(after.asks));
                },
            }
        }
    }
}

/// Processing an item keeps a valid book valid.
pub proof fn lemma_process_valid(book: BookView, order: OrderView, action: Submit)
    requires
        book.valid(),
    ensures
        book.process(order, action).valid(),
{
    lemma_insert_valid(book, order);
    lemma_remove_valid(book, order.uid);
    lemma_update_valid(book, order.uid, order.size);
}

/// No price level of empty levels holds an order.
pub proof fn lemma_queued_empty()
    ensures
        queued(Map::<Price, Seq<OrderView>>::empty()) == 0,
{
    crate::levels::lemma_orders_none(Map::<Price, Seq<OrderView>>::empty(), crate::levels::price_bound());
}

/// An empty book without a factor, or with one above zero, is valid.
pub proof fn lemma_empty_valid(outlier_factor: Option<nat>, display_cutoff: nat, timestamp: Seq<char>)
    requires
        outlier_factor != Some(0nat),
    ensures
        BookView::empty(outlier_factor, display_cutoff, timestamp).valid(),
{
    lemma_queued_empty();
}

/// Insert and remove undo each other: an order with a new uid, inserted
/// and removed again, leaves the orders of a valid book as they were. The
/// count of outliers and the cutoffs may differ.
pub proof fn lemma_insert_remove(book: BookView, order: OrderView)
    requires
        book.valid(),
        !book.has(order.uid),
    ensures
        book.insert(order).remove(order.uid).same_orders(book),
{
    if book.accepts(order) {
        let side = order.side;
        let price = order.price;
        let uid = order.uid;
        let levels = book.side(side);
        let queue = pushed(levels, price, order);
        let between = book.insert(order);
        let after = between.remove(uid);
        lemma_insert_sides(book, order);
        lemma_remove_sides(between, uid);
        if levels.contains_key(price) {
            lemma_new_uid(book, side, price, uid);
            lemma_has_uid_push(levels[price], order, uid);
            assert(queue.remove(levels[price].len() as int) =~= levels[price]);
            assert(book.side_valid(side)) by {
                match side {
                    Side::Bids => {},
                    Side::Asks => {},
                }
            }
        } else {
            lemma_has_uid_push(Seq::empty(), order, uid);
            assert(Seq::<OrderView>::empty().push(order) =~= seq![order]);
            assert(queue.remove(0) =~= Seq::<OrderView>::empty());
        }
        assert(after.side(side) =~= levels);
        assert(after.index =~= book.index);
        match side {
            Side::Bids => {},
            Side::Asks => {},
        }
    }
}

/// A second remove of the same uid changes nothing.
pub proof fn lemma_remove_twice(book: BookView, uid: Seq<char>)
    ensures
        book.remove(uid).remove(uid) == book.remove(uid),
{
}

/// An update of a uid that the book does not have changes nothing.
pub proof fn lemma_update_unknown(book: BookView, uid: Seq<char>, size: Size)
    requires
        !book.has(uid),
    ensures
        book.update(uid, size) == book,
{
}

/// An update to size zero is a remove.
pub proof fn lemma_update_zero(book: BookView, uid: Seq<char>)
    ensures
        book.update(uid, 0) == book.remove(uid),
{
}

/// Every processed item counts once, whatever becomes of it, and at most
/// once as an outlier; so a book that has counted no more outliers than
/// items goes on doing so.
pub proof fn lemma_counters(book: BookView, order: OrderView, action: Submit)
    ensures
        book.process(order, action).items_processed == book.items_processed + 1,
        book.outliers <= book.process(order, action).outliers <= book.outliers + 1,
        book.outliers <= book.items_processed ==> book.process(order, action).outliers
            <= book.process(order, action).items_processed,
{
}

/// The best bid is the highest of all bid prices and the best ask the
/// lowest of all ask prices; a side without orders has no best price.
pub proof fn lemma_best_prices(book: BookView)
    ensures
        book.best_bid() is None <==> forall|price: Price| !book.bids.contains_key(price),
        book.best_ask() is None <==> forall|price: Price| !book.asks.contains_key(price),
        book.best_bid() matches Some(best) ==> book.bids.contains_key(best) && forall|price: Price|
            book.bids.contains_key(price) ==> price <= best,
        book.best_ask() matches Some(best) ==> book.asks.contains_key(best) && forall|price: Price|
            book.asks.contains_key(price) ==> best <= price,
{
    lemma_best(book.bids);
    lemma_best(book.asks);
}

/// What an operation does to one queue, seen as a relation between the
/// queue before and the queue after: an order joins at the back, an order
/// leaves, an order changes its size where it stands, or nothing happens.
pub open spec fn queue_step(before: Seq<OrderView>, after: Seq<OrderView>) -> bool {
    ||| after == before
    ||| exists|order: OrderView| !has_uid(before, order.uid) && after == before.push(order)
    ||| exists|at: int| 0 <= at < before.len() && after == before.remove(at)
    ||| exists|at: int, size: Size|
        0 <= at < before.len() && after == before.update(at, before[at].with_size(size))
}

/// One operation changes each queue of a valid book by one `queue_step` at
/// most; a queue that is new holds the one order that came.
pub proof fn lemma_queue_steps(book: BookView, order: OrderView, action: Submit, side: Side, price: Price)
    requires
        book.valid(),
        book.process(order, action).side(side).contains_key(price),
    ensures
        book.side(side).contains_key(price) ==> queue_step(
            book.side(side)[price],
            book.process(order, action).side(side)[price],
        ),
        !book.side(side).contains_key(price) ==> book.process(order, action).side(side)[price]
            == seq![order],
{
    let after = book.process(order, action);
    let uid = order.uid;
    let before = book.side(side)[price];
    let queue = after.side(side)[price];
    match action {
        Submit::Insert => {
            if book.accepts(order) {
                lemma_insert_sides(book, order);
                if order.side == side && order.price == price {
                    if book.side(side).contains_key(price) {
                        lemma_new_uid(book, side, price, uid);
                        assert(queue == before.push(order));
                    }
                } else {
                    match side {
                        Side::Bids => {},
                        Side::Asks => {},
                    }
                }
            }
        },
        Submit::Remove => {
            lemma_queue_leaves(book, uid, side, price);
        },
        Submit::Update => {
            if book.has(uid) {
                if order.size == 0 {
                    lemma_queue_leaves(book, uid, side, price);
                } else {
                    let (s, p) = book.index[uid];
                    assert(book.index_valid());
                    lemma_position(book.side(s)[p], uid);
                    if s == side && p == price {
                        let at = position(before, uid);
                        assert(queue == before.update(at, before[at].with_size(order.size))) by {
                            match side {
                                Side::Bids => {},
                                Side::Asks => {},
                            }
                        }
                    } else {
                        match side {
                            Side::Bids => {},
                            Side::Asks => {},
                        }
                        match s {
                            Side::Bids => {},
                            Side::Asks => {},
                        }
                    }
                }
            }
        },
    }
}

/// What a remove does to one queue of a valid book.
proof fn lemma_queue_leaves(book: BookView, uid: Seq<char>, side: Side, price: Price)
    requires
        book.valid(),
        book.remove(uid).side(side).contains_key(price),
    ensures
        book.side(side).contains_key(price),
        queue_step(book.side(side)[price], book.remove(uid).side(side)[price]),
{
    if book.has(uid) {
        let (s, p) = book.index[uid];
        let before = book.side(side)[price];
        let queue = book.remove(uid).side(side)[price];
        assert(book.index_valid());
        lemma_remove_sides(book, uid);
        lemma_position(book.side(s)[p], uid);
        if s == side && p == price {
            let at = position(before, uid);
            assert(queue == before.remove(at));
        } else {
            match side {
                Side::Bids => {},
                Side::Asks => {},
            }
            match s {
                Side::Bids => {},
                Side::Asks => {},
            }
        }
    }
}

/// First in, first out: a step of a queue without a uid twice keeps the
/// order of its orders. Of two orders that stand in the queue before and
/// after, the one that stood in front stands in front; and an order that is
/// new to the queue stands behind every order that was there.
pub proof fn lemma_fifo(before: Seq<OrderView>, after: Seq<OrderView>, first: Seq<char>, second: Seq<char>)
    requires
        distinct_uids(before),
        queue_step(before, after),
        has_uid(before, first),
        has_uid(after, first),
        has_uid(after, second),
        first != second,
    ensures
        has_uid(before, second) ==> (position(after, first) < position(after, second)) == (position(
            before,
            first,
        ) < position(before, second)),
        !has_uid(before, second) ==> position(after, first) < position(after, second),
{
    lemma_position(before, first);
    lemma_position(before, second);
    lemma_position(after, first);
    lemma_position(after, second);
    if after == before {
    } else if exists|order: OrderView| !has_uid(before, order.uid) && after == before.push(order) {
        let order = choose|order: OrderView| !has_uid(before, order.uid) && after == before.push(order);
        lemma_has_uid_push(before, order, first);
        lemma_has_uid_push(before, order, second);
    } else if exists|at: int| 0 <= at < before.len() && after == before.remove(at) {
        let at = choose|at: int| 0 <= at < before.len() && after == before.remove(at);
        let now = position(after, first);
        let from = if now < at { now } else { now + 1 };
        assert(after[now] == before[from]);
        let here = position(after, second);
        let there = if here < at { here } else { here + 1 };
        assert(after[here] == before[there]);
        lemma_has_uid_remove(before, at, first);
        lemma_position_remove(before, at, first);
        lemma_has_uid_remove(before, at, second);
        lemma_position_remove(before, at, second);
    } else {
        let (at, size) = choose|at: int, size: Size|
            0 <= at < before.len() && after == before.update(at, before[at].with_size(size));
        lemma_has_uid_update(before, at, before[at].with_size(size), first);
        lemma_has_uid_update(before, at, before[at].with_size(size), second);
    }
}

} // verus!
