//! The queue of orders resting at one price.

use vstd::prelude::*;
use crate::order::{Order, OrderView};

verus! {

/// The first position at or after `from` whose order has `uid`, or the length
/// of `orders` where there is none.
pub open spec fn position_from(orders: Seq<OrderView>, uid: Seq<char>, from: int) -> int
    decreases orders.len() - from,
{
    if from < 0 || from >= orders.len() {
        orders.len() as int
    } else if orders[from].uid == uid {
        from
    } else {
        position_from(orders, uid, from + 1)
    }
}

/// The position of the first order with `uid`, or the length of `orders`.
pub open spec fn position(orders: Seq<OrderView>, uid: Seq<char>) -> int {
    position_from(orders, uid, 0)
}

/// Whether some order in `orders` has `uid`.
pub open spec fn has_uid(orders: Seq<OrderView>, uid: Seq<char>) -> bool {
    position(orders, uid) < orders.len()
}

/// Whether no two orders in `orders` share a uid.
pub open spec fn distinct_uids(orders: Seq<OrderView>) -> bool {
    forall|i: int, j: int|
        0 <= i < orders.len() && 0 <= j < orders.len() && i != j ==> orders[i].uid != orders[j].uid
}

/// The sum of the sizes of `orders`.
pub open spec fn total_size(orders: Seq<OrderView>) -> nat
    decreases orders.len(),
{
    if orders.len() == 0 {
        0
    } else {
        total_size(orders.drop_last()) + orders.last().size as nat
    }
}

/// What `position_from` finds lies in range, matches, and is the first match.
pub proof fn lemma_position_from(orders: Seq<OrderView>, uid: Seq<char>, from: int)
    requires
        0 <= from <= orders.len(),
    ensures
        from <= position_from(orders, uid, from) <= orders.len(),
        position_from(orders, uid, from) < orders.len() ==> orders[position_from(
            orders,
            uid,
            from,
        )].uid == uid,
        forall|k: int| from <= k < position_from(orders, uid, from) ==> orders[k].uid != uid,
    decreases orders.len() - from,
{
    if from < orders.len() && orders[from].uid != uid {
        lemma_position_from(orders, uid, from + 1);
    }
}

/// `position` lies in range, matches, and is the first match.
pub proof fn lemma_position(orders: Seq<OrderView>, uid: Seq<char>)
    ensures
        0 <= position(orders, uid) <= orders.len(),
        has_uid(orders, uid) ==> orders[position(orders, uid)].uid == uid,
        forall|k: int| 0 <= k < position(orders, uid) ==> orders[k].uid != uid,
        has_uid(orders, uid) <==> exists|k: int| 0 <= k < orders.len() && orders[k].uid == uid,
{
    lemma_position_from(orders, uid, 0);
    if !has_uid(orders, uid) {
        assert(forall|k: int| 0 <= k < orders.len() ==> orders[k].uid != uid);
    }
}

/// An index whose order has `uid`, with no match before it, is the position of `uid`.
pub proof fn lemma_position_is(orders: Seq<OrderView>, uid: Seq<char>, at: int)
    requires
        0 <= at <= orders.len(),
        at < orders.len() ==> orders[at].uid == uid,
        forall|k: int| 0 <= k < at ==> orders[k].uid != uid,
    ensures
        position(orders, uid) == at,
{
    lemma_position(orders, uid);
}

/// No queue weighs more than its length times the largest size.
pub proof fn lemma_total_size_bound(orders: Seq<OrderView>)
    ensures
        total_size(orders) <= orders.len() * 0xffff_ffff,
    decreases orders.len(),
{
    if orders.len() > 0 {
        lemma_total_size_bound(orders.drop_last());
        assert((orders.len() - 1) * 0xffff_ffff + 0xffff_ffff == orders.len() * 0xffff_ffff)
            by (nonlinear_arith);
    }
}

/// The order at an index has its own uid; where no two orders share a uid,
/// the index is the position of that uid.
pub proof fn lemma_position_at(orders: Seq<OrderView>, at: int)
    requires
        0 <= at < orders.len(),
    ensures
        has_uid(orders, orders[at].uid),
        distinct_uids(orders) ==> position(orders, orders[at].uid) == at,
{
    lemma_position(orders, orders[at].uid);
}

/// Which uids a queue has after an order has joined it at the back.
pub proof fn lemma_has_uid_push(orders: Seq<OrderView>, order: OrderView, uid: Seq<char>)
    ensures
        has_uid(orders.push(order), uid) == (has_uid(orders, uid) || order.uid == uid),
        has_uid(orders, uid) ==> position(orders.push(order), uid) == position(orders, uid),
        !has_uid(orders, uid) && order.uid == uid ==> position(orders.push(order), uid)
            == orders.len(),
{
    let longer = orders.push(order);
    lemma_position(orders, uid);
    lemma_position(longer, uid);
    if has_uid(orders, uid) {
        let at = position(orders, uid);
        assert(longer[at].uid == uid);
        assert forall|k: int| 0 <= k < at implies longer[k].uid != uid by {
            assert(longer[k] == orders[k]);
        }
        lemma_position_is(longer, uid, at);
    } else if order.uid == uid {
        assert(longer[orders.len() as int].uid == uid);
        assert forall|k: int| 0 <= k < orders.len() implies longer[k].uid != uid by {
            assert(longer[k] == orders[k]);
        }
        lemma_position_is(longer, uid, orders.len() as int);
    } else {
        if has_uid(longer, uid) {
            let at = position(longer, uid);
            assert(longer[at] == orders[at]);
        }
    }
}

/// Which uids a queue has after the order at an index has left it.
pub proof fn lemma_has_uid_remove(orders: Seq<OrderView>, at: int, uid: Seq<char>)
    requires
        0 <= at < orders.len(),
        orders[at].uid != uid,
    ensures
        has_uid(orders.remove(at), uid) == has_uid(orders, uid),
{
    let shorter = orders.remove(at);
    lemma_position(orders, uid);
    lemma_position(shorter, uid);
    if has_uid(orders, uid) {
        let k = position(orders, uid);
        if k < at {
            assert(shorter[k].uid == uid);
        } else {
            assert(shorter[k - 1].uid == uid);
        }
    }
    if has_uid(shorter, uid) {
        let k = position(shorter, uid);
        if k < at {
            assert(orders[k].uid == uid);
        } else {
            assert(orders[k + 1].uid == uid);
        }
    }
}

/// Which uids a queue has after one order was replaced by one with the same uid.
pub proof fn lemma_has_uid_update(orders: Seq<OrderView>, at: int, order: OrderView, uid: Seq<char>)
    requires
        0 <= at < orders.len(),
        orders[at].uid == order.uid,
    ensures
        has_uid(orders.update(at, order), uid) == has_uid(orders, uid),
        position(orders.update(at, order), uid) == position(orders, uid),
{
    let edited = orders.update(at, order);
    lemma_position(orders, uid);
    let k = position(orders, uid);
    assert forall|j: int| 0 <= j < k implies edited[j].uid != uid by {
        assert(orders[j].uid != uid);
    }
    if k < orders.len() {
        assert(edited[k].uid == uid);
    }
    lemma_position_is(edited, uid, k);
}

/// Where a uid stands in a queue after another order has left it: where it
/// stood, or one place further to the front if it stood behind that order.
pub proof fn lemma_position_remove(orders: Seq<OrderView>, at: int, uid: Seq<char>)
    requires
        0 <= at < orders.len(),
        orders[at].uid != uid,
        has_uid(orders, uid),
    ensures
        position(orders.remove(at), uid) == if position(orders, uid) < at {
            position(orders, uid)
        } else {
            position(orders, uid) - 1
        },
{
    let shorter = orders.remove(at);
    lemma_position(orders, uid);
    let was = position(orders, uid);
    let now = if was < at { was } else { was - 1 };
    assert(shorter[now].uid == uid);
    assert forall|k: int| 0 <= k < now implies shorter[k].uid != uid by {
        if k < at {
            assert(shorter[k] == orders[k]);
        } else {
            assert(shorter[k] == orders[k + 1]);
        }
    }
    lemma_position_is(shorter, uid, now);
}

/// A queue without one of its orders has no uid twice if it had none twice.
pub proof fn lemma_distinct_remove(orders: Seq<OrderView>, at: int)
    requires
        0 <= at < orders.len(),
        distinct_uids(orders),
    ensures
        distinct_uids(orders.remove(at)),
{
    let shorter = orders.remove(at);
    assert forall|i: int, j: int|
        0 <= i < shorter.len() && 0 <= j < shorter.len() && i != j implies shorter[i].uid
        != shorter[j].uid by {
        let i0 = if i < at { i } else { i + 1 };
        let j0 = if j < at { j } else { j + 1 };
        assert(shorter[i] == orders[i0]);
        assert(shorter[j] == orders[j0]);
    }
}

/// Orders at one price, earliest arrival first.
pub struct OrderStack(Vec<Order>);

impl View for OrderStack {
    type V = Seq<OrderView>;

    closed spec fn view(&self) -> Seq<OrderView> {
        self.0@.map_values(|order: Order| order@)
    }
}

impl OrderStack {
    /// An empty queue.
    pub fn new() -> (stack: OrderStack)
        ensures
            stack@ == Seq::<OrderView>::empty(),
    {
        let stack = OrderStack(Vec::new());
        assert(stack@ =~= Seq::<OrderView>::empty());
        stack
    }

    /// Whether no order rests here.
    pub fn is_empty(&self) -> (empty: bool)
        ensures
            empty == (self@.len() == 0),
    {
        self.0.len() == 0
    }

    /// The number of orders resting here.
    pub fn len(&self) -> (count: usize)
        ensures
            count == self@.len(),
    {
        self.0.len()
    }

    /// The index of the first order with `uid`, or the length where there is none.
    fn find(&self, uid: &String) -> (at: usize)
        ensures
            at == position(self@, uid@),
            at <= self@.len(),
            self@.len() == self.0@.len(),
            at < self@.len() ==> self@[at as int] == self.0@[at as int]@,
    {
        let mut at: usize = 0;
        while at < self.0.len() && !(self.0[at].uid == *uid)
            invariant
                at <= self.0@.len(),
                self@.len() == self.0@.len(),
                forall|k: int| 0 <= k < at ==> self@[k].uid != uid@,
            decreases self.0@.len() - at,
        {
            at += 1;
        }
        proof {
            lemma_position_is(self@, uid@, at as int);
        }
        at
    }

    /// The order at `index`, counted from the front, if there is one.
    pub fn get(&self, index: usize) -> (found: Option<&Order>)
        ensures
            match found {
                Some(order) => index < self@.len() && order@ == self@[index as int],
                None => index >= self@.len(),
            },
    {
        if index < self.0.len() {
            Some(&self.0[index])
        } else {
            None
        }
    }

    /// The first order with `order_uid`, if any.
    pub fn get_order(&self, order_uid: String) -> (found: Option<&Order>)
        ensures
            match found {
                Some(order) => has_uid(self@, order_uid@) && order@ == self@[position(
                    self@,
                    order_uid@,
                )],
                None => !has_uid(self@, order_uid@),
            },
    {
        let at = self.find(&order_uid);
        if at < self.0.len() {
            Some(&self.0[at])
        } else {
            None
        }
    }

    /// The first order with `order_uid`, if any, for editing in place. Its
    /// place in the queue stays what it was.
    pub fn get_order_mut(&mut self, order_uid: String) -> (found: Option<&mut Order>)
        ensures
            match found {
                Some(order) => {
                    &&& has_uid(old(self)@, order_uid@)
                    &&& order@ == old(self)@[position(old(self)@, order_uid@)]
                    &&& final(self)@ == old(self)@.update(
                        position(old(self)@, order_uid@),
                        final(order)@,
                    )
                },
                None => !has_uid(old(self)@, order_uid@) && final(self)@ == old(self)@,
            },
    {
        let at = self.find(&order_uid);
        if at < self.0.len() {
            let ghost before = self.0@;
            let order = &mut self.0[at];
            proof {
                let after = after_borrow(self.0)@;
                assert(after.map_values(|o: Order| o@) =~= before.map_values(|o: Order| o@).update(
                    at as int,
                    final(order)@,
                ));
            }
            Some(order)
        } else {
            None
        }
    }

    /// Appends `order` behind every order already here.
    pub fn push_back(&mut self, order: Order)
        ensures
            final(self)@ == old(self)@.push(order@),
    {
        self.0.push(order);
        assert(self@ =~= old(self)@.push(order@));
    }

    /// Takes the earliest order out, if there is one.
    pub fn pop_front(&mut self) -> (front: Option<Order>)
        ensures
            match front {
                Some(order) => old(self)@.len() > 0 && order@ == old(self)@[0] && final(self)@
                    == old(self)@.drop_first(),
                None => old(self)@.len() == 0 && final(self)@ == old(self)@,
            },
    {
        if self.0.len() == 0 {
            None
        } else {
            let order = self.0.remove(0);
            assert(self@ =~= old(self)@.drop_first());
            Some(order)
        }
    }

    /// Takes the first order with `order_uid` out, if any; the others keep their order.
    pub fn remove(&mut self, order_uid: String) -> (removed: Option<Order>)
        ensures
            match removed {
                Some(order) => {
                    &&& has_uid(old(self)@, order_uid@)
                    &&& order@ == old(self)@[position(old(self)@, order_uid@)]
                    &&& final(self)@ == old(self)@.remove(position(old(self)@, order_uid@))
                },
                None => !has_uid(old(self)@, order_uid@) && final(self)@ == old(self)@,
            },
    {
        let at = self.find(&order_uid);
        if at < self.0.len() {
            let order = self.0.remove(at);
            assert(self@ =~= old(self)@.remove(at as int));
            Some(order)
        } else {
            None
        }
    }

    /// The sum of the sizes of the orders resting here.
    pub fn cum_order_size(&self) -> (sum: u128)
        ensures
            sum == total_size(self@),
    {
        self.size()
    }

    /// The sum of the sizes of the orders resting here.
    pub fn size(&self) -> (sum: u128)
        ensures
            sum == total_size(self@),
    {
        let mut sum: u128 = 0;
        let mut at: usize = 0;
        while at < self.0.len()
            invariant
                at <= self.0@.len(),
                self@.len() == self.0@.len(),
                sum == total_size(self@.subrange(0, at as int)),
                sum <= at * 0xffff_ffff,
            decreases self.0@.len() - at,
        {
            proof {
                let next = self@.subrange(0, at + 1);
                assert(next.drop_last() =~= self@.subrange(0, at as int));
                assert(next.last() == self.0@[at as int]@);
                assert((at + 1) * 0xffff_ffff == at * 0xffff_ffff + 0xffff_ffff)
                    by (nonlinear_arith);
                assert(at * 0xffff_ffff <= 0xffff_ffff_ffff_ffff * 0xffff_ffff) by (nonlinear_arith)
                    requires
                        at <= 0xffff_ffff_ffff_ffff,
                ;
            }
            sum = sum + self.0[at].size as u128;
            at += 1;
        }
        assert(self@.subrange(0, at as int) =~= self@);
        sum
    }
}

} // verus!
