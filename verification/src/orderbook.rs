//! The limit order book: two trees of price levels and an index of uids.

use vstd::prelude::*;
use crate::avl_tree::AVLTree;
use crate::links::Node;
use crate::clock::utc_timestamp;
use crate::index::OrderIndex;
use crate::display::{texts, write_decimal, write_rows, join, decimal, rows_text, join_lines};
use crate::levels::{
    Levels, key_order, highest, lowest, queued, listed, level_rows, rows_view, row_view,
    running_total, all_orders, lemma_listed_all, lemma_listed_take, lemma_rows_bound, flatten,
    lemma_flatten_step, lemma_flatten_below, price_bound,
};
use crate::model::{
    BookView, FACTOR_SCALE, DEFAULT_OUTLIER_FACTOR, DEFAULT_DISPLAY_CUTOFF, lemma_insert_valid,
    lemma_remove_valid, lemma_update_valid, lemma_empty_valid, lemma_insert_sides,
};
use crate::order::{Order, OrderView, Price, Side, Size, Submit};

verus! {

/// The resting limit orders of one market.
pub struct LimitOrderbook {
    bids: AVLTree,
    asks: AVLTree,
    order_map: OrderIndex,
    len: usize,
    items_processed: usize,
    error_msgs: Vec<String>,
    avl_tree_size_display_cutoff: usize,
    timestamp: String,
    outlier_factor: Option<u32>,
    bid_cutoff: u64,
    ask_cutoff: u64,
    outliers: usize,
}

impl View for LimitOrderbook {
    type V = BookView;

    closed spec fn view(&self) -> BookView {
        BookView {
            bids: self.bids@,
            asks: self.asks@,
            index: self.order_map@,
            len: self.len as nat,
            items_processed: self.items_processed as nat,
            outliers: self.outliers as nat,
            timestamp: self.timestamp@,
            outlier_factor: factor_view(self.outlier_factor),
            bid_cutoff: self.bid_cutoff as nat,
            ask_cutoff: self.ask_cutoff as nat,
            display_cutoff: self.avl_tree_size_display_cutoff as nat,
            error_msgs: texts(self.error_msgs@),
        }
    }
}

/// The outlier factor as a natural number, where there is one.
pub open spec fn factor_view(factor: Option<u32>) -> Option<nat> {
    match factor {
        Some(value) => Some(value as nat),
        None => None,
    }
}

/// The product of two 32-bit numbers.
fn product(a: u32, b: u32) -> (p: u64)
    ensures
        p == a * b,
{
    assert(a * b <= 0xffff_ffff * 0xffff_ffff) by (nonlinear_arith)
        requires
            a <= 0xffff_ffff,
            b <= 0xffff_ffff,
    ;
    a as u64 * b as u64
}

/// Takes the order with `uid` out of the queue at `price`, and the level
/// out of the tree where its queue is empty afterwards.
fn take_order(tree: &mut AVLTree, price: Price, uid: &String)
    requires
        old(tree).wf(),
    ensures
        final(tree).wf(),
        final(tree)@ == BookView::without(old(tree)@, price, uid@),
{
    let emptied = match tree.get_mut(&price) {
        Some(stack) => {
            let _ = stack.remove(uid.clone());
            stack.is_empty()
        },
        None => false,
    };
    if emptied {
        let _ = tree.remove(&price);
    }
    proof {
        assert(tree@ =~= BookView::without(old(tree)@, price, uid@));
    }
}

/// The prices of `levels` in the order of a depth table: falling or rising.
pub open spec fn walk_order(levels: Levels, falling: bool) -> Seq<Price> {
    if falling {
        key_order(levels).reverse()
    } else {
        key_order(levels)
    }
}

/// The depth table of a tree, by falling or by rising price.
fn depth_rows(tree: &AVLTree, falling: bool) -> (rows: Vec<(Price, u128, u128)>)
    requires
        tree.wf(),
        queued(tree@) <= usize::MAX,
    ensures
        rows_view(rows@) == level_rows(walk_order(tree@, falling), tree@),
{
    let ghost order = walk_order(tree@, falling);
    let ghost count = order.len() as int;
    proof {
        tree.lemma_keys();
        lemma_listed_all(tree@);
    }
    let mut walk = tree.iter();
    let mut rows: Vec<(Price, u128, u128)> = Vec::new();
    let mut running: u128 = 0;
    let ghost mut done: int = 0;
    loop
        invariant_except_break
            walk.fresh() == (done == 0),
            !walk.fresh() ==> walk.cursor() == Some(
                if falling {
                    count - done
                } else {
                    done - 1
                },
            ),
        invariant
            tree.wf(),
            walk.wf(),
            walk.tree() == tree,
            tree.keys() == key_order(tree@),
            order == walk_order(tree@, falling),
            count == order.len(),
            0 <= done <= count,
            rows_view(rows@) == level_rows(order.take(done), tree@),
            running == running_total(level_rows(order.take(done), tree@)),
            listed(order, tree@) == queued(tree@),
            queued(tree@) <= usize::MAX,
        ensures
            done == count,
        decreases count - done,
    {
        let item = if falling {
            walk.next_back()
        } else {
            walk.next()
        };
        match item {
            None => {
                proof {
                    assert(order.take(done) =~= order);
                }
                break ;
            },
            Some(node) => {
                let ghost next = order.take(done + 1);
                proof {
                    assert(next.drop_last() =~= order.take(done));
                    assert(next.last() == order[done]);
                    assert(node.key == order[done]);
                    lemma_rows_bound(next, tree@);
                    lemma_rows_bound(order.take(done), tree@);
                    lemma_listed_take(order, tree@, done + 1);
                    assert(0xffff_ffff * 0xffff_ffff * listed(next, tree@) <= 0xffff_ffff * 0xffff_ffff
                        * 0xffff_ffff_ffff_ffff) by (nonlinear_arith)
                        requires
                            listed(next, tree@) <= 0xffff_ffff_ffff_ffff,
                    ;
                }
                let size = node.value.size();
                let notional = node.key as u128 * size;
                running = running + notional;
                rows.push((node.key, size, running));
                proof {
                    done = done + 1;
                    assert(rows_view(rows@) =~= level_rows(order.take(done), tree@));
                }
            },
        }
    }
    proof {
        assert(order.take(done) =~= order);
    }
    rows
}

/// Writes `size` into the order with `uid` in the queue at `price`.
fn resize_order(tree: &mut AVLTree, price: Price, uid: &String, size: Size)
    requires
        old(tree).wf(),
    ensures
        final(tree).wf(),
        final(tree)@ == BookView::resized(old(tree)@, price, uid@, size),
{
    match tree.get_mut(&price) {
        Some(stack) => {
            match stack.get_order_mut(uid.clone()) {
                Some(order) => {
                    order.size = size;
                },
                None => {},
            }
        },
        None => {},
    }
    proof {
        assert(tree@ =~= BookView::resized(old(tree)@, price, uid@, size));
    }
}

impl LimitOrderbook {
    /// Whether the book is well formed: both trees are, and the value of
    /// the book is valid.
    pub closed spec fn wf(&self) -> bool {
        &&& self.bids.wf()
        &&& self.asks.wf()
        &&& self@.valid()
    }

    /// The book's invariant holds of every well-formed book: index and
    /// queues name each other one for one, no price level is empty, and the
    /// length is the number of uids and the number of queued orders.
    pub proof fn lemma_valid(&self)
        requires
            self.wf(),
        ensures
            self@.valid(),
    {
    }

    /// An empty book with the given outlier factor, in hundredths, or
    /// without outlier guard, with the given display cutoff and the given
    /// timestamp; none where the factor is zero.
    pub fn with_settings(
        outlier_factor: Option<u32>,
        display_cutoff: usize,
        timestamp: String,
    ) -> (made: Option<LimitOrderbook>)
        ensures
            made is Some == (outlier_factor != Some(0u32)),
            made matches Some(book) ==> book.wf() && book@ == BookView::empty(
                factor_view(outlier_factor),
                display_cutoff as nat,
                timestamp@,
            ),
    {
        match outlier_factor {
            Some(factor) => {
                if factor == 0 {
                    return None;
                }
            },
            None => {},
        }
        let book = LimitOrderbook {
            bids: AVLTree::new(),
            asks: AVLTree::new(),
            order_map: OrderIndex::new(),
            len: 0,
            items_processed: 0,
            error_msgs: Vec::new(),
            avl_tree_size_display_cutoff: display_cutoff,
            timestamp,
            outlier_factor,
            bid_cutoff: 0,
            ask_cutoff: 0,
            outliers: 0,
        };
        proof {
            lemma_empty_valid(factor_view(outlier_factor), display_cutoff as nat, timestamp@);
            assert(texts(book.error_msgs@) =~= Seq::<Seq<char>>::empty());
        }
        Some(book)
    }

    /// An empty book with an outlier factor of two and a display cutoff of
    /// a thousand nodes, stamped with the present time.
    pub fn new() -> (book: LimitOrderbook)
        ensures
            book.wf(),
            book@ == BookView::empty(
                Some(DEFAULT_OUTLIER_FACTOR as nat),
                DEFAULT_DISPLAY_CUTOFF as nat,
                book@.timestamp,
            ),
    {
        let made = Self::with_settings(
            Some(DEFAULT_OUTLIER_FACTOR),
            DEFAULT_DISPLAY_CUTOFF,
            utc_timestamp(),
        );
        made.unwrap()
    }

    /// The number of items processed.
    pub fn items_processed(&self) -> (count: usize)
        ensures
            count == self@.items_processed,
    {
        self.items_processed
    }

    /// The number of orders dropped as outliers.
    pub fn outliers(&self) -> (count: usize)
        ensures
            count == self@.outliers,
    {
        self.outliers
    }

    /// The timestamp of the item processed last.
    pub fn timestamp(&self) -> (stamp: String)
        ensures
            stamp@ == self@.timestamp,
    {
        self.timestamp.clone()
    }

    /// The number of orders resting in the book.
    pub fn len(&self) -> (count: usize)
        ensures
            count == self@.len,
    {
        self.len
    }

    /// The lowest ask price, if there is an ask.
    pub fn best_ask(&self) -> (best: Option<Price>)
        requires
            self.wf(),
        ensures
            best == self@.best_ask(),
    {
        proof {
            self.asks.lemma_keys();
        }
        let mut walk = self.asks.iter();
        match walk.next() {
            Some(node) => Some(node.key),
            None => None,
        }
    }

    /// The highest bid price, if there is a bid.
    pub fn best_bid(&self) -> (best: Option<Price>)
        requires
            self.wf(),
        ensures
            best == self@.best_bid(),
    {
        proof {
            self.bids.lemma_keys();
        }
        let mut walk = self.bids.iter();
        match walk.next_back() {
            Some(node) => Some(node.key),
            None => None,
        }
    }

    /// The number of price levels on both sides.
    pub fn node_count(&self) -> (count: usize)
        requires
            self.wf(),
        ensures
            count == self@.node_count(),
    {
        proof {
            self.bids.lemma_keys();
            self.asks.lemma_keys();
            lemma_listed_all(self@.bids);
            lemma_listed_all(self@.asks);
            assert(self@.side_valid(Side::Bids));
            assert(self@.side_valid(Side::Asks));
        }
        self.bids.len() + self.asks.len()
    }

    /// The depth table of one side, from the best price outward: for each
    /// price the sum of the sizes resting there and the running sum of
    /// price times size.
    pub fn levels(&self, side: Side) -> (rows: Vec<(Price, u128, u128)>)
        requires
            self.wf(),
        ensures
            rows_view(rows@) == self@.levels(side),
    {
        match side {
            Side::Bids => depth_rows(&self.bids, true),
            Side::Asks => depth_rows(&self.asks, false),
        }
    }

    /// The depth table of one side without the sizes: each price with the
    /// running sum of price times size from the best price outward.
    pub fn liquidity(&self, side: Side) -> (depth: Vec<(Price, u128)>)
        requires
            self.wf(),
        ensures
            depth@.len() == self@.levels(side).len(),
            forall|i: int|
                0 <= i < depth@.len() ==> (#[trigger] depth@[i]).0 == self@.levels(side)[i].price
                    && depth@[i].1 == self@.levels(side)[i].notional,
    {
        let rows = self.levels(side);
        let mut depth: Vec<(Price, u128)> = Vec::new();
        let mut at: usize = 0;
        while at < rows.len()
            invariant
                at <= rows@.len(),
                depth@.len() == at,
                rows_view(rows@) == self@.levels(side),
                forall|i: int|
                    0 <= i < at ==> (#[trigger] depth@[i]).0 == self@.levels(side)[i].price
                        && depth@[i].1 == self@.levels(side)[i].notional,
            decreases rows@.len() - at,
        {
            proof {
                assert(rows_view(rows@)[at as int] == row_view(rows@[at as int]));
            }
            depth.push((rows[at].0, rows[at].2));
            at += 1;
        }
        proof {
            assert(rows_view(rows@).len() == rows@.len());
        }
        depth
    }

    /// The heading over the picture of one side.
    pub open spec fn heading(side: Side) -> Seq<char> {
        match side {
            Side::Bids => "\nBids: "@,
            Side::Asks => "\nAsks: "@,
        }
    }

    /// The tree of one side.
    pub closed spec fn tree(&self, side: Side) -> &AVLTree {
        match side {
            Side::Bids => &self.bids,
            Side::Asks => &self.asks,
        }
    }

    /// The picture of the tree of one side under its heading.
    pub fn display_trees_aux(&self, side: Side) -> (lines: Vec<String>)
        requires
            self.wf(),
        ensures
            texts(lines@) == seq![Self::heading(side)] + self.tree(side).picture(),
    {
        let (heading, mut drawn) = match side {
            Side::Bids => (String::from_str("\nBids: "), self.bids.display()),
            Side::Asks => (String::from_str("\nAsks: "), self.asks.display()),
        };
        let ghost picture = texts(drawn@);
        let mut lines: Vec<String> = Vec::new();
        lines.push(heading);
        lines.append(&mut drawn);
        proof {
            assert(texts(lines@) =~= seq![Self::heading(side)] + picture);
        }
        lines
    }

    /// The picture of the tree of one side under its heading.
    pub fn display_trees(&self, side: Side) -> (lines: Vec<String>)
        requires
            self.wf(),
        ensures
            texts(lines@) == seq![Self::heading(side)] + self.tree(side).picture(),
    {
        self.display_trees_aux(side)
    }

    /// The one line shown in place of the picture of a tree with more
    /// nodes than the display cutoff.
    pub open spec fn too_large(side: Side, nodes: nat, cutoff: nat) -> Seq<char> {
        (match side {
            Side::Bids => "Bids"@,
            Side::Asks => "Asks"@,
        }) + " AVL Tree too large to display ("@ + decimal(nodes)
            + " nodes). Increase avl_tree_size_display_cutoff ("@ + decimal(cutoff)
            + ") in orderbook to display larger trees"@
    }

    /// The picture of the tree of one side under its heading; for a tree
    /// with more nodes than the display cutoff, one line that says so.
    pub fn display(&self, side: Side) -> (lines: Vec<String>)
        requires
            self.wf(),
        ensures
            texts(lines@) == if self.tree(side).spec_len() > self@.display_cutoff {
                seq![Self::too_large(side, self.tree(side).spec_len() as nat, self@.display_cutoff)]
            } else {
                seq![Self::heading(side)] + self.tree(side).picture()
            },
    {
        let count = match side {
            Side::Bids => self.bids.len(),
            Side::Asks => self.asks.len(),
        };
        if count > self.avl_tree_size_display_cutoff {
            let mut line = match side {
                Side::Bids => String::from_str("Bids"),
                Side::Asks => String::from_str("Asks"),
            };
            line.append(" AVL Tree too large to display (");
            write_decimal(&mut line, count as u128);
            line.append(" nodes). Increase avl_tree_size_display_cutoff (");
            write_decimal(&mut line, self.avl_tree_size_display_cutoff as u128);
            line.append(") in orderbook to display larger trees");
            let mut lines: Vec<String> = Vec::new();
            proof {
                assert(line@ =~= Self::too_large(side, count as nat, self@.display_cutoff));
            }
            lines.push(line);
            proof {
                assert(texts(lines@) =~= seq![
                    Self::too_large(side, count as nat, self@.display_cutoff),
                ]);
            }
            lines
        } else {
            self.display_trees_aux(side)
        }
    }

    /// The messages of the last audit.
    pub fn error_msgs(&self) -> (messages: Vec<String>)
        ensures
            texts(messages@) == self@.error_msgs,
    {
        let mut messages: Vec<String> = Vec::new();
        let mut at: usize = 0;
        while at < self.error_msgs.len()
            invariant
                at <= self.error_msgs@.len(),
                texts(messages@) == texts(self.error_msgs@).take(at as int),
            decreases self.error_msgs@.len() - at,
        {
            let copy = self.error_msgs[at].clone();
            let ghost earlier = messages@;
            messages.push(copy);
            at += 1;
            proof {
                let kept = texts(self.error_msgs@);
                assert(texts(messages@) =~= texts(earlier).push(copy@));
                assert(kept.take(at as int) =~= kept.take(at - 1).push(kept[at - 1]));
            }
        }
        proof {
            assert(texts(self.error_msgs@).take(at as int) =~= texts(self.error_msgs@));
        }
        messages
    }

    /// Audits the book and keeps a message for each fault: audits the links
    /// of both trees, looks whether each is balanced at its root, and counts
    /// the orders of a walk over both sides that the index knows against the
    /// length of the book and the size of the index. A well-formed book
    /// passes, so no message is left.
    pub fn check(&mut self)
        requires
            old(self).wf(),
        ensures
            final(self).wf(),
            final(self)@ == old(self)@.audited(),
    {
        let mut messages: Vec<String> = Vec::new();
        messages = self.bids.check_pointer_validity(messages);
        messages = self.asks.check_pointer_validity(messages);
        if !self.bids.is_balanced() {
            messages.push(String::from_str("Bids are not balanced!"));
        }
        if !self.asks.is_balanced() {
            messages.push(String::from_str("Asks are not balanced!"));
        }
        let resting = self.count_orders();
        if resting != self.len || self.order_map.len() != self.len {
            messages.push(String::from_str("Index and queues do not hold the same orders"));
        }
        self.error_msgs = messages;
        proof {
            assert(self@.error_msgs =~= Seq::<Seq<char>>::empty());
        }
    }

    /// The number of orders met on a walk over both sides that the index
    /// knows to rest where they were met.
    fn count_orders(&self) -> (met: usize)
        requires
            self.wf(),
        ensures
            met == self@.len,
    {
        proof {
            let bids = all_orders(self@.bids);
            let asks = all_orders(self@.asks);
            assert(self@.orders().len() == self@.len);
            assert forall|i: int| 0 <= i < self@.orders().len() implies self@.has(
                #[trigger] self@.orders()[i].uid,
            ) by {
                if i < bids.len() {
                    crate::levels::lemma_orders_rest(self@.bids, price_bound(), i);
                    assert(self@.side_valid(Side::Bids));
                } else {
                    crate::levels::lemma_orders_rest(self@.asks, price_bound(), i - bids.len());
                    assert(self@.side_valid(Side::Asks));
                }
            }
        }
        let mut walk = self.iter();
        let mut met: usize = 0;
        loop
            invariant_except_break
                met == walk.emitted(),
            invariant
                self.wf(),
                walk.wf(),
                walk.orders() == self@.orders(),
                walk.orders().len() == self@.len,
                self@.len == self.len,
                met <= walk.emitted() <= walk.orders().len(),
                forall|i: int|
                    0 <= i < walk.orders().len() ==> self@.has(#[trigger] walk.orders()[i].uid),
            ensures
                met == walk.orders().len(),
            decreases walk.orders().len() - walk.emitted(),
        {
            let ghost before = walk.emitted() as int;
            match walk.next() {
                None => {
                    break ;
                },
                Some(order) => {
                    proof {
                        assert(self@.has(walk.orders()[before].uid));
                    }
                    if self.order_map.has(order.uid.as_str()) {
                        met = met + 1;
                    }
                },
            }
        }
        met
    }

    /// The words between the number of levels of a side and its depth table.
    pub open spec fn levels_are(side: Side) -> Seq<char> {
        match side {
            Side::Bids => " bid levels = "@,
            Side::Asks => " ask levels = "@,
        }
    }

    /// What the notes say of one side: the number of its levels and its
    /// depth table, then its picture under its heading; for a tree with more
    /// nodes than the display cutoff, one line that says so.
    pub open spec fn side_notes(&self, side: Side) -> Seq<Seq<char>> {
        if self.tree(side).spec_len() > self@.display_cutoff {
            seq![Self::too_large(side, self.tree(side).spec_len() as nat, self@.display_cutoff)]
        } else {
            seq![
                decimal(self.tree(side).spec_len() as nat) + Self::levels_are(side) + rows_text(
                    self@.levels(side),
                ),
                Self::heading(side),
            ] + self.tree(side).picture()
        }
    }

    /// What the notes say of the last audit.
    pub open spec fn audit_notes(&self) -> Seq<Seq<char>> {
        if self@.error_msgs.len() == 0 {
            seq!["No errors encountered"@]
        } else {
            seq!["******Errors encountered******"@] + self@.error_msgs + seq![
                "---------------------------------"@,
            ]
        }
    }

    /// The lines of the notes: the audit, the bids, the asks, the counters.
    pub open spec fn notes(&self) -> Seq<Seq<char>> {
        self.audit_notes() + self.side_notes(Side::Bids) + self.side_notes(Side::Asks) + seq![
            "Items processed by orderbook: "@ + decimal(self@.items_processed),
            "Outliers ignored by orderbook: "@ + decimal(self@.outliers),
        ]
    }

    /// Writes what the notes say of one side behind `lines`.
    fn note_side(&self, lines: &mut Vec<String>, side: Side)
        requires
            self.wf(),
        ensures
            texts(final(lines)@) == texts(old(lines)@) + self.side_notes(side),
    {
        let count = match side {
            Side::Bids => self.bids.len(),
            Side::Asks => self.asks.len(),
        };
        let ghost before = texts(lines@);
        if count > self.avl_tree_size_display_cutoff {
            let mut shown = self.display(side);
            let ghost added = texts(shown@);
            lines.append(&mut shown);
            proof {
                assert(texts(lines@) =~= before + added);
            }
        } else {
            let mut line = String::new();
            write_decimal(&mut line, count as u128);
            match side {
                Side::Bids => {
                    line.append(" bid levels = ");
                },
                Side::Asks => {
                    line.append(" ask levels = ");
                },
            }
            let rows = self.levels(side);
            write_rows(&mut line, &rows);
            proof {
                assert(line@ =~= decimal(count as nat) + Self::levels_are(side) + rows_text(
                    self@.levels(side),
                ));
            }
            lines.push(line);
            let mut shown = self.display_trees_aux(side);
            let ghost added = texts(shown@);
            let ghost between = texts(lines@);
            lines.append(&mut shown);
            proof {
                assert(between =~= before.push(line@));
                assert(texts(lines@) =~= between + added);
                assert(texts(lines@) =~= before + self.side_notes(side));
            }
        }
    }

    /// Notes on what the book holds and has seen: what the last audit
    /// found, each side with its depth table and the picture of its tree,
    /// and the numbers of items processed and of outliers dropped, one line
    /// below the other.
    pub fn log_notes(&self) -> (text: String)
        requires
            self.wf(),
        ensures
            text@ == join_lines(self.notes()),
    {
        let mut lines: Vec<String> = Vec::new();
        if self.error_msgs.len() == 0 {
            lines.push(String::from_str("No errors encountered"));
            proof {
                assert(texts(lines@) =~= self.audit_notes());
            }
        } else {
            lines.push(String::from_str("******Errors encountered******"));
            let mut messages = self.error_msgs();
            let ghost added = texts(messages@);
            let ghost before = texts(lines@);
            lines.append(&mut messages);
            let ghost between = texts(lines@);
            lines.push(String::from_str("---------------------------------"));
            proof {
                assert(before =~= seq!["******Errors encountered******"@]);
                assert(between =~= before + added);
                assert(texts(lines@) =~= between.push("---------------------------------"@));
                assert(texts(lines@) =~= self.audit_notes());
            }
        }
        self.note_side(&mut lines, Side::Bids);
        self.note_side(&mut lines, Side::Asks);
        let ghost before = texts(lines@);
        let mut processed = String::from_str("Items processed by orderbook: ");
        write_decimal(&mut processed, self.items_processed as u128);
        let mut dropped = String::from_str("Outliers ignored by orderbook: ");
        write_decimal(&mut dropped, self.outliers as u128);
        lines.push(processed);
        lines.push(dropped);
        proof {
            assert(texts(lines@) =~= before + seq![processed@, dropped@]);
        }
        join(&lines)
    }

    /// The resting order with `order_uid`, if there is one.
    pub fn get_order(&self, order_uid: String) -> (found: Option<&Order>)
        requires
            self.wf(),
        ensures
            match found {
                Some(order) => self@.has(order_uid@) && order@ == self@.order(order_uid@),
                None => !self@.has(order_uid@),
            },
    {
        let (side, price) = match self.order_map.get(order_uid.as_str()) {
            Some(place) => place,
            None => {
                return None;
            },
        };
        proof {
            assert(self@.index_valid());
            assert(self@.index.contains_key(order_uid@));
        }
        let stack = match side {
            Side::Bids => self.bids.get(&price),
            Side::Asks => self.asks.get(&price),
        };
        match stack {
            Some(stack) => stack.get_order(order_uid),
            None => None,
        }
    }

    /// Whether an order with `order_uid` rests in the book.
    pub fn has(&self, order_uid: String) -> (found: bool)
        requires
            self.wf(),
        ensures
            found == self@.has(order_uid@),
    {
        self.get_order(order_uid).is_some()
    }

    /// Tells whether the price of `order` is an outlier on its side; where
    /// it is not, and is the new best price of its side, the cutoff of the
    /// side is set from it.
    fn handle_outlier(&mut self, order: &Order) -> (outlier: bool)
        requires
            old(self).wf(),
        ensures
            final(self).wf(),
            outlier == old(self)@.is_outlier(order@),
            final(self)@ == if outlier {
                old(self)@
            } else {
                old(self)@.guarded(order@)
            },
    {
        let factor = match self.outlier_factor {
            Some(factor) => factor,
            None => {
                return false;
            },
        };
        match order.side {
            Side::Bids => {
                let cutoff = product(order.price, FACTOR_SCALE) / factor as u64;
                match self.best_bid() {
                    None => {
                        self.bid_cutoff = cutoff;
                        false
                    },
                    Some(best) => {
                        if product(order.price, factor) < product(best, FACTOR_SCALE) {
                            true
                        } else {
                            if order.price > best {
                                self.bid_cutoff = cutoff;
                            }
                            false
                        }
                    },
                }
            },
            Side::Asks => {
                let cutoff = product(order.price, factor) / FACTOR_SCALE as u64;
                match self.best_ask() {
                    None => {
                        self.ask_cutoff = cutoff;
                        false
                    },
                    Some(best) => {
                        if product(order.price, FACTOR_SCALE) > product(best, factor) {
                            true
                        } else {
                            if order.price < best {
                                self.ask_cutoff = cutoff;
                            }
                            false
                        }
                    },
                }
            },
        }
    }

    /// Puts `order` into the book and tells whether it went in. An order
    /// whose uid rests already is ignored; an outlier is counted and dropped.
    pub fn insert(&mut self, order: Order) -> (inserted: bool)
        requires
            old(self).wf(),
            old(self)@.outliers < usize::MAX,
        ensures
            final(self).wf(),
            final(self)@ == old(self)@.insert(order@),
            inserted == old(self)@.accepts(order@),
    {
        if self.order_map.has(order.uid.as_str()) {
            return false;
        }
        if self.handle_outlier(&order) {
            self.outliers = self.outliers + 1;
            return false;
        }
        let ghost guarded = self@;
        let uid = order.uid.clone();
        let side = order.side;
        let price = order.price;
        proof {
            lemma_insert_valid(old(self)@, order@);
            lemma_insert_sides(old(self)@, order@);
        }
        match side {
            Side::Bids => {
                self.bids.insert(price, Some(order));
            },
            Side::Asks => {
                self.asks.insert(price, Some(order));
            },
        }
        self.order_map.insert(uid, side, price);
        proof {
            self.order_map.lemma_len_fits();
            assert(self.order_map@.dom() =~= old(self).order_map@.dom().insert(order.uid@));
        }
        self.len = self.len + 1;
        proof {
            assert(self@.bids =~= old(self)@.insert(order@).bids);
            assert(self@.asks =~= old(self)@.insert(order@).asks);
            assert(self@.index =~= old(self)@.insert(order@).index);
        }
        true
    }

    /// Takes the order with `order_uid` out of the book; an unknown uid is ignored.
    pub fn remove(&mut self, order_uid: String)
        requires
            old(self).wf(),
        ensures
            final(self).wf(),
            final(self)@ == old(self)@.remove(order_uid@),
    {
        let (side, price) = match self.order_map.get(order_uid.as_str()) {
            Some(place) => place,
            None => {
                return ;
            },
        };
        proof {
            lemma_remove_valid(old(self)@, order_uid@);
            assert(self.order_map@.dom().contains(order_uid@));
            assert(self.order_map@.dom().len() > 0);
        }
        match side {
            Side::Bids => {
                take_order(&mut self.bids, price, &order_uid);
            },
            Side::Asks => {
                take_order(&mut self.asks, price, &order_uid);
            },
        }
        let _ = self.order_map.remove(order_uid.as_str());
        self.len = self.len - 1;
        proof {
            assert(self@.bids =~= old(self)@.remove(order_uid@).bids);
            assert(self@.asks =~= old(self)@.remove(order_uid@).asks);
            assert(self@.index =~= old(self)@.remove(order_uid@).index);
        }
    }

    /// Gives the order with `order_uid` the size `new_size`, where it
    /// stands; a size of zero takes the order out. An unknown uid is ignored.
    pub fn update(&mut self, order_uid: String, new_size: Size)
        requires
            old(self).wf(),
        ensures
            final(self).wf(),
            final(self)@ == old(self)@.update(order_uid@, new_size),
    {
        let (side, price) = match self.order_map.get(order_uid.as_str()) {
            Some(place) => place,
            None => {
                return ;
            },
        };
        if new_size == 0 {
            self.remove(order_uid);
        } else {
            proof {
                lemma_update_valid(old(self)@, order_uid@, new_size);
            }
            match side {
                Side::Bids => {
                    resize_order(&mut self.bids, price, &order_uid, new_size);
                },
                Side::Asks => {
                    resize_order(&mut self.asks, price, &order_uid, new_size);
                },
            }
            proof {
                assert(self@.bids =~= old(self)@.update(order_uid@, new_size).bids);
                assert(self@.asks =~= old(self)@.update(order_uid@, new_size).asks);
            }
        }
    }

    /// Applies `action` to the book with `order`, counts one more item as
    /// processed and takes over the timestamp of `order`. An insert uses
    /// the whole order, a remove its uid, an update its uid and size.
    pub fn process(&mut self, order: Order, action: Submit)
        requires
            old(self).wf(),
            old(self)@.items_processed < usize::MAX,
            old(self)@.outliers < usize::MAX,
        ensures
            final(self).wf(),
            final(self)@ == old(self)@.process(order@, action),
    {
        let stamp = order.timestamp.clone();
        match action {
            Submit::Insert => {
                let _ = self.insert(order);
            },
            Submit::Remove => {
                self.remove(order.uid);
            },
            Submit::Update => {
                let size = order.size;
                self.update(order.uid, size);
            },
        }
        self.items_processed = self.items_processed + 1;
        self.timestamp = stamp;
    }
}

/// A walk over every order of a book: the bids by rising price, then the
/// asks by rising price, each price level from its earliest order on.
pub struct Iter<'a> {
    side: Side,
    current_node: Option<&'a Node>,
    bid_tree_iter: crate::iter::Iter<'a>,
    ask_tree_iter: crate::iter::Iter<'a>,
    stack_index: usize,
}

impl LimitOrderbook {
    /// A walk over every order of the book that has handed out none yet.
    pub fn iter(&self) -> (walk: Iter<'_>)
        requires
            self.wf(),
        ensures
            walk.wf(),
            walk.orders() == self@.orders(),
            walk.emitted() == 0,
    {
        proof {
            self.bids.lemma_keys();
            self.asks.lemma_keys();
            lemma_flatten_below(self.bids@, price_bound());
            lemma_flatten_below(self.asks@, price_bound());
        }
        let mut bid_tree_iter = self.bids.iter();
        let ask_tree_iter = self.asks.iter();
        let current_node = bid_tree_iter.next();
        proof {
            let keys = self.bids.keys();
            assert(keys.take(0) =~= Seq::<Price>::empty());
            assert(keys.take(keys.len() as int) =~= keys);
        }
        Iter { side: Side::Bids, current_node, bid_tree_iter, ask_tree_iter, stack_index: 0 }
    }
}

impl<'a> Iter<'a> {
    /// The tree walked at present.
    spec fn tree(&self) -> &AVLTree {
        match self.side {
            Side::Bids => self.bid_tree_iter.tree(),
            Side::Asks => self.ask_tree_iter.tree(),
        }
    }

    /// The index among the keys of the present tree of the node at hand;
    /// the number of its keys where the tree is done.
    spec fn level(&self) -> int {
        let cursor = match self.side {
            Side::Bids => self.bid_tree_iter.cursor(),
            Side::Asks => self.ask_tree_iter.cursor(),
        };
        match cursor {
            Some(index) => index,
            None => self.tree().keys().len() as int,
        }
    }

    /// The orders handed out before the present tree was begun.
    spec fn before(&self) -> Seq<OrderView> {
        match self.side {
            Side::Bids => Seq::empty(),
            Side::Asks => flatten(self.bid_tree_iter.tree().keys(), self.bid_tree_iter.tree()@),
        }
    }

    /// Every order that the walk hands out, in the order in which it does.
    pub closed spec fn orders(&self) -> Seq<OrderView> {
        flatten(self.bid_tree_iter.tree().keys(), self.bid_tree_iter.tree()@) + flatten(
            self.ask_tree_iter.tree().keys(),
            self.ask_tree_iter.tree()@,
        )
    }

    /// The number of orders handed out so far.
    pub closed spec fn emitted(&self) -> nat {
        (self.before().len() + flatten(self.tree().keys().take(self.level()), self.tree()@).len()
            + self.stack_index) as nat
    }

    /// Whether the walk stands at a place in its book.
    pub closed spec fn wf(&self) -> bool {
        &&& self.bid_tree_iter.wf()
        &&& self.ask_tree_iter.wf()
        &&& !self.bid_tree_iter.fresh()
        &&& self.side == Side::Bids ==> self.ask_tree_iter.fresh()
        &&& self.side == Side::Asks ==> !self.ask_tree_iter.fresh() && self.bid_tree_iter.cursor() is None
        &&& 0 <= self.level() <= self.tree().keys().len()
        &&& self.bid_tree_iter.cursor() matches Some(index) ==> 0 <= index
            < self.bid_tree_iter.tree().keys().len()
        &&& !self.ask_tree_iter.fresh() ==> (self.ask_tree_iter.cursor() matches Some(index) ==> 0
            <= index < self.ask_tree_iter.tree().keys().len())
        &&& match self.current_node {
            Some(node) => {
                &&& self.level() < self.tree().keys().len()
                &&& node.key == self.tree().keys()[self.level()]
                &&& node.value@ == self.tree()@[node.key]
                &&& self.stack_index <= node.value@.len()
            },
            None => self.level() == self.tree().keys().len() && self.stack_index == 0,
        }
    }

    /// Hands out the next order, or nothing once every order has been
    /// handed out.
    pub fn next(&mut self) -> (item: Option<&'a Order>)
        requires
            old(self).wf(),
        ensures
            final(self).wf(),
            final(self).orders() == old(self).orders(),
            match item {
                Some(order) => {
                    &&& old(self).emitted() < old(self).orders().len()
                    &&& order@ == old(self).orders()[old(self).emitted() as int]
                    &&& final(self).emitted() == old(self).emitted() + 1
                },
                None => {
                    &&& old(self).emitted() == old(self).orders().len()
                    &&& final(self).emitted() == old(self).emitted()
                },
            },
    {
        let ghost all = self.orders();
        let ghost bids = self.bid_tree_iter.tree();
        let ghost asks = self.ask_tree_iter.tree();
        let ghost bid_orders = flatten(bids.keys(), bids@);
        let ghost ask_orders = flatten(asks.keys(), asks@);
        loop
            invariant
                self.wf(),
                all == old(self).orders(),
                self.orders() == all,
                all == bid_orders + ask_orders,
                bid_orders == flatten(bids.keys(), bids@),
                ask_orders == flatten(asks.keys(), asks@),
                self.emitted() == old(self).emitted(),
                self.bid_tree_iter.tree() == bids,
                self.ask_tree_iter.tree() == asks,
            decreases
                    (if self.side == Side::Bids {
                        1int
                    } else {
                        0int
                    }),
                    self.tree().keys().len() - self.level(),
                    (if self.current_node is Some {
                        1int
                    } else {
                        0int
                    }),
        {
            let ghost keys = self.tree().keys();
            let ghost levels = self.tree()@;
            let ghost level = self.level();
            let ghost done = flatten(keys.take(level), levels);
            let ghost earlier = self.before();
            proof {
                assert(keys.take(keys.len() as int) =~= keys);
            }
            match self.current_node {
                Some(node) => {
                    let depth = node.value.len();
                    proof {
                        lemma_flatten_step(keys, levels, level);
                        crate::levels::lemma_flatten_prefix(keys, levels, level + 1);
                        let upto = flatten(keys.take(level + 1), levels);
                        assert(upto == done + levels[keys[level]]);
                        if self.stack_index < depth {
                            let at = done.len() + self.stack_index;
                            assert(upto[at] == levels[keys[level]][self.stack_index as int]);
                            assert(flatten(keys, levels).take(upto.len() as int)[at] == flatten(
                                keys,
                                levels,
                            )[at]);
                            assert(all[earlier.len() + at] == flatten(keys, levels)[at]);
                        }
                    }
                    match node.value.get(self.stack_index) {
                        Some(order) => {
                            self.stack_index = self.stack_index + 1;
                            return Some(order);
                        },
                        None => {
                            match self.side {
                                Side::Bids => {
                                    self.current_node = self.bid_tree_iter.next();
                                },
                                Side::Asks => {
                                    self.current_node = self.ask_tree_iter.next();
                                },
                            }
                            self.stack_index = 0;
                            proof {
                                assert(self.level() == level + 1);
                            }
                        },
                    }
                },
                None => {
                    match self.side {
                        Side::Bids => {
                            self.side = Side::Asks;
                            self.current_node = self.ask_tree_iter.next();
                            self.stack_index = 0;
                            proof {
                                assert(asks.keys().take(0) =~= Seq::<Price>::empty());
                                assert(asks.keys().take(asks.keys().len() as int) =~= asks.keys());
                                assert(self.before() == bid_orders);
                            }
                        },
                        Side::Asks => {
                            return None;
                        },
                    }
                },
            }
        }
    }
}

} // verus!
