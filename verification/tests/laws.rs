use rand::Rng;
use rust_orderbook::order::{Order, Side, Submit};
use rust_orderbook::orderbook::LimitOrderbook;

fn order(uid: &str, side: Side, price: u32, size: u32) -> Order {
    Order::new(uid.to_string(), Some(side), Some(price), Some(size), "stamp".to_string())
}

/// What can be seen of a book but for its counters.
fn snapshot(book: &LimitOrderbook) -> (Vec<Order>, Vec<(u32, u128, u128)>, Vec<(u32, u128, u128)>, usize, usize) {
    let mut orders = Vec::new();
    let mut walk = book.iter();
    while let Some(order) = walk.next() {
        orders.push(order.clone());
    }
    (orders, book.levels(Side::Bids), book.levels(Side::Asks), book.len(), book.node_count())
}

fn sample_book() -> LimitOrderbook {
    let mut book = LimitOrderbook::with_settings(None, 1000, "t".to_string()).unwrap();
    book.insert(order("a", Side::Bids, 10, 2));
    book.insert(order("b", Side::Bids, 12, 1));
    book.insert(order("c", Side::Bids, 10, 3));
    book.insert(order("d", Side::Asks, 15, 4));
    book.insert(order("e", Side::Asks, 14, 1));
    book
}

#[test]
fn insert_then_remove_restores_the_book() {
    for (side, price) in [(Side::Bids, 10), (Side::Bids, 11), (Side::Asks, 15), (Side::Asks, 99)] {
        let mut book = sample_book();
        let before = snapshot(&book);
        assert!(book.insert(order("new", side, price, 8)));
        assert_ne!(snapshot(&book), before);
        book.remove("new".to_string());
        assert_eq!(snapshot(&book), before);
    }
}

#[test]
fn removing_twice_is_removing_once() {
    let mut once = sample_book();
    once.remove("a".to_string());
    let mut twice = sample_book();
    twice.remove("a".to_string());
    twice.remove("a".to_string());
    assert_eq!(snapshot(&once), snapshot(&twice));
    assert_eq!(once.len(), 4);
}

#[test]
fn updating_an_unknown_uid_changes_nothing() {
    let mut book = sample_book();
    let before = snapshot(&book);
    book.update("absent".to_string(), 5);
    book.update("absent".to_string(), 0);
    book.remove("absent".to_string());
    assert_eq!(snapshot(&book), before);
}

#[test]
fn updating_to_zero_is_removing() {
    let mut updated = sample_book();
    updated.update("c".to_string(), 0);
    let mut removed = sample_book();
    removed.remove("c".to_string());
    assert_eq!(snapshot(&updated), snapshot(&removed));
    assert!(!updated.has("c".to_string()));
}

#[test]
fn an_update_leaves_an_order_where_it_stands() {
    let mut book = sample_book();
    book.update("a".to_string(), 9);
    let orders = snapshot(&book).0;
    let uids: Vec<&str> = orders.iter().map(|o| o.uid.as_str()).collect();
    assert_eq!(uids, vec!["a", "c", "b", "e", "d"]);
    assert_eq!(orders[0].size, 9);
    assert_eq!(book.levels(Side::Bids), vec![(12, 1, 12), (10, 12, 132)]);
}

#[test]
fn the_best_prices_are_the_extremes() {
    let mut book = LimitOrderbook::with_settings(None, 1000, "t".to_string()).unwrap();
    let mut rng = rand::thread_rng();
    let mut bids: Vec<u32> = Vec::new();
    let mut asks: Vec<u32> = Vec::new();
    for i in 0..200 {
        let price: u32 = rng.gen_range(0..500);
        let side = if rng.gen_bool(0.5) { Side::Bids } else { Side::Asks };
        book.insert(order(&i.to_string(), side, price, 1));
        match side {
            Side::Bids => bids.push(price),
            Side::Asks => asks.push(price),
        }
        assert_eq!(book.best_bid(), bids.iter().max().cloned());
        assert_eq!(book.best_ask(), asks.iter().min().cloned());
    }
}

#[test]
fn index_and_queues_agree_after_every_step() {
    let mut book = LimitOrderbook::new();
    let mut rng = rand::thread_rng();
    let mut resting: Vec<Order> = Vec::new();
    let mut outliers = 0;
    for step in 0..600usize {
        let uid = rng.gen_range(0..80).to_string();
        let side = if rng.gen_bool(0.5) { Side::Bids } else { Side::Asks };
        let given = order(&uid, side, rng.gen_range(90..130), rng.gen_range(0..4));
        let action = match rng.gen_range(0..3) {
            0 => Submit::Insert,
            1 => Submit::Remove,
            _ => Submit::Update,
        };
        let known = resting.iter().position(|o| o.uid == uid);
        let before = book.len();
        let dropped = book.outliers();
        book.process(given.clone(), action);
        match (action, known) {
            (Submit::Insert, None) => {
                if book.outliers() == dropped {
                    resting.push(given);
                } else {
                    outliers += 1;
                    assert_eq!(book.len(), before);
                }
            }
            (Submit::Remove, Some(at)) => {
                resting.remove(at);
            }
            (Submit::Update, Some(at)) => {
                if given.size == 0 {
                    resting.remove(at);
                } else {
                    resting[at].size = given.size;
                }
            }
            _ => assert_eq!(book.len(), before),
        }
        assert_eq!(book.items_processed(), step + 1);
        assert_eq!(book.outliers(), outliers);
        assert!(book.outliers() <= book.items_processed());
        assert_eq!(book.len(), resting.len());
        let (orders, bids, asks, _, nodes) = snapshot(&book);
        assert_eq!(orders.len(), resting.len());
        assert_eq!(bids.len() + asks.len(), nodes);
        for row in bids.iter().chain(asks.iter()) {
            assert!(orders.iter().any(|o| o.price == row.0));
        }
        for kept in &resting {
            assert_eq!(book.get_order(kept.uid.clone()), Some(kept));
        }
        for side in [Side::Bids, Side::Asks] {
            let on_side: Vec<&Order> = orders.iter().filter(|o| o.side == side).collect();
            for pair in on_side.windows(2) {
                assert!(pair[0].price <= pair[1].price);
                if pair[0].price == pair[1].price {
                    let first = resting.iter().position(|o| o.uid == pair[0].uid).unwrap();
                    let second = resting.iter().position(|o| o.uid == pair[1].uid).unwrap();
                    assert!(first < second);
                }
            }
        }
        book.check();
        assert!(book.error_msgs().is_empty());
    }
}
