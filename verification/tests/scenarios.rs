use rust_orderbook::index::OrderIndex;
use rust_orderbook::order::{parse_query, Order, Side, Submit};
use rust_orderbook::order_stack::OrderStack;
use rust_orderbook::orderbook::LimitOrderbook;

fn order(uid: &str, side: Side, price: u32, size: u32) -> Order {
    Order::new(uid.to_string(), Some(side), Some(price), Some(size), "stamp".to_string())
}

fn book() -> LimitOrderbook {
    LimitOrderbook::with_settings(Some(200), 1000, "start".to_string()).unwrap()
}

fn uids(book: &LimitOrderbook) -> Vec<String> {
    let mut walk = book.iter();
    let mut found = Vec::new();
    while let Some(order) = walk.next() {
        found.push(order.uid.clone());
    }
    found
}

#[test]
fn basic_insert() {
    let mut lob = book();
    assert!(lob.insert(order("A", Side::Bids, 10000, 100)));
    assert!(lob.insert(order("B", Side::Bids, 10100, 200)));
    assert!(lob.insert(order("C", Side::Asks, 10200, 150)));
    assert_eq!(lob.best_bid(), Some(10100));
    assert_eq!(lob.best_ask(), Some(10200));
    assert_eq!(lob.len(), 3);
    assert_eq!(lob.node_count(), 3);
}

#[test]
fn first_in_first_out_at_one_price() {
    let mut lob = book();
    lob.insert(order("A", Side::Bids, 100, 1));
    lob.insert(order("B", Side::Bids, 100, 2));
    lob.insert(order("C", Side::Bids, 100, 3));
    lob.remove("A".to_string());
    assert_eq!(lob.node_count(), 1);
    assert_eq!(lob.len(), 2);
    assert_eq!(uids(&lob), vec!["B".to_string(), "C".to_string()]);
    assert_eq!(lob.levels(Side::Bids), vec![(100, 5, 500)]);
}

#[test]
fn last_order_at_a_price_takes_the_level_along() {
    let mut lob = book();
    lob.insert(order("A", Side::Bids, 100, 1));
    lob.remove("A".to_string());
    assert_eq!(lob.best_bid(), None);
    assert_eq!(lob.node_count(), 0);
    assert_eq!(lob.len(), 0);
    lob.check();
    assert!(lob.error_msgs().is_empty());
}

#[test]
fn deleting_a_root_with_two_children_keeps_the_book_sound() {
    let mut lob = LimitOrderbook::with_settings(None, 1000, "start".to_string()).unwrap();
    for (i, price) in [50u32, 30, 70, 60, 80, 65].iter().enumerate() {
        assert!(lob.insert(order(&i.to_string(), Side::Bids, *price, 1)));
    }
    lob.remove("0".to_string());
    assert_eq!(lob.node_count(), 5);
    assert_eq!(lob.len(), 5);
    lob.check();
    assert!(lob.error_msgs().is_empty());
    let prices: Vec<u32> = lob.levels(Side::Bids).iter().map(|row| row.0).collect();
    assert_eq!(prices, vec![80, 70, 65, 60, 30]);
}

#[test]
fn zero_size_update_is_remove() {
    let mut lob = book();
    lob.insert(order("A", Side::Bids, 100, 5));
    lob.update("A".to_string(), 0);
    assert!(!lob.has("A".to_string()));
    assert_eq!(lob.len(), 0);
    assert_eq!(lob.best_bid(), None);
}

#[test]
fn outlier_guard() {
    let mut lob = book();
    lob.process(order("A", Side::Bids, 100, 1), Submit::Insert);
    lob.process(order("B", Side::Bids, 10, 1), Submit::Insert);
    assert!(!lob.has("B".to_string()));
    assert_eq!(lob.len(), 1);
    assert_eq!(lob.outliers(), 1);
    assert_eq!(lob.items_processed(), 2);
}

#[test]
fn outlier_bounds_are_exact() {
    let mut lob = book();
    assert!(lob.insert(order("bid", Side::Bids, 100, 1)));
    assert!(!lob.insert(order("low", Side::Bids, 49, 1)));
    assert!(lob.insert(order("edge", Side::Bids, 50, 1)));
    assert!(lob.insert(order("ask", Side::Asks, 100, 1)));
    assert!(!lob.insert(order("high", Side::Asks, 201, 1)));
    assert!(lob.insert(order("rim", Side::Asks, 200, 1)));
    assert_eq!(lob.outliers(), 2);
    assert_eq!(lob.len(), 4);
    let mut odd = LimitOrderbook::with_settings(Some(150), 10, "t".to_string()).unwrap();
    assert!(odd.insert(order("bid", Side::Bids, 100, 1)));
    assert!(!odd.insert(order("low", Side::Bids, 66, 1)));
    assert!(odd.insert(order("edge", Side::Bids, 67, 1)));
    assert!(LimitOrderbook::with_settings(Some(0), 10, "t".to_string()).is_none());
}

#[test]
fn a_uid_that_rests_already_is_not_inserted_again() {
    let mut lob = book();
    assert!(lob.insert(order("A", Side::Bids, 100, 1)));
    assert!(!lob.insert(order("A", Side::Asks, 300, 9)));
    assert_eq!(lob.len(), 1);
    assert_eq!(lob.outliers(), 0);
    assert_eq!(lob.best_ask(), None);
    assert_eq!(lob.get_order("A".to_string()), Some(&order("A", Side::Bids, 100, 1)));
}

#[test]
fn process_counts_every_item_and_keeps_the_last_timestamp() {
    let mut lob = book();
    assert_eq!(lob.timestamp(), "start");
    let mut first = order("A", Side::Asks, 100, 1);
    first.timestamp = "one".to_string();
    lob.process(first.clone(), Submit::Insert);
    assert_eq!(lob.timestamp(), "one");
    let mut second = order("A", Side::Asks, 100, 7);
    second.timestamp = "two".to_string();
    lob.process(second, Submit::Update);
    assert_eq!(lob.get_order("A".to_string()).unwrap().size, 7);
    assert_eq!(lob.timestamp(), "two");
    let mut third = order("missing", Side::Asks, 100, 7);
    third.timestamp = "three".to_string();
    lob.process(third.clone(), Submit::Remove);
    lob.process(third, Submit::Update);
    assert_eq!(lob.len(), 1);
    first.timestamp = "four".to_string();
    lob.process(first, Submit::Remove);
    assert_eq!(lob.len(), 0);
    assert_eq!(lob.items_processed(), 5);
    assert_eq!(lob.outliers(), 0);
    assert_eq!(lob.timestamp(), "four");
}

#[test]
fn a_new_book_is_stamped_with_the_time() {
    let lob = LimitOrderbook::new();
    let stamp = lob.timestamp();
    assert_eq!(stamp.len(), 27);
    assert!(stamp.ends_with('Z'));
    assert_eq!(&stamp[10..11], "T");
    assert!(stamp[0..4].parse::<u32>().unwrap() >= 2024);
}

#[test]
fn levels_run_from_the_best_price_outward() {
    let mut lob = LimitOrderbook::with_settings(None, 1000, "t".to_string()).unwrap();
    lob.insert(order("a", Side::Bids, 10, 2));
    lob.insert(order("b", Side::Bids, 12, 1));
    lob.insert(order("c", Side::Bids, 10, 3));
    lob.insert(order("d", Side::Asks, 15, 4));
    lob.insert(order("e", Side::Asks, 14, 1));
    lob.insert(order("f", Side::Asks, 20, 2));
    assert_eq!(lob.levels(Side::Bids), vec![(12, 1, 12), (10, 5, 62)]);
    assert_eq!(lob.levels(Side::Asks), vec![(14, 1, 14), (15, 4, 74), (20, 2, 114)]);
    assert_eq!(lob.liquidity(Side::Bids), vec![(12, 12), (10, 62)]);
    assert_eq!(lob.liquidity(Side::Asks), vec![(14, 14), (15, 74), (20, 114)]);
    assert_eq!(uids(&lob), vec!["a", "c", "b", "e", "d", "f"]);
    assert_eq!(lob.node_count(), 5);
}

#[test]
fn levels_hold_the_largest_numbers() {
    let mut lob = LimitOrderbook::with_settings(None, 1000, "t".to_string()).unwrap();
    lob.insert(order("a", Side::Asks, u32::MAX, u32::MAX));
    lob.insert(order("b", Side::Asks, u32::MAX, u32::MAX));
    let size = 2 * u32::MAX as u128;
    assert_eq!(lob.levels(Side::Asks), vec![(u32::MAX, size, size * u32::MAX as u128)]);
}

#[test]
fn display_shows_a_tree_or_says_that_it_is_too_large() {
    let mut lob = LimitOrderbook::with_settings(None, 2, "t".to_string()).unwrap();
    lob.insert(order("a", Side::Asks, 5, 1));
    lob.insert(order("b", Side::Asks, 6, 1));
    assert_eq!(
        lob.display(Side::Asks),
        vec![
            "\nAsks: ".to_string(),
            "5x1/1__   ".to_string(),
            "       \\  ".to_string(),
            "     6x1/1".to_string(),
        ]
    );
    assert_eq!(lob.display(Side::Bids), vec!["\nBids: ".to_string()]);
    lob.insert(order("c", Side::Asks, 7, 1));
    assert_eq!(
        lob.display(Side::Asks),
        vec![
            "Asks AVL Tree too large to display (3 nodes). Increase avl_tree_size_display_cutoff (2) in orderbook to display larger trees"
                .to_string()
        ]
    );
    assert_eq!(lob.display_trees_aux(Side::Asks).len(), 4);
}

#[test]
fn the_queue_of_one_price() {
    let mut stack = OrderStack::new();
    assert!(stack.is_empty());
    assert!(stack.pop_front().is_none());
    stack.push_back(order("a", Side::Bids, 1, 3));
    stack.push_back(order("b", Side::Bids, 1, 4));
    stack.push_back(order("c", Side::Bids, 1, 5));
    assert_eq!(stack.len(), 3);
    assert_eq!(stack.size(), 12);
    assert_eq!(stack.get_order("b".to_string()).unwrap().size, 4);
    assert!(stack.get_order("z".to_string()).is_none());
    stack.get_order_mut("b".to_string()).unwrap().size = 10;
    assert_eq!(stack.size(), 18);
    assert_eq!(stack.get(1).unwrap().uid, "b");
    assert_eq!(stack.remove("b".to_string()).unwrap().size, 10);
    assert!(stack.remove("b".to_string()).is_none());
    assert_eq!(stack.pop_front().unwrap().uid, "a");
    assert_eq!(stack.pop_front().unwrap().uid, "c");
    assert!(stack.is_empty());
    assert!(stack.get(0).is_none());
}

#[test]
fn orders_fall_back_on_defaults() {
    let plain = Order::new("u".to_string(), None, None, None, "t".to_string());
    assert_eq!(plain.side, Side::Bids);
    assert_eq!(plain.price, 0);
    assert_eq!(plain.size, 0);
    let default = Order::default();
    assert_eq!(default.uid, "default_uid");
    assert_eq!(default.timestamp, "default timestamp");
    assert_eq!(default.side, Side::default());
    assert_eq!(default.clone(), default);
    assert_ne!(plain, default);
}

#[test]
fn notes_tell_what_the_book_holds() {
    let mut lob = LimitOrderbook::with_settings(None, 1, "t".to_string()).unwrap();
    lob.insert(order("a", Side::Bids, 10, 2));
    lob.insert(order("e", Side::Asks, 14, 1));
    lob.insert(order("f", Side::Asks, 14, 3));
    assert_eq!(
        lob.log_notes(),
        "No errors encountered\n\
         1 bid levels = [(10, 2, 20)]\n\nBids: \n10x2/1\n\
         1 ask levels = [(14, 4, 56)]\n\nAsks: \n14x4/2\n\
         Items processed by orderbook: 0\n\
         Outliers ignored by orderbook: 0"
    );
    lob.process(order("g", Side::Asks, 30, 3), Submit::Insert);
    lob.process(order("h", Side::Bids, 9, 3), Submit::Insert);
    lob.process(order("i", Side::Bids, 8, 5), Submit::Insert);
    assert_eq!(
        lob.log_notes(),
        "No errors encountered\n\
         Bids AVL Tree too large to display (3 nodes). Increase avl_tree_size_display_cutoff (1) in orderbook to display larger trees\n\
         Asks AVL Tree too large to display (2 nodes). Increase avl_tree_size_display_cutoff (1) in orderbook to display larger trees\n\
         Items processed by orderbook: 3\n\
         Outliers ignored by orderbook: 0"
    );
}

#[test]
fn actions_are_named_in_any_case() {
    assert_eq!(parse_query("insert".to_string()), Ok(Submit::Insert));
    assert_eq!(parse_query("ADD".to_string()), Ok(Submit::Insert));
    assert_eq!(parse_query("Append".to_string()), Ok(Submit::Insert));
    assert_eq!(parse_query("Remove".to_string()), Ok(Submit::Remove));
    assert_eq!(parse_query("DELETE".to_string()), Ok(Submit::Remove));
    assert_eq!(parse_query("uPdAtE".to_string()), Ok(Submit::Update));
    assert_eq!(parse_query("change".to_string()), Ok(Submit::Update));
    assert_eq!(parse_query("Cancel".to_string()), Err("Invalid query action Cancel".to_string()));
    assert_eq!(parse_query("".to_string()), Err("Invalid query action ".to_string()));
}

#[test]
fn the_index_remembers_where_orders_rest() {
    let mut index = OrderIndex::new();
    assert_eq!(index.len(), 0);
    assert_eq!(index.get("a"), None);
    index.insert("a".to_string(), Side::Asks, 7);
    index.insert("b".to_string(), Side::Bids, 5);
    assert!(index.has("a") && index.has("b") && !index.has("c"));
    assert_eq!(index.get("a"), Some((Side::Asks, 7)));
    assert_eq!(index.len(), 2);
    assert_eq!(index.remove("a"), Some((Side::Asks, 7)));
    assert_eq!(index.remove("a"), None);
    assert_eq!(index.get("b"), Some((Side::Bids, 5)));
    assert_eq!(index.len(), 1);
}
