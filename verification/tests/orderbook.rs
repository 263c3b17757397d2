use rand::seq::SliceRandom;
use rand::Rng;
use rust_orderbook::order::{Order, Side, Submit};
use rust_orderbook::orderbook::LimitOrderbook;

fn generate_random_orders(size: usize) -> Vec<Order> {
    let mut rng = rand::thread_rng();

    let prices: Vec<u32> = (0..size).into_iter().map(|_k| rng.gen_range(0..10000)).collect();
    let sizes: Vec<u32> = (0..size).into_iter().map(|_k| rng.gen_range(0..10000)).collect();

    let vector: Vec<Order> = (0..size)
        .into_iter()
        .map(|k| {
            Order::new(
                k.to_string(),
                if rng.gen_bool(0.5) { Some(Side::Bids) } else { Some(Side::Asks) },
                Some(prices.choose(&mut rng).unwrap().clone()),
                Some(sizes.choose(&mut rng).unwrap().clone()),
                "dummy_datetime".to_string(),
            )
        })
        .collect();
    vector
}

fn unguarded_book() -> LimitOrderbook {
    LimitOrderbook::with_settings(None, 1000, "dummy_datetime".to_string()).unwrap()
}

fn show(lines: Vec<String>) {
    for line in lines {
        println!("{}", line);
    }
}

fn outlier_check(
    order: &Order,
    factor: f64,
    top_level: (Option<f64>, Option<f64>),
) -> (bool, (Option<f64>, Option<f64>)) {
    let price = order.price as f64;
    match order.side {
        Side::Bids => {
            if let Some(best_bid) = top_level.0 {
                if price < best_bid / factor {
                    (true, (Some(best_bid), top_level.1))
                } else if price > best_bid {
                    (false, (Some(price), top_level.1))
                } else {
                    (false, (Some(best_bid), top_level.1))
                }
            } else {
                (false, (Some(price), top_level.1))
            }
        }
        Side::Asks => {
            if let Some(best_ask) = top_level.1 {
                if price > best_ask * factor {
                    (true, (top_level.0, Some(best_ask)))
                } else if price < best_ask {
                    (false, (top_level.0, Some(price)))
                } else {
                    (false, (top_level.0, Some(best_ask)))
                }
            } else {
                (false, (top_level.0, Some(price)))
            }
        }
    }
}

fn orders_of(orderbook: &LimitOrderbook, at_most: usize) -> Vec<Order> {
    let mut orderbook_iter = orderbook.iter();
    let mut order_vector: Vec<Order> = Vec::new();
    let mut i: usize = 0;
    while let Some(order) = orderbook_iter.next() {
        println!("{:?}", order);
        order_vector.push(order.clone());
        i += 1;
        if i > at_most {
            break;
        }
    }
    order_vector
}

#[test]
fn orderbook_basics() {
    println!("\n-----Testing LOB Order Insertion-----\n");
    let mut orderbook: LimitOrderbook = unguarded_book();
    let mut orders = generate_random_orders(20);
    for order in orders.iter_mut() {
        order.timestamp = chrono::Utc::now().to_string();
    }
    println!("Inserting randomly-generated orders into orderbook.");
    for order in &orders {
        println!("Inserting {:?}", &order);
        orderbook.insert(order.clone());
    }
    show(orderbook.display_trees(Side::Bids));
    println!("Best bid: {:?}", orderbook.best_bid());
    println!("Buy-side liquidity: {:?}", orderbook.liquidity(Side::Bids));
    show(orderbook.display_trees(Side::Asks));
    println!("Best ask: {:?}", orderbook.best_ask());
    println!("Sell-side liquidity: {:?}", orderbook.liquidity(Side::Asks));

    let mut rng = rand::thread_rng();
    let update_order = orders.choose(&mut rng).unwrap();
    let order_uid = update_order.uid.clone();
    let new_size = 1000;
    println!("\nUpdating order {} with new order size {}", order_uid, new_size);
    orderbook.update(order_uid.clone(), new_size);
    println!("{:?}", orderbook.get_order(order_uid.clone()).unwrap());
    assert_eq!(orderbook.get_order(order_uid).unwrap().size, 1000);
    show(orderbook.display_trees(Side::Bids));
    show(orderbook.display_trees(Side::Asks));
}

#[test]
fn orderbook_btree_slab_empty_book() {
    let mut lob = LimitOrderbook::new();
    let orders = generate_random_orders(2);
    assert_eq!(lob.best_ask(), None);
    assert_eq!(lob.best_bid(), None);
    assert_eq!(lob.len(), 0);
    assert_eq!(lob.node_count(), 0);
    assert_eq!(lob.levels(Side::Bids), vec![]);
    assert_eq!(lob.levels(Side::Asks), vec![]);
    assert_eq!(lob.items_processed(), 0);
    lob.check();
    assert_eq!(lob.error_msgs(), Vec::<String>::new());
    lob.process(orders[0].clone(), Submit::Remove);
    lob.process(orders[1].clone(), Submit::Update);
    assert_eq!(lob.len(), 0);
    println!("Orderbook timestamp: {}", lob.timestamp());
}

#[test]
fn orderbook_btree_slab_basics() {
    println!("\n-----Testing LOB Order Insertion-----\n");
    let mut orderbook: LimitOrderbook = LimitOrderbook::new();

    let orders = generate_random_orders(20);
    println!("\nInserting randomly-generated orders into orderbook.\n");

    let mut outlier_n_best = (false, (None, None));
    let mut orders_adj: Vec<Order> = Vec::new();
    for order in &orders {
        let inserted = orderbook.insert(order.clone());
        outlier_n_best = outlier_check(&order, 2.0, outlier_n_best.1);
        assert_eq!(inserted, !outlier_n_best.0);
        if !outlier_n_best.0 {
            orders_adj.push(order.clone());
        }
    }
    let orders = orders_adj;

    assert_eq!(orderbook.len(), orders.len());
    show(orderbook.display_trees_aux(Side::Bids));
    println!("Best bid: {:?}", orderbook.best_bid());
    println!("Buy-side levels: {:?}", orderbook.levels(Side::Bids));
    show(orderbook.display_trees_aux(Side::Asks));
    println!("Best ask: {:?}", orderbook.best_ask());
    println!("Sell-side levels {:?}", orderbook.levels(Side::Asks));

    let mut rng = rand::thread_rng();
    let updated_order = orders.choose(&mut rng).unwrap();
    let new_size = 1000;
    println!(
        "\n------------Updating order {} with new order size {}------------\n",
        updated_order.uid, new_size
    );
    orderbook.update(updated_order.uid.clone(), new_size);
    let updated_order = orderbook.get_order(updated_order.uid.clone()).unwrap().clone();
    println!("{:?}", updated_order);
    assert_eq!(updated_order.size, 1000);
    show(orderbook.display_trees_aux(Side::Bids));
    show(orderbook.display_trees_aux(Side::Asks));
    assert_eq!(orderbook.len(), orders.len());

    let deleted: Vec<&Order> = orders.choose_multiple(&mut rng, 5).collect();
    let deleted_uids: Vec<String> = deleted.iter().map(|order| order.uid.clone()).collect();
    println!("\nDeleting orders {:?}", deleted_uids);
    for i in 0..deleted.len() {
        println!("{:?}", deleted[i]);
        orderbook.remove(deleted_uids[i].clone());
    }

    show(orderbook.display_trees_aux(Side::Bids));
    show(orderbook.display_trees_aux(Side::Asks));
    assert_eq!(orderbook.len(), orders.len() - deleted.len());

    let remaining: Vec<&Order> = orders
        .iter()
        .filter(|&order| !deleted_uids.contains(&order.uid))
        .map(|order| if *order.uid == updated_order.uid { &updated_order } else { order })
        .collect();
    println!("\nExpected Remaining orders:\n");
    for order in &remaining {
        println!("{:?} Orderbook has this? {}", order, orderbook.has(order.uid.clone()));
    }

    println!("\nRemaining orders in LOB:\n");
    let mut order_vector = orders_of(&orderbook, remaining.len());

    println!("\nRemaining orders in LOB, sorted by uid:\n");
    order_vector.sort_by_key(|order| order.uid.clone().parse::<usize>().unwrap());
    let mut i: usize = 0;
    for order in &order_vector {
        println!("{:?}", order);
        assert_eq!(remaining[i], order);
        i += 1;
    }
    assert_eq!(i, remaining.len());
}

#[test]
fn orderbook_py_empty_book() {
    let lob = unguarded_book();
    assert_eq!(lob.best_ask(), None);
    assert_eq!(lob.best_bid(), None);
    assert_eq!(lob.len(), 0);
    assert_eq!(lob.node_count(), 0);
    assert_eq!(lob.levels(Side::Bids), vec![]);
    assert_eq!(lob.levels(Side::Asks), vec![]);
    assert_eq!(lob.liquidity(Side::Bids), vec![]);
    assert_eq!(lob.liquidity(Side::Asks), vec![]);
    assert_eq!(lob.items_processed(), 0);
}

#[test]
fn orderbook_py_basics() {
    println!("\n-----Testing LOB Order Insertion-----\n");
    let mut orderbook: LimitOrderbook = unguarded_book();

    let orders = generate_random_orders(20);
    println!("Inserting randomly-generated orders into orderbook.");

    for order in &orders {
        println!("{:?},", order);
        orderbook.insert(order.clone());
    }
    assert_eq!(orderbook.len(), orders.len());
    show(orderbook.display_trees(Side::Bids));
    println!("Best bid: {:?}", orderbook.best_bid());
    println!("Buy-side marginal order depth: {:?}", orderbook.levels(Side::Bids));
    println!("Buy-side cumulative order depth: {:?}", orderbook.liquidity(Side::Bids));
    show(orderbook.display_trees(Side::Asks));
    println!("Best ask: {:?}", orderbook.best_ask());
    println!("Sell-side marginal order depth: {:?}", orderbook.levels(Side::Asks));
    println!("Sell-side cumulative order depth: {:?}", orderbook.liquidity(Side::Asks));

    let mut rng = rand::thread_rng();
    let updated_order = orders.choose(&mut rng).unwrap();
    let new_size = 1000;
    println!(
        "\n------------Updating order {} with new order size {}------------\n",
        updated_order.uid, new_size
    );
    orderbook.update(updated_order.uid.clone(), new_size);
    let updated_order = orderbook.get_order(updated_order.uid.clone()).unwrap().clone();
    println!("{:?}", updated_order);
    assert_eq!(updated_order.size, 1000);
    show(orderbook.display_trees(Side::Bids));
    show(orderbook.display_trees(Side::Asks));
    assert_eq!(orderbook.len(), orders.len());

    let deleted: Vec<&Order> = orders.choose_multiple(&mut rng, 5).collect();
    let deleted_uids: Vec<String> = deleted.iter().map(|order| order.uid.clone()).collect();
    println!("\nDeleting orders {:?}", deleted_uids);
    for i in 0..deleted.len() {
        println!("{:?}", deleted[i]);
        orderbook.remove(deleted_uids[i].clone());
    }

    show(orderbook.display_trees(Side::Bids));
    show(orderbook.display_trees(Side::Asks));
    assert_eq!(orderbook.len(), orders.len() - deleted.len());

    let remaining: Vec<&Order> = orders
        .iter()
        .filter(|&order| !deleted_uids.contains(&order.uid))
        .map(|order| if *order.uid == updated_order.uid { &updated_order } else { order })
        .collect();
    println!("\nExpected Remaining orders:\n");
    for order in &remaining {
        println!("{:?} Orderbook has this? {}", order, orderbook.has(order.uid.clone()));
    }

    println!("\nRemaining orders in LOB:\n");
    let mut order_vector = orders_of(&orderbook, remaining.len());

    println!("\nRemaining orders in LOB, sorted by uid:\n");
    order_vector.sort_by_key(|order| order.uid.clone().parse::<usize>().unwrap());
    let mut i: usize = 0;
    for order in &order_vector {
        println!("{:?}", order);
        assert_eq!(remaining[i], order);
        i += 1;
    }
    assert_eq!(i, remaining.len());
}
