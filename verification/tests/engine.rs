use rust_lob::orderbook::{Arena, BidOrAsk, ExecutedOrders};
use rust_lob::sim::{ServerMessage, Simulator};
use rust_lob::client::keep_recent_trades;

fn trade(price: i128, volume: u64, aggressor: u64, passive: u64) -> ExecutedOrders {
    ExecutedOrders { price, volume, aggresive_order_id: aggressor, passive_order_id: passive }
}

#[test]
fn docs_example_trades_at_passive_price() {
    let mut book = Arena::new(false);
    book.add_limit_order(1, BidOrAsk::Bid, 15, 920);
    book.add_limit_order(2, BidOrAsk::Bid, 20, 850);
    book.add_limit_order(11, BidOrAsk::Ask, 100, 950);
    book.add_limit_order(22, BidOrAsk::Ask, 10, 1050);
    assert_eq!(book.highest_buy(), Some(920));
    assert_eq!(book.lowest_sell(), Some(950));
    assert_eq!(book.executed_orders_count(), 0);

    book.add_limit_order(3, BidOrAsk::Bid, 5, 1000);
    assert_eq!(book.executed_orders_count(), 1);
    let mut offset = 0usize;
    let trades = book.get_executed_orders(&mut offset).unwrap();
    assert_eq!(trades, vec![trade(950, 5, 3, 11)]);
    assert_eq!(offset, 1);
    assert_eq!(book.get_top_n_asks(5), vec![(950, 95), (1050, 10)]);
    assert_eq!(book.get_top_n_bids(5), vec![(920, 15), (850, 20)]);
}

#[test]
fn same_price_fills_oldest_first() {
    let mut book = Arena::new(false);
    book.add_limit_order(1, BidOrAsk::Ask, 10, 500);
    book.add_limit_order(2, BidOrAsk::Ask, 10, 500);
    book.add_limit_order(3, BidOrAsk::Ask, 10, 400);
    book.add_limit_order(4, BidOrAsk::Bid, 25, 500);
    let mut offset = 0usize;
    let trades = book.get_executed_orders(&mut offset).unwrap();
    assert_eq!(trades, vec![trade(400, 10, 4, 3), trade(500, 10, 4, 1), trade(500, 5, 4, 2)]);
    assert_eq!(book.get_top_n_asks(10), vec![(500, 5)]);
    assert!(book.get_order(1).is_none());
    let left = book.get_order(2).unwrap();
    assert_eq!(left.shares, 5);
    assert_eq!(left.limit, 500);
    assert_eq!(book.highest_buy(), None);
}

#[test]
fn aggressor_rests_what_it_cannot_fill() {
    let mut book = Arena::new(false);
    book.add_limit_order(1, BidOrAsk::Bid, 10, 300);
    book.add_limit_order(2, BidOrAsk::Ask, 25, 290);
    assert_eq!(book.executed_orders_count(), 1);
    assert_eq!(book.highest_buy(), None);
    assert_eq!(book.lowest_sell(), Some(290));
    assert_eq!(book.get_top_n_asks(3), vec![(290, 15)]);
    let o = book.get_order(2).unwrap();
    assert_eq!(o.bid_or_ask, BidOrAsk::Ask);
    assert_eq!(o.shares, 15);
}

#[test]
fn cancel_removes_resting_order_and_empty_level() {
    let mut book = Arena::new(false);
    book.add_limit_order(1, BidOrAsk::Bid, 10, 100);
    book.add_limit_order(2, BidOrAsk::Bid, 20, 110);
    book.cancel_limit_order(2);
    assert_eq!(book.highest_buy(), Some(100));
    assert_eq!(book.get_top_n_bids(10), vec![(100, 10)]);
    book.cancel_limit_order(99);
    assert_eq!(book.get_top_n_bids(10), vec![(100, 10)]);
    assert_eq!(book.executed_orders_count(), 0);
}

#[test]
fn cancel_after_resting_add_restores_book() {
    let mut book = Arena::new(false);
    book.add_limit_order(1, BidOrAsk::Ask, 10, 700);
    let before = book.get_top_n_asks(10);
    book.add_limit_order(2, BidOrAsk::Ask, 4, 700);
    book.cancel_limit_order(2);
    assert_eq!(book.get_top_n_asks(10), before);
    assert!(book.get_order(2).is_none());
}

#[test]
fn modify_loses_time_priority() {
    let mut book = Arena::new(false);
    book.add_limit_order(1, BidOrAsk::Ask, 10, 500);
    book.add_limit_order(2, BidOrAsk::Ask, 10, 500);
    book.modify_limit_order(1, 10, 500);
    book.add_limit_order(3, BidOrAsk::Bid, 10, 500);
    let mut offset = 0usize;
    let trades = book.get_executed_orders(&mut offset).unwrap();
    assert_eq!(trades, vec![trade(500, 10, 3, 2)]);
    assert!(book.get_order(1).is_some());
}

#[test]
fn modify_can_cross_the_book() {
    let mut book = Arena::new(false);
    book.add_limit_order(1, BidOrAsk::Bid, 10, 100);
    book.add_limit_order(2, BidOrAsk::Ask, 6, 120);
    book.modify_limit_order(1, 8, 125);
    assert_eq!(book.executed_orders_count(), 1);
    assert_eq!(book.get_top_n_bids(5), vec![(125, 2)]);
    assert_eq!(book.lowest_sell(), None);
}

#[test]
fn snapshots_are_sorted_by_best_price() {
    let mut book = Arena::new(false);
    for (i, p) in [105i128, 101, 109, 103, 107, 102, 108].iter().enumerate() {
        book.add_limit_order(i as u64 + 1, BidOrAsk::Bid, 1, *p);
    }
    for (i, p) in [205i128, 201, 209, 203].iter().enumerate() {
        book.add_limit_order(i as u64 + 100, BidOrAsk::Ask, 2, *p);
    }
    let bids: Vec<i128> = book.get_top_n_bids(100).iter().map(|l| l.0).collect();
    assert_eq!(bids, vec![109, 108, 107, 105, 103, 102, 101]);
    let asks: Vec<i128> = book.get_top_n_asks(3).iter().map(|l| l.0).collect();
    assert_eq!(asks, vec![201, 203, 205]);
}

#[test]
fn best_level_walk_starts_at_best_price() {
    let mut book = Arena::new(true);
    for (i, p) in [100i128, 90, 110, 80, 95].iter().enumerate() {
        book.add_limit_order(i as u64 + 1, BidOrAsk::Bid, 1, *p);
    }
    let walk = book.get_top_n_bids(20);
    assert!(!walk.is_empty() && walk.len() <= 2);
    assert_eq!(walk[0].0, 110);
}

#[test]
fn executed_orders_offset_tracks_log() {
    let mut book = Arena::new(false);
    book.add_limit_order(11, BidOrAsk::Ask, 10, 950);
    book.add_limit_order(1, BidOrAsk::Bid, 1, 950);
    let mut offset = 0usize;
    assert_eq!(book.get_executed_orders(&mut offset).unwrap(), vec![trade(950, 1, 1, 11)]);
    assert_eq!(offset, 1);
    book.add_limit_order(2, BidOrAsk::Bid, 1, 950);
    assert_eq!(book.get_executed_orders(&mut offset).unwrap(), vec![trade(950, 1, 2, 11)]);
    assert_eq!(offset, 2);
    book.add_limit_order(3, BidOrAsk::Bid, 1, 900);
    assert!(book.get_executed_orders(&mut offset).is_none());
    assert_eq!(offset, 2);
    book.add_limit_order(4, BidOrAsk::Ask, 3, 800);
    book.add_limit_order(5, BidOrAsk::Bid, 5, 960);
    assert_eq!(
        book.get_executed_orders(&mut offset).unwrap(),
        vec![trade(900, 1, 4, 3), trade(800, 2, 5, 4), trade(950, 3, 5, 11)]
    );
    assert_eq!(offset, 5);
}

#[test]
fn random_order_id_needs_a_deep_book() {
    let mut book = Arena::new(false);
    for i in 1..=10u64 {
        book.add_limit_order(i, BidOrAsk::Bid, 1, 100 + i as i128);
    }
    assert_eq!(book.get_random_order_id(), None);
    for i in 11..=10_000u64 {
        book.add_limit_order(i, BidOrAsk::Bid, 1, 100 + (i % 500) as i128);
    }
    let id = book.get_random_order_id().unwrap();
    assert!(book.get_order(id).is_some());
    book.cancel_limit_order(id);
    assert_eq!(book.get_random_order_id(), None);
}

#[test]
fn many_levels_stay_balanced_and_ordered() {
    let mut book = Arena::new(false);
    for i in 0..500u64 {
        let p = ((i * 7919) % 1000) as i128;
        book.add_limit_order(i + 1, BidOrAsk::Bid, 1, p);
    }
    for i in 0..250u64 {
        book.cancel_limit_order(i * 2 + 1);
    }
    let bids = book.get_top_n_bids(1000);
    assert_eq!(bids.len(), 250);
    for w in bids.windows(2) {
        assert!(w[0].0 > w[1].0);
    }
}

#[test]
fn simulator_records_each_order() {
    let mut sim = Simulator::new(false);
    sim.seed_orderbook(vec![(BidOrAsk::Bid, 10, 990), (BidOrAsk::Ask, 10, 1010)]);
    assert!(sim.add_limit(BidOrAsk::Bid, 4, 1010));
    assert_eq!(sim.stats_len(), 1);
    let first = sim.generate_updates(0);
    assert_eq!(first.len(), 3);
    match &first[0] {
        ServerMessage::ExecutionStats(s) => {
            assert_eq!(s.order_type, "ADD");
            assert_eq!(s.executed_orders_cnt, 1);
        },
        _ => panic!("stats come first"),
    }
    match &first[1] {
        ServerMessage::BestLevels { best_buy, best_sell } => {
            assert_eq!(*best_buy, Some(990));
            assert_eq!(*best_sell, Some(1010));
        },
        _ => panic!("best levels follow on the first order"),
    }
    match &first[2] {
        ServerMessage::Trades(t) => assert_eq!(t, &vec![trade(1010, 4, 3, 2)]),
        _ => panic!("trades come last"),
    }

    sim.cancel_limit(1);
    assert_eq!(sim.generate_updates(1).len(), 1);
    assert!(sim.modify_limit(2, 3, 1020));
    let third = sim.generate_updates(2);
    assert_eq!(third.len(), 1);
    match &third[0] {
        ServerMessage::ExecutionStats(s) => assert_eq!(s.order_type, "MODIFY"),
        _ => panic!("stats come first"),
    }
    let snap = sim.get_snapshot();
    assert_eq!(snap.len(), 1);
    match &snap[0] {
        ServerMessage::PriceLevels { snapshot, bids, asks } => {
            assert!(*snapshot);
            assert!(bids.is_empty());
            assert_eq!(asks, &vec![(1020, 3)]);
        },
        _ => panic!("a snapshot lists levels"),
    }
}

#[test]
fn simulator_lists_levels_every_hundredth_order() {
    let mut sim = Simulator::new(false);
    for i in 0..100u64 {
        assert!(sim.add_limit(BidOrAsk::Bid, 1, 100 + i as i128));
    }
    let updates = sim.generate_updates(99);
    assert_eq!(updates.len(), 2);
    match &updates[1] {
        ServerMessage::PriceLevels { snapshot, bids, asks } => {
            assert!(!*snapshot);
            assert_eq!(bids.len(), 100);
            assert_eq!(bids[0], (199, 1));
            assert!(asks.is_empty());
        },
        _ => panic!("levels follow the stats"),
    }
}

#[test]
fn seeding_adds_orders_with_ids_in_turn() {
    let mut sim = Simulator::new(false);
    sim.seed_orderbook(vec![
        (BidOrAsk::Bid, 10, 990),
        (BidOrAsk::Ask, 7, 1010),
        (BidOrAsk::Bid, 3, 990),
        (BidOrAsk::Ask, u64::MAX, 1010),
        (BidOrAsk::Ask, 2, 985),
    ]);
    let book = sim.book();
    assert_eq!(book.get_top_n_bids(5), vec![(990, 11)]);
    assert_eq!(book.get_top_n_asks(5), vec![(1010, 7)]);
    assert!(book.get_order(4).is_none());
    assert_eq!(book.get_order(2).map(|o| o.shares), Some(7));
    assert_eq!(book.get_order(1).map(|o| o.shares), Some(8));
    assert!(book.get_order(5).is_none());
    assert!(sim.add_limit(BidOrAsk::Bid, 1, 900));
    assert_eq!(sim.book().get_order(6).map(|o| o.limit), Some(900));
}

#[test]
fn trades_table_keeps_the_latest_25() {
    let mut few: Vec<ExecutedOrders> = (1..=25).map(|i| trade(1000, i, i + 100, i)).collect();
    let same = few.clone();
    keep_recent_trades(&mut few);
    assert_eq!(few, same);

    let mut many: Vec<ExecutedOrders> = (1..=40).map(|i| trade(1000, i, i + 100, i)).collect();
    keep_recent_trades(&mut many);
    assert_eq!(many.len(), 25);
    assert_eq!(many[0], trade(1000, 16, 116, 16));
    assert_eq!(many[24], trade(1000, 40, 140, 40));
}

#[test]
fn modify_to_zero_shares_is_a_cancel() {
    let mut a = Arena::new(false);
    let mut b = Arena::new(false);
    for book in [&mut a, &mut b] {
        book.add_limit_order(1, BidOrAsk::Bid, 10, 900);
        book.add_limit_order(2, BidOrAsk::Bid, 5, 890);
        book.add_limit_order(3, BidOrAsk::Ask, 5, 990);
    }
    a.modify_limit_order(1, 0, 950);
    b.cancel_limit_order(1);
    assert_eq!(a.get_top_n_bids(5), b.get_top_n_bids(5));
    assert_eq!(a.get_top_n_asks(5), b.get_top_n_asks(5));
    assert!(a.get_order(1).is_none());
    assert_eq!(a.executed_orders_count(), 0);
    assert_eq!(a.avl_rebalances(), b.avl_rebalances());

    a.modify_limit_order(77, 4, 900);
    assert_eq!(a.avl_rebalances(), 0);
    assert_eq!(a.get_top_n_bids(5), vec![(890, 5)]);
}

#[test]
fn rebalances_only_when_levels_come_or_go() {
    let mut a = Arena::new(false);
    for (i, p) in [100i128, 200, 300].iter().enumerate() {
        a.add_limit_order(i as u64 + 1, BidOrAsk::Bid, 5, *p);
        assert_eq!(a.avl_rebalances(), if i == 2 { 1 } else { 0 });
    }
    a.add_limit_order(4, BidOrAsk::Bid, 5, 200);
    assert_eq!(a.avl_rebalances(), 0);
    a.cancel_limit_order(2);
    assert_eq!(a.avl_rebalances(), 0);
    a.add_limit_order(5, BidOrAsk::Bid, 9, 300);
    assert_eq!(a.avl_rebalances(), 0);
    assert_eq!(a.get_top_n_bids(5), vec![(300, 14), (200, 5), (100, 5)]);
    a.cancel_limit_order(4);
    a.cancel_limit_order(1);
    assert_eq!(a.avl_rebalances(), 0);
    assert_eq!(a.get_top_n_bids(5), vec![(300, 14)]);
}
