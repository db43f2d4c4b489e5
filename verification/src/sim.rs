//! The order-flow simulator's book keeping: placing generated orders with
//! their timings, and the messages streamed to a client after each order.
//! Drawing the random sides, sizes and prices is left to the caller.
use vstd::prelude::*;
use crate::orderbook::{Arena, BidOrAsk, BookView, ExecutedOrders, add_shapes, cancel_shapes, modify_shapes, lemma_op_ids, with_volumes, add_order, cancel_order, modify_order, level_volume, highest, lowest};
use crate::avl::prefix;
use crate::tradelog::law_trade_log_append_only;
use crate::clock::{now, elapsed, as_nanos};

verus! {

/// What one simulated order cost the engine.
#[derive(Debug)]
pub struct EngineStats {
    pub order_type: String,
    pub latency: i64,
    pub avl_rebalances: i64,
    pub executed_orders_cnt: usize,
}

impl EngineStats {
    fn copied(&self) -> (r: EngineStats)
        ensures
            r == *self,
    {
        EngineStats {
            order_type: self.order_type.clone(),
            latency: self.latency,
            avl_rebalances: self.avl_rebalances,
            executed_orders_cnt: self.executed_orders_cnt,
        }
    }
}

/// A message the simulator streams to its client.
#[derive(Debug)]
pub enum ServerMessage {
    PriceLevels { snapshot: bool, bids: Vec<(i128, u64)>, asks: Vec<(i128, u64)> },
    Trades(Vec<ExecutedOrders>),
    ExecutionStats(EngineStats),
    BestLevels { best_buy: Option<i128>, best_sell: Option<i128> },
    Completed,
    RateLimitExceeded,
}

/// The first `n` bid levels a snapshot of the book lists.
pub open spec fn top_bids(a: Arena, n: int) -> Seq<(i128, u64)> {
    with_volumes(
        if a.best_levels_mode() {
            prefix(a.bid_walk(), n)
        } else {
            prefix(a.bid_prices(), n)
        },
        a.book().bids,
    )
}

/// The first `n` ask levels a snapshot of the book lists.
pub open spec fn top_asks(a: Arena, n: int) -> Seq<(i128, u64)> {
    with_volumes(
        if a.best_levels_mode() {
            prefix(a.ask_walk(), n)
        } else {
            prefix(a.ask_prices(), n)
        },
        a.book().asks,
    )
}

/// The best bid of a book, if any.
pub open spec fn best_bid(a: Arena) -> Option<i128> {
    if a.book().bids.dom().is_empty() {
        None
    } else {
        Some(highest(a.book().bids.dom()))
    }
}

/// The best ask of a book, if any.
pub open spec fn best_ask(a: Arena) -> Option<i128> {
    if a.book().asks.dom().is_empty() {
        None
    } else {
        Some(lowest(a.book().asks.dom()))
    }
}

/// A message listing price levels.
pub open spec fn levels_message(m: ServerMessage, snapshot: bool, bids: Seq<(i128, u64)>, asks: Seq<(i128, u64)>) -> bool {
    m matches ServerMessage::PriceLevels { snapshot: s, bids: b, asks: k } && s == snapshot && b@ == bids && k@ == asks
}

/// The book can open one more price level: its trees count their levels
/// and heights in 32 bits.
pub open spec fn room_for_level(b: BookView) -> bool {
    b.bids.dom().len() + b.asks.dom().len() + 1 < i32::MAX
}

/// The book after seeding `orders` in turn with ids 1, 2, ...: an order is
/// added when the book has room and its level can take its shares, and
/// skipped otherwise.
pub open spec fn seeded(b: BookView, orders: Seq<(BidOrAsk, u64, i128)>) -> BookView
    decreases orders.len(),
{
    if orders.len() == 0 {
        b
    } else {
        let pb = seeded(b, orders.drop_last());
        let (side, shares, price) = orders.last();
        if room_for_level(pb) && level_volume(pb, side, price) + shares <= u64::MAX {
            add_order(pb, orders.len() as u64, side, shares, price)
        } else {
            pb
        }
    }
}

/// The simulator's state: the book, the statistics of every simulated
/// order, the next order id, and how far the trade log has been streamed.
pub struct Simulator {
    book: Arena,
    engine_stats: Vec<EngineStats>,
    order_id: u64,
    executed_orders_offset: usize,
}

impl Simulator {
    /// The book.
    pub closed spec fn arena(&self) -> Arena {
        self.book
    }

    /// The statistics recorded so far, one per simulated order.
    pub closed spec fn stats(&self) -> Seq<EngineStats> {
        self.engine_stats@
    }

    /// The id the next added order gets.
    pub closed spec fn next_id(&self) -> u64 {
        self.order_id
    }

    /// How many trades have been streamed.
    pub closed spec fn streamed(&self) -> nat {
        self.executed_orders_offset as nat
    }

    /// Whether the book can take an operation that may add a price level.
    pub open spec fn has_room(&self) -> bool {
        room_for_level(self.arena().book())
    }

    /// The state is consistent.
    pub closed spec fn inv(&self) -> bool {
        &&& self.book.inv()
        &&& self.executed_orders_offset <= self.book.book().trades.len()
        &&& self.order_id >= 1
        &&& forall|k: u64| #[trigger] self.book.book().orders.contains_key(k) ==> 0 < k < self.order_id
    }

    /// An empty simulation; snapshots walk from the best prices when
    /// `best_price_lvls` is set. The first order gets id 1.
    pub fn new(best_price_lvls: bool) -> (s: Self)
        ensures
            s.inv(),
            s.arena().book().orders.len() == 0,
            s.arena().book().trades.len() == 0,
            s.arena().book().bids.dom().is_empty(),
            s.arena().book().asks.dom().is_empty(),
            s.arena().best_levels_mode() == best_price_lvls,
            s.stats().len() == 0,
            s.next_id() == 1,
            s.streamed() == 0,
            s.has_room(),
    {
        Simulator {
            book: Arena::new(best_price_lvls),
            engine_stats: Vec::new(),
            order_id: 1,
            executed_orders_offset: 0,
        }
    }

    /// The book, for reading.
    pub fn book(&self) -> (r: &Arena)
        ensures
            *r == self.arena(),
    {
        &self.book
    }

    /// The id the next added order gets.
    pub fn next_order_id(&self) -> (r: u64)
        ensures
            r == self.next_id(),
    {
        self.order_id
    }

    /// How many orders have been simulated.
    pub fn stats_len(&self) -> (r: usize)
        ensures
            r == self.stats().len(),
    {
        self.engine_stats.len()
    }

    fn record(&mut self, kind: String, nanos: u128)
        requires
            old(self).inv(),
        ensures
            final(self).inv(),
            final(self).arena() == old(self).arena(),
            final(self).next_id() == old(self).next_id(),
            final(self).streamed() == old(self).streamed(),
            final(self).stats() == old(self).stats().push(final(self).stats().last()),
            final(self).stats().last().order_type == kind,
            final(self).stats().last().executed_orders_cnt == old(self).arena().last_trade_count(),
            final(self).stats().last().avl_rebalances == old(self).arena().last_rebalances() as i64,
    {
        let s = EngineStats {
            order_type: kind,
            latency: nanos as i64,
            avl_rebalances: self.book.avl_rebalances() as i64,
            executed_orders_cnt: self.book.executed_orders_count(),
        };
        self.engine_stats.push(s);
    }

    /// Adds a limit order with the next id, timing it and recording its
    /// statistics under "ADD", and moves to the next id. It is refused
    /// (returning false, changing nothing) when the level it would rest on
    /// would hold more than `u64::MAX` shares, when the book already holds 2^31 - 2 price levels, or
    /// when the ids are used up.
    #[verifier::spinoff_prover]
    #[verifier::rlimit(30)]
    pub fn add_limit(&mut self, side: BidOrAsk, shares: u64, price: i128) -> (applied: bool)
        requires
            old(self).inv(),
        ensures
            final(self).inv(),
            applied == (old(self).has_room() && old(self).next_id() < u64::MAX && level_volume(
                old(self).arena().book(),
                side,
                price,
            ) + shares <= u64::MAX),
            applied ==> {
                &&& final(self).arena().book() == add_order(old(self).arena().book(), old(self).next_id(), side, shares, price)
                &&& final(self).next_id() == old(self).next_id() + 1
                &&& final(self).stats().len() == old(self).stats().len() + 1
                &&& final(self).stats().last().order_type@ == "ADD"@
                &&& final(self).stats().last().executed_orders_cnt == final(self).arena().book().trades.len()
                    - old(self).arena().book().trades.len()
                &&& final(self).stats().last().avl_rebalances == add_shapes(
                    old(self).arena().book(),
                    old(self).arena().shapes(),
                    old(self).next_id(),
                    side,
                    shares,
                    price,
                ).1 as i64
            },
            !applied ==> *final(self) == *old(self),
            final(self).streamed() == old(self).streamed(),
    {
        if self.book.levels_len() >= 2147483646 || self.order_id == u64::MAX || !self.book.add_fits(side, shares, price) {
            return false;
        }
        let ghost b0 = self.book.book();
        let ghost id0 = self.order_id;
        let start = now();
        self.book.add_limit_order(self.order_id, side, shares, price);
        let nanos = as_nanos(&elapsed(&start));
        proof {
            law_trade_log_append_only(b0, self.order_id, side, shares, price);
            lemma_op_ids(b0, self.order_id, side, shares, price);
        }
        self.order_id = self.order_id + 1;
        proof {
            assert forall|k: u64| #[trigger] self.book.book().orders.contains_key(k) implies 0 < k < self.order_id by {
                assert(b0.orders.dom().insert(id0).contains(k));
                if k != id0 {
                    assert(b0.orders.contains_key(k));
                }
            }
        }
        self.record("ADD".to_owned(), nanos);
        true
    }

    /// Cancels order `id`, timing it and recording its statistics under
    /// "CANCEL" (an unknown id changes the book in no way, but is still
    /// recorded).
    pub fn cancel_limit(&mut self, id: u64)
        requires
            old(self).inv(),
        ensures
            final(self).inv(),
            final(self).arena().book() == cancel_order(old(self).arena().book(), id),
            final(self).next_id() == old(self).next_id(),
            final(self).streamed() == old(self).streamed(),
            old(self).has_room() ==> final(self).has_room(),
            final(self).stats().len() == old(self).stats().len() + 1,
            final(self).stats().last().order_type@ == "CANCEL"@,
            final(self).stats().last().executed_orders_cnt == 0,
            final(self).stats().last().avl_rebalances == cancel_shapes(
                old(self).arena().book(),
                old(self).arena().shapes(),
                id,
            ).1 as i64,
    {
        let ghost b0 = self.book.book();
        let ghost a0 = self.book;
        let start = now();
        self.book.cancel_limit_order(id);
        let nanos = as_nanos(&elapsed(&start));
        proof {
            a0.lemma_level_count();
            self.book.lemma_level_count();
            law_trade_log_append_only(b0, id, BidOrAsk::Bid, 0, 0);
            lemma_op_ids(b0, id, BidOrAsk::Bid, 0, 0);
        }
        self.record("CANCEL".to_owned(), nanos);
    }

    /// Modifies order `id` to `shares` at `price`, timing it and recording
    /// its statistics under "MODIFY". It is refused (returning false,
    /// changing nothing) when the level it would rest on would hold more
    /// than `u64::MAX` shares, or when the book already holds 2^31 - 2 price levels.
    pub fn modify_limit(&mut self, id: u64, shares: u64, price: i128) -> (applied: bool)
        requires
            old(self).inv(),
        ensures
            final(self).inv(),
            applied == (old(self).has_room() && (old(self).arena().book().orders.contains_key(id) ==> level_volume(
                cancel_order(old(self).arena().book(), id),
                old(self).arena().book().orders[id].bid_or_ask,
                price,
            ) + shares <= u64::MAX)),
            applied ==> {
                &&& final(self).arena().book() == modify_order(old(self).arena().book(), id, shares, price)
                &&& final(self).stats().len() == old(self).stats().len() + 1
                &&& final(self).stats().last().order_type@ == "MODIFY"@
                &&& final(self).stats().last().executed_orders_cnt == final(self).arena().book().trades.len()
                    - old(self).arena().book().trades.len()
                &&& final(self).stats().last().avl_rebalances == modify_shapes(
                    old(self).arena().book(),
                    old(self).arena().shapes(),
                    id,
                    shares,
                    price,
                ).1 as i64
            },
            !applied ==> *final(self) == *old(self),
            final(self).next_id() == old(self).next_id(),
            final(self).streamed() == old(self).streamed(),
    {
        if self.book.levels_len() >= 2147483646 || !self.book.modify_fits(id, shares, price) {
            return false;
        }
        let ghost b0 = self.book.book();
        let start = now();
        self.book.modify_limit_order(id, shares, price);
        let nanos = as_nanos(&elapsed(&start));
        proof {
            law_trade_log_append_only(b0, id, BidOrAsk::Bid, shares, price);
            lemma_op_ids(b0, id, BidOrAsk::Bid, shares, price);
        }
        self.record("MODIFY".to_owned(), nanos);
        true
    }

    /// Seeds a fresh simulation (no order added yet) with orders given as
    /// side, shares and price; they get ids 1, 2, ... in turn, and the next
    /// added order the id after them.
    /// An order is skipped (its id stays used) when its level would hold
    /// more than `u64::MAX` shares or the book already holds 2^31 - 2 price levels.
    pub fn seed_orderbook(&mut self, orders: Vec<(BidOrAsk, u64, i128)>)
        requires
            old(self).inv(),
            old(self).next_id() == 1,
            orders@.len() < u64::MAX,
        ensures
            final(self).inv(),
            final(self).arena().book() == seeded(old(self).arena().book(), orders@),
            final(self).arena().best_levels_mode() == old(self).arena().best_levels_mode(),
            final(self).next_id() == orders@.len() + 1,
            final(self).stats() == old(self).stats(),
            final(self).streamed() == old(self).streamed(),
    {
        let n = orders.len();
        self.order_id = (n as u64) + 1;
        let mut i: usize = 0;
        while i < n
            invariant
                self.inv(),
                n == orders@.len() < u64::MAX,
                0 <= i <= n,
                self.engine_stats@ == old(self).stats(),
                self.executed_orders_offset == old(self).streamed(),
                self.book.book() == seeded(old(self).book.book(), orders@.take(i as int)),
                self.book.best_levels_mode() == old(self).book.best_levels_mode(),
                self.order_id == n + 1,
                forall|k: u64| #[trigger] self.book.book().orders.contains_key(k) ==> 0 < k <= i,
            decreases n - i,
        {
            proof {
                assert(orders@.take(i + 1).drop_last() =~= orders@.take(i as int));
            }
            let (side, shares, price) = orders[i];
            let id = (i + 1) as u64;
            if self.book.levels_len() < 2147483646 && self.book.add_fits(side, shares, price) {
                let ghost b0 = self.book.book();
                self.book.add_limit_order(id, side, shares, price);
                proof {
                    law_trade_log_append_only(b0, id, side, shares, price);
                    lemma_op_ids(b0, id, side, shares, price);
                }
                    }
            i = i + 1;
        }
        proof {
            assert(orders@.take(n as int) =~= orders@);
        }
    }

    /// Some resting order's id when at least ten thousand orders rest;
    /// otherwise none.
    pub fn random_order_id(&self) -> (r: Option<u64>)
        requires
            self.inv(),
        ensures
            self.arena().book().orders.len() >= 10_000 ==> (r matches Some(id) && self.arena().book().orders.contains_key(id)),
            self.arena().book().orders.len() < 10_000 ==> r is None,
    {
        self.book.get_random_order_id()
    }

    /// The opening message: the top 20 levels of each side.
    pub fn get_snapshot(&self) -> (r: Vec<ServerMessage>)
        requires
            self.inv(),
        ensures
            r@.len() == 1,
            levels_message(r@[0], true, top_bids(self.arena(), 20), top_asks(self.arena(), 20)),
    {
        let bids = self.book.get_top_n_bids(20);
        let asks = self.book.get_top_n_asks(20);
        let mut r: Vec<ServerMessage> = Vec::new();
        r.push(ServerMessage::PriceLevels { snapshot: true, bids, asks });
        r
    }

    /// The messages after simulated order `idx`: its statistics; every
    /// hundredth order (when `idx + 1` is a multiple of 100) the top 1000
    /// levels of each side; when `idx` is a multiple of 100 the best bid
    /// and ask; and the trades not yet streamed, if there are any.
    pub fn generate_updates(&mut self, idx: usize) -> (r: Vec<ServerMessage>)
        requires
            old(self).inv(),
            idx < old(self).stats().len(),
        ensures
            final(self).inv(),
            final(self).arena() == old(self).arena(),
            final(self).stats() == old(self).stats(),
            final(self).next_id() == old(self).next_id(),
            ({
                let a = old(self).arena();
                let levels = (idx + 1) % 100 == 0;
                let best = idx % 100 == 0;
                let trades = old(self).streamed() < a.book().trades.len();
                let k = 1 + (if levels { 1int } else { 0 });
                let j = k + (if best { 1int } else { 0 });
                &&& r@.len() == j + (if trades { 1int } else { 0 })
                &&& r@[0] == ServerMessage::ExecutionStats(old(self).stats()[idx as int])
                &&& levels ==> levels_message(r@[1], false, top_bids(a, 1000), top_asks(a, 1000))
                &&& best ==> r@[k] == (ServerMessage::BestLevels { best_buy: best_bid(a), best_sell: best_ask(a) })
                &&& trades ==> (r@[j] matches ServerMessage::Trades(t) && t@ == a.book().trades.subrange(
                    old(self).streamed() as int,
                    a.book().trades.len() as int,
                ))
                &&& final(self).streamed() == if trades { a.book().trades.len() } else { old(self).streamed() }
            }),
    {
        let mut messages: Vec<ServerMessage> = Vec::new();
        let stat = self.engine_stats[idx].copied();
        messages.push(ServerMessage::ExecutionStats(stat));
        if idx % 100 == 99 {
            let bids = self.book.get_top_n_bids(1000);
            let asks = self.book.get_top_n_asks(1000);
            messages.push(ServerMessage::PriceLevels { snapshot: false, bids, asks });
        }
        if idx % 100 == 0 {
            let best_buy = self.book.highest_buy();
            let best_sell = self.book.lowest_sell();
            messages.push(ServerMessage::BestLevels { best_buy, best_sell });
        }
        let mut offset = self.executed_orders_offset;
        let got = self.book.get_executed_orders(&mut offset);
        self.executed_orders_offset = offset;
        match got {
            Some(trades) => messages.push(ServerMessage::Trades(trades)),
            None => {},
        }
        messages
    }
}

} // verus!
