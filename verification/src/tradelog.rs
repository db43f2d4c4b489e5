//! Laws of the trade log: it only ever grows, and each trade follows
//! price-time priority at the passive order's price.
use vstd::prelude::*;
use crate::orderbook::{
    BookView, BidOrAsk, Shapes, add_order, cancel_order, modify_order, modify_shapes, cancel_shapes, step, can_match,
    opposite, best_opposite,
};
use crate::matching::law_fill_accounts_for_shares;

verus! {

/// `b2`'s trade log continues `b1`'s: it keeps every earlier trade, in
/// place.
pub open spec fn log_extends(b1: BookView, b2: BookView) -> bool {
    &&& b2.trades.len() >= b1.trades.len()
    &&& b2.trades.subrange(0, b1.trades.len() as int) == b1.trades
}

/// The trade log is append-only: adding, cancelling and modifying orders
/// never change or drop a recorded trade.
pub proof fn law_trade_log_append_only(b: BookView, id: u64, side: BidOrAsk, shares: u64, price: i128)
    ensures
        log_extends(b, add_order(b, id, side, shares, price)),
        log_extends(b, cancel_order(b, id)),
        log_extends(b, modify_order(b, id, shares, price)),
{
    assert(b.trades.subrange(0, b.trades.len() as int) =~= b.trades);
    if !b.orders.contains_key(id) {
        law_fill_accounts_for_shares(b, id, side, shares, price);
    } else {
        let b1 = cancel_order(b, id);
        assert(b1.trades == b.trades);
        law_fill_accounts_for_shares(b1, id, b.orders[id].bid_or_ask, shares, price);
    }
}

/// Price-time priority: each fill of an incoming order trades with the
/// oldest order of the best counterparty level (the lowest ask for a bid,
/// the highest bid for an ask), at that resting order's price, for the
/// smaller of the two sizes; a resting order filled completely leaves the
/// book.
pub proof fn law_price_time_priority(b: BookView, id: u64, side: BidOrAsk, shares: u64, limit: i128)
    requires
        can_match(b, side, shares, limit),
    ensures
        ({
            let p = best_opposite(b, side);
            let head = opposite(b, side)[p][0];
            let (b1, left) = step(b, id, side, shares);
            let t = b1.trades.last();
            &&& b1.trades == b.trades.push(t)
            &&& t.passive_order_id == head.id
            &&& t.aggresive_order_id == id
            &&& t.price == p
            &&& t.volume == if head.shares <= shares { head.shares } else { shares }
            &&& left == shares - t.volume
            &&& (head.shares <= shares ==> !b1.orders.contains_key(head.id))
        }),
{
    let p = best_opposite(b, side);
    let h = opposite(b, side)[p][0];
    let (b1, left) = step(b, id, side, shares);
    if h.shares <= shares {
        assert(b1.trades == b.trades.push(crate::orderbook::trade(p, h.shares, id, h.id)));
        assert(b1.orders == b.orders.remove(h.id));
    } else {
        assert(b1.trades == b.trades.push(crate::orderbook::trade(p, shares, id, h.id)));
    }
}

/// Modifying a resting order is cancelling it and adding it again on the
/// same side with the new shares and price: it trades first if it can, and
/// otherwise joins the back of its new level's queue.
pub proof fn law_modify_is_cancel_then_add(b: BookView, id: u64, shares: u64, price: i128)
    requires
        b.orders.contains_key(id),
    ensures
        modify_order(b, id, shares, price) == add_order(
            cancel_order(b, id),
            id,
            b.orders[id].bid_or_ask,
            shares,
            price,
        ),
{
    assert(!cancel_order(b, id).orders.contains_key(id));
}

/// Modifying an order to zero shares takes it out of the book exactly as
/// cancelling it does, whatever the price: the same book, the same trees
/// and the same number of rebalancing steps.
pub proof fn law_modify_to_zero_is_cancel(b: BookView, s: Shapes, id: u64, price: i128)
    ensures
        modify_order(b, id, 0, price) == cancel_order(b, id),
        modify_shapes(b, s, id, 0, price) == cancel_shapes(b, s, id),
{
}

} // verus!
