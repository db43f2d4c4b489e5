//! Laws of matching: what a sequence of fills adds to the trade log.
use vstd::prelude::*;
use crate::orderbook::{BookView, BidOrAsk, ExecutedOrders, fill, step, can_match, best_opposite, crosses};

verus! {

/// The shares changed hands in a sequence of trades.
pub open spec fn traded_volume(ts: Seq<ExecutedOrders>) -> nat
    decreases ts.len(),
{
    if ts.len() == 0 {
        0
    } else {
        traded_volume(ts.drop_last()) + ts.last().volume as nat
    }
}

/// One fill appends one trade, by the incoming order at the best
/// counterparty price, for the shares it takes off the incoming order.
proof fn lemma_step_trade(b: BookView, id: u64, side: BidOrAsk, shares: u64, limit: i128)
    requires
        can_match(b, side, shares, limit),
    ensures
        ({
            let (b1, s1) = step(b, id, side, shares);
            &&& b1.trades == b.trades.push(b1.trades.last())
            &&& b1.trades.last().aggresive_order_id == id
            &&& b1.trades.last().price == best_opposite(b, side)
            &&& crosses(side, b1.trades.last().price, limit)
            &&& b1.trades.last().volume + s1 == shares
        }),
{
}

/// Matching only appends to the trade log; every new trade involves the
/// incoming order at a price within its limit; and the shares traded plus
/// the shares left over are exactly the incoming order's shares.
#[verifier::rlimit(100)]
pub proof fn law_fill_accounts_for_shares(b: BookView, id: u64, side: BidOrAsk, shares: u64, limit: i128)
    ensures
        ({
            let (b2, rem) = fill(b, id, side, shares, limit);
            let new = b2.trades.subrange(b.trades.len() as int, b2.trades.len() as int);
            &&& b2.trades.len() >= b.trades.len()
            &&& b2.trades.subrange(0, b.trades.len() as int) == b.trades
            &&& rem <= shares
            &&& traded_volume(new) + rem == shares
            &&& forall|i: int|
                0 <= i < new.len() ==> (#[trigger] new[i]).aggresive_order_id == id && crosses(
                    side,
                    new[i].price,
                    limit,
                )
        }),
    decreases shares,
{
    let (b2, rem) = fill(b, id, side, shares, limit);
    let n0 = b.trades.len() as int;
    if !can_match(b, side, shares, limit) {
        assert(b2 == b);
        assert(b2.trades.subrange(n0, b2.trades.len() as int) =~= Seq::<ExecutedOrders>::empty());
        assert(b2.trades.subrange(0, n0) =~= b.trades);
    } else {
        lemma_step_trade(b, id, side, shares, limit);
        let (b1, s1) = step(b, id, side, shares);
        let t = b1.trades.last();
        if s1 < shares {
            assert((b2, rem) == fill(b1, id, side, s1, limit));
            law_fill_accounts_for_shares(b1, id, side, s1, limit);
            let n1 = b1.trades.len() as int;
            let new1 = b2.trades.subrange(n1, b2.trades.len() as int);
            let new = b2.trades.subrange(n0, b2.trades.len() as int);
            assert(b2.trades.subrange(0, n1) == b1.trades);
            assert(new =~= seq![t] + new1) by {
                assert forall|i: int| 0 <= i < new.len() implies new[i] == (seq![t] + new1)[i] by {
                    if i == 0 {
                        assert(b2.trades[n0] == b2.trades.subrange(0, n1)[n0]);
                    }
                }
            }
            lemma_traded_volume_prepend(t, new1);
            assert(b2.trades.subrange(0, n0) =~= b.trades) by {
                assert forall|i: int| 0 <= i < n0 implies b2.trades[i] == b.trades[i] by {
                    assert(b2.trades[i] == b2.trades.subrange(0, n1)[i]);
                }
            }
        } else {
            assert(b2 == b1);
            let new = b2.trades.subrange(n0, b2.trades.len() as int);
            assert(new =~= seq![t]);
            assert(new.drop_last() =~= Seq::<ExecutedOrders>::empty());
            assert(traded_volume(Seq::<ExecutedOrders>::empty()) == 0);
            assert(b2.trades.subrange(0, n0) =~= b.trades);
        }
    }
}

/// The traded volume of a trade followed by others.
pub proof fn lemma_traded_volume_prepend(t: ExecutedOrders, ts: Seq<ExecutedOrders>)
    ensures
        traded_volume(seq![t] + ts) == t.volume + traded_volume(ts),
    decreases ts.len(),
{
    if ts.len() == 0 {
        assert((seq![t] + ts).drop_last() =~= Seq::<ExecutedOrders>::empty());
        assert(traded_volume(Seq::<ExecutedOrders>::empty()) == 0);
    } else {
        lemma_traded_volume_prepend(t, ts.drop_last());
        assert((seq![t] + ts).drop_last() =~= seq![t] + ts.drop_last());
    }
}

} // verus!
