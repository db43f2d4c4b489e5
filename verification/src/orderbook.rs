//! The matching engine: a limit order book with price-time priority.
//!
//! Each side of the book keeps its price levels in an AVL tree (for ordered
//! traversal and best-price lookup) and in a hash map from price to level.
//! A level holds its resting orders first-in first-out. Prices are counted in
//! hundredths of the quote currency.
use vstd::prelude::*;
use std::collections::HashMap;
use std::collections::VecDeque;
use vstd::std_specs::iter::IteratorSpec;
use crate::avl::{AvlTree, Node, keys, size, ht, asc, desc, best_asc, best_desc, prefix, wf, avl_insert, avl_delete};

verus! {

broadcast use vstd::std_specs::hash::group_hash_axioms;

/// The side of an order: a buy (bid) or a sell (ask).
#[derive(Clone, Copy, Debug, PartialEq, Eq, Structural)]
pub enum BidOrAsk {
    Bid,
    Ask,
}

/// A trade: `volume` shares changed hands at `price` (the resting order's
/// price) between the incoming (aggressive) order and a resting (passive)
/// one.
#[derive(Clone, Copy, Debug, PartialEq, Eq, Structural)]
pub struct ExecutedOrders {
    pub price: i128,
    pub volume: u64,
    pub aggresive_order_id: u64,
    pub passive_order_id: u64,
}

/// An order resting in a price level's queue.
#[derive(Clone, Copy, Debug, PartialEq, Eq, Structural)]
pub struct RestingOrder {
    pub id: u64,
    pub shares: u64,
}

/// A resting order as reported to callers.
#[derive(Clone, Copy, Debug, PartialEq, Eq, Structural)]
pub struct Order {
    pub id_number: u64,
    pub bid_or_ask: BidOrAsk,
    pub shares: u64,
    pub limit: i128,
}

/// Where a resting order lives: its side and its price level.
#[derive(Clone, Copy, Debug, PartialEq, Eq, Structural)]
pub struct OrderSlot {
    pub bid_or_ask: BidOrAsk,
    pub limit: i128,
}

/// A price level: the orders resting at one price, oldest first, and the sum
/// of their shares.
pub struct Limit {
    pub limit_price: i128,
    pub total_volume: u64,
    pub bid_or_ask: BidOrAsk,
    pub orders: VecDeque<RestingOrder>,
}

/// The total number of shares in a queue of resting orders.
pub open spec fn vol(q: Seq<RestingOrder>) -> nat
    decreases q.len(),
{
    if q.len() == 0 {
        0
    } else {
        q[0].shares as nat + vol(q.drop_first())
    }
}

/// The position of order `id` in queue `q` (or -1).
pub open spec fn position(q: Seq<RestingOrder>, id: u64) -> int {
    if exists|i: int| 0 <= i < q.len() && q[i].id == id {
        choose|i: int| 0 <= i < q.len() && q[i].id == id
    } else {
        -1
    }
}

/// No order appears twice in a queue.
pub open spec fn ids_unique(q: Seq<RestingOrder>) -> bool {
    forall|i: int, j: int| 0 <= i < q.len() && 0 <= j < q.len() && i != j ==> q[i].id != q[j].id
}

/// Appending an order adds its shares to the queue volume.
pub proof fn lemma_vol_push(q: Seq<RestingOrder>, x: RestingOrder)
    ensures
        vol(q.push(x)) == vol(q) + x.shares,
    decreases q.len(),
{
    if q.len() > 0 {
        lemma_vol_push(q.drop_first(), x);
        assert(q.push(x).drop_first() =~= q.drop_first().push(x));
    } else {
        assert(q.push(x).drop_first() =~= Seq::<RestingOrder>::empty());
        assert(vol(q.push(x).drop_first()) == 0);
        assert(q.push(x)[0] == x);
    }
}

/// Removing an order takes its shares off the queue volume.
pub proof fn lemma_vol_remove(q: Seq<RestingOrder>, i: int)
    requires
        0 <= i < q.len(),
    ensures
        vol(q.remove(i)) + q[i].shares == vol(q),
    decreases q.len(),
{
    if i > 0 {
        lemma_vol_remove(q.drop_first(), i - 1);
        assert(q.remove(i).drop_first() =~= q.drop_first().remove(i - 1));
        assert(q.remove(i)[0] == q[0]);
    } else {
        assert(q.remove(0) =~= q.drop_first());
    }
}

/// The first order's shares are part of the queue volume.
pub proof fn lemma_vol_head(q: Seq<RestingOrder>)
    requires
        q.len() > 0,
    ensures
        vol(q) == q[0].shares + vol(q.drop_first()),
        vol(q) >= q[0].shares,
{
}

/// One price level of one side of the book, as seen from outside: its queue.
pub open spec fn queues(m: Map<i128, Limit>) -> Map<i128, Seq<RestingOrder>> {
    m.map_values(|l: Limit| l.orders@)
}

/// The abstract state of the book: both sides' queues by price, where each
/// resting order lives, and every trade executed so far.
pub struct BookView {
    pub bids: Map<i128, Seq<RestingOrder>>,
    pub asks: Map<i128, Seq<RestingOrder>>,
    pub orders: Map<u64, OrderSlot>,
    pub trades: Seq<ExecutedOrders>,
}

/// A level is well-formed: it sits at its own price on its own side, is
/// non-empty, holds distinct positive orders that the order index places
/// here, and its volume is the sum of its orders' shares.
pub open spec fn level_ok(l: Limit, p: i128, side: BidOrAsk, orders: Map<u64, OrderSlot>) -> bool {
    &&& l.limit_price == p
    &&& l.bid_or_ask == side
    &&& l.orders@.len() > 0
    &&& l.total_volume == vol(l.orders@)
    &&& ids_unique(l.orders@)
    &&& forall|i: int|
        0 <= i < l.orders@.len() ==> {
            &&& (#[trigger] l.orders@[i]).shares > 0
            &&& orders.contains_key(l.orders@[i].id)
            &&& orders[l.orders@[i].id] == (OrderSlot { bid_or_ask: side, limit: p })
        }
}

/// One side of the book: its price levels, in a tree and by price.
pub struct BookSide {
    tree: AvlTree,
    limits: HashMap<i128, Limit>,
}

impl BookSide {
    /// The queues of this side by price.
    pub closed spec fn levels(&self) -> Map<i128, Seq<RestingOrder>> {
        queues(self.limits@)
    }

    /// The number of price levels of this side.
    pub closed spec fn count(&self) -> nat {
        size(self.tree.link())
    }

    /// The prices of this side, highest first.
    pub closed spec fn prices_desc(&self) -> Seq<i128> {
        desc(self.tree.link())
    }

    /// The prices of this side, lowest first.
    pub closed spec fn prices_asc(&self) -> Seq<i128> {
        asc(self.tree.link())
    }

    /// The prices visited by a descending walk that starts at the best bid.
    pub closed spec fn walk_from_highest(&self) -> Seq<i128> {
        best_desc(self.tree.link())
    }

    /// The prices visited by an ascending walk that starts at the best ask.
    pub closed spec fn walk_from_lowest(&self) -> Seq<i128> {
        best_asc(self.tree.link())
    }

    /// The tree and the map agree, and every level is well-formed.
    pub closed spec fn inv(&self, side: BidOrAsk, orders: Map<u64, OrderSlot>) -> bool {
        &&& self.tree.inv()
        &&& self.tree.key_set() == self.limits@.dom()
        &&& size(self.tree.link()) < i32::MAX
        &&& forall|p: i128| #[trigger]
            self.limits@.contains_key(p) ==> level_ok(self.limits@[p], p, side, orders)
    }

    /// The number of price levels of this side.
    fn level_len(&self, Ghost(side): Ghost<BidOrAsk>, Ghost(orders): Ghost<Map<u64, OrderSlot>>) -> (r: usize)
        requires
            self.inv(side, orders),
        ensures
            r == self.count(),
            r == self.levels().dom().len(),
    {
        proof {
            lemma_tree_bounds(&self.tree);
            assert(queues(self.limits@).dom() =~= self.limits@.dom());
        }
        self.limits.len()
    }

    fn new() -> (s: Self)
        ensures
            s.inv(BidOrAsk::Bid, Map::empty()),
            s.inv(BidOrAsk::Ask, Map::empty()),
            s.levels() == Map::<i128, Seq<RestingOrder>>::empty(),
            s.count() == 0,
            s.tree.link() is None,
    {
        let s = BookSide { tree: AvlTree::new(), limits: HashMap::new() };
        proof {
            assert(s.limits@ =~= Map::<i128, Limit>::empty());
            assert(s.levels() =~= Map::<i128, Seq<RestingOrder>>::empty());
        }
        s
    }
}

impl BookSide {
    /// The head order of the level at `p` trades against an incoming order
    /// with `sh` shares left: it leaves the book when it has no more than
    /// `sh` shares (its level goes when it empties), otherwise it keeps its
    /// place with `sh` fewer shares. Returns the incoming order's unfilled
    /// shares and the number of rebalancing steps.
    fn take_head(
        &mut self,
        kind: BidOrAsk,
        p: i128,
        orders: &mut HashMap<u64, OrderSlot>,
        trades: &mut Vec<ExecutedOrders>,
        aggressor: u64,
        sh: u64,
    ) -> (res: (u64, u64))
        requires
            old(self).inv(kind, old(orders)@),
            old(self).levels().contains_key(p),
            sh > 0,
        ensures
            ({
                let q = old(self).levels()[p];
                let h = q[0];
                &&& q.len() > 0
                &&& ids_unique(q)
                &&& old(orders)@.contains_key(h.id)
                &&& old(orders)@[h.id] == (OrderSlot { bid_or_ask: kind, limit: p })
                &&& h.shares <= sh ==> {
                    &&& final(self).levels() == if q.len() == 1 {
                        old(self).levels().remove(p)
                    } else {
                        old(self).levels().insert(p, q.drop_first())
                    }
                    &&& final(orders)@ == old(orders)@.remove(h.id)
                    &&& final(trades)@ == old(trades)@.push(trade(p, h.shares, aggressor, h.id))
                    &&& res.0 == sh - h.shares
                }
                &&& h.shares > sh ==> {
                    &&& final(self).levels() == old(self).levels().insert(
                        p,
                        q.update(0, RestingOrder { id: h.id, shares: (h.shares - sh) as u64 }),
                    )
                    &&& final(orders)@ == old(orders)@
                    &&& final(trades)@ == old(trades)@.push(trade(p, sh, aggressor, h.id))
                    &&& res.0 == 0
                }
            }),
            final(self).inv(kind, final(orders)@),
            final(self).count() <= old(self).count(),
            final(self).count() == old(self).count() ==> res.1 == 0,
            final(self).levels().dom().subset_of(old(self).levels().dom()),
            res.1 <= old(self).count(),
            (final(self).tree.link(), res.1 as nat) == if final(self).levels().contains_key(p) {
                (old(self).tree.link(), 0nat)
            } else {
                avl_delete(old(self).tree.link(), p)
            },
    {
        let ghost m0 = self.limits@;
        let ghost o0 = orders@;
        let mut lim = self.limits.remove(&p).unwrap();
        let ghost q = lim.orders@;
        proof {
            assert(m0.contains_key(p));
            assert(level_ok(m0[p], p, kind, o0));
            assert(q[0] == lim.orders@[0]);
            lemma_vol_head(q);
        }
        let h = lim.orders[0];
        if h.shares <= sh {
            lim.orders.pop_front();
            lim.total_volume = lim.total_volume - h.shares;
            orders.remove(&h.id);
            trades.push(ExecutedOrders { price: p, volume: h.shares, aggresive_order_id: aggressor, passive_order_id: h.id });
            let mut rot: u64 = 0;
            proof {
                assert(lim.orders@ =~= q.drop_first());
                assert forall|p2: i128| #[trigger] self.limits@.contains_key(p2) implies level_ok(
                    self.limits@[p2],
                    p2,
                    kind,
                    orders@,
                ) by {
                    let l2 = self.limits@[p2];
                    assert(level_ok(m0[p2], p2, kind, o0));
                    assert forall|i: int| 0 <= i < l2.orders@.len() implies {
                        &&& (#[trigger] l2.orders@[i]).shares > 0
                        &&& orders@.contains_key(l2.orders@[i].id)
                        &&& orders@[l2.orders@[i].id] == (OrderSlot { bid_or_ask: kind, limit: p2 })
                    } by {
                        assert(o0[l2.orders@[i].id] == (OrderSlot { bid_or_ask: kind, limit: p2 }));
                    }
                }
            }
            if lim.orders.len() == 0 {
                proof {
                    lemma_tree_bounds(&self.tree);
                }
                rot = self.tree.remove(p);
                proof {
                    assert(self.limits@ =~= m0.remove(p));
                    assert(self.levels() =~= queues(m0).remove(p));
                    assert(self.tree.key_set() =~= self.limits@.dom());
                }
            } else {
                proof {
                    assert(level_ok(lim, p, kind, orders@)) by {
                        assert forall|i: int| 0 <= i < lim.orders@.len() implies {
                            &&& (#[trigger] lim.orders@[i]).shares > 0
                            &&& orders@.contains_key(lim.orders@[i].id)
                            &&& orders@[lim.orders@[i].id] == (OrderSlot { bid_or_ask: kind, limit: p })
                        } by {
                            assert(lim.orders@[i] == q[i + 1]);
                            assert(q[i + 1].id != q[0].id);
                        }
                    }
                }
                self.limits.insert(p, lim);
                proof {
                    assert(self.levels() =~= queues(m0).insert(p, q.drop_first()));
                    assert(self.limits@.dom() =~= m0.dom());
                }
            }
            proof {
                lemma_tree_bounds(&self.tree);
            }
            (sh - h.shares, rot)
        } else {
            lim.orders.pop_front();
            lim.orders.push_front(RestingOrder { id: h.id, shares: h.shares - sh });
            lim.total_volume = lim.total_volume - sh;
            trades.push(ExecutedOrders { price: p, volume: sh, aggresive_order_id: aggressor, passive_order_id: h.id });
            proof {
                let q2 = q.update(0, RestingOrder { id: h.id, shares: (h.shares - sh) as u64 });
                assert(lim.orders@ =~= q2);
                assert(q2.drop_first() =~= q.drop_first());
                assert(level_ok(lim, p, kind, orders@)) by {
                    assert forall|i: int| 0 <= i < lim.orders@.len() implies {
                        &&& (#[trigger] lim.orders@[i]).shares > 0
                        &&& orders@.contains_key(lim.orders@[i].id)
                        &&& orders@[lim.orders@[i].id] == (OrderSlot { bid_or_ask: kind, limit: p })
                    } by {
                        if i > 0 {
                            assert(lim.orders@[i] == q[i]);
                        }
                    }
                }
            }
            self.limits.insert(p, lim);
            proof {
                assert(self.levels() =~= queues(m0).insert(
                    p,
                    q.update(0, RestingOrder { id: h.id, shares: (h.shares - sh) as u64 }),
                ));
                assert(self.limits@.dom() =~= m0.dom());
                lemma_tree_bounds(&self.tree);
            }
            (0, 0)
        }
    }
}

/// In a queue without repeated ids, the position of an id is where it sits.
pub proof fn lemma_position(q: Seq<RestingOrder>, i: int)
    requires
        ids_unique(q),
        0 <= i < q.len(),
    ensures
        position(q, q[i].id) == i,
{
    let id = q[i].id;
    assert(exists|j: int| 0 <= j < q.len() && q[j].id == id);
    let j = choose|j: int| 0 <= j < q.len() && q[j].id == id;
    assert(j == i);
}

impl BookSide {
    /// Order `id` rests with `shares` at `price`, behind the orders already
    /// there (opening the level if needed). Returns the number of
    /// rebalancing steps.
    fn append(
        &mut self,
        kind: BidOrAsk,
        id: u64,
        shares: u64,
        price: i128,
        orders: &mut HashMap<u64, OrderSlot>,
    ) -> (rot: u64)
        requires
            old(self).inv(kind, old(orders)@),
            !old(orders)@.contains_key(id),
            shares > 0,
            old(self).levels().contains_key(price) ==> vol(old(self).levels()[price]) + shares
                <= u64::MAX,
            old(self).count() + 1 < i32::MAX,
        ensures
            final(self).levels() == old(self).levels().insert(
                price,
                if old(self).levels().contains_key(price) {
                    old(self).levels()[price].push(RestingOrder { id, shares })
                } else {
                    seq![RestingOrder { id, shares }]
                },
            ),
            final(orders)@ == old(orders)@.insert(id, OrderSlot { bid_or_ask: kind, limit: price }),
            final(self).inv(kind, final(orders)@),
            final(self).count() <= old(self).count() + 1,
            rot <= old(self).count(),
            rot <= 1,
            old(self).levels().contains_key(price) ==> rot == 0,
            (final(self).tree.link(), rot as nat) == if old(self).levels().contains_key(price) {
                (old(self).tree.link(), 0nat)
            } else {
                (Some(avl_insert(old(self).tree.link(), price).0), avl_insert(old(self).tree.link(), price).1)
            },
    {
        let ghost m0 = self.limits@;
        let ghost o0 = orders@;
        let entry = RestingOrder { id, shares };
        let slot = OrderSlot { bid_or_ask: kind, limit: price };
        orders.insert(id, slot);
        let mut rot: u64 = 0;
        proof {
            lemma_tree_bounds(&self.tree);
            assert(queues(m0).contains_key(price) == m0.contains_key(price));
        }
        if self.limits.contains_key(&price) {
            let mut lim = self.limits.remove(&price).unwrap();
            let ghost q = lim.orders@;
            proof {
                assert(level_ok(m0[price], price, kind, o0));
                assert(q == queues(m0)[price]);
                lemma_vol_push(q, entry);
            }
            lim.orders.push_back(entry);
            lim.total_volume = lim.total_volume + shares;
            proof {
                assert(level_ok(lim, price, kind, orders@)) by {
                    assert forall|i: int, j: int|
                        0 <= i < lim.orders@.len() && 0 <= j < lim.orders@.len() && i != j implies lim.orders@[i].id
                        != lim.orders@[j].id by {
                        if i < q.len() {
                            assert(o0.contains_key(q[i].id));
                        }
                        if j < q.len() {
                            assert(o0.contains_key(q[j].id));
                        }
                    }
                    assert forall|i: int| 0 <= i < lim.orders@.len() implies {
                        &&& (#[trigger] lim.orders@[i]).shares > 0
                        &&& orders@.contains_key(lim.orders@[i].id)
                        &&& orders@[lim.orders@[i].id] == slot
                    } by {
                        if i < q.len() {
                            assert(lim.orders@[i] == q[i]);
                            assert(o0.contains_key(q[i].id));
                        }
                    }
                }
            }
            self.limits.insert(price, lim);
            proof {
                assert(self.limits@.dom() =~= m0.dom());
                assert(self.levels() =~= queues(m0).insert(price, q.push(entry)));
            }
        } else {
            let mut q: VecDeque<RestingOrder> = VecDeque::new();
            q.push_back(entry);
            let lim = Limit { limit_price: price, total_volume: shares, bid_or_ask: kind, orders: q };
            proof {
                assert(lim.orders@ =~= seq![entry]);
                assert(lim.orders@.drop_first() =~= Seq::<RestingOrder>::empty());
                assert(vol(Seq::<RestingOrder>::empty()) == 0);
                assert(vol(lim.orders@) == shares);
            }
            self.limits.insert(price, lim);
            rot = self.tree.insert(price);
            proof {
                assert(self.limits@.dom() =~= m0.dom().insert(price));
                assert(self.tree.key_set() =~= self.limits@.dom());
                assert(self.levels() =~= queues(m0).insert(price, seq![entry]));
            }
        }
        proof {
            assert forall|p2: i128| #[trigger] self.limits@.contains_key(p2) implies level_ok(
                self.limits@[p2],
                p2,
                kind,
                orders@,
            ) by {
                if p2 != price {
                    let l2 = self.limits@[p2];
                    assert(l2 == m0[p2]);
                    assert(level_ok(m0[p2], p2, kind, o0));
                    assert forall|i: int| 0 <= i < l2.orders@.len() implies {
                        &&& (#[trigger] l2.orders@[i]).shares > 0
                        &&& orders@.contains_key(l2.orders@[i].id)
                        &&& orders@[l2.orders@[i].id] == (OrderSlot { bid_or_ask: kind, limit: p2 })
                    } by {
                        assert(o0.contains_key(l2.orders@[i].id));
                    }
                } else {
                    assert(level_ok(self.limits@[p2], p2, kind, orders@));
                }
            }
            lemma_tree_bounds(&self.tree);
        }
        rot
    }

    /// Resting order `id` of this side leaves its queue (and its level goes
    /// when it empties). Returns the number of rebalancing steps.
    fn remove_order(&mut self, kind: BidOrAsk, id: u64, orders: &mut HashMap<u64, OrderSlot>) -> (rot: u64)
        requires
            old(self).inv(kind, old(orders)@),
            old(orders)@.contains_key(id),
            old(orders)@[id].bid_or_ask == kind,
            old(self).levels().contains_key(old(orders)@[id].limit),
            exists|i: int|
                0 <= i < old(self).levels()[old(orders)@[id].limit].len() && (#[trigger] old(
                    self,
                ).levels()[old(orders)@[id].limit][i]).id == id,
        ensures
            ({
                let p = old(orders)@[id].limit;
                let q = old(self).levels()[p];
                let q2 = q.remove(position(q, id));
                &&& final(self).levels() == if q2.len() == 0 {
                    old(self).levels().remove(p)
                } else {
                    old(self).levels().insert(p, q2)
                }
                &&& 0 <= position(q, id) < q.len()
                &&& q[position(q, id)].id == id
                &&& ids_unique(q)
            }),
            final(orders)@ == old(orders)@.remove(id),
            final(self).inv(kind, final(orders)@),
            final(self).count() <= old(self).count(),
            final(self).levels().dom().subset_of(old(self).levels().dom()),
            rot <= old(self).count(),
            final(self).levels().contains_key(old(orders)@[id].limit) ==> rot == 0,
            (final(self).tree.link(), rot as nat) == if final(self).levels().contains_key(old(orders)@[id].limit) {
                (old(self).tree.link(), 0nat)
            } else {
                avl_delete(old(self).tree.link(), old(orders)@[id].limit)
            },
    {
        let ghost m0 = self.limits@;
        let ghost o0 = orders@;
        let slot = *orders.get(&id).unwrap();
        let p = slot.limit;
        let mut lim = self.limits.remove(&p).unwrap();
        let ghost q = lim.orders@;
        proof {
            assert(m0.contains_key(p));
            assert(q == queues(m0)[p]);
            assert(level_ok(m0[p], p, kind, o0));
        }
        let mut i: usize = 0;
        let n = lim.orders.len();
        while i < n && lim.orders[i].id != id
            invariant
                0 <= i <= n,
                n == lim.orders@.len(),
                lim.orders@ == q,
                forall|j: int| 0 <= j < i ==> (#[trigger] q[j]).id != id,
                exists|j: int| 0 <= j < q.len() && (#[trigger] q[j]).id == id,
            decreases n - i,
        {
            i = i + 1;
        }
        proof {
            if i == n {
                let j = choose|j: int| 0 <= j < q.len() && (#[trigger] q[j]).id == id;
                assert(q[j].id != id);
            }
            lemma_position(q, i as int);
            lemma_vol_remove(q, i as int);
        }
        let removed = lim.orders.remove(i).unwrap();
        lim.total_volume = lim.total_volume - removed.shares;
        orders.remove(&id);
        let mut rot: u64 = 0;
        proof {
            lemma_tree_bounds(&self.tree);
            assert forall|p2: i128| #[trigger] self.limits@.contains_key(p2) implies level_ok(
                self.limits@[p2],
                p2,
                kind,
                orders@,
            ) by {
                let l2 = self.limits@[p2];
                assert(level_ok(m0[p2], p2, kind, o0));
                assert forall|k: int| 0 <= k < l2.orders@.len() implies {
                    &&& (#[trigger] l2.orders@[k]).shares > 0
                    &&& orders@.contains_key(l2.orders@[k].id)
                    &&& orders@[l2.orders@[k].id] == (OrderSlot { bid_or_ask: kind, limit: p2 })
                } by {
                    assert(o0[l2.orders@[k].id] == (OrderSlot { bid_or_ask: kind, limit: p2 }));
                }
            }
        }
        if lim.orders.len() == 0 {
            rot = self.tree.remove(p);
            proof {
                assert(self.limits@ =~= m0.remove(p));
                assert(self.levels() =~= queues(m0).remove(p));
                assert(self.tree.key_set() =~= self.limits@.dom());
            }
        } else {
            proof {
                assert(level_ok(lim, p, kind, orders@)) by {
                    assert forall|k: int| 0 <= k < lim.orders@.len() implies {
                        &&& (#[trigger] lim.orders@[k]).shares > 0
                        &&& orders@.contains_key(lim.orders@[k].id)
                        &&& orders@[lim.orders@[k].id] == (OrderSlot { bid_or_ask: kind, limit: p })
                    } by {
                        if k < i {
                            assert(lim.orders@[k] == q[k]);
                        } else {
                            assert(lim.orders@[k] == q[k + 1]);
                            assert(q[k + 1].id != q[i as int].id);
                        }
                    }
                    assert forall|a: int, b: int|
                        0 <= a < lim.orders@.len() && 0 <= b < lim.orders@.len() && a != b implies lim.orders@[a].id
                        != lim.orders@[b].id by {
                        let a2 = if a < i {
                            a
                        } else {
                            a + 1
                        };
                        let b2 = if b < i {
                            b
                        } else {
                            b + 1
                        };
                        assert(lim.orders@[a] == q[a2]);
                        assert(lim.orders@[b] == q[b2]);
                    }
                }
            }
            self.limits.insert(p, lim);
            proof {
                assert(self.limits@.dom() =~= m0.dom());
                assert(self.levels() =~= queues(m0).insert(p, q.remove(i as int)));
            }
        }
        proof {
            lemma_tree_bounds(&self.tree);
        }
        rot
    }
}

/// The height of a well-formed tree is at most its size.
proof fn lemma_tree_bounds(t: &AvlTree)
    requires
        t.inv(),
    ensures
        ht(t.link()) <= size(t.link()),
        t.key_set().finite(),
        t.key_set().len() == size(t.link()),
{
    crate::avl::lemma_ht_le_size(t.link());
    crate::avl::lemma_listing(t.link());
}

/// The best (lowest) price of a set of ask prices.
pub open spec fn lowest(s: Set<i128>) -> i128 {
    choose|k: i128| s.contains(k) && forall|x: i128| #[trigger] s.contains(x) ==> k <= x
}

/// The best (highest) price of a set of bid prices.
pub open spec fn highest(s: Set<i128>) -> i128 {
    choose|k: i128| s.contains(k) && forall|x: i128| #[trigger] s.contains(x) ==> x <= k
}

/// The queues of the side opposite to `side` (where an order of `side` finds
/// its counterparties).
pub open spec fn opposite(b: BookView, side: BidOrAsk) -> Map<i128, Seq<RestingOrder>> {
    match side {
        BidOrAsk::Bid => b.asks,
        BidOrAsk::Ask => b.bids,
    }
}

/// The queues of `side` itself.
pub open spec fn own(b: BookView, side: BidOrAsk) -> Map<i128, Seq<RestingOrder>> {
    match side {
        BidOrAsk::Bid => b.bids,
        BidOrAsk::Ask => b.asks,
    }
}

/// `b` with the queues of `side` replaced by `m`.
pub open spec fn with_side(b: BookView, side: BidOrAsk, m: Map<i128, Seq<RestingOrder>>) -> BookView {
    match side {
        BidOrAsk::Bid => BookView { bids: m, asks: b.asks, orders: b.orders, trades: b.trades },
        BidOrAsk::Ask => BookView { bids: b.bids, asks: m, orders: b.orders, trades: b.trades },
    }
}

/// The other side.
pub open spec fn other(side: BidOrAsk) -> BidOrAsk {
    match side {
        BidOrAsk::Bid => BidOrAsk::Ask,
        BidOrAsk::Ask => BidOrAsk::Bid,
    }
}

/// The best counterparty price for an order of `side`: the lowest ask for a
/// bid, the highest bid for an ask.
pub open spec fn best_opposite(b: BookView, side: BidOrAsk) -> i128 {
    match side {
        BidOrAsk::Bid => lowest(b.asks.dom()),
        BidOrAsk::Ask => highest(b.bids.dom()),
    }
}

/// A counterparty price is acceptable to an order of `side` with this limit.
pub open spec fn crosses(side: BidOrAsk, price: i128, limit: i128) -> bool {
    match side {
        BidOrAsk::Bid => price <= limit,
        BidOrAsk::Ask => price >= limit,
    }
}

/// An order of `side` with `shares` left and this limit trades against the
/// best counterparty level.
pub open spec fn can_match(b: BookView, side: BidOrAsk, shares: u64, limit: i128) -> bool {
    &&& shares > 0
    &&& !opposite(b, side).dom().is_empty()
    &&& crosses(side, best_opposite(b, side), limit)
    &&& opposite(b, side)[best_opposite(b, side)].len() > 0
}

/// The trade record of one fill.
pub open spec fn trade(price: i128, volume: u64, aggressor: u64, passive: u64) -> ExecutedOrders {
    ExecutedOrders { price, volume, aggresive_order_id: aggressor, passive_order_id: passive }
}

/// One fill: the incoming order `id` of `side`, with `shares` left, trades
/// against the oldest order of the best counterparty level. That order
/// leaves the book if it has no more than `shares` (its level goes when it
/// empties); otherwise it keeps its place with fewer shares. The fill is
/// recorded at the resting order's price. Returns the new book and the
/// incoming order's unfilled shares.
pub open spec fn step(b: BookView, id: u64, side: BidOrAsk, shares: u64) -> (BookView, u64) {
    let p = best_opposite(b, side);
    let opp = opposite(b, side);
    let q = opp[p];
    let h = q[0];
    if h.shares <= shares {
        let opp2 = if q.len() == 1 {
            opp.remove(p)
        } else {
            opp.insert(p, q.drop_first())
        };
        let b1 = with_side(b, other(side), opp2);
        (
            BookView {
                bids: b1.bids,
                asks: b1.asks,
                orders: b.orders.remove(h.id),
                trades: b.trades.push(trade(p, h.shares, id, h.id)),
            },
            (shares - h.shares) as u64,
        )
    } else {
        let q2 = q.update(0, RestingOrder { id: h.id, shares: (h.shares - shares) as u64 });
        let b1 = with_side(b, other(side), opp.insert(p, q2));
        (
            BookView {
                bids: b1.bids,
                asks: b1.asks,
                orders: b.orders,
                trades: b.trades.push(trade(p, shares, id, h.id)),
            },
            0,
        )
    }
}

/// Matching with price-time priority: the incoming order keeps filling
/// against the best counterparty level while it has shares left and that
/// level's price is within its limit. Returns the resulting book and the
/// incoming order's unfilled shares. (Every fill reduces the shares left,
/// since resting orders never hold zero shares.)
pub open spec fn fill(b: BookView, id: u64, side: BidOrAsk, shares: u64, limit: i128) -> (BookView, u64)
    decreases shares,
{
    if !can_match(b, side, shares, limit) {
        (b, shares)
    } else {
        let (b2, s2) = step(b, id, side, shares);
        if s2 < shares {
            fill(b2, id, side, s2, limit)
        } else {
            (b2, s2)
        }
    }
}

/// Order `id` of `side` rests with `shares` at `price`, behind the orders
/// already there.
pub open spec fn rest(b: BookView, id: u64, side: BidOrAsk, shares: u64, price: i128) -> BookView {
    let m = own(b, side);
    let q = if m.contains_key(price) {
        m[price].push(RestingOrder { id, shares })
    } else {
        seq![RestingOrder { id, shares }]
    };
    let b1 = with_side(b, side, m.insert(price, q));
    BookView {
        bids: b1.bids,
        asks: b1.asks,
        orders: b.orders.insert(id, OrderSlot { bid_or_ask: side, limit: price }),
        trades: b.trades,
    }
}

/// Adding a limit order: an id that already rests changes nothing;
/// otherwise the order first trades against the opposite side and any
/// remainder rests at its limit price.
pub open spec fn add_order(b: BookView, id: u64, side: BidOrAsk, shares: u64, price: i128) -> BookView {
    if b.orders.contains_key(id) {
        b
    } else {
        let (b1, rem) = fill(b, id, side, shares, price);
        if rem == 0 {
            b1
        } else {
            rest(b1, id, side, rem, price)
        }
    }
}

/// Cancelling: a resting order leaves its queue (and its level goes when it
/// empties); an unknown id changes nothing.
pub open spec fn cancel_order(b: BookView, id: u64) -> BookView {
    if !b.orders.contains_key(id) {
        b
    } else {
        let s = b.orders[id];
        let m = own(b, s.bid_or_ask);
        let q = m[s.limit];
        let q2 = q.remove(position(q, id));
        let m2 = if q2.len() == 0 {
            m.remove(s.limit)
        } else {
            m.insert(s.limit, q2)
        };
        let b1 = with_side(b, s.bid_or_ask, m2);
        BookView { bids: b1.bids, asks: b1.asks, orders: b.orders.remove(id), trades: b.trades }
    }
}

/// Modifying: a resting order is taken out of the book, then re-enters on
/// the same side with the new shares and price, trading first if it can
/// (losing its time priority); an unknown id changes nothing.
pub open spec fn modify_order(b: BookView, id: u64, shares: u64, price: i128) -> BookView {
    if !b.orders.contains_key(id) {
        b
    } else {
        let side = b.orders[id].bid_or_ask;
        let b1 = cancel_order(b, id);
        let (b2, rem) = fill(b1, id, side, shares, price);
        if rem == 0 {
            b2
        } else {
            rest(b2, id, side, rem, price)
        }
    }
}

/// Matching only ever takes orders out of the book's index.
pub proof fn lemma_fill_ids(b: BookView, id: u64, side: BidOrAsk, shares: u64, limit: i128)
    ensures
        fill(b, id, side, shares, limit).0.orders.dom().subset_of(b.orders.dom()),
    decreases shares,
{
    if can_match(b, side, shares, limit) {
        let (b2, s2) = step(b, id, side, shares);
        if s2 < shares {
            lemma_fill_ids(b2, id, side, s2, limit);
        }
    }
}

/// The ids an operation leaves in the book: adding brings in at most its
/// own id; cancelling and modifying bring in none.
pub proof fn lemma_op_ids(b: BookView, id: u64, side: BidOrAsk, shares: u64, price: i128)
    ensures
        add_order(b, id, side, shares, price).orders.dom().subset_of(b.orders.dom().insert(id)),
        cancel_order(b, id).orders.dom().subset_of(b.orders.dom()),
        modify_order(b, id, shares, price).orders.dom().subset_of(b.orders.dom()),
{
    lemma_fill_ids(b, id, side, shares, price);
    if b.orders.contains_key(id) {
        let c = cancel_order(b, id);
        lemma_fill_ids(c, id, b.orders[id].bid_or_ask, shares, price);
    }
}

/// The trees of the two sides of a book: their shapes decide the
/// rebalancing steps of later operations and the walks from the best
/// prices.
pub struct Shapes {
    pub bids: Option<Box<Node>>,
    pub asks: Option<Box<Node>>,
}

/// The tree of `side`.
pub open spec fn shape_of(s: Shapes, side: BidOrAsk) -> Option<Box<Node>> {
    match side {
        BidOrAsk::Bid => s.bids,
        BidOrAsk::Ask => s.asks,
    }
}

/// `s` with the tree of `side` replaced by `t`.
pub open spec fn with_shape(s: Shapes, side: BidOrAsk, t: Option<Box<Node>>) -> Shapes {
    match side {
        BidOrAsk::Bid => Shapes { bids: t, asks: s.asks },
        BidOrAsk::Ask => Shapes { bids: s.bids, asks: t },
    }
}

/// The trees, and the rebalancing steps, once the level of `side` at `p`
/// has gone (when `gone`) or stayed.
pub open spec fn level_gone(s: Shapes, side: BidOrAsk, p: i128, gone: bool) -> (Shapes, nat) {
    if gone {
        let (t, r) = avl_delete(shape_of(s, side), p);
        (with_shape(s, side, t), r)
    } else {
        (s, 0)
    }
}

/// The trees, and the rebalancing steps, once a level of `side` at `p` has
/// opened (when `opened`) or was there already.
pub open spec fn level_opened(s: Shapes, side: BidOrAsk, p: i128, opened: bool) -> (Shapes, nat) {
    if opened {
        let (t, r) = avl_insert(shape_of(s, side), p);
        (with_shape(s, side, Some(t)), r)
    } else {
        (s, 0)
    }
}

/// The trees after one fill (see `step`): the counterparty level goes from
/// its tree when the fill empties it.
pub open spec fn step_shapes(b: BookView, s: Shapes, id: u64, side: BidOrAsk, shares: u64) -> (Shapes, nat) {
    let p = best_opposite(b, side);
    level_gone(s, other(side), p, !opposite(step(b, id, side, shares).0, side).contains_key(p))
}

/// The trees after matching (see `fill`), with the rebalancing steps of
/// every level that the matching emptied, in turn.
pub open spec fn fill_shapes(b: BookView, s: Shapes, id: u64, side: BidOrAsk, shares: u64, limit: i128) -> (Shapes, nat)
    decreases shares,
{
    if !can_match(b, side, shares, limit) {
        (s, 0)
    } else {
        let (b2, s2) = step(b, id, side, shares);
        let (t2, r) = step_shapes(b, s, id, side, shares);
        if s2 < shares {
            let (t3, r3) = fill_shapes(b2, t2, id, side, s2, limit);
            (t3, r + r3)
        } else {
            (t2, r)
        }
    }
}

/// The trees after an order rests at `price` on `side` (see `rest`): a new
/// level enters its tree.
pub open spec fn rest_shapes(b: BookView, s: Shapes, side: BidOrAsk, price: i128) -> (Shapes, nat) {
    level_opened(s, side, price, !own(b, side).contains_key(price))
}

/// The trees and rebalancing steps of adding an order (see `add_order`).
pub open spec fn add_shapes(b: BookView, s: Shapes, id: u64, side: BidOrAsk, shares: u64, price: i128) -> (Shapes, nat) {
    if b.orders.contains_key(id) {
        (s, 0)
    } else {
        let (b1, rem) = fill(b, id, side, shares, price);
        let (s1, r1) = fill_shapes(b, s, id, side, shares, price);
        if rem == 0 {
            (s1, r1)
        } else {
            let (s2, r2) = rest_shapes(b1, s1, side, price);
            (s2, r1 + r2)
        }
    }
}

/// The trees and rebalancing steps of cancelling an order (see
/// `cancel_order`): its level goes from its tree when it empties.
pub open spec fn cancel_shapes(b: BookView, s: Shapes, id: u64) -> (Shapes, nat) {
    if !b.orders.contains_key(id) {
        (s, 0)
    } else {
        let o = b.orders[id];
        level_gone(s, o.bid_or_ask, o.limit, !own(cancel_order(b, id), o.bid_or_ask).contains_key(o.limit))
    }
}

/// The trees and rebalancing steps of modifying an order (see
/// `modify_order`): those of its cancelling, its matching and its resting,
/// added up.
pub open spec fn modify_shapes(b: BookView, s: Shapes, id: u64, shares: u64, price: i128) -> (Shapes, nat) {
    if !b.orders.contains_key(id) {
        (s, 0)
    } else {
        let side = b.orders[id].bid_or_ask;
        let (s1, r1) = cancel_shapes(b, s, id);
        let b1 = cancel_order(b, id);
        let (b2, rem) = fill(b1, id, side, shares, price);
        let (s2, r2) = fill_shapes(b1, s1, id, side, shares, price);
        if rem == 0 {
            (s2, r1 + r2)
        } else {
            let (s3, r3) = rest_shapes(b2, s2, side, price);
            (s3, r1 + r2 + r3)
        }
    }
}

/// The volume resting on `side` at `price` (zero without a level there).
pub open spec fn level_volume(b: BookView, side: BidOrAsk, price: i128) -> nat {
    if own(b, side).contains_key(price) {
        vol(own(b, side)[price])
    } else {
        0
    }
}

/// The order book with its trade log and the statistics of the last
/// operation.
pub struct Arena {
    bids: BookSide,
    asks: BookSide,
    orders: HashMap<u64, OrderSlot>,
    executed_orders: Vec<ExecutedOrders>,
    executed_orders_count: usize,
    avl_rebalances: u64,
    show_best_price_levels: bool,
}

impl Arena {
    /// The abstract state of the book.
    pub closed spec fn book(&self) -> BookView {
        BookView {
            bids: self.bids.levels(),
            asks: self.asks.levels(),
            orders: self.orders@,
            trades: self.executed_orders@,
        }
    }

    /// The total number of price levels on both sides.
    pub closed spec fn level_count(&self) -> nat {
        self.bids.count() + self.asks.count()
    }

    /// Whether snapshots walk from the best prices rather than the roots.
    pub closed spec fn best_levels_mode(&self) -> bool {
        self.show_best_price_levels
    }

    /// The same book with the statistics of the last operation reset: what
    /// an operation that changes nothing leaves behind.
    pub closed spec fn counts_cleared(&self) -> Arena {
        Arena {
            bids: self.bids,
            asks: self.asks,
            orders: self.orders,
            executed_orders: self.executed_orders,
            executed_orders_count: 0,
            avl_rebalances: 0,
            show_best_price_levels: self.show_best_price_levels,
        }
    }

    /// The trees of the two sides.
    pub closed spec fn shapes(&self) -> Shapes {
        Shapes { bids: self.bids.tree.link(), asks: self.asks.tree.link() }
    }

    /// The number of trades executed by the last operation.
    pub closed spec fn last_trade_count(&self) -> nat {
        self.executed_orders_count as nat
    }

    /// The number of rebalancing steps of the last operation.
    pub closed spec fn last_rebalances(&self) -> nat {
        self.avl_rebalances as nat
    }

    /// The bid prices, highest first.
    pub closed spec fn bid_prices(&self) -> Seq<i128> {
        self.bids.prices_desc()
    }

    /// The ask prices, lowest first.
    pub closed spec fn ask_prices(&self) -> Seq<i128> {
        self.asks.prices_asc()
    }

    /// The bid prices a walk from the best bid visits.
    pub closed spec fn bid_walk(&self) -> Seq<i128> {
        self.bids.walk_from_highest()
    }

    /// The ask prices a walk from the best ask visits.
    pub closed spec fn ask_walk(&self) -> Seq<i128> {
        self.asks.walk_from_lowest()
    }

    /// Order `id` rests in the queue of its own level.
    pub closed spec fn located(&self, id: u64) -> bool {
        let s = self.orders@[id];
        let m = own(self.book(), s.bid_or_ask);
        &&& m.contains_key(s.limit)
        &&& exists|i: int| 0 <= i < m[s.limit].len() && (#[trigger] m[s.limit][i]).id == id
    }

    /// The book is consistent: both sides are well-formed, every indexed
    /// order rests where the index says, and every bid is below every ask.
    pub closed spec fn inv(&self) -> bool {
        &&& self.bids.inv(BidOrAsk::Bid, self.orders@)
        &&& self.asks.inv(BidOrAsk::Ask, self.orders@)
        &&& forall|id: u64| #[trigger] self.orders@.contains_key(id) ==> self.located(id)
        &&& forall|bp: i128, ap: i128|
            #![trigger self.bids.limits@.contains_key(bp), self.asks.limits@.contains_key(ap)]
            self.bids.limits@.contains_key(bp) && self.asks.limits@.contains_key(ap) ==> bp < ap
    }

    /// An empty book. With `best_price_lvls`, snapshots walk from the best
    /// prices; otherwise they list the top levels of the whole tree.
    pub fn new(best_price_lvls: bool) -> (a: Self)
        ensures
            a.inv(),
            a.book().bids == Map::<i128, Seq<RestingOrder>>::empty(),
            a.book().asks == Map::<i128, Seq<RestingOrder>>::empty(),
            a.book().orders == Map::<u64, OrderSlot>::empty(),
            a.book().trades == Seq::<ExecutedOrders>::empty(),
            a.level_count() == 0,
            a.last_trade_count() == 0,
            a.last_rebalances() == 0,
            a.shapes() == (Shapes { bids: None, asks: None }),
            a.best_levels_mode() == best_price_lvls,
    {
        let a = Arena {
            bids: BookSide::new(),
            asks: BookSide::new(),
            orders: HashMap::new(),
            executed_orders: Vec::new(),
            executed_orders_count: 0,
            avl_rebalances: 0,
            show_best_price_levels: best_price_lvls,
        };
        proof {
            assert(a.orders@ =~= Map::<u64, OrderSlot>::empty());
        }
        a
    }

    /// The number of trades the last operation executed.
    pub fn executed_orders_count(&self) -> (n: usize)
        ensures
            n == self.last_trade_count(),
    {
        self.executed_orders_count
    }

    /// The level count is the number of prices on both sides of the book.
    pub proof fn lemma_level_count(&self)
        requires
            self.inv(),
        ensures
            self.level_count() == self.book().bids.dom().len() + self.book().asks.dom().len(),
    {
        lemma_tree_bounds(&self.bids.tree);
        lemma_tree_bounds(&self.asks.tree);
        assert(queues(self.bids.limits@).dom() =~= self.bids.limits@.dom());
        assert(queues(self.asks.limits@).dom() =~= self.asks.limits@.dom());
    }

    /// The number of price levels on both sides.
    pub fn levels_len(&self) -> (r: usize)
        requires
            self.inv(),
        ensures
            r == self.level_count(),
            r == self.book().bids.dom().len() + self.book().asks.dom().len(),
    {
        let b = self.bids.level_len(Ghost(BidOrAsk::Bid), Ghost(self.orders@));
        let a = self.asks.level_len(Ghost(BidOrAsk::Ask), Ghost(self.orders@));
        b + a
    }

    /// The number of rebalancing steps the last operation performed.
    pub fn avl_rebalances(&self) -> (n: u64)
        ensures
            n == self.last_rebalances(),
    {
        self.avl_rebalances
    }
}

/// An order that rests somewhere on a side before one fill still rests at
/// the same price afterwards, unless it was the filled-away head.
proof fn lemma_queue_step(
    l0: Map<i128, Seq<RestingOrder>>,
    l1: Map<i128, Seq<RestingOrder>>,
    p: i128,
    full: bool,
    sh: u64,
    id: u64,
    pp: i128,
)
    requires
        l0.contains_key(p),
        l0[p].len() > 0,
        ids_unique(l0[p]),
        full ==> l1 == if l0[p].len() == 1 {
            l0.remove(p)
        } else {
            l0.insert(p, l0[p].drop_first())
        },
        !full ==> l1 == l0.insert(
            p,
            l0[p].update(0, RestingOrder { id: l0[p][0].id, shares: (l0[p][0].shares - sh) as u64 }),
        ),
        l0.contains_key(pp),
        exists|i: int| 0 <= i < l0[pp].len() && (#[trigger] l0[pp][i]).id == id,
        full ==> id != l0[p][0].id,
    ensures
        l1.contains_key(pp),
        exists|i: int| 0 <= i < l1[pp].len() && (#[trigger] l1[pp][i]).id == id,
{
    let i = choose|i: int| 0 <= i < l0[pp].len() && (#[trigger] l0[pp][i]).id == id;
    if pp == p {
        if full {
            assert(i != 0);
            assert(l0[p].len() > 1);
            assert(l1[pp][i - 1].id == id);
        } else {
            assert(l1[pp][i].id == id);
        }
    } else {
        assert(l1[pp] == l0[pp]);
        assert(l1[pp][i].id == id);
    }
}

/// A set's smallest element is the lowest price.
pub proof fn lemma_lowest(s: Set<i128>, k: i128)
    requires
        s.contains(k),
        forall|x: i128| #[trigger] s.contains(x) ==> k <= x,
    ensures
        lowest(s) == k,
{
    let c = lowest(s);
    assert(s.contains(c) && forall|x: i128| #[trigger] s.contains(x) ==> c <= x);
}

/// A set's largest element is the highest price.
pub proof fn lemma_highest(s: Set<i128>, k: i128)
    requires
        s.contains(k),
        forall|x: i128| #[trigger] s.contains(x) ==> x <= k,
    ensures
        highest(s) == k,
{
    let c = highest(s);
    assert(s.contains(c) && forall|x: i128| #[trigger] s.contains(x) ==> x <= c);
}

/// A side stays well-formed when the order index changes only in orders of
/// the other side.
proof fn lemma_side_orders(
    side: &BookSide,
    kind: BidOrAsk,
    o1: Map<u64, OrderSlot>,
    o2: Map<u64, OrderSlot>,
)
    requires
        side.inv(kind, o1),
        forall|id: u64|
            #![trigger o1.contains_key(id)]
            o1.contains_key(id) && o1[id].bid_or_ask == kind ==> o2.contains_key(id) && o2[id]
                == o1[id],
    ensures
        side.inv(kind, o2),
{
    assert forall|p: i128| #[trigger] side.limits@.contains_key(p) implies level_ok(
        side.limits@[p],
        p,
        kind,
        o2,
    ) by {
        let l = side.limits@[p];
        assert(level_ok(l, p, kind, o1));
        assert forall|i: int| 0 <= i < l.orders@.len() implies {
            &&& (#[trigger] l.orders@[i]).shares > 0
            &&& o2.contains_key(l.orders@[i].id)
            &&& o2[l.orders@[i].id] == (OrderSlot { bid_or_ask: kind, limit: p })
        } by {
            assert(o1.contains_key(l.orders@[i].id));
        }
    }
}

impl Arena {
    /// One fill against the best counterparty level at price `p`.
    #[verifier::rlimit(40)]
    fn match_step(&mut self, id: u64, side: BidOrAsk, p: i128, sh: u64) -> (sh2: u64)
        requires
            old(self).inv(),
            sh > 0,
            opposite(old(self).book(), side).contains_key(p),
            p == best_opposite(old(self).book(), side),
            old(self).executed_orders_count < usize::MAX,
            old(self).avl_rebalances + i32::MAX <= u64::MAX,
        ensures
            final(self).inv(),
            (final(self).book(), sh2) == step(old(self).book(), id, side, sh),
            sh2 < sh,
            final(self).orders@.dom().len() <= old(self).orders@.dom().len(),
            final(self).orders@.dom().subset_of(old(self).orders@.dom()),
            sh2 > 0 ==> final(self).orders@.dom().len() < old(self).orders@.dom().len(),
            final(self).level_count() <= old(self).level_count(),
            final(self).executed_orders_count == old(self).executed_orders_count + 1,
            final(self).avl_rebalances <= old(self).avl_rebalances + (old(self).level_count()
                - final(self).level_count()) * 2147483647,
            final(self).show_best_price_levels == old(self).show_best_price_levels,
            own(final(self).book(), side) == own(old(self).book(), side),
            final(self).shapes() == step_shapes(old(self).book(), old(self).shapes(), id, side, sh).0,
            final(self).avl_rebalances == old(self).avl_rebalances + step_shapes(
                old(self).book(),
                old(self).shapes(),
                id,
                side,
                sh,
            ).1,
    {
        let ghost b0 = self.book();
        let ghost o0 = self.orders@;
        let ghost old_self = *self;
        let (sh2, rot) = match side {
            BidOrAsk::Bid => self.asks.take_head(
                BidOrAsk::Ask,
                p,
                &mut self.orders,
                &mut self.executed_orders,
                id,
                sh,
            ),
            BidOrAsk::Ask => self.bids.take_head(
                BidOrAsk::Bid,
                p,
                &mut self.orders,
                &mut self.executed_orders,
                id,
                sh,
            ),
        };
        proof {
            assert(rot <= i32::MAX) by {
                lemma_tree_bounds(&old_self.bids.tree);
                lemma_tree_bounds(&old_self.asks.tree);
            }
        }
        self.executed_orders_count = self.executed_orders_count + 1;
        self.avl_rebalances = self.avl_rebalances + rot;
        proof {
            let q = opposite(b0, side)[p];
            let h = q[0];
            let okind = other(side);
            // the untouched side stays well-formed
            match side {
                BidOrAsk::Bid => {
                    lemma_side_orders(&self.bids, BidOrAsk::Bid, o0, self.orders@);
                    assert(self.bids == old_self.bids);
                },
                BidOrAsk::Ask => {
                    lemma_side_orders(&self.asks, BidOrAsk::Ask, o0, self.orders@);
                    assert(self.asks == old_self.asks);
                },
            }
            // the new book is one step of the old one
            let (sb, ss) = step(b0, id, side, sh);
            assert(self.book().bids =~= sb.bids);
            assert(self.book().asks =~= sb.asks);
            assert(self.book().orders =~= sb.orders);
            assert(self.book().trades =~= sb.trades);
            // level counts
            if h.shares <= sh {
                assert(o0.dom().contains(h.id));
                assert(self.orders@.dom() =~= o0.dom().remove(h.id));
            } else {
                assert(self.orders@.dom() =~= o0.dom());
            }
            // every indexed order still rests where the index says
            assert forall|oid: u64| #[trigger] self.orders@.contains_key(oid) implies self.located(
                oid,
            ) by {
                assert(o0.contains_key(oid));
                assert(old_self.located(oid));
                let sl = o0[oid];
                assert(self.orders@[oid] == sl);
                if sl.bid_or_ask != okind {
                    assert(sl.bid_or_ask == side);
                    assert(own(self.book(), sl.bid_or_ask) == own(b0, sl.bid_or_ask));
                } else {
                    lemma_queue_step(
                        own(b0, okind),
                        own(self.book(), okind),
                        p,
                        h.shares <= sh,
                        sh,
                        oid,
                        sl.limit,
                    );
                }
            }
        }
        sh2
    }
}

impl Arena {
    /// The incoming order `id` of `side` with `shares` and this limit trades
    /// against the opposite side until it is filled or no acceptable
    /// counterparty is left. Returns its unfilled shares.
    fn match_incoming(&mut self, id: u64, side: BidOrAsk, shares: u64, limit: i128) -> (rem: u64)
        requires
            old(self).inv(),
            old(self).executed_orders_count == 0,
            old(self).avl_rebalances <= i32::MAX,
        ensures
            final(self).inv(),
            (final(self).book(), rem) == fill(old(self).book(), id, side, shares, limit),
            final(self).executed_orders_count as int == final(self).book().trades.len() - old(
                self,
            ).book().trades.len(),
            final(self).level_count() <= old(self).level_count(),
            final(self).avl_rebalances <= old(self).avl_rebalances + (old(self).level_count()
                - final(self).level_count()) * 2147483647,
            final(self).executed_orders_count == 0 ==> final(self).avl_rebalances == old(self).avl_rebalances,
            final(self).show_best_price_levels == old(self).show_best_price_levels,
            own(final(self).book(), side) == own(old(self).book(), side),
            !can_match(final(self).book(), side, rem, limit),
            final(self).book().orders.dom().subset_of(old(self).book().orders.dom()),
            rem <= shares,
            final(self).shapes() == fill_shapes(old(self).book(), old(self).shapes(), id, side, shares, limit).0,
            final(self).avl_rebalances == old(self).avl_rebalances + fill_shapes(
                old(self).book(),
                old(self).shapes(),
                id,
                side,
                shares,
                limit,
            ).1,
    {
        let ghost s0 = self.shapes();
        let ghost b0 = self.book();
        let ghost lv0 = self.level_count();
        let ghost avl0 = self.avl_rebalances;
        let ghost show0 = self.show_best_price_levels;
        let n0 = self.orders.len();
        let mut sh = shares;
        loop
            invariant
                self.inv(),
                fill(self.book(), id, side, sh, limit) == fill(b0, id, side, shares, limit),
                own(self.book(), side) == own(b0, side),
                self.level_count() <= lv0,
                lv0 < 2 * 2147483647,
                avl0 <= i32::MAX,
                self.avl_rebalances <= avl0 + (lv0 - self.level_count()) * 2147483647,
                self.executed_orders_count == 0 ==> self.avl_rebalances == avl0,
                self.executed_orders_count + self.orders@.dom().len() <= n0 + (if sh == 0 {
                    1int
                } else {
                    0
                }),
                self.executed_orders_count as int == self.executed_orders@.len() - b0.trades.len(),
                self.show_best_price_levels == show0,
                self.orders@.dom().len() <= n0,
                b0 == old(self).book(),
                lv0 == old(self).level_count(),
                avl0 == old(self).avl_rebalances,
                show0 == old(self).show_best_price_levels,
                self.orders@.dom().subset_of(b0.orders.dom()),
                sh <= shares,
                s0 == old(self).shapes(),
                fill_shapes(b0, s0, id, side, shares, limit).0 == fill_shapes(
                    self.book(),
                    self.shapes(),
                    id,
                    side,
                    sh,
                    limit,
                ).0,
                fill_shapes(b0, s0, id, side, shares, limit).1 == (self.avl_rebalances - avl0) + fill_shapes(
                    self.book(),
                    self.shapes(),
                    id,
                    side,
                    sh,
                    limit,
                ).1,
            ensures
                !can_match(self.book(), side, sh, limit),
            decreases sh,
        {
            if sh == 0 {
                break;
            }
            let best = match side {
                BidOrAsk::Bid => self.asks.tree.min(),
                BidOrAsk::Ask => self.bids.tree.max(),
            };
            proof {
                assert(queues(self.asks.limits@).dom() =~= self.asks.limits@.dom());
                assert(queues(self.bids.limits@).dom() =~= self.bids.limits@.dom());
            }
            let p = match best {
                None => {
                    break;
                },
                Some(p) => p,
            };
            let acceptable = match side {
                BidOrAsk::Bid => p <= limit,
                BidOrAsk::Ask => p >= limit,
            };
            proof {
                match side {
                    BidOrAsk::Bid => lemma_lowest(self.book().asks.dom(), p),
                    BidOrAsk::Ask => lemma_highest(self.book().bids.dom(), p),
                }
            }
            if !acceptable {
                break;
            }
            proof {
                let opp = opposite(self.book(), side);
                let okind = other(side);
                let lm = match okind {
                    BidOrAsk::Bid => self.bids.limits@,
                    BidOrAsk::Ask => self.asks.limits@,
                };
                assert(lm.contains_key(p));
                assert(level_ok(lm[p], p, okind, self.orders@));
                assert(lm[p].orders@[0] == lm[p].orders@[0]);
                assert(self.orders@.contains_key(lm[p].orders@[0].id));
                assert(self.orders@.dom().len() >= 1) by {
                    vstd::set_lib::lemma_set_empty_equivalency_len(self.orders@.dom());
                }
                assert(opp[p] == lm[p].orders@);
                assert(can_match(self.book(), side, sh, limit));
            }
            let ghost cb = self.book();
            let ghost cs = self.shapes();
            let ghost csh = sh;
            let ghost cavl = self.avl_rebalances;
            sh = self.match_step(id, side, p, sh);
            proof {
                assert(fill_shapes(cb, cs, id, side, csh, limit).0 == fill_shapes(
                    self.book(),
                    self.shapes(),
                    id,
                    side,
                    sh,
                    limit,
                ).0);
                assert(fill_shapes(cb, cs, id, side, csh, limit).1 == (self.avl_rebalances - cavl) + fill_shapes(
                    self.book(),
                    self.shapes(),
                    id,
                    side,
                    sh,
                    limit,
                ).1);
            }
        }
        sh
    }
}

impl Arena {
    /// The lowest ask and highest bid of a consistent book are the extreme
    /// keys of the two trees.
    proof fn lemma_best_prices(&self)
        requires
            self.inv(),
        ensures
            self.book().asks.dom() == self.asks.tree.key_set(),
            self.book().bids.dom() == self.bids.tree.key_set(),
            !self.book().asks.dom().is_empty() ==> self.book().asks.dom().contains(
                lowest(self.book().asks.dom()),
            ) && forall|x: i128| #[trigger]
                self.book().asks.dom().contains(x) ==> lowest(self.book().asks.dom()) <= x,
            !self.book().bids.dom().is_empty() ==> self.book().bids.dom().contains(
                highest(self.book().bids.dom()),
            ) && forall|x: i128| #[trigger]
                self.book().bids.dom().contains(x) ==> x <= highest(self.book().bids.dom()),
    {
        assert(queues(self.asks.limits@).dom() =~= self.asks.limits@.dom());
        assert(queues(self.bids.limits@).dom() =~= self.bids.limits@.dom());
        if !self.book().asks.dom().is_empty() {
            let k = choose|k: i128| self.book().asks.dom().contains(k);
            assert(self.asks.tree.key_set().contains(k));
            assert(self.asks.tree.link() is Some);
            crate::avl::lemma_extremes(self.asks.tree.link());
            lemma_lowest(self.book().asks.dom(), asc(self.asks.tree.link())[0]);
        }
        if !self.book().bids.dom().is_empty() {
            let k = choose|k: i128| self.book().bids.dom().contains(k);
            assert(self.bids.tree.key_set().contains(k));
            assert(self.bids.tree.link() is Some);
            crate::avl::lemma_extremes(self.bids.tree.link());
            lemma_highest(self.book().bids.dom(), desc(self.bids.tree.link())[0]);
        }
    }

    /// The remainder of an incoming order rests at its limit price.
    #[verifier::spinoff_prover]
    fn rest_order(&mut self, id: u64, side: BidOrAsk, shares: u64, price: i128)
        requires
            old(self).inv(),
            !old(self).book().orders.contains_key(id),
            shares > 0,
            !can_match(old(self).book(), side, shares, price),
            level_volume(old(self).book(), side, price) + shares <= u64::MAX,
            old(self).level_count() + 1 < i32::MAX,
            old(self).avl_rebalances + i32::MAX <= u64::MAX,
        ensures
            final(self).inv(),
            final(self).book() == rest(old(self).book(), id, side, shares, price),
            final(self).level_count() <= old(self).level_count() + 1,
            final(self).avl_rebalances <= old(self).avl_rebalances + 1,
            own(old(self).book(), side).contains_key(price) ==> final(self).avl_rebalances == old(self).avl_rebalances,
            final(self).shapes() == rest_shapes(old(self).book(), old(self).shapes(), side, price).0,
            final(self).avl_rebalances == old(self).avl_rebalances + rest_shapes(
                old(self).book(),
                old(self).shapes(),
                side,
                price,
            ).1,
            final(self).executed_orders_count == old(self).executed_orders_count,
            final(self).show_best_price_levels == old(self).show_best_price_levels,
    {
        let ghost old_self = *self;
        let ghost b0 = self.book();
        let ghost o0 = self.orders@;
        proof {
            self.lemma_best_prices();
        }
        let rot = match side {
            BidOrAsk::Bid => self.bids.append(BidOrAsk::Bid, id, shares, price, &mut self.orders),
            BidOrAsk::Ask => self.asks.append(BidOrAsk::Ask, id, shares, price, &mut self.orders),
        };
        self.avl_rebalances = self.avl_rebalances + rot;
        proof {
            let slot = OrderSlot { bid_or_ask: side, limit: price };
            match side {
                BidOrAsk::Bid => {
                    lemma_side_orders(&self.asks, BidOrAsk::Ask, o0, self.orders@);
                    assert(self.asks == old_self.asks);
                },
                BidOrAsk::Ask => {
                    lemma_side_orders(&self.bids, BidOrAsk::Bid, o0, self.orders@);
                    assert(self.bids == old_self.bids);
                },
            }
            let r = rest(b0, id, side, shares, price);
            assert(self.book().bids =~= r.bids);
            assert(self.book().asks =~= r.asks);
            assert(self.book().orders =~= r.orders);
            assert forall|oid: u64| #[trigger] self.orders@.contains_key(oid) implies self.located(
                oid,
            ) by {
                let m = own(self.book(), self.orders@[oid].bid_or_ask);
                if oid == id {
                    let q = m[price];
                    assert(q[q.len() - 1].id == id);
                } else {
                    assert(o0.contains_key(oid));
                    assert(old_self.located(oid));
                    let sl = o0[oid];
                    let m0 = own(b0, sl.bid_or_ask);
                    let i = choose|i: int| 0 <= i < m0[sl.limit].len() && (#[trigger] m0[sl.limit][i]).id == oid;
                    assert(m.contains_key(sl.limit));
                    assert(m[sl.limit][i] == m0[sl.limit][i]);
                }
            }
            assert(queues(self.asks.limits@).dom() =~= self.asks.limits@.dom());
            assert(queues(self.bids.limits@).dom() =~= self.bids.limits@.dom());
            assert forall|bp: i128, ap: i128|
                #![trigger self.bids.limits@.contains_key(bp), self.asks.limits@.contains_key(ap)]
                self.bids.limits@.contains_key(bp) && self.asks.limits@.contains_key(ap) implies bp
                < ap by {
                match side {
                    BidOrAsk::Bid => {
                        assert(old_self.asks.limits@.contains_key(ap));
                        if bp == price {
                            assert(b0.asks.dom().contains(ap));
                        } else {
                            assert(old_self.bids.limits@.contains_key(bp));
                        }
                    },
                    BidOrAsk::Ask => {
                        assert(old_self.bids.limits@.contains_key(bp));
                        if ap == price {
                            assert(b0.bids.dom().contains(bp));
                        } else {
                            assert(old_self.asks.limits@.contains_key(ap));
                        }
                    },
                }
            }
        }
    }
}

/// The consistency of a book does not depend on the trade log or the
/// statistics.
proof fn lemma_inv_same_book(a: Arena, b: Arena)
    requires
        a.inv(),
        a.bids == b.bids,
        a.asks == b.asks,
        a.orders == b.orders,
    ensures
        b.inv(),
        b.book().bids == a.book().bids,
        b.book().asks == a.book().asks,
        b.book().orders == a.book().orders,
        b.level_count() == a.level_count(),
{
    assert forall|id: u64| #[trigger] b.orders@.contains_key(id) implies b.located(id) by {
        assert(a.located(id));
    }
}

impl Arena {
    /// Resting order `id` leaves the book.
    #[verifier::spinoff_prover]
    #[verifier::rlimit(30)]
    fn take_out(&mut self, id: u64)
        requires
            old(self).inv(),
            old(self).book().orders.contains_key(id),
            old(self).avl_rebalances == 0,
        ensures
            final(self).inv(),
            final(self).book() == cancel_order(old(self).book(), id),
            final(self).level_count() <= old(self).level_count(),
            final(self).avl_rebalances <= i32::MAX,
            own(final(self).book(), old(self).book().orders[id].bid_or_ask).contains_key(
                old(self).book().orders[id].limit,
            ) ==> final(self).avl_rebalances == 0,
            final(self).shapes() == cancel_shapes(old(self).book(), old(self).shapes(), id).0,
            final(self).avl_rebalances == cancel_shapes(old(self).book(), old(self).shapes(), id).1,
            final(self).executed_orders_count == old(self).executed_orders_count,
            final(self).show_best_price_levels == old(self).show_best_price_levels,
    {
        let ghost old_self = *self;
        let ghost b0 = self.book();
        let ghost o0 = self.orders@;
        let slot = *self.orders.get(&id).unwrap();
        proof {
            assert(self.located(id));
            assert(queues(self.asks.limits@).dom() =~= self.asks.limits@.dom());
            assert(queues(self.bids.limits@).dom() =~= self.bids.limits@.dom());
        }
        let rot = match slot.bid_or_ask {
            BidOrAsk::Bid => self.bids.remove_order(BidOrAsk::Bid, id, &mut self.orders),
            BidOrAsk::Ask => self.asks.remove_order(BidOrAsk::Ask, id, &mut self.orders),
        };
        proof {
            lemma_tree_bounds(&old_self.bids.tree);
            lemma_tree_bounds(&old_self.asks.tree);
        }
        self.avl_rebalances = rot;
        proof {
            let side = slot.bid_or_ask;
            let q = own(b0, side)[slot.limit];
            let pos = position(q, id);
            match side {
                BidOrAsk::Bid => {
                    lemma_side_orders(&self.asks, BidOrAsk::Ask, o0, self.orders@);
                    assert(self.asks == old_self.asks);
                },
                BidOrAsk::Ask => {
                    lemma_side_orders(&self.bids, BidOrAsk::Bid, o0, self.orders@);
                    assert(self.bids == old_self.bids);
                },
            }
            let c = cancel_order(b0, id);
            assert(self.book().bids =~= c.bids);
            assert(self.book().asks =~= c.asks);
            assert(self.book().orders =~= c.orders);
            assert forall|oid: u64| #[trigger] self.orders@.contains_key(oid) implies self.located(
                oid,
            ) by {
                assert(o0.contains_key(oid));
                assert(old_self.located(oid));
                let sl = o0[oid];
                let m0 = own(b0, sl.bid_or_ask);
                let m = own(self.book(), sl.bid_or_ask);
                let i = choose|i: int| 0 <= i < m0[sl.limit].len() && (#[trigger] m0[sl.limit][i]).id == oid;
                if sl.bid_or_ask == side && sl.limit == slot.limit {
                    assert(i != pos);
                    assert(q.len() > 1);
                    assert(m.contains_key(sl.limit));
                    if i < pos {
                        assert(m[sl.limit][i].id == oid);
                    } else {
                        assert(m[sl.limit][i - 1].id == oid);
                    }
                } else {
                    assert(m.contains_key(sl.limit));
                    assert(m[sl.limit][i].id == oid);
                }
            }
            assert(queues(self.asks.limits@).dom() =~= self.asks.limits@.dom());
            assert(queues(self.bids.limits@).dom() =~= self.bids.limits@.dom());
            assert forall|bp: i128, ap: i128|
                #![trigger self.bids.limits@.contains_key(bp), self.asks.limits@.contains_key(ap)]
                self.bids.limits@.contains_key(bp) && self.asks.limits@.contains_key(ap) implies bp
                < ap by {
                assert(old_self.bids.limits@.contains_key(bp));
                assert(old_self.asks.limits@.contains_key(ap));
            }
        }
    }

    /// Adds a limit order. It first trades against the opposite side with
    /// price-time priority; whatever is left rests at `limit_price`. The id
    /// must not be resting in the book already: the book indexes one order
    /// per id.
    pub fn add_limit_order(&mut self, order_id: u64, bid_or_ask: BidOrAsk, shares: u64, limit_price: i128)
        requires
            old(self).inv(),
            !old(self).book().orders.contains_key(order_id),
            old(self).level_count() + 1 < i32::MAX,
            level_volume(old(self).book(), bid_or_ask, limit_price) + shares <= u64::MAX,
        ensures
            final(self).inv(),
            final(self).book() == add_order(old(self).book(), order_id, bid_or_ask, shares, limit_price),
            final(self).last_trade_count() == final(self).book().trades.len() - old(self).book().trades.len(),
            (final(self).shapes(), final(self).last_rebalances()) == add_shapes(
                old(self).book(),
                old(self).shapes(),
                order_id,
                bid_or_ask,
                shares,
                limit_price,
            ),
            final(self).book().trades.len() == old(self).book().trades.len() ==> final(self).last_rebalances() <= 1,
            final(self).book().trades.len() == old(self).book().trades.len() && own(old(self).book(), bid_or_ask).contains_key(
                limit_price,
            ) ==> final(self).last_rebalances() == 0,
            final(self).level_count() <= old(self).level_count() + 1,
            final(self).best_levels_mode() == old(self).best_levels_mode(),
    {
        let ghost a0 = *self;
        self.avl_rebalances = 0;
        self.executed_orders_count = 0;
        proof {
            lemma_inv_same_book(a0, *self);
        }
        let rem = self.match_incoming(order_id, bid_or_ask, shares, limit_price);
        if rem != 0 {
            self.rest_order(order_id, bid_or_ask, rem, limit_price);
        }
    }

    /// Cancels a resting order; an unknown id changes nothing.
    pub fn cancel_limit_order(&mut self, order_id: u64)
        requires
            old(self).inv(),
        ensures
            final(self).inv(),
            final(self).book() == cancel_order(old(self).book(), order_id),
            final(self).last_trade_count() == 0,
            !old(self).book().orders.contains_key(order_id) ==> final(self).last_rebalances() == 0,
            old(self).book().orders.contains_key(order_id) && own(
                final(self).book(),
                old(self).book().orders[order_id].bid_or_ask,
            ).contains_key(old(self).book().orders[order_id].limit) ==> final(self).last_rebalances() == 0,
            (final(self).shapes(), final(self).last_rebalances()) == cancel_shapes(
                old(self).book(),
                old(self).shapes(),
                order_id,
            ),
            !old(self).book().orders.contains_key(order_id) ==> *final(self) == old(self).counts_cleared(),
            final(self).level_count() <= old(self).level_count(),
            final(self).best_levels_mode() == old(self).best_levels_mode(),
    {
        let ghost a0 = *self;
        self.avl_rebalances = 0;
        self.executed_orders_count = 0;
        proof {
            lemma_inv_same_book(a0, *self);
        }
        if !self.orders.contains_key(&order_id) {
            return;
        }
        self.take_out(order_id);
    }

    /// Modifies a resting order: it leaves the book, then re-enters on the
    /// same side with `new_shares` at `new_limit_price`, trading first if it
    /// can. An unknown id changes nothing.
    pub fn modify_limit_order(&mut self, order_id: u64, new_shares: u64, new_limit_price: i128)
        requires
            old(self).inv(),
            old(self).level_count() + 1 < i32::MAX,
            old(self).book().orders.contains_key(order_id) ==> level_volume(
                cancel_order(old(self).book(), order_id),
                old(self).book().orders[order_id].bid_or_ask,
                new_limit_price,
            ) + new_shares <= u64::MAX,
        ensures
            final(self).inv(),
            final(self).book() == modify_order(old(self).book(), order_id, new_shares, new_limit_price),
            final(self).last_trade_count() == final(self).book().trades.len() - old(self).book().trades.len(),
            !old(self).book().orders.contains_key(order_id) ==> final(self).last_rebalances() == 0,
            (final(self).shapes(), final(self).last_rebalances()) == modify_shapes(
                old(self).book(),
                old(self).shapes(),
                order_id,
                new_shares,
                new_limit_price,
            ),
            !old(self).book().orders.contains_key(order_id) ==> *final(self) == old(self).counts_cleared(),
            final(self).level_count() <= old(self).level_count() + 1,
            final(self).best_levels_mode() == old(self).best_levels_mode(),
    {
        let ghost a0 = *self;
        self.avl_rebalances = 0;
        self.executed_orders_count = 0;
        proof {
            lemma_inv_same_book(a0, *self);
        }
        if !self.orders.contains_key(&order_id) {
            return;
        }
        let side = self.orders.get(&order_id).unwrap().bid_or_ask;
        self.take_out(order_id);
        let rem = self.match_incoming(order_id, side, new_shares, new_limit_price);
        if rem != 0 {
            self.rest_order(order_id, side, rem, new_limit_price);
        }
    }
}

/// The volume of every listed price level, in the listing's order.
pub open spec fn with_volumes(prices: Seq<i128>, m: Map<i128, Seq<RestingOrder>>) -> Seq<(i128, u64)> {
    Seq::new(prices.len(), |i: int| (prices[i], vol(m[prices[i]]) as u64))
}

impl BookSide {
    /// The listed prices paired with their levels' volumes.
    fn volumes(&self, kind: BidOrAsk, prices: Vec<i128>, Ghost(orders): Ghost<Map<u64, OrderSlot>>) -> (r: Vec<(i128, u64)>)
        requires
            self.inv(kind, orders),
            forall|i: int| 0 <= i < prices@.len() ==> self.levels().contains_key(#[trigger] prices@[i]),
        ensures
            r@ == with_volumes(prices@, self.levels()),
    {
        let mut r: Vec<(i128, u64)> = Vec::new();
        let mut i: usize = 0;
        while i < prices.len()
            invariant
                self.inv(kind, orders),
                forall|j: int| 0 <= j < prices@.len() ==> self.levels().contains_key(#[trigger] prices@[j]),
                0 <= i <= prices@.len(),
                r@ =~= with_volumes(prices@.take(i as int), self.levels()),
            decreases prices@.len() - i,
        {
            let p = prices[i];
            proof {
                assert(self.levels().contains_key(prices@[i as int]));
                assert(self.limits@.contains_key(p));
                assert(level_ok(self.limits@[p], p, kind, orders));
            }
            let v = self.limits.get(&p).unwrap().total_volume;
            r.push((p, v));
            i = i + 1;
            proof {
                assert(r@ =~= with_volumes(prices@.take(i as int), self.levels()));
            }
        }
        proof {
            assert(prices@.take(i as int) =~= prices@);
        }
        r
    }

    /// The shares of resting order `id` at price `p`.
    fn shares_of(&self, kind: BidOrAsk, p: i128, id: u64, Ghost(orders): Ghost<Map<u64, OrderSlot>>) -> (r: u64)
        requires
            self.inv(kind, orders),
            self.levels().contains_key(p),
            exists|i: int| 0 <= i < self.levels()[p].len() && (#[trigger] self.levels()[p][i]).id == id,
        ensures
            0 <= position(self.levels()[p], id) < self.levels()[p].len(),
            r == self.levels()[p][position(self.levels()[p], id)].shares,
            vol(self.levels()[p]) >= r,
            ids_unique(self.levels()[p]),
    {
        proof {
            assert(level_ok(self.limits@[p], p, kind, orders));
        }
        let lim = self.limits.get(&p).unwrap();
        let ghost q = lim.orders@;
        let mut i: usize = 0;
        let n = lim.orders.len();
        while i < n && lim.orders[i].id != id
            invariant
                0 <= i <= n,
                n == q.len(),
                lim.orders@ == q,
                forall|j: int| 0 <= j < i ==> (#[trigger] q[j]).id != id,
                exists|j: int| 0 <= j < q.len() && (#[trigger] q[j]).id == id,
            decreases n - i,
        {
            i = i + 1;
        }
        proof {
            if i == n {
                let j = choose|j: int| 0 <= j < q.len() && (#[trigger] q[j]).id == id;
                assert(q[j].id != id);
            }
            lemma_position(q, i as int);
            lemma_vol_remove(q, i as int);
        }
        lim.orders[i].shares
    }

    /// The volume resting at `p` (zero without a level there).
    fn volume_at(&self, kind: BidOrAsk, p: i128, Ghost(orders): Ghost<Map<u64, OrderSlot>>) -> (r: u64)
        requires
            self.inv(kind, orders),
        ensures
            r == (if self.levels().contains_key(p) {
                vol(self.levels()[p])
            } else {
                0
            }),
    {
        match self.limits.get(&p) {
            Some(l) => {
                proof {
                    assert(level_ok(*l, p, kind, orders));
                }
                l.total_volume
            },
            None => 0,
        }
    }
}

impl Arena {
    /// The highest bid price, if any.
    pub fn highest_buy(&self) -> (r: Option<i128>)
        requires
            self.inv(),
        ensures
            r is None <==> self.book().bids.dom().is_empty(),
            r matches Some(p) ==> p == highest(self.book().bids.dom()),
    {
        proof {
            self.lemma_best_prices();
        }
        let r = self.bids.tree.max();
        proof {
            if let Some(p) = r {
                lemma_highest(self.book().bids.dom(), p);
            }
        }
        r
    }

    /// The lowest ask price, if any.
    pub fn lowest_sell(&self) -> (r: Option<i128>)
        requires
            self.inv(),
        ensures
            r is None <==> self.book().asks.dom().is_empty(),
            r matches Some(p) ==> p == lowest(self.book().asks.dom()),
    {
        proof {
            self.lemma_best_prices();
        }
        let r = self.asks.tree.min();
        proof {
            if let Some(p) = r {
                lemma_lowest(self.book().asks.dom(), p);
            }
        }
        r
    }

    /// Up to `n` bid levels with their volumes, highest price first. In
    /// best-levels mode the walk starts at the best bid and covers only the
    /// levels hanging below it in the tree.
    pub fn get_top_n_bids(&self, n: usize) -> (r: Vec<(i128, u64)>)
        requires
            self.inv(),
        ensures
            r@ == with_volumes(
                if self.best_levels_mode() {
                    prefix(self.bid_walk(), n as int)
                } else {
                    prefix(self.bid_prices(), n as int)
                },
                self.book().bids,
            ),
    {
        let prices = if self.show_best_price_levels {
            self.bids.tree.best_desc(n)
        } else {
            self.bids.tree.top_desc(n)
        };
        proof {
            let l = self.bids.tree.link();
            crate::avl::lemma_listing(l);
            crate::avl::lemma_best_desc(l);
            assert forall|i: int| 0 <= i < prices@.len() implies self.bids.levels().contains_key(
                #[trigger] prices@[i],
            ) by {
                if self.show_best_price_levels {
                    assert(prices@.len() <= best_desc(l).len());
                    assert(prices@[i] == best_desc(l)[i]);
                    assert(best_desc(l)[i] == desc(l)[i]);
                } else {
                    assert(prices@.len() <= desc(l).len());
                    assert(prices@[i] == desc(l)[i]);
                }
                assert(0 <= i < desc(l).len());
                assert(desc(l).to_set().contains(desc(l)[i]));
                assert(queues(self.bids.limits@).dom() =~= self.bids.limits@.dom());
            }
        }
        self.bids.volumes(BidOrAsk::Bid, prices, Ghost(self.orders@))
    }

    /// Up to `n` ask levels with their volumes, lowest price first. In
    /// best-levels mode the walk starts at the best ask and covers only the
    /// levels hanging above it in the tree.
    pub fn get_top_n_asks(&self, n: usize) -> (r: Vec<(i128, u64)>)
        requires
            self.inv(),
        ensures
            r@ == with_volumes(
                if self.best_levels_mode() {
                    prefix(self.ask_walk(), n as int)
                } else {
                    prefix(self.ask_prices(), n as int)
                },
                self.book().asks,
            ),
    {
        let prices = if self.show_best_price_levels {
            self.asks.tree.best_asc(n)
        } else {
            self.asks.tree.top_asc(n)
        };
        proof {
            let l = self.asks.tree.link();
            crate::avl::lemma_listing(l);
            crate::avl::lemma_best_asc(l);
            assert forall|i: int| 0 <= i < prices@.len() implies self.asks.levels().contains_key(
                #[trigger] prices@[i],
            ) by {
                if self.show_best_price_levels {
                    assert(prices@.len() <= best_asc(l).len());
                    assert(prices@[i] == best_asc(l)[i]);
                    assert(best_asc(l)[i] == asc(l)[i]);
                } else {
                    assert(prices@.len() <= asc(l).len());
                    assert(prices@[i] == asc(l)[i]);
                }
                assert(0 <= i < asc(l).len());
                assert(asc(l).to_set().contains(asc(l)[i]));
                assert(queues(self.asks.limits@).dom() =~= self.asks.limits@.dom());
            }
        }
        self.asks.volumes(BidOrAsk::Ask, prices, Ghost(self.orders@))
    }

    /// The trades recorded since `offset`, moving `offset` to the end of the
    /// log; nothing (and `offset` stays) when no trade came after it.
    pub fn get_executed_orders(&mut self, offset: &mut usize) -> (r: Option<Vec<ExecutedOrders>>)
        ensures
            *final(self) == *old(self),
            if *old(offset) < old(self).book().trades.len() {
                &&& r is Some
                &&& r.unwrap()@ == old(self).book().trades.subrange(*old(offset) as int, old(self).book().trades.len() as int)
                &&& *final(offset) == old(self).book().trades.len()
            } else {
                &&& r is None
                &&& *final(offset) == *old(offset)
            },
    {
        let n = self.executed_orders.len();
        if *offset < n {
            let mut out: Vec<ExecutedOrders> = Vec::new();
            let mut i = *offset;
            while i < n
                invariant
                    *old(offset) <= i <= n,
                    n == self.executed_orders@.len(),
                    out@ =~= self.executed_orders@.subrange(*old(offset) as int, i as int),
                decreases n - i,
            {
                out.push(self.executed_orders[i]);
                i = i + 1;
            }
            *offset = n;
            Some(out)
        } else {
            None
        }
    }

    /// Some resting order's id when at least ten thousand orders rest (which
    /// one depends on the hash map's iteration order); otherwise none.
    pub fn get_random_order_id(&self) -> (r: Option<u64>)
        ensures
            self.book().orders.len() >= 10_000 ==> (r matches Some(id) && self.book().orders.contains_key(id)),
            self.book().orders.len() < 10_000 ==> r is None,
    {
        if self.orders.len() >= 10_000 {
            proof {
                let rem = vstd::std_specs::hash::spec_keys_iter(&self.orders).remaining();
                assert(rem.unref().to_set() == self.orders@.dom());
                assert(rem.len() > 0) by {
                    if rem.len() == 0 {
                        assert(rem.unref() =~= Seq::<u64>::empty());
                        assert(rem.unref().to_set() =~= Set::<u64>::empty());
                    }
                }
            }
            for k in it: self.orders.keys()
                invariant
                    it.index() == 0,
                    self.orders@.len() >= 10_000,
            {
                proof {
                    assert(it.seq().unref().to_set().contains(*k));
                }
                return Some(*k);
            }
            None
        } else {
            None
        }
    }

    /// A resting order with its side, shares and price.
    pub fn get_order(&self, id: u64) -> (r: Option<Order>)
        requires
            self.inv(),
        ensures
            r is Some <==> self.book().orders.contains_key(id),
            r matches Some(o) ==> {
                let s = self.book().orders[id];
                let q = own(self.book(), s.bid_or_ask)[s.limit];
                &&& o.id_number == id
                &&& o.bid_or_ask == s.bid_or_ask
                &&& o.limit == s.limit
                &&& o.shares == q[position(q, id)].shares
            },
    {
        match self.orders.get(&id) {
            None => None,
            Some(slot) => {
                let slot = *slot;
                proof {
                    assert(self.located(id));
                }
                let shares = match slot.bid_or_ask {
                    BidOrAsk::Bid => self.bids.shares_of(BidOrAsk::Bid, slot.limit, id, Ghost(self.orders@)),
                    BidOrAsk::Ask => self.asks.shares_of(BidOrAsk::Ask, slot.limit, id, Ghost(self.orders@)),
                };
                Some(Order { id_number: id, bid_or_ask: slot.bid_or_ask, shares, limit: slot.limit })
            },
        }
    }

    /// Whether adding an order of `side` with `shares` at `price` keeps the
    /// volume of its price level within `u64`.
    pub fn add_fits(&self, side: BidOrAsk, shares: u64, price: i128) -> (r: bool)
        requires
            self.inv(),
        ensures
            r == (level_volume(self.book(), side, price) + shares <= u64::MAX),
    {
        let v = match side {
            BidOrAsk::Bid => self.bids.volume_at(BidOrAsk::Bid, price, Ghost(self.orders@)),
            BidOrAsk::Ask => self.asks.volume_at(BidOrAsk::Ask, price, Ghost(self.orders@)),
        };
        v <= u64::MAX - shares
    }

    /// Whether modifying order `id` to `new_shares` at `new_price` keeps the
    /// volume of its new price level within `u64` (always true for an
    /// unknown id).
    pub fn modify_fits(&self, id: u64, new_shares: u64, new_price: i128) -> (r: bool)
        requires
            self.inv(),
        ensures
            r == (self.book().orders.contains_key(id) ==> level_volume(
                cancel_order(self.book(), id),
                self.book().orders[id].bid_or_ask,
                new_price,
            ) + new_shares <= u64::MAX),
    {
        match self.orders.get(&id) {
            None => true,
            Some(slot) => {
                let slot = *slot;
                proof {
                    assert(self.located(id));
                }
                let side = slot.bid_or_ask;
                let v = match side {
                    BidOrAsk::Bid => self.bids.volume_at(BidOrAsk::Bid, new_price, Ghost(self.orders@)),
                    BidOrAsk::Ask => self.asks.volume_at(BidOrAsk::Ask, new_price, Ghost(self.orders@)),
                };
                let v2 = if new_price == slot.limit {
                    let own_shares = match side {
                        BidOrAsk::Bid => self.bids.shares_of(BidOrAsk::Bid, slot.limit, id, Ghost(self.orders@)),
                        BidOrAsk::Ask => self.asks.shares_of(BidOrAsk::Ask, slot.limit, id, Ghost(self.orders@)),
                    };
                    v - own_shares
                } else {
                    v
                };
                proof {
                    let b = self.book();
                    let m = own(b, side);
                    let q = m[slot.limit];
                    let c = cancel_order(b, id);
                    if new_price == slot.limit {
                        lemma_vol_remove(q, position(q, id));
                        let q2 = q.remove(position(q, id));
                        if q2.len() == 0 {
                            assert(vol(q2) == 0);
                        }
                    }
                }
                v2 <= u64::MAX - new_shares
            },
        }
    }
}

/// Every bid price lies below every ask price: the book is never crossed.
pub proof fn law_book_not_crossed(a: &Arena)
    requires
        a.inv(),
    ensures
        forall|bp: i128, ap: i128|
            a.book().bids.contains_key(bp) && a.book().asks.contains_key(ap) ==> bp < ap,
{
    assert(queues(a.asks.limits@).dom() =~= a.asks.limits@.dom());
    assert(queues(a.bids.limits@).dom() =~= a.bids.limits@.dom());
    assert forall|bp: i128, ap: i128|
        a.book().bids.contains_key(bp) && a.book().asks.contains_key(ap) implies bp < ap by {
        assert(a.bids.limits@.contains_key(bp));
        assert(a.asks.limits@.contains_key(ap));
    }
}

/// An order that rests without trading is taken back out exactly by a
/// cancel: adding it and cancelling it leaves the book as it was.
pub proof fn law_cancel_undoes_resting_add(a: &Arena, id: u64, side: BidOrAsk, shares: u64, price: i128)
    requires
        a.inv(),
        !a.book().orders.contains_key(id),
        shares > 0,
        !can_match(a.book(), side, shares, price),
    ensures
        cancel_order(add_order(a.book(), id, side, shares, price), id) == a.book(),
{
    let b = a.book();
    let r = rest(b, id, side, shares, price);
    assert(add_order(b, id, side, shares, price) == r);
    let m = own(b, side);
    let e = RestingOrder { id, shares };
    let q = if m.contains_key(price) {
        m[price].push(e)
    } else {
        seq![e]
    };
    assert(own(r, side)[price] == q);
    assert(r.orders[id] == (OrderSlot { bid_or_ask: side, limit: price }));
    let last = q.len() - 1;
    assert(q[last].id == id);
    assert(ids_unique(q)) by {
        if m.contains_key(price) {
            let lm = match side {
                BidOrAsk::Bid => a.bids.limits@,
                BidOrAsk::Ask => a.asks.limits@,
            };
            assert(lm.contains_key(price));
            assert(level_ok(lm[price], price, side, b.orders));
            assert forall|i: int| 0 <= i < m[price].len() implies (#[trigger] m[price][i]).id != id by {
                assert(b.orders.contains_key(lm[price].orders@[i].id));
            }
        }
    }
    lemma_position(q, last);
    let c = cancel_order(r, id);
    let q2 = q.remove(last);
    if m.contains_key(price) {
        assert(q2 =~= m[price]);
        assert(own(c, side) =~= m);
    } else {
        assert(q2.len() == 0);
        assert(own(c, side) =~= m);
    }
    assert(c.orders =~= b.orders);
    assert(own(c, other(side)) == own(b, other(side)));
    assert(c.bids =~= b.bids);
    assert(c.asks =~= b.asks);
}

/// The bid prices are listed highest first without repetition, and the ask
/// prices lowest first; the listings hold exactly the book's prices.
pub proof fn law_price_listings(a: &Arena)
    requires
        a.inv(),
    ensures
        a.bid_prices().to_set() == a.book().bids.dom(),
        a.ask_prices().to_set() == a.book().asks.dom(),
        forall|i: int, j: int| 0 <= i < j < a.bid_prices().len() ==> a.bid_prices()[i] > a.bid_prices()[j],
        forall|i: int, j: int| 0 <= i < j < a.ask_prices().len() ==> a.ask_prices()[i] < a.ask_prices()[j],
{
    crate::avl::lemma_listing(a.bids.tree.link());
    crate::avl::lemma_listing(a.asks.tree.link());
    assert(queues(a.asks.limits@).dom() =~= a.asks.limits@.dom());
    assert(queues(a.bids.limits@).dom() =~= a.bids.limits@.dom());
}

/// The walk from the best price lists the best level and at most one more,
/// in the same order as the full listing.
pub proof fn law_best_walks(a: &Arena)
    requires
        a.inv(),
    ensures
        a.bid_walk() == a.bid_prices().take(a.bid_walk().len() as int),
        a.ask_walk() == a.ask_prices().take(a.ask_walk().len() as int),
        a.bid_walk().len() <= 2,
        a.ask_walk().len() <= 2,
        a.bid_walk().len() == 0 <==> a.book().bids.dom().is_empty(),
        a.ask_walk().len() == 0 <==> a.book().asks.dom().is_empty(),
{
    crate::avl::lemma_best_desc(a.bids.tree.link());
    crate::avl::lemma_best_asc(a.asks.tree.link());
    assert(queues(a.asks.limits@).dom() =~= a.asks.limits@.dom());
    assert(queues(a.bids.limits@).dom() =~= a.bids.limits@.dom());
    if a.bids.tree.link() is Some {
        assert(a.bids.tree.key_set().contains(a.bids.tree.link().unwrap().key));
    }
    if a.asks.tree.link() is Some {
        assert(a.asks.tree.key_set().contains(a.asks.tree.link().unwrap().key));
    }
}

} // verus!
