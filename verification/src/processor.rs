//! Feeding uploaded orders through a fresh order book and summarising, per
//! order kind, how many orders there were, how long they took, how many
//! trades they executed and how many tree rebalancing steps they cost.
use vstd::prelude::*;
use std::time::Duration;
use crate::orderbook::{
    Arena, BidOrAsk, BookView, OrderSlot, RestingOrder, ExecutedOrders, Shapes, add_order, cancel_order,
    modify_order, level_volume, add_shapes, cancel_shapes, modify_shapes,
};
use crate::parser::FileUploadOrderType;
use crate::clock::{now, elapsed, zero_duration, add_durations};
use crate::app_state::AppError;
use crate::codec::{inflate, inflated, io_error_text};

verus! {

/// What one order kind added up to over an upload.
#[derive(Debug)]
pub struct FinalStats {
    pub total_time: Duration,
    pub avl_rebalances: i64,
    pub executed_orders_cnt: i64,
    pub nos: i64,
}

impl FinalStats {
    /// The totals of two sets of orders together.
    pub fn add(&self, other: &FinalStats) -> (r: FinalStats)
        requires
            i64::MIN <= self.avl_rebalances + other.avl_rebalances <= i64::MAX,
            i64::MIN <= self.executed_orders_cnt + other.executed_orders_cnt <= i64::MAX,
            i64::MIN <= self.nos + other.nos <= i64::MAX,
        ensures
            r.avl_rebalances == self.avl_rebalances + other.avl_rebalances,
            r.executed_orders_cnt == self.executed_orders_cnt + other.executed_orders_cnt,
            r.nos == self.nos + other.nos,
    {
        FinalStats {
            total_time: add_durations(self.total_time, other.total_time),
            avl_rebalances: self.avl_rebalances + other.avl_rebalances,
            executed_orders_cnt: self.executed_orders_cnt + other.executed_orders_cnt,
            nos: self.nos + other.nos,
        }
    }
}

/// One chunk of a small upload: already parsed orders.
#[derive(Debug)]
pub struct SmallUploadRequest {
    pub session_id: String,
    pub total_chunks: usize,
    pub total_orders: usize,
    pub chunk_number: usize,
    pub orders: Vec<FileUploadOrderType>,
}

/// The answer to a small upload chunk: the results once all chunks are in.
#[derive(Debug)]
pub struct SmallUploadResponse {
    pub orderbook_results: Option<Vec<(String, FinalStats)>>,
    pub processed: bool,
}

/// The answer to a large upload chunk: once all chunks are in, the results
/// and the parse time, line count and rejected line count.
#[derive(Debug)]
pub struct LargeUploadResponse {
    pub orderbook_results: Option<Vec<(String, FinalStats)>>,
    pub parse_results: Option<(Duration, i32, i32)>,
    pub processed: bool,
}

/// The three kinds of order an upload holds.
#[derive(Clone, Copy, Debug, PartialEq, Eq, Structural)]
pub enum OrderKind {
    Add,
    Modify,
    Cancel,
}

/// The kind of an order.
pub open spec fn kind_of(o: FileUploadOrderType) -> OrderKind {
    match o {
        FileUploadOrderType::Add { .. } => OrderKind::Add,
        FileUploadOrderType::Modify { .. } => OrderKind::Modify,
        FileUploadOrderType::Cancel { .. } => OrderKind::Cancel,
    }
}

/// The name a kind is reported under.
pub open spec fn kind_name(k: OrderKind) -> Seq<char> {
    match k {
        OrderKind::Add => seq!['A', 'D', 'D'],
        OrderKind::Modify => seq!['M', 'O', 'D', 'I', 'F', 'Y'],
        OrderKind::Cancel => seq!['C', 'A', 'N', 'C', 'E', 'L'],
    }
}

/// A book with nothing in it.
pub open spec fn empty_book() -> BookView {
    BookView {
        bids: Map::<i128, Seq<RestingOrder>>::empty(),
        asks: Map::<i128, Seq<RestingOrder>>::empty(),
        orders: Map::<u64, OrderSlot>::empty(),
        trades: Seq::<ExecutedOrders>::empty(),
    }
}

/// Whether an order keeps the total volume of the price level it rests on
/// within `u64`.
pub open spec fn fits(b: BookView, o: FileUploadOrderType) -> bool {
    match o {
        FileUploadOrderType::Add { id, side, shares, price } => level_volume(b, side, price) + shares
            <= u64::MAX,
        FileUploadOrderType::Modify { id, shares, price } => b.orders.contains_key(id) ==> level_volume(
            cancel_order(b, id),
            b.orders[id].bid_or_ask,
            price,
        ) + shares <= u64::MAX,
        FileUploadOrderType::Cancel { .. } => true,
    }
}

/// The book after one uploaded order; an order whose level volume would
/// overflow leaves the book as it is.
pub open spec fn apply(b: BookView, o: FileUploadOrderType) -> BookView {
    if !fits(b, o) {
        b
    } else {
        match o {
            FileUploadOrderType::Add { id, side, shares, price } => add_order(b, id, side, shares, price),
            FileUploadOrderType::Modify { id, shares, price } => modify_order(b, id, shares, price),
            FileUploadOrderType::Cancel { id } => cancel_order(b, id),
        }
    }
}

/// The book after a run of uploaded orders, starting empty.
pub open spec fn replay(orders: Seq<FileUploadOrderType>) -> BookView
    decreases orders.len(),
{
    if orders.len() == 0 {
        empty_book()
    } else {
        apply(replay(orders.drop_last()), orders.last())
    }
}

/// The trees of an empty book.
pub open spec fn empty_shapes() -> Shapes {
    Shapes { bids: None, asks: None }
}

/// The trees after one uploaded order and its rebalancing steps; an order
/// that leaves the book as it is (see `apply`) costs none.
#[verifier::opaque]
pub open spec fn apply_shapes(b: BookView, s: Shapes, o: FileUploadOrderType) -> (Shapes, nat) {
    if !fits(b, o) {
        (s, 0)
    } else {
        match o {
            FileUploadOrderType::Add { id, side, shares, price } => add_shapes(b, s, id, side, shares, price),
            FileUploadOrderType::Modify { id, shares, price } => modify_shapes(b, s, id, shares, price),
            FileUploadOrderType::Cancel { id } => cancel_shapes(b, s, id),
        }
    }
}

/// The trees after a run of uploaded orders, starting empty.
pub open spec fn replay_shapes(orders: Seq<FileUploadOrderType>) -> Shapes
    decreases orders.len(),
{
    if orders.len() == 0 {
        empty_shapes()
    } else {
        apply_shapes(replay(orders.drop_last()), replay_shapes(orders.drop_last()), orders.last()).0
    }
}

/// How many rebalancing steps the orders of kind `k` cost when replayed:
/// the sum of each such order's steps.
pub open spec fn kind_rebalances(orders: Seq<FileUploadOrderType>, k: OrderKind) -> nat
    decreases orders.len(),
{
    if orders.len() == 0 {
        0
    } else {
        kind_rebalances(orders.drop_last(), k) + if kind_of(orders.last()) == k {
            apply_shapes(replay(orders.drop_last()), replay_shapes(orders.drop_last()), orders.last()).1
        } else {
            0nat
        }
    }
}

/// How many of the orders are of kind `k`.
pub open spec fn kind_count(orders: Seq<FileUploadOrderType>, k: OrderKind) -> nat
    decreases orders.len(),
{
    if orders.len() == 0 {
        0
    } else {
        kind_count(orders.drop_last(), k) + if kind_of(orders.last()) == k {
            1nat
        } else {
            0nat
        }
    }
}

/// How many trades the orders of kind `k` executed when replayed.
pub open spec fn kind_trades(orders: Seq<FileUploadOrderType>, k: OrderKind) -> int
    decreases orders.len(),
{
    if orders.len() == 0 {
        0
    } else {
        kind_trades(orders.drop_last(), k) + if kind_of(orders.last()) == k {
            replay(orders).trades.len() - replay(orders.drop_last()).trades.len()
        } else {
            0
        }
    }
}

/// `x`, or `i64::MAX` where it is larger.
pub open spec fn capped(x: int) -> i64 {
    if x > i64::MAX {
        i64::MAX
    } else {
        x as i64
    }
}

/// The kinds that occur among the orders, in the order add, modify, cancel.
pub open spec fn present_kinds(orders: Seq<FileUploadOrderType>) -> Seq<OrderKind> {
    (if kind_count(orders, OrderKind::Add) > 0 {
        seq![OrderKind::Add]
    } else {
        Seq::empty()
    }) + (if kind_count(orders, OrderKind::Modify) > 0 {
        seq![OrderKind::Modify]
    } else {
        Seq::empty()
    }) + (if kind_count(orders, OrderKind::Cancel) > 0 {
        seq![OrderKind::Cancel]
    } else {
        Seq::empty()
    })
}

/// What a kind's totals say of the orders: the count, the trades and the
/// rebalancing steps (both capped at `i64::MAX`).
pub open spec fn stats_match(s: FinalStats, orders: Seq<FileUploadOrderType>, k: OrderKind) -> bool {
    &&& s.nos == kind_count(orders, k)
    &&& s.executed_orders_cnt == capped(kind_trades(orders, k))
    &&& s.avl_rebalances == capped(kind_rebalances(orders, k) as int)
}

/// `acc + x` for non-negative `x`, `i64::MAX` where that would overflow.
fn add_capped(acc: i64, x: i64) -> (r: i64)
    requires
        x >= 0,
    ensures
        r == if acc + x > i64::MAX { i64::MAX as int } else { acc + x },
{
    if acc > i64::MAX - x {
        i64::MAX
    } else {
        acc + x
    }
}

/// `n` as an `i64`, `i64::MAX` where it does not fit.
fn cap_u64(n: u64) -> (r: i64)
    ensures
        r == capped(n as int),
{
    if n > 0x7fff_ffff_ffff_ffffu64 {
        i64::MAX
    } else {
        n as i64
    }
}

/// Adds one order's figures to its kind's totals.
fn record(s: &mut FinalStats, latency: Duration, rebalances: u64, trades: usize)
    requires
        old(s).nos < i64::MAX,
        old(s).executed_orders_cnt >= 0,
        old(s).avl_rebalances >= 0,
    ensures
        final(s).nos == old(s).nos + 1,
        final(s).avl_rebalances == if old(s).avl_rebalances + rebalances > i64::MAX {
            i64::MAX as int
        } else {
            old(s).avl_rebalances + rebalances
        },
        final(s).executed_orders_cnt == if old(s).executed_orders_cnt + trades > i64::MAX {
            i64::MAX as int
        } else {
            old(s).executed_orders_cnt + trades
        },
{
    s.total_time = add_durations(s.total_time, latency);
    s.avl_rebalances = add_capped(s.avl_rebalances, cap_u64(rebalances));
    let t = cap_u64(trades as u64);
    s.executed_orders_cnt = add_capped(s.executed_orders_cnt, t);
    s.nos = s.nos + 1;
}

proof fn lemma_take_step(orders: Seq<FileUploadOrderType>, i: int, k: OrderKind)
    requires
        0 <= i < orders.len(),
    ensures
        replay(orders.take(i + 1)) == apply(replay(orders.take(i)), orders[i]),
        kind_count(orders.take(i + 1), k) == kind_count(orders.take(i), k) + if kind_of(orders[i]) == k {
            1nat
        } else {
            0nat
        },
        kind_trades(orders.take(i + 1), k) == kind_trades(orders.take(i), k) + if kind_of(orders[i]) == k {
            replay(orders.take(i + 1)).trades.len() - replay(orders.take(i)).trades.len()
        } else {
            0
        },
        replay_shapes(orders.take(i + 1)) == apply_shapes(replay(orders.take(i)), replay_shapes(orders.take(i)), orders[i]).0,
        kind_rebalances(orders.take(i + 1), k) == kind_rebalances(orders.take(i), k) + if kind_of(orders[i]) == k {
            apply_shapes(replay(orders.take(i)), replay_shapes(orders.take(i)), orders[i]).1
        } else {
            0nat
        },
{
    assert(orders.take(i + 1).drop_last() =~= orders.take(i));
    assert(orders.take(i + 1).last() == orders[i]);
}

proof fn lemma_capped_step(acc: i64, s: int, t: int)
    requires
        s >= 0,
        t >= 0,
        acc == capped(s),
    ensures
        (if acc + t > i64::MAX { i64::MAX as int } else { acc + t }) == capped(s + t),
{
}

/// Runs one uploaded order through the book. Returns the trades it
/// executed and its rebalancing steps.
fn run_order(book: &mut Arena, o: FileUploadOrderType) -> (r: (usize, u64))
    requires
        old(book).inv(),
        old(book).level_count() + 1 < i32::MAX,
    ensures
        final(book).inv(),
        final(book).book() == apply(old(book).book(), o),
        final(book).shapes() == apply_shapes(old(book).book(), old(book).shapes(), o).0,
        r.0 == final(book).book().trades.len() - old(book).book().trades.len(),
        r.1 == apply_shapes(old(book).book(), old(book).shapes(), o).1,
        final(book).level_count() <= old(book).level_count() + 1,
{
    proof {
        reveal(apply_shapes);
    }
    match o {
        FileUploadOrderType::Add { id, side, shares, price } => {
            if book.add_fits(side, shares, price) && book.get_order(id).is_none() {
                book.add_limit_order(id, side, shares, price);
                (book.executed_orders_count(), book.avl_rebalances())
            } else {
                (0, 0)
            }
        },
        FileUploadOrderType::Modify { id, shares, price } => {
            if book.modify_fits(id, shares, price) {
                book.modify_limit_order(id, shares, price);
                (book.executed_orders_count(), book.avl_rebalances())
            } else {
                (0, 0)
            }
        },
        FileUploadOrderType::Cancel { id } => {
            book.cancel_limit_order(id);
            (book.executed_orders_count(), book.avl_rebalances())
        },
    }
}

/// Runs uploaded orders, in order, through a fresh book that snapshots its
/// best price levels, and reports per order kind that occurs (add, modify,
/// cancel, in that order) its name and totals: how many orders, their total
/// time, their trades and their rebalancing steps. An order that would push
/// a price level's total volume past `u64::MAX`, or adds an id that already
/// rests in the book, leaves the book unchanged and counts with no trades
/// and no rebalancing steps.
pub fn process_uploaded_orders(orders: Vec<FileUploadOrderType>) -> (r: Vec<(String, FinalStats)>)
    requires
        orders@.len() + 2 < i32::MAX,
    ensures
        r@.len() == present_kinds(orders@).len(),
        forall|j: int|
            0 <= j < r@.len() ==> (#[trigger] r@[j]).0@ == kind_name(present_kinds(orders@)[j])
                && stats_match(r@[j].1, orders@, present_kinds(orders@)[j]),
{
    let mut book = Arena::new(true);
    let mut adds = FinalStats {
        total_time: zero_duration(),
        avl_rebalances: 0,
        executed_orders_cnt: 0,
        nos: 0,
    };
    let mut modifies = FinalStats {
        total_time: zero_duration(),
        avl_rebalances: 0,
        executed_orders_cnt: 0,
        nos: 0,
    };
    let mut cancels = FinalStats {
        total_time: zero_duration(),
        avl_rebalances: 0,
        executed_orders_cnt: 0,
        nos: 0,
    };
    let n = orders.len();
    let mut i: usize = 0;
    proof {
        assert(orders@.take(0) =~= Seq::<FileUploadOrderType>::empty());
        assert(book.book() == empty_book());
    }
    while i < n
        invariant
            n == orders@.len(),
            n + 2 < i32::MAX,
            0 <= i <= n,
            book.inv(),
            book.book() == replay(orders@.take(i as int)),
            book.shapes() == replay_shapes(orders@.take(i as int)),
            book.level_count() <= i,
            stats_match(adds, orders@.take(i as int), OrderKind::Add),
            stats_match(modifies, orders@.take(i as int), OrderKind::Modify),
            stats_match(cancels, orders@.take(i as int), OrderKind::Cancel),
            kind_count(orders@.take(i as int), OrderKind::Add) <= i,
            kind_count(orders@.take(i as int), OrderKind::Modify) <= i,
            kind_count(orders@.take(i as int), OrderKind::Cancel) <= i,
            kind_trades(orders@.take(i as int), OrderKind::Add) >= 0,
            kind_trades(orders@.take(i as int), OrderKind::Modify) >= 0,
            kind_trades(orders@.take(i as int), OrderKind::Cancel) >= 0,
        decreases n - i,
    {
        let o = orders[i];
        let ghost before = book.book();
        proof {
            lemma_take_step(orders@, i as int, OrderKind::Add);
            lemma_take_step(orders@, i as int, OrderKind::Modify);
            lemma_take_step(orders@, i as int, OrderKind::Cancel);
        }
        let start = now();
        let (trades, rebalances) = run_order(&mut book, o);
        let latency = elapsed(&start);
        match o {
            FileUploadOrderType::Add { .. } => {
                proof {
                    lemma_capped_step(
                        adds.executed_orders_cnt,
                        kind_trades(orders@.take(i as int), OrderKind::Add),
                        trades as int,
                    );
                    lemma_capped_step(
                        adds.avl_rebalances,
                        kind_rebalances(orders@.take(i as int), OrderKind::Add) as int,
                        rebalances as int,
                    );
                }
                record(&mut adds, latency, rebalances, trades);
            },
            FileUploadOrderType::Modify { .. } => {
                proof {
                    lemma_capped_step(
                        modifies.executed_orders_cnt,
                        kind_trades(orders@.take(i as int), OrderKind::Modify),
                        trades as int,
                    );
                    lemma_capped_step(
                        modifies.avl_rebalances,
                        kind_rebalances(orders@.take(i as int), OrderKind::Modify) as int,
                        rebalances as int,
                    );
                }
                record(&mut modifies, latency, rebalances, trades);
            },
            FileUploadOrderType::Cancel { .. } => {
                proof {
                    lemma_capped_step(
                        cancels.executed_orders_cnt,
                        kind_trades(orders@.take(i as int), OrderKind::Cancel),
                        trades as int,
                    );
                    lemma_capped_step(
                        cancels.avl_rebalances,
                        kind_rebalances(orders@.take(i as int), OrderKind::Cancel) as int,
                        rebalances as int,
                    );
                }
                record(&mut cancels, latency, rebalances, trades);
            },
        }
        i = i + 1;
    }
    proof {
        assert(orders@.take(n as int) =~= orders@);
        reveal_strlit("ADD");
        reveal_strlit("MODIFY");
        reveal_strlit("CANCEL");
    }
    let ghost kinds = present_kinds(orders@);
    let mut r: Vec<(String, FinalStats)> = Vec::new();
    if adds.nos > 0 {
        r.push(("ADD".to_owned(), adds));
    }
    if modifies.nos > 0 {
        r.push(("MODIFY".to_owned(), modifies));
    }
    if cancels.nos > 0 {
        r.push(("CANCEL".to_owned(), cancels));
    }
    r
}

/// Every uploaded order counts under exactly one kind: the counts of the
/// three kinds add up to the number of orders.
pub proof fn law_every_order_counted(orders: Seq<FileUploadOrderType>)
    ensures
        kind_count(orders, OrderKind::Add) + kind_count(orders, OrderKind::Modify) + kind_count(
            orders,
            OrderKind::Cancel,
        ) == orders.len(),
    decreases orders.len(),
{
    if orders.len() > 0 {
        law_every_order_counted(orders.drop_last());
    }
}

/// The trades credited to the three kinds add up to every trade the
/// replayed upload executed.
pub proof fn law_every_trade_counted(orders: Seq<FileUploadOrderType>)
    ensures
        kind_trades(orders, OrderKind::Add) + kind_trades(orders, OrderKind::Modify) + kind_trades(
            orders,
            OrderKind::Cancel,
        ) == replay(orders).trades.len(),
    decreases orders.len(),
{
    if orders.len() > 0 {
        law_every_trade_counted(orders.drop_last());
    }
}

/// The rebalancing steps of a replayed upload, order by order.
pub open spec fn replay_rebalances(orders: Seq<FileUploadOrderType>) -> nat
    decreases orders.len(),
{
    if orders.len() == 0 {
        0
    } else {
        replay_rebalances(orders.drop_last()) + apply_shapes(
            replay(orders.drop_last()),
            replay_shapes(orders.drop_last()),
            orders.last(),
        ).1
    }
}

/// The rebalancing steps credited to the three kinds add up to every step
/// the replayed upload took.
pub proof fn law_every_rebalance_counted(orders: Seq<FileUploadOrderType>)
    ensures
        kind_rebalances(orders, OrderKind::Add) + kind_rebalances(orders, OrderKind::Modify) + kind_rebalances(
            orders,
            OrderKind::Cancel,
        ) == replay_rebalances(orders),
    decreases orders.len(),
{
    if orders.len() > 0 {
        law_every_rebalance_counted(orders.drop_last());
    }
}

/// The body of an upload as the handlers read it: inflated when the
/// request says its content encoding is `deflate`, as it came otherwise.
/// Malformed deflate data is a bad request.
pub fn decompress_if_needed(data: &[u8], content_encoding: Option<&str>) -> (r: Result<Vec<u8>, AppError>)
    ensures
        match content_encoding {
            Some(enc) if enc@ == seq!['d', 'e', 'f', 'l', 'a', 't', 'e'] => match inflated(data@) {
                Some(v) => r matches Ok(w) && w@ == v,
                None => r matches Err(AppError::BadRequest(_)),
            },
            _ => r matches Ok(w) && w@ == data@,
        },
{
    proof {
        reveal_strlit("deflate");
    }
    let deflate = match content_encoding {
        Some(enc) => {
            let a = enc.to_owned();
            let b = "deflate".to_owned();
            assert(b@ == seq!['d', 'e', 'f', 'l', 'a', 't', 'e']);
            let e = a == b;
            assert(e == (enc@ == seq!['d', 'e', 'f', 'l', 'a', 't', 'e']));
            e
        },
        None => false,
    };
    if deflate {
        match inflate(data) {
            Ok(v) => Ok(v),
            Err(e) => Err(AppError::BadRequest(io_error_text(&e))),
        }
    } else {
        Ok(vstd::slice::slice_to_vec(data))
    }
}

} // verus!
