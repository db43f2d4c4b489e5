//! Aggregating order book levels for display: prices grouped into ticks,
//! cumulative volumes, and merging a fresh snapshot into the levels shown.
//! Prices are in hundredths.
use vstd::prelude::*;

verus! {

/// How many price levels a side of the book shows.
pub const ORDERBOOK_LEVELS: usize = 20;

/// Turns raw price levels into the rows the book display shows.
pub struct PriceLevelProcessor {}

/// The sum of the volumes of levels.
pub open spec fn total_volume(levels: Seq<(i128, u64)>) -> nat
    decreases levels.len(),
{
    if levels.len() == 0 {
        0
    } else {
        (total_volume(levels.drop_last()) + levels.last().1) as nat
    }
}

/// `price` rounded down to a multiple of `interval`.
pub open spec fn round_down(price: int, interval: int) -> int {
    interval * (price / interval)
}

/// The first position of a level at `price`.
pub open spec fn find_price(g: Seq<(i128, u64)>, price: i128) -> Option<int>
    decreases g.len(),
{
    if g.len() == 0 {
        None
    } else {
        match find_price(g.drop_last(), price) {
            Some(i) => Some(i),
            None => if g.last().0 == price {
                Some(g.len() - 1)
            } else {
                None
            },
        }
    }
}

/// Levels with prices rounded down to multiples of `interval`, levels that
/// land on the same price merged with their volumes added, in order of
/// first appearance.
pub open spec fn grouped(levels: Seq<(i128, u64)>, interval: int) -> Seq<(i128, u64)>
    decreases levels.len(),
{
    if levels.len() == 0 {
        Seq::empty()
    } else {
        let g = grouped(levels.drop_last(), interval);
        let key = round_down(levels.last().0 as int, interval) as i128;
        match find_price(g, key) {
            Some(i) => g.update(i, (key, (g[i].1 + levels.last().1) as u64)),
            None => g.push((key, levels.last().1)),
        }
    }
}

/// Each level with the total volume of it and the levels before it.
pub open spec fn running_totals(levels: Seq<(i128, u64)>) -> Seq<(i128, u64, u64)> {
    Seq::new(levels.len(), |i: int| (levels[i].0, levels[i].1, total_volume(levels.take(i + 1)) as u64))
}

/// The largest third component, or 0 when there is none.
pub open spec fn max_total(rows: Seq<(i128, u64, u64)>) -> u64
    decreases rows.len(),
{
    if rows.len() == 0 {
        0
    } else {
        let m = max_total(rows.drop_last());
        if rows.last().2 > m {
            rows.last().2
        } else {
            m
        }
    }
}

/// The volume the last level at `price` gives, if any.
pub open spec fn last_volume(levels: Seq<(i128, u64)>, price: i128) -> Option<u64>
    decreases levels.len(),
{
    if levels.len() == 0 {
        None
    } else if levels.last().0 == price {
        Some(levels.last().1)
    } else {
        last_volume(levels.drop_last(), price)
    }
}

/// The shown levels whose price still occurs in the update, with the
/// update's volume.
pub open spec fn kept(current: Seq<(i128, u64)>, update: Seq<(i128, u64)>) -> Seq<(i128, u64)>
    decreases current.len(),
{
    if current.len() == 0 {
        Seq::empty()
    } else {
        let k = kept(current.drop_last(), update);
        match last_volume(update, current.last().0) {
            Some(v) => k.push((current.last().0, v)),
            None => k,
        }
    }
}

/// The distinct prices of levels, in order of first appearance.
pub open spec fn distinct_prices(levels: Seq<(i128, u64)>) -> Seq<i128>
    decreases levels.len(),
{
    if levels.len() == 0 {
        Seq::empty()
    } else {
        let d = distinct_prices(levels.drop_last());
        if d.contains(levels.last().0) {
            d
        } else {
            d.push(levels.last().0)
        }
    }
}

/// `shown` with a level for each of `prices` that it lacks, each with the
/// update's volume, while fewer than `ORDERBOOK_LEVELS` levels are shown.
pub open spec fn filled(shown: Seq<(i128, u64)>, prices: Seq<i128>, update: Seq<(i128, u64)>) -> Seq<(i128, u64)>
    decreases prices.len(),
{
    if prices.len() == 0 {
        shown
    } else {
        let s = filled(shown, prices.drop_last(), update);
        let p = prices.last();
        if find_price(s, p) is None && s.len() < ORDERBOOK_LEVELS {
            s.push((p, last_volume(update, p).unwrap()))
        } else {
            s
        }
    }
}

/// Whether level `x` is shown before level `y`: lower prices first for
/// asks, higher first for bids.
pub open spec fn goes_before(x: (i128, u64), y: (i128, u64), ask: bool) -> bool {
    if ask {
        x.0 < y.0
    } else {
        x.0 > y.0
    }
}

/// `x` placed into `s` after every level it does not go before.
pub open spec fn insert_level(s: Seq<(i128, u64)>, x: (i128, u64), ask: bool) -> Seq<(i128, u64)>
    decreases s.len(),
{
    if s.len() == 0 || !goes_before(x, s.last(), ask) {
        s.push(x)
    } else {
        insert_level(s.drop_last(), x, ask).push(s.last())
    }
}

/// Levels sorted by price (ascending for asks, descending for bids), levels
/// at equal prices in the order they came.
pub open spec fn sorted_levels(s: Seq<(i128, u64)>, ask: bool) -> Seq<(i128, u64)>
    decreases s.len(),
{
    if s.len() == 0 {
        Seq::empty()
    } else {
        insert_level(sorted_levels(s.drop_last(), ask), s.last(), ask)
    }
}

/// The levels shown after an update: the shown levels still present, then
/// new prices while there is room, sorted, cut to at most
/// `ORDERBOOK_LEVELS`.
pub open spec fn merged_levels(current: Seq<(i128, u64)>, update: Seq<(i128, u64)>, ask: bool) -> Seq<(i128, u64)> {
    let s = sorted_levels(filled(kept(current, update), distinct_prices(update), update), ask);
    s.take(
        if s.len() < ORDERBOOK_LEVELS {
            s.len() as int
        } else {
            ORDERBOOK_LEVELS as int
        },
    )
}

/// Levels in display order: prices ascending for asks, descending for bids.
pub open spec fn in_display_order(s: Seq<(i128, u64)>, ask: bool) -> bool {
    forall|i: int, j: int|
        0 <= i < j < s.len() ==> if ask {
            (#[trigger] s[i]).0 <= (#[trigger] s[j]).0
        } else {
            s[i].0 >= s[j].0
        }
}

proof fn lemma_insert_contents(s: Seq<(i128, u64)>, x: (i128, u64), ask: bool)
    ensures
        forall|y: (i128, u64)| #[trigger] insert_level(s, x, ask).contains(y) <==> (s.contains(y) || y == x),
    decreases s.len(),
{
    let r = insert_level(s, x, ask);
    if s.len() == 0 || !goes_before(x, s.last(), ask) {
        assert forall|y: (i128, u64)| #[trigger] r.contains(y) <==> (s.contains(y) || y == x) by {
            if r.contains(y) {
                let k = choose|k: int| 0 <= k < r.len() && r[k] == y;
                if k < s.len() {
                    assert(s[k] == y);
                }
            }
            if s.contains(y) {
                let k = choose|k: int| 0 <= k < s.len() && s[k] == y;
                assert(r[k] == y);
            }
            if y == x {
                assert(r[s.len() as int] == y);
            }
        }
    } else {
        let t = s.drop_last();
        lemma_insert_contents(t, x, ask);
        let u = insert_level(t, x, ask);
        assert forall|y: (i128, u64)| #[trigger] r.contains(y) <==> (s.contains(y) || y == x) by {
            if r.contains(y) {
                let k = choose|k: int| 0 <= k < r.len() && r[k] == y;
                if k < u.len() {
                    assert(u[k] == y);
                    assert(u.contains(y));
                    if t.contains(y) {
                        let m = choose|m: int| 0 <= m < t.len() && t[m] == y;
                        assert(s[m] == y);
                    }
                } else {
                    assert(s[s.len() - 1] == y);
                }
            }
            if s.contains(y) {
                let k = choose|k: int| 0 <= k < s.len() && s[k] == y;
                if k < t.len() {
                    assert(t[k] == y);
                    assert(u.contains(y));
                    let m = choose|m: int| 0 <= m < u.len() && u[m] == y;
                    assert(r[m] == y);
                } else {
                    assert(r[r.len() - 1] == y);
                }
            }
            if y == x {
                assert(u.contains(y));
                let m = choose|m: int| 0 <= m < u.len() && u[m] == y;
                assert(r[m] == y);
            }
        }
    }
}

proof fn lemma_insert_ordered(s: Seq<(i128, u64)>, x: (i128, u64), ask: bool)
    requires
        in_display_order(s, ask),
    ensures
        in_display_order(insert_level(s, x, ask), ask),
    decreases s.len(),
{
    let r = insert_level(s, x, ask);
    if s.len() == 0 || !goes_before(x, s.last(), ask) {
        assert forall|i: int, j: int| 0 <= i < j < r.len() implies if ask {
            (#[trigger] r[i]).0 <= (#[trigger] r[j]).0
        } else {
            r[i].0 >= r[j].0
        } by {
            if j == s.len() {
                if i < s.len() - 1 {
                    assert(s[i] == r[i]);
                    assert(s[s.len() - 1] == s.last());
                }
            } else {
                assert(s[i] == r[i] && s[j] == r[j]);
            }
        }
    } else {
        let t = s.drop_last();
        assert(in_display_order(t, ask)) by {
            assert forall|i: int, j: int| 0 <= i < j < t.len() implies if ask {
                (#[trigger] t[i]).0 <= (#[trigger] t[j]).0
            } else {
                t[i].0 >= t[j].0
            } by {
                assert(t[i] == s[i] && t[j] == s[j]);
            }
        }
        lemma_insert_ordered(t, x, ask);
        lemma_insert_contents(t, x, ask);
        let u = insert_level(t, x, ask);
        let l = s.last();
        assert forall|i: int, j: int| 0 <= i < j < r.len() implies if ask {
            (#[trigger] r[i]).0 <= (#[trigger] r[j]).0
        } else {
            r[i].0 >= r[j].0
        } by {
            if j == r.len() - 1 {
                assert(r[j] == l);
                assert(u[i] == r[i]);
                assert(u.contains(r[i]));
                if r[i] != x {
                    assert(t.contains(r[i]));
                    let m = choose|m: int| 0 <= m < t.len() && t[m] == r[i];
                    assert(s[m] == r[i]);
                    assert(s[s.len() - 1] == l);
                }
            } else {
                assert(u[i] == r[i] && u[j] == r[j]);
            }
        }
    }
}

proof fn lemma_sorted_props(s: Seq<(i128, u64)>, ask: bool)
    ensures
        sorted_levels(s, ask).len() == s.len(),
        in_display_order(sorted_levels(s, ask), ask),
        forall|y: (i128, u64)| #[trigger] sorted_levels(s, ask).contains(y) <==> s.contains(y),
    decreases s.len(),
{
    lemma_sorted_len(s, ask);
    if s.len() > 0 {
        let t = s.drop_last();
        lemma_sorted_props(t, ask);
        lemma_insert_ordered(sorted_levels(t, ask), s.last(), ask);
        lemma_insert_contents(sorted_levels(t, ask), s.last(), ask);
        assert forall|y: (i128, u64)| #[trigger] sorted_levels(s, ask).contains(y) <==> s.contains(y) by {
            if s.contains(y) {
                let k = choose|k: int| 0 <= k < s.len() && s[k] == y;
                if k < t.len() {
                    assert(t[k] == y);
                }
            }
            if t.contains(y) {
                let k = choose|k: int| 0 <= k < t.len() && t[k] == y;
                assert(s[k] == y);
            }
        }
    } else {
        assert(sorted_levels(s, ask) =~= Seq::<(i128, u64)>::empty());
    }
}

/// The levels an update leaves in the display are the best ones: of the
/// levels that survive the merge (the shown ones the update still has, with
/// its volumes, and the new prices taken while there was room), the display
/// keeps as many as fit, in display order (asks lowest first, bids highest
/// first), and every surviving level priced better than a shown one is
/// itself shown; only the worst levels are dropped.
pub proof fn law_merge_keeps_best_levels(current: Seq<(i128, u64)>, update: Seq<(i128, u64)>, ask: bool)
    ensures
        ({
            let m = filled(kept(current, update), distinct_prices(update), update);
            let r = merged_levels(current, update, ask);
            &&& r.len() == if m.len() < ORDERBOOK_LEVELS { m.len() as int } else { ORDERBOOK_LEVELS as int }
            &&& forall|i: int| 0 <= i < r.len() ==> m.contains(#[trigger] r[i])
            &&& forall|i: int, j: int|
                0 <= i < j < r.len() ==> if ask {
                    (#[trigger] r[i]).0 <= (#[trigger] r[j]).0
                } else {
                    r[i].0 >= r[j].0
                }
            &&& forall|k: int, i: int|
                0 <= k < m.len() && 0 <= i < r.len() && (if ask {
                    (#[trigger] m[k]).0 < (#[trigger] r[i]).0
                } else {
                    m[k].0 > r[i].0
                }) ==> r.contains(m[k])
        }),
{
    let m = filled(kept(current, update), distinct_prices(update), update);
    let s = sorted_levels(m, ask);
    let r = merged_levels(current, update, ask);
    lemma_sorted_props(m, ask);
    let n: int = if s.len() < ORDERBOOK_LEVELS { s.len() as int } else { ORDERBOOK_LEVELS as int };
    assert(r == s.take(n));
    assert forall|i: int| 0 <= i < r.len() implies m.contains(#[trigger] r[i]) by {
        assert(r[i] == s[i]);
        assert(s.contains(s[i]));
    }
    assert forall|i: int, j: int| 0 <= i < j < r.len() implies if ask {
        (#[trigger] r[i]).0 <= (#[trigger] r[j]).0
    } else {
        r[i].0 >= r[j].0
    } by {
        assert(r[i] == s[i] && r[j] == s[j]);
    }
    assert forall|k: int, i: int|
        0 <= k < m.len() && 0 <= i < r.len() && (if ask {
            (#[trigger] m[k]).0 < (#[trigger] r[i]).0
        } else {
            m[k].0 > r[i].0
        }) implies r.contains(m[k]) by {
        assert(m.contains(m[k]));
        assert(s.contains(m[k]));
        let p = choose|p: int| 0 <= p < s.len() && s[p] == m[k];
        assert(r[i] == s[i]);
        if p >= i {
            if p > i {
                assert(s[i].0 <= s[p].0 || s[i].0 >= s[p].0);
            }
            assert(false);
        }
        assert(r[p] == s[p]);
    }
}

/// `x` is the last entry `update` gives for the price of `x`.
pub open spec fn latest_entry(update: Seq<(i128, u64)>, x: (i128, u64)) -> bool {
    exists|k: int|
        0 <= k < update.len() && update[k] == x && forall|j: int| k < j < update.len() ==> (#[trigger] update[j]).0 != x.0
}

proof fn lemma_last_volume_latest(u: Seq<(i128, u64)>, p: i128)
    ensures
        last_volume(u, p) matches Some(v) ==> latest_entry(u, (p, v)),
    decreases u.len(),
{
    if u.len() > 0 {
        if u.last().0 == p {
            let k = u.len() - 1;
            assert(u[k] == (p, u.last().1));
            assert(forall|j: int| k < j < u.len() ==> (#[trigger] u[j]).0 != p);
        } else {
            let t = u.drop_last();
            lemma_last_volume_latest(t, p);
            if let Some(v) = last_volume(u, p) {
                let k = choose|k: int|
                    0 <= k < t.len() && t[k] == (p, v) && forall|j: int| k < j < t.len() ==> (#[trigger] t[j]).0 != p;
                assert(u[k] == (p, v));
                assert forall|j: int| k < j < u.len() implies (#[trigger] u[j]).0 != p by {
                    if j < t.len() {
                        assert(u[j] == t[j]);
                    }
                }
            }
        }
    }
}

proof fn lemma_kept_latest(c: Seq<(i128, u64)>, u: Seq<(i128, u64)>)
    ensures
        forall|y: (i128, u64)| #[trigger] kept(c, u).contains(y) ==> latest_entry(u, y),
    decreases c.len(),
{
    if c.len() > 0 {
        lemma_kept_latest(c.drop_last(), u);
        lemma_last_volume_latest(u, c.last().0);
        let k0 = kept(c.drop_last(), u);
        assert forall|y: (i128, u64)| #[trigger] kept(c, u).contains(y) implies latest_entry(u, y) by {
            let r = kept(c, u);
            let i = choose|i: int| 0 <= i < r.len() && r[i] == y;
            if i < k0.len() {
                assert(k0[i] == y);
                assert(k0.contains(y));
            }
        }
    }
}

proof fn lemma_distinct_from_update(u: Seq<(i128, u64)>)
    ensures
        forall|p: i128| #[trigger] distinct_prices(u).contains(p) ==> last_volume(u, p) is Some,
    decreases u.len(),
{
    if u.len() > 0 {
        let t = u.drop_last();
        lemma_distinct_from_update(t);
        assert forall|p: i128| #[trigger] distinct_prices(u).contains(p) implies last_volume(u, p) is Some by {
            if u.last().0 != p {
                let d = distinct_prices(u);
                let i = choose|i: int| 0 <= i < d.len() && d[i] == p;
                let dt = distinct_prices(t);
                if i < dt.len() {
                    assert(dt[i] == p);
                    assert(dt.contains(p));
                }
            }
        }
    }
}

proof fn lemma_filled_latest(shown: Seq<(i128, u64)>, prices: Seq<i128>, u: Seq<(i128, u64)>)
    requires
        forall|y: (i128, u64)| #[trigger] shown.contains(y) ==> latest_entry(u, y),
        forall|k: int| 0 <= k < prices.len() ==> last_volume(u, #[trigger] prices[k]) is Some,
    ensures
        forall|y: (i128, u64)| #[trigger] filled(shown, prices, u).contains(y) ==> latest_entry(u, y),
    decreases prices.len(),
{
    if prices.len() > 0 {
        let pre = prices.drop_last();
        assert forall|k: int| 0 <= k < pre.len() implies last_volume(u, #[trigger] pre[k]) is Some by {
            assert(pre[k] == prices[k]);
        }
        lemma_filled_latest(shown, pre, u);
        let p = prices.last();
        assert(prices[prices.len() - 1] == p);
        lemma_last_volume_latest(u, p);
        let s0 = filled(shown, pre, u);
        assert forall|y: (i128, u64)| #[trigger] filled(shown, prices, u).contains(y) implies latest_entry(u, y) by {
            let r = filled(shown, prices, u);
            let i = choose|i: int| 0 <= i < r.len() && r[i] == y;
            if i < s0.len() {
                assert(s0[i] == y);
                assert(s0.contains(y));
            }
        }
    }
}

/// Every level the display shows after an update is the update's latest
/// entry for its price: a shown level takes the last volume the update
/// gives, never an older one or the display's former volume.
pub proof fn law_shown_levels_take_latest_volumes(current: Seq<(i128, u64)>, update: Seq<(i128, u64)>, ask: bool)
    ensures
        forall|i: int|
            0 <= i < merged_levels(current, update, ask).len() ==> latest_entry(
                update,
                #[trigger] merged_levels(current, update, ask)[i],
            ),
{
    law_merge_keeps_best_levels(current, update, ask);
    lemma_kept_latest(current, update);
    lemma_distinct_from_update(update);
    let d = distinct_prices(update);
    assert forall|k: int| 0 <= k < d.len() implies last_volume(update, #[trigger] d[k]) is Some by {
        assert(d.contains(d[k]));
    }
    lemma_filled_latest(kept(current, update), d, update);
    let m = filled(kept(current, update), d, update);
    let r = merged_levels(current, update, ask);
    assert forall|i: int| 0 <= i < r.len() implies latest_entry(update, #[trigger] r[i]) by {
        assert(m.contains(r[i]));
    }
}

/// Grouping price levels into ticks keeps the total volume: no share is
/// lost or counted twice.
pub proof fn law_grouping_keeps_volume(levels: Seq<(i128, u64)>, interval: int)
    requires
        total_volume(levels) <= u64::MAX,
    ensures
        total_volume(grouped(levels, interval)) == total_volume(levels),
    decreases levels.len(),
{
    if levels.len() > 0 {
        let pre = levels.drop_last();
        assert(total_volume(pre) <= total_volume(levels));
        law_grouping_keeps_volume(pre, interval);
        let g = grouped(pre, interval);
        let key = round_down(levels.last().0 as int, interval) as i128;
        lemma_find_price(g, key);
        match find_price(g, key) {
            Some(i) => {
                lemma_entry_below_total(g, i);
                lemma_update_total(g, i, (key, (g[i].1 + levels.last().1) as u64));
            },
            None => {
                assert(g.push((key, levels.last().1)).drop_last() =~= g);
            },
        }
    }
}

proof fn lemma_volume_step(levels: Seq<(i128, u64)>, i: int)
    requires
        0 <= i < levels.len(),
    ensures
        total_volume(levels.take(i + 1)) == total_volume(levels.take(i)) + levels[i].1,
{
    assert(levels.take(i + 1).drop_last() =~= levels.take(i));
}

proof fn lemma_volume_prefix(levels: Seq<(i128, u64)>, i: int)
    requires
        0 <= i <= levels.len(),
    ensures
        total_volume(levels.take(i)) <= total_volume(levels),
    decreases levels.len() - i,
{
    if i < levels.len() {
        lemma_volume_step(levels, i);
        lemma_volume_prefix(levels, i + 1);
    } else {
        assert(levels.take(i) =~= levels);
    }
}

proof fn lemma_find_price(g: Seq<(i128, u64)>, price: i128)
    ensures
        match find_price(g, price) {
            Some(i) => 0 <= i < g.len() && g[i].0 == price,
            None => forall|j: int| 0 <= j < g.len() ==> (#[trigger] g[j]).0 != price,
        },
    decreases g.len(),
{
    if g.len() > 0 {
        lemma_find_price(g.drop_last(), price);
        assert forall|j: int| 0 <= j < g.len() - 1 implies g[j] == g.drop_last()[j] by {}
    }
}

proof fn lemma_entry_below_total(g: Seq<(i128, u64)>, i: int)
    requires
        0 <= i < g.len(),
    ensures
        g[i].1 <= total_volume(g),
    decreases g.len(),
{
    if i < g.len() - 1 {
        lemma_entry_below_total(g.drop_last(), i);
    }
}

proof fn lemma_update_total(g: Seq<(i128, u64)>, i: int, x: (i128, u64))
    requires
        0 <= i < g.len(),
    ensures
        total_volume(g.update(i, x)) == total_volume(g) - g[i].1 + x.1,
    decreases g.len(),
{
    if i < g.len() - 1 {
        assert(g.update(i, x).drop_last() =~= g.drop_last().update(i, x));
        lemma_update_total(g.drop_last(), i, x);
    } else {
        assert(g.update(i, x).drop_last() =~= g.drop_last());
    }
}

proof fn lemma_insert_at(s: Seq<(i128, u64)>, x: (i128, u64), ask: bool, j: int)
    requires
        0 <= j <= s.len(),
        forall|k: int| j <= k < s.len() ==> goes_before(x, #[trigger] s[k], ask),
        j == 0 || !goes_before(x, s[j - 1], ask),
    ensures
        insert_level(s, x, ask) == s.insert(j, x),
    decreases s.len(),
{
    if s.len() == 0 {
        assert(s.insert(j, x) =~= s.push(x));
    } else if j == s.len() {
        assert(s.insert(j, x) =~= s.push(x));
    } else {
        assert(goes_before(x, s.last(), ask));
        lemma_insert_at(s.drop_last(), x, ask, j);
        assert(s.insert(j, x) =~= s.drop_last().insert(j, x).push(s.last()));
    }
}

proof fn lemma_sorted_len(s: Seq<(i128, u64)>, ask: bool)
    ensures
        sorted_levels(s, ask).len() == s.len(),
    decreases s.len(),
{
    if s.len() > 0 {
        lemma_sorted_len(s.drop_last(), ask);
        lemma_insert_len(sorted_levels(s.drop_last(), ask), s.last(), ask);
    }
}

proof fn lemma_insert_len(s: Seq<(i128, u64)>, x: (i128, u64), ask: bool)
    ensures
        insert_level(s, x, ask).len() == s.len() + 1,
    decreases s.len(),
{
    if s.len() > 0 && goes_before(x, s.last(), ask) {
        lemma_insert_len(s.drop_last(), x, ask);
    }
}

/// `price` rounded down to a multiple of `interval`.
fn round_to_tick(price: i128, interval: i128) -> (key: i128)
    requires
        0 < interval,
        i128::MIN + interval <= price,
    ensures
        key == round_down(price as int, interval as int),
{
    if price >= 0 {
        let q = (price as u128) / (interval as u128);
        proof {
            vstd::arithmetic::div_mod::lemma_fundamental_div_mod(price as int, interval as int);
            assert(q * interval <= price) by (nonlinear_arith)
                requires
                    q == price / interval,
                    price == interval * (price / interval) + price % interval,
                    price % interval >= 0,
                    interval > 0,
            ;
        }
        proof {
            assert(q * interval == interval * q) by (nonlinear_arith);
        }
        (q as i128) * interval
    } else {
        let a = (-(price + 1)) as u128;
        let q = a / (interval as u128);
        let ghost r = (a as int) % (interval as int);
        proof {
            vstd::arithmetic::div_mod::lemma_fundamental_div_mod(a as int, interval as int);
            assert(price == (-(q + 1)) * interval + (interval - r - 1)) by (nonlinear_arith)
                requires
                    a == -price - 1,
                    a == interval * q + r,
            ;
            vstd::arithmetic::div_mod::lemma_fundamental_div_mod_converse(
                price as int,
                interval as int,
                -(q + 1),
                interval - r - 1,
            );
            assert(-(q + 1) * interval >= price - interval) by (nonlinear_arith)
                requires
                    price == (-(q + 1)) * interval + (interval - r - 1),
                    0 <= r,
            ;
        }
        proof {
            assert((-(q + 1)) * interval == interval * (-(q + 1))) by (nonlinear_arith);
        }
        (-((q as i128) + 1)) * interval
    }
}

/// Whether level `x` is shown before level `y`.
fn shown_before(x: (i128, u64), y: (i128, u64), ask: bool) -> (r: bool)
    ensures
        r == goes_before(x, y, ask),
{
    if ask {
        x.0 < y.0
    } else {
        x.0 > y.0
    }
}

/// The position of the first level of `g` at `price`.
fn position_of(g: &Vec<(i128, u64)>, price: i128) -> (r: Option<usize>)
    ensures
        match r {
            Some(i) => find_price(g@, price) == Some(i as int),
            None => find_price(g@, price) is None,
        },
{
    let mut i: usize = 0;
    while i < g.len()
        invariant
            0 <= i <= g@.len(),
            find_price(g@.take(i as int), price) is None,
        decreases g@.len() - i,
    {
        proof {
            assert(g@.take(i + 1).drop_last() =~= g@.take(i as int));
        }
        if g[i].0 == price {
            proof {
                lemma_find_prefix(g@, i as int + 1, price);
            }
            return Some(i);
        }
        i = i + 1;
    }
    proof {
        assert(g@.take(i as int) =~= g@);
    }
    None
}

proof fn lemma_find_prefix(g: Seq<(i128, u64)>, n: int, price: i128)
    requires
        0 <= n <= g.len(),
        find_price(g.take(n), price) is Some,
    ensures
        find_price(g, price) == find_price(g.take(n), price),
    decreases g.len() - n,
{
    if n < g.len() {
        assert(g.take(n + 1).drop_last() =~= g.take(n));
        lemma_find_prefix(g, n + 1, price);
    } else {
        assert(g.take(n) =~= g);
    }
}

/// The volume the last level of `levels` at `price` gives, if any.
fn last_volume_of(levels: &Vec<(i128, u64)>, price: i128) -> (r: Option<u64>)
    ensures
        r == last_volume(levels@, price),
{
    let mut i: usize = levels.len();
    proof {
        assert(levels@.take(i as int) =~= levels@);
    }
    while i > 0
        invariant
            0 <= i <= levels@.len(),
            last_volume(levels@, price) == last_volume(levels@.take(i as int), price),
        decreases i,
    {
        proof {
            assert(levels@.take(i as int).drop_last() =~= levels@.take(i - 1));
        }
        if levels[i - 1].0 == price {
            return Some(levels[i - 1].1);
        }
        i = i - 1;
    }
    None
}

impl PriceLevelProcessor {
    /// A processor; it keeps no state.
    pub fn new() -> (p: Self) {
        PriceLevelProcessor {}
    }

    /// The largest cumulative volume among rows, 0 when there are none.
    pub fn get_max_volume(&self, orders: &Vec<(i128, u64, u64)>) -> (r: u64)
        ensures
            r == max_total(orders@),
    {
        let mut m: u64 = 0;
        let mut i: usize = 0;
        while i < orders.len()
            invariant
                0 <= i <= orders@.len(),
                m == max_total(orders@.take(i as int)),
            decreases orders@.len() - i,
        {
            proof {
                assert(orders@.take(i + 1).drop_last() =~= orders@.take(i as int));
            }
            if orders[i].2 > m {
                m = orders[i].2;
            }
            i = i + 1;
        }
        proof {
            assert(orders@.take(i as int) =~= orders@);
        }
        m
    }

    /// Each level with the total volume of it and all levels before it.
    pub fn add_total_volume(&self, orders: &Vec<(i128, u64)>) -> (r: Vec<(i128, u64, u64)>)
        requires
            total_volume(orders@) <= u64::MAX,
        ensures
            r@ == running_totals(orders@),
    {
        let mut r: Vec<(i128, u64, u64)> = Vec::new();
        let mut state: u64 = 0;
        let mut i: usize = 0;
        while i < orders.len()
            invariant
                0 <= i <= orders@.len(),
                total_volume(orders@) <= u64::MAX,
                state == total_volume(orders@.take(i as int)),
                r@.len() == i,
                forall|j: int| 0 <= j < i ==> r@[j] == running_totals(orders@)[j],
            decreases orders@.len() - i,
        {
            proof {
                lemma_volume_step(orders@, i as int);
                lemma_volume_prefix(orders@, i + 1);
            }
            state = state + orders[i].1;
            r.push((orders[i].0, orders[i].1, state));
            i = i + 1;
        }
        proof {
            assert(r@ =~= running_totals(orders@));
        }
        r
    }

    /// Levels with prices rounded down to multiples of `interval`; levels
    /// that land on the same price are merged, their volumes added, in
    /// order of first appearance.
    pub fn group_by_ticket_size(&self, levels: &Vec<(i128, u64)>, interval: i128) -> (r: Vec<(i128, u64)>)
        requires
            0 < interval,
            forall|i: int| 0 <= i < levels@.len() ==> i128::MIN + interval <= (#[trigger] levels@[i]).0,
            total_volume(levels@) <= u64::MAX,
        ensures
            r@ == grouped(levels@, interval as int),
    {
        let mut result: Vec<(i128, u64)> = Vec::new();
        let mut i: usize = 0;
        while i < levels.len()
            invariant
                0 <= i <= levels@.len(),
                0 < interval,
                forall|k: int| 0 <= k < levels@.len() ==> i128::MIN + interval <= (#[trigger] levels@[k]).0,
                total_volume(levels@) <= u64::MAX,
                result@ == grouped(levels@.take(i as int), interval as int),
                total_volume(result@) == total_volume(levels@.take(i as int)),
            decreases levels@.len() - i,
        {
            let ghost pre = levels@.take(i as int);
            proof {
                assert(levels@.take(i + 1).drop_last() =~= pre);
                lemma_volume_step(levels@, i as int);
                lemma_volume_prefix(levels@, i + 1);
            }
            let (price, volume) = levels[i];
            assert(levels@[i as int].0 >= i128::MIN + interval);
            let key = round_to_tick(price, interval);
            match position_of(&result, key) {
                Some(idx) => {
                    proof {
                        lemma_find_price(result@, key);
                        lemma_entry_below_total(result@, idx as int);
                        lemma_update_total(result@, idx as int, (key, (result@[idx as int].1 + volume) as u64));
                    }
                    let v = result[idx].1 + volume;
                    result.set(idx, (key, v));
                },
                None => {
                    result.push((key, volume));
                    proof {
                        assert(result@.drop_last() =~= grouped(pre, interval as int));
                    }
                },
            }
            i = i + 1;
        }
        proof {
            assert(levels@.take(i as int) =~= levels@);
        }
        result
    }

    /// Merges an update into the shown levels: shown levels whose price the
    /// update still has take its volume (the last one given for the
    /// price), prices new to the display are added while fewer than
    /// `ORDERBOOK_LEVELS` are shown, and the result is sorted (ascending
    /// for asks, descending for bids) and cut to at most `ORDERBOOK_LEVELS`.
    pub fn apply_deltas(&self, current_levels: Vec<(i128, u64)>, orders: Vec<(i128, u64)>, is_ask: bool) -> (r: Vec<(i128, u64)>)
        ensures
            r@ == merged_levels(current_levels@, orders@, is_ask),
            r@.len() <= ORDERBOOK_LEVELS,
    {
        let mut updated: Vec<(i128, u64)> = Vec::new();
        let mut i: usize = 0;
        while i < current_levels.len()
            invariant
                0 <= i <= current_levels@.len(),
                updated@ == kept(current_levels@.take(i as int), orders@),
            decreases current_levels@.len() - i,
        {
            proof {
                assert(current_levels@.take(i + 1).drop_last() =~= current_levels@.take(i as int));
            }
            let (price, _) = current_levels[i];
            match last_volume_of(&orders, price) {
                Some(v) => updated.push((price, v)),
                None => {},
            }
            i = i + 1;
        }
        proof {
            assert(current_levels@.take(i as int) =~= current_levels@);
        }
        let ghost shown = updated@;
        let mut prices: Vec<i128> = Vec::new();
        let mut i: usize = 0;
        while i < orders.len()
            invariant
                0 <= i <= orders@.len(),
                prices@ == distinct_prices(orders@.take(i as int)),
                updated@ == filled(shown, prices@, orders@),
                forall|k: int| 0 <= k < prices@.len() ==> last_volume(orders@, #[trigger] prices@[k]) is Some,
            decreases orders@.len() - i,
        {
            proof {
                assert(orders@.take(i + 1).drop_last() =~= orders@.take(i as int));
            }
            let price = orders[i].0;
            let mut seen = false;
            let mut j: usize = 0;
            while j < prices.len()
                invariant
                    0 <= j <= prices@.len(),
                    seen <==> exists|k: int| 0 <= k < j && prices@[k] == price,
                decreases prices@.len() - j,
            {
                if prices[j] == price {
                    seen = true;
                }
                j = j + 1;
            }
            proof {
                if seen {
                    let k = choose|k: int| 0 <= k < j && prices@[k] == price;
                    assert(prices@[k] == price);
                }
            }
            if !seen {
                let ghost before = prices@;
                prices.push(price);
                proof {
                    assert(prices@.drop_last() =~= before);
                    lemma_last_volume_present(orders@, i as int);
                }
                if position_of(&updated, price).is_none() && updated.len() < ORDERBOOK_LEVELS {
                    let v = last_volume_of(&orders, price);
                    updated.push((price, v.unwrap()));
                }
            }
            i = i + 1;
        }
        proof {
            assert(orders@.take(i as int) =~= orders@);
        }
        let mut sorted: Vec<(i128, u64)> = Vec::new();
        let ghost all = updated@;
        let mut i: usize = 0;
        while i < updated.len()
            invariant
                0 <= i <= updated@.len(),
                updated@ == all,
                sorted@ == sorted_levels(all.take(i as int), is_ask),
            decreases updated@.len() - i,
        {
            proof {
                assert(all.take(i + 1).drop_last() =~= all.take(i as int));
            }
            let x = updated[i];
            let mut j: usize = sorted.len();
            while j > 0 && shown_before(x, sorted[j - 1], is_ask)
                invariant
                    0 <= j <= sorted@.len(),
                    forall|k: int| j <= k < sorted@.len() ==> goes_before(x, #[trigger] sorted@[k], is_ask),
                decreases j,
            {
                j = j - 1;
            }
            proof {
                lemma_insert_at(sorted@, x, is_ask, j as int);
            }
            sorted.insert(j, x);
            i = i + 1;
        }
        proof {
            assert(all.take(i as int) =~= all);
            lemma_sorted_len(all, is_ask);
        }
        sorted.truncate(ORDERBOOK_LEVELS);
        sorted
    }
}

/// The rows one side of the book display shows after a message: prices
/// grouped into ticks of `interval`, with cumulative volumes. A snapshot
/// shows its own levels; an update is merged into the levels shown before
/// (`previous_raw`, the raw levels of the previous message).
pub open spec fn side_rows(
    snapshot: bool,
    previous_raw: Seq<(i128, u64)>,
    current: Seq<(i128, u64)>,
    interval: int,
    is_ask: bool,
) -> Seq<(i128, u64, u64)> {
    if snapshot {
        running_totals(grouped(current, interval))
    } else {
        running_totals(merged_levels(grouped(previous_raw, interval), grouped(current, interval), is_ask))
    }
}

impl PriceLevelProcessor {
    /// The rows one side of the book display shows after a message (the
    /// depth bars, a share of the largest cumulative volume, are drawn by
    /// the caller).
    pub fn level_rows(
        &self,
        snapshot: bool,
        previous_raw: &Vec<(i128, u64)>,
        current: &Vec<(i128, u64)>,
        interval: i128,
        is_ask: bool,
    ) -> (r: Vec<(i128, u64, u64)>)
        requires
            0 < interval,
            forall|i: int| 0 <= i < current@.len() ==> i128::MIN + interval <= (#[trigger] current@[i]).0,
            total_volume(current@) <= u64::MAX,
            !snapshot ==> {
                &&& forall|i: int| 0 <= i < previous_raw@.len() ==> i128::MIN + interval <= (#[trigger] previous_raw@[i]).0
                &&& total_volume(previous_raw@) <= u64::MAX
                &&& total_volume(merged_levels(grouped(previous_raw@, interval as int), grouped(current@, interval as int), is_ask)) <= u64::MAX
            },
        ensures
            r@ == side_rows(snapshot, previous_raw@, current@, interval as int, is_ask),
    {
        let grouped_current = self.group_by_ticket_size(current, interval);
        proof {
            law_grouping_keeps_volume(current@, interval as int);
        }
        if snapshot {
            self.add_total_volume(&grouped_current)
        } else {
            let grouped_previous = self.group_by_ticket_size(previous_raw, interval);
            let merged = self.apply_deltas(grouped_previous, grouped_current, is_ask);
            self.add_total_volume(&merged)
        }
    }

    /// Takes a message's bid and ask levels: the raw levels are kept (in
    /// `raw_bids` and `raw_asks`) for the next update, and the rows of both
    /// sides are returned, bids then asks, grouped into ticks of 0.10.
    pub fn updater(
        &mut self,
        snapshot: bool,
        bids: Vec<(i128, u64)>,
        asks: Vec<(i128, u64)>,
        raw_bids: &mut Vec<(i128, u64)>,
        raw_asks: &mut Vec<(i128, u64)>,
    ) -> (r: (Vec<(i128, u64, u64)>, Vec<(i128, u64, u64)>))
        requires
            forall|i: int| 0 <= i < bids@.len() ==> i128::MIN + 10 <= (#[trigger] bids@[i]).0,
            forall|i: int| 0 <= i < asks@.len() ==> i128::MIN + 10 <= (#[trigger] asks@[i]).0,
            total_volume(bids@) <= u64::MAX,
            total_volume(asks@) <= u64::MAX,
            !snapshot ==> {
                &&& forall|i: int| 0 <= i < old(raw_bids)@.len() ==> i128::MIN + 10 <= (#[trigger] old(raw_bids)@[i]).0
                &&& forall|i: int| 0 <= i < old(raw_asks)@.len() ==> i128::MIN + 10 <= (#[trigger] old(raw_asks)@[i]).0
                &&& total_volume(old(raw_bids)@) <= u64::MAX
                &&& total_volume(old(raw_asks)@) <= u64::MAX
                &&& total_volume(merged_levels(grouped(old(raw_bids)@, 10), grouped(bids@, 10), false)) <= u64::MAX
                &&& total_volume(merged_levels(grouped(old(raw_asks)@, 10), grouped(asks@, 10), true)) <= u64::MAX
            },
        ensures
            r.0@ == side_rows(snapshot, old(raw_bids)@, bids@, 10, false),
            r.1@ == side_rows(snapshot, old(raw_asks)@, asks@, 10, true),
            final(raw_bids)@ == bids@,
            final(raw_asks)@ == asks@,
            *final(self) == *old(self),
    {
        let bid_rows = self.level_rows(snapshot, raw_bids, &bids, 10, false);
        let ask_rows = self.level_rows(snapshot, raw_asks, &asks, 10, true);
        *raw_bids = bids;
        *raw_asks = asks;
        (bid_rows, ask_rows)
    }
}

proof fn lemma_last_volume_present(levels: Seq<(i128, u64)>, i: int)
    requires
        0 <= i < levels.len(),
    ensures
        last_volume(levels, levels[i].0) is Some,
    decreases levels.len(),
{
    if levels.last().0 != levels[i].0 {
        assert(i < levels.len() - 1);
        assert(levels.drop_last()[i] == levels[i]);
        lemma_last_volume_present(levels.drop_last(), i);
    }
}

} // verus!
