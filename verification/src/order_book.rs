//! The order book: two crit-bit trees (bids and asks) over a slab of FIFO
//! price-level queues, with cached best prices and an order count.
//!
//! Specifications speak about the book through its *level maps*: for each
//! side, the finite map from price to the sequence of orders resting there,
//! oldest first. Well-formedness ties the trees, the slab and the caches
//! together:
//! - the order count equals the number of orders over all queues,
//! - every order sits in the queue its price level points to, with a
//!   positive remaining quantity no larger than its original quantity,
//! - the cached best bid is the highest bid price (0 on an empty side) and
//!   the cached best ask the lowest ask price (`u64::MAX` on an empty side).

use vstd::prelude::*;
use crate::critbit;
use crate::critbit::CritBitTree;
use crate::error::ErrorCode;
use crate::order::Order;
use crate::order::OrderQueue;
use crate::order::OrderV;
use crate::order::PaymentStatus;
use crate::order::Side;
use crate::order::AccountId;
use crate::order::first_index_of;
use crate::order::lemma_first_index_of;
use crate::order::sum_quantities;

verus! {

/// Price levels a book can hold per slab (both sides share the slab).
pub const MAX_PRICE_LEVELS: usize = 50;

/// Orders held in a sequence of queues.
pub open spec fn sum_queue_lens(qs: Seq<OrderQueue>) -> int
    decreases qs.len(),
{
    if qs.len() == 0 {
        0
    } else {
        sum_queue_lens(qs.drop_last()) + qs.last()@.len()
    }
}

/// Queue-length sums are never negative.
pub proof fn lemma_sum_queue_lens_nonnegative(qs: Seq<OrderQueue>)
    ensures
        sum_queue_lens(qs) >= 0,
    decreases qs.len(),
{
    if qs.len() > 0 {
        lemma_sum_queue_lens_nonnegative(qs.drop_last());
    }
}

/// A prefix never holds more orders than the whole.
pub proof fn lemma_sum_queue_lens_prefix(qs: Seq<OrderQueue>, i: int)
    requires
        0 <= i <= qs.len(),
    ensures
        sum_queue_lens(qs.take(i)) <= sum_queue_lens(qs),
        sum_queue_lens(qs.take(i)) >= 0,
    decreases qs.len() - i,
{
    lemma_sum_queue_lens_nonnegative(qs.take(i));
    if i < qs.len() {
        lemma_sum_queue_lens_prefix(qs, i + 1);
        assert(qs.take(i + 1).drop_last() =~= qs.take(i));
        assert(qs.take(i + 1).last() == qs[i]);
    } else {
        assert(qs.take(i) =~= qs);
    }
}

/// Replacing one queue changes the order count by the length difference.
pub proof fn lemma_sum_queue_lens_update(qs: Seq<OrderQueue>, i: int, q: OrderQueue)
    requires
        0 <= i < qs.len(),
    ensures
        sum_queue_lens(qs.update(i, q)) == sum_queue_lens(qs) - qs[i]@.len() + q@.len(),
    decreases qs.len(),
{
    if i == qs.len() - 1 {
        assert(qs.update(i, q).drop_last() =~= qs.drop_last());
        assert(qs.update(i, q).last() == q);
    } else {
        lemma_sum_queue_lens_update(qs.drop_last(), i, q);
        assert(qs.update(i, q).drop_last() =~= qs.drop_last().update(i, q));
        assert(qs.update(i, q).last() == qs.last());
    }
}

/// Two queue sequences whose queues hold the same orders count the same.
pub proof fn lemma_sum_queue_lens_congruent(a: Seq<OrderQueue>, b: Seq<OrderQueue>)
    requires
        a.len() == b.len(),
        forall|j: int| 0 <= j < a.len() ==> (#[trigger] a[j])@ == b[j]@,
    ensures
        sum_queue_lens(a) == sum_queue_lens(b),
    decreases a.len(),
{
    if a.len() > 0 {
        assert(a.last()@ == b.last()@);
        assert forall|j: int| 0 <= j < a.drop_last().len() implies (#[trigger] a.drop_last()[j])@
            == b.drop_last()[j]@ by {
            assert(a.drop_last()[j] == a[j]);
            assert(b.drop_last()[j] == b[j]);
        }
        lemma_sum_queue_lens_congruent(a.drop_last(), b.drop_last());
    }
}

/// `k` is the smallest member of `s`.
pub open spec fn is_min_of(s: Set<u64>, k: u64) -> bool {
    s.contains(k) && forall|x: u64| s.contains(x) ==> k <= x
}

/// `k` is the largest member of `s`.
pub open spec fn is_max_of(s: Set<u64>, k: u64) -> bool {
    s.contains(k) && forall|x: u64| s.contains(x) ==> k >= x
}

/// Every finite, non-empty set of prices has a smallest and a largest
/// member.
pub proof fn lemma_finite_nonempty_has_extremes(s: Set<u64>)
    requires
        s.finite(),
        s.len() > 0,
    ensures
        exists|k: u64| is_min_of(s, k),
        exists|k: u64| is_max_of(s, k),
    decreases s.len(),
{
    let x = s.choose();
    assert(s.contains(x));
    let rest = s.remove(x);
    if rest.len() == 0 {
        assert forall|y: u64| s.contains(y) implies x <= y by {
            if y != x {
                assert(rest.contains(y));
                assert(rest.len() > 0) by {
                    vstd::set_lib::lemma_set_empty_equivalency_len(rest);
                }
            }
        }
        assert(is_min_of(s, x));
        assert forall|y: u64| s.contains(y) implies x >= y by {
            if y != x {
                assert(rest.contains(y));
                assert(rest.len() > 0) by {
                    vstd::set_lib::lemma_set_empty_equivalency_len(rest);
                }
            }
        }
        assert(is_max_of(s, x));
    } else {
        lemma_finite_nonempty_has_extremes(rest);
        let mn = choose|k: u64| is_min_of(rest, k);
        let mx = choose|k: u64| is_max_of(rest, k);
        if x <= mn {
            assert(is_min_of(s, x));
        } else {
            assert(is_min_of(s, mn));
        }
        if x >= mx {
            assert(is_max_of(s, x));
        } else {
            assert(is_max_of(s, mx));
        }
    }
}

/// The smallest and largest members are unique.
pub proof fn lemma_extremes_unique(s: Set<u64>, a: u64, b: u64)
    ensures
        is_min_of(s, a) && is_min_of(s, b) ==> a == b,
        is_max_of(s, a) && is_max_of(s, b) ==> a == b,
{
}

/// Whether a maker price is acceptable to a taker on `side` with limit
/// price `limit`: a buyer accepts asks at or below it, a seller accepts
/// bids at or above it.
pub open spec fn price_acceptable(side: Side, price: u64, limit: u64) -> bool {
    match side {
        Side::Bid => price <= limit,
        Side::Ask => price >= limit,
    }
}

/// Best crossing price among the levels opposite a taker on `taker_side`:
/// the lowest ask for a buyer, the highest bid for a seller. Meaningful
/// only when `levels` is non-empty.
pub open spec fn best_crossing_price(levels: Map<u64, Seq<OrderV>>, taker_side: Side) -> u64 {
    match taker_side {
        Side::Bid => choose|k: u64| is_min_of(levels.dom(), k),
        Side::Ask => choose|k: u64| is_max_of(levels.dom(), k),
    }
}

/// Total quantity of a fill list.
pub open spec fn fills_total(fills: Seq<(u64, u64, u128)>) -> int
    decreases fills.len(),
{
    if fills.len() == 0 {
        0
    } else {
        fills_total(fills.drop_last()) + fills.last().1
    }
}

/// The crossing loop under price-time priority, as a function of the
/// levels opposite the taker. Each step consumes from the head order at the
/// best acceptable price and yields a `(price, quantity, maker id)` fill;
/// it halts when the taker is satisfied, no acceptable level remains, or
/// the next maker is the taker themself. Returns the fills and the levels
/// left behind.
pub open spec fn match_spec(
    levels: Map<u64, Seq<OrderV>>,
    taker_side: Side,
    remaining: u64,
    limit_price: u64,
    taker_owner: AccountId,
) -> (Seq<(u64, u64, u128)>, Map<u64, Seq<OrderV>>)
    decreases remaining,
{
    if remaining == 0 || !levels.dom().finite() || levels.dom().len() == 0 {
        (Seq::empty(), levels)
    } else {
        let p = best_crossing_price(levels, taker_side);
        if !price_acceptable(taker_side, p, limit_price) || levels[p].len() == 0 {
            (Seq::empty(), levels)
        } else {
            let head = levels[p][0];
            if head.owner == taker_owner || head.quantity == 0 {
                (Seq::empty(), levels)
            } else {
                let fill = if remaining < head.quantity {
                    remaining
                } else {
                    head.quantity
                };
                let next_levels = if fill == head.quantity {
                    if levels[p].len() == 1 {
                        levels.remove(p)
                    } else {
                        levels.insert(p, levels[p].drop_first())
                    }
                } else {
                    levels.insert(
                        p,
                        levels[p].update(0, OrderV { quantity: (head.quantity - fill) as u64, ..head }),
                    )
                };
                let rest = match_spec(
                    next_levels,
                    taker_side,
                    (remaining - fill) as u64,
                    limit_price,
                    taker_owner,
                );
                (seq![(p, fill, head.order_id)] + rest.0, rest.1)
            }
        }
    }
}

/// Fill totals are never negative.
pub proof fn lemma_fills_total_nonneg(s: Seq<(u64, u64, u128)>)
    ensures
        fills_total(s) >= 0,
    decreases s.len(),
{
    if s.len() > 0 {
        lemma_fills_total_nonneg(s.drop_last());
    }
}

/// Fill totals are non-negative and grow along prefixes.
pub proof fn lemma_fills_total_prefix(s: Seq<(u64, u64, u128)>, i: int)
    requires
        0 <= i <= s.len(),
    ensures
        0 <= fills_total(s.take(i)) <= fills_total(s),
    decreases s.len() - i,
{
    lemma_fills_total_nonneg(s.take(i));
    if i < s.len() {
        lemma_fills_total_prefix(s, i + 1);
        assert(s.take(i + 1).drop_last() =~= s.take(i));
        assert(s.take(i + 1).last() == s[i]);
    } else {
        assert(s.take(i) =~= s);
    }
}

/// Splitting off the first fill splits the total.
pub proof fn lemma_fills_total_cons(x: (u64, u64, u128), s: Seq<(u64, u64, u128)>)
    ensures
        fills_total(seq![x] + s) == x.1 + fills_total(s),
    decreases s.len(),
{
    if s.len() == 0 {
        assert(seq![x] + s =~= seq![x]);
        assert(seq![x].drop_last() =~= Seq::<(u64, u64, u128)>::empty());
        assert(fills_total(Seq::<(u64, u64, u128)>::empty()) == 0);
        assert(seq![x].last() == x);
        assert(fills_total(seq![x]) == fills_total(seq![x].drop_last()) + x.1);
    } else {
        lemma_fills_total_cons(x, s.drop_last());
        assert((seq![x] + s).drop_last() =~= seq![x] + s.drop_last());
        assert((seq![x] + s).last() == s.last());
    }
}

/// The crossing fills no more than the taker asked for, each fill carries
/// at least one unit, and every fill sits at a price the taker accepts that
/// was a live level when the crossing started.
pub proof fn lemma_match_spec_sound(
    levels: Map<u64, Seq<OrderV>>,
    taker_side: Side,
    remaining: u64,
    limit_price: u64,
    taker_owner: AccountId,
)
    ensures
        ({
            let r = match_spec(levels, taker_side, remaining, limit_price, taker_owner);
            &&& fills_total(r.0) <= remaining
            &&& forall|i: int| 0 <= i < r.0.len() ==> {
                let f = #[trigger] r.0[i];
                &&& price_acceptable(taker_side, f.0, limit_price)
                &&& levels.dom().contains(f.0)
                &&& f.1 >= 1
            }
        }),
    decreases remaining,
{
    reveal_with_fuel(match_spec, 2);
    let r = match_spec(levels, taker_side, remaining, limit_price, taker_owner);
    if remaining == 0 || !levels.dom().finite() || levels.dom().len() == 0 {
    } else {
        let p = best_crossing_price(levels, taker_side);
        lemma_finite_nonempty_has_extremes(levels.dom());
        match taker_side {
            Side::Bid => {
                assert(is_min_of(levels.dom(), p));
            },
            Side::Ask => {
                assert(is_max_of(levels.dom(), p));
            },
        }
        assert(levels.dom().contains(p));
        if !price_acceptable(taker_side, p, limit_price) || levels[p].len() == 0 {
        } else {
            let head = levels[p][0];
            if head.owner == taker_owner || head.quantity == 0 {
            } else {
                let fill = if remaining < head.quantity {
                    remaining
                } else {
                    head.quantity
                };
                let next_levels = if fill == head.quantity {
                    if levels[p].len() == 1 {
                        levels.remove(p)
                    } else {
                        levels.insert(p, levels[p].drop_first())
                    }
                } else {
                    levels.insert(
                        p,
                        levels[p].update(0, OrderV { quantity: (head.quantity - fill) as u64, ..head }),
                    )
                };
                let rest = match_spec(
                    next_levels,
                    taker_side,
                    (remaining - fill) as u64,
                    limit_price,
                    taker_owner,
                );
                lemma_match_spec_sound(
                    next_levels,
                    taker_side,
                    (remaining - fill) as u64,
                    limit_price,
                    taker_owner,
                );
                lemma_fills_total_cons((p, fill, head.order_id), rest.0);
                assert(r.0 == seq![(p, fill, head.order_id)] + rest.0);
                if fill == head.quantity {
                    if levels[p].len() == 1 {
                        assert(next_levels.dom() =~= levels.dom().remove(p));
                    } else {
                        assert(next_levels.dom() =~= levels.dom());
                    }
                } else {
                    assert(next_levels.dom() =~= levels.dom());
                }
                assert forall|i: int| 0 <= i < r.0.len() implies {
                    let f = #[trigger] r.0[i];
                    &&& price_acceptable(taker_side, f.0, limit_price)
                    &&& levels.dom().contains(f.0)
                    &&& f.1 >= 1
                } by {
                    if i == 0 {
                        assert(r.0[0] == (p, fill, head.order_id));
                    } else {
                        assert(r.0[i] == rest.0[i - 1]);
                        assert(next_levels.dom().contains(rest.0[i - 1].0));
                        assert(levels.dom().contains(rest.0[i - 1].0));
                    }
                }
            }
        }
    }
}

/// When the oldest order at the best crossing price belongs to the taker,
/// the crossing halts immediately: no fills, levels untouched.
pub proof fn lemma_match_spec_self_trade_halts(
    levels: Map<u64, Seq<OrderV>>,
    taker_side: Side,
    remaining: u64,
    limit_price: u64,
    taker_owner: AccountId,
)
    requires
        levels.dom().len() > 0 ==> levels[best_crossing_price(levels, taker_side)].len() > 0
            && levels[best_crossing_price(levels, taker_side)][0].owner == taker_owner,
    ensures
        match_spec(levels, taker_side, remaining, limit_price, taker_owner).0 == Seq::<
            (u64, u64, u128),
        >::empty(),
        match_spec(levels, taker_side, remaining, limit_price, taker_owner).1 == levels,
{
}

/// The maker identifiers of the fills made at price `p`, in execution
/// order.
pub open spec fn fill_ids_at_price(fills: Seq<(u64, u64, u128)>, p: u64) -> Seq<u128>
    decreases fills.len(),
{
    if fills.len() == 0 {
        Seq::empty()
    } else {
        let rest = fill_ids_at_price(fills.drop_first(), p);
        if fills[0].0 == p {
            seq![fills[0].2] + rest
        } else {
            rest
        }
    }
}

/// A fill list with no fill at price `p` selects no identifiers there.
proof fn lemma_fill_ids_none(fills: Seq<(u64, u64, u128)>, p: u64)
    requires
        forall|j: int| 0 <= j < fills.len() ==> (#[trigger] fills[j]).0 != p,
    ensures
        fill_ids_at_price(fills, p) == Seq::<u128>::empty(),
    decreases fills.len(),
{
    if fills.len() > 0 {
        assert(fills[0].0 != p);
        assert forall|j: int| 0 <= j < fills.drop_first().len() implies (
        #[trigger] fills.drop_first()[j]).0 != p by {
            assert(fills.drop_first()[j] == fills[j + 1]);
        }
        lemma_fill_ids_none(fills.drop_first(), p);
    }
}

/// Splitting off the first fill splits the selected identifiers.
proof fn lemma_fill_ids_cons(x: (u64, u64, u128), s: Seq<(u64, u64, u128)>, p: u64)
    ensures
        x.0 == p ==> fill_ids_at_price(seq![x] + s, p) == seq![x.2] + fill_ids_at_price(s, p),
        x.0 != p ==> fill_ids_at_price(seq![x] + s, p) == fill_ids_at_price(s, p),
{
    let w = seq![x] + s;
    assert(w.len() == s.len() + 1);
    assert(w[0] == x);
    assert(w.drop_first() =~= s);
}

/// Time priority within a price level: the fills made at price `p` consume
/// the orders resting there oldest-first — their maker identifiers are a
/// prefix of the identifiers queued at that level.
pub open spec fn fifo_consistent(fills: Seq<(u64, u64, u128)>, level: Seq<OrderV>, p: u64) -> bool {
    let ids = fill_ids_at_price(fills, p);
    &&& ids.len() <= level.len()
    &&& forall|i: int| 0 <= i < ids.len() ==> (#[trigger] ids[i]) == level[i].order_id
}

/// The crossing is FIFO within every price level: for any price `p`, the
/// fills it makes at `p` take the orders resting there in queue order.
pub proof fn lemma_match_spec_fifo(
    levels: Map<u64, Seq<OrderV>>,
    taker_side: Side,
    remaining: u64,
    limit_price: u64,
    taker_owner: AccountId,
    p: u64,
)
    ensures
        fifo_consistent(
            match_spec(levels, taker_side, remaining, limit_price, taker_owner).0,
            levels[p],
            p,
        ),
    decreases remaining,
{
    let t = match_spec(levels, taker_side, remaining, limit_price, taker_owner);
    if remaining == 0 || !levels.dom().finite() || levels.dom().len() == 0 {
        assert(fill_ids_at_price(t.0, p) == Seq::<u128>::empty());
    } else {
        let bp = best_crossing_price(levels, taker_side);
        lemma_finite_nonempty_has_extremes(levels.dom());
        match taker_side {
            Side::Bid => {
                assert(is_min_of(levels.dom(), bp));
            },
            Side::Ask => {
                assert(is_max_of(levels.dom(), bp));
            },
        }
        assert(levels.dom().contains(bp));
        if !price_acceptable(taker_side, bp, limit_price) || levels[bp].len() == 0 {
            assert(fill_ids_at_price(t.0, p) == Seq::<u128>::empty());
        } else {
            let head = levels[bp][0];
            if head.owner == taker_owner || head.quantity == 0 {
                assert(fill_ids_at_price(t.0, p) == Seq::<u128>::empty());
            } else {
                let fill = if remaining < head.quantity {
                    remaining
                } else {
                    head.quantity
                };
                let x = (bp, fill, head.order_id);
                let next_levels = if fill == head.quantity {
                    if levels[bp].len() == 1 {
                        levels.remove(bp)
                    } else {
                        levels.insert(bp, levels[bp].drop_first())
                    }
                } else {
                    levels.insert(
                        bp,
                        levels[bp].update(0, OrderV { quantity: (head.quantity - fill) as u64, ..head }),
                    )
                };
                let rest = match_spec(
                    next_levels,
                    taker_side,
                    (remaining - fill) as u64,
                    limit_price,
                    taker_owner,
                );
                assert(t.0 == seq![x] + rest.0);
                lemma_fill_ids_cons(x, rest.0, p);
                lemma_match_spec_fifo(
                    next_levels,
                    taker_side,
                    (remaining - fill) as u64,
                    limit_price,
                    taker_owner,
                    p,
                );
                lemma_match_spec_sound(
                    next_levels,
                    taker_side,
                    (remaining - fill) as u64,
                    limit_price,
                    taker_owner,
                );
                let ids = fill_ids_at_price(t.0, p);
                let rids = fill_ids_at_price(rest.0, p);
                if bp == p {
                    assert(ids == seq![x.2] + rids);
                    if fill == head.quantity && levels[p].len() == 1 {
                        assert forall|j: int| 0 <= j < rest.0.len() implies (
                        #[trigger] rest.0[j]).0 != p by {
                            assert(next_levels.dom().contains(rest.0[j].0));
                        }
                        lemma_fill_ids_none(rest.0, p);
                        assert(ids =~= seq![x.2]);
                        assert(ids[0] == levels[p][0].order_id);
                    } else if fill == head.quantity {
                        assert(next_levels[p] == levels[p].drop_first());
                        assert(rids.len() <= next_levels[p].len());
                        assert forall|i: int| 0 <= i < ids.len() implies (#[trigger] ids[i])
                            == levels[p][i].order_id by {
                            if i == 0 {
                                assert(ids[0] == x.2);
                            } else {
                                assert(ids[i] == rids[i - 1]);
                                assert(rids[i - 1] == next_levels[p][i - 1].order_id);
                                assert(next_levels[p][i - 1] == levels[p][i]);
                            }
                        }
                    } else {
                        assert((remaining - fill) as u64 == 0);
                        assert(rest.0 == Seq::<(u64, u64, u128)>::empty());
                        assert(rids == Seq::<u128>::empty());
                        assert(ids =~= seq![x.2]);
                        assert(ids[0] == levels[p][0].order_id);
                    }
                } else {
                    assert(ids == rids);
                    if levels.dom().contains(p) {
                        assert(next_levels.dom().contains(p));
                        assert(next_levels[p] == levels[p]);
                        assert(fifo_consistent(rest.0, levels[p], p));
                    } else {
                        assert forall|j: int| 0 <= j < rest.0.len() implies (
                        #[trigger] rest.0[j]).0 != p by {
                            assert(next_levels.dom().contains(rest.0[j].0));
                            if rest.0[j].0 == p {
                                assert(levels.dom().contains(p));
                            }
                        }
                        lemma_fill_ids_none(rest.0, p);
                        assert(ids.len() == 0);
                    }
                }
                assert(fifo_consistent(t.0, levels[p], p));
            }
        }
    }
}

/// A crossing that produces no fills leaves the levels untouched.
pub proof fn lemma_match_spec_empty_fills(
    levels: Map<u64, Seq<OrderV>>,
    taker_side: Side,
    remaining: u64,
    limit_price: u64,
    taker_owner: AccountId,
)
    ensures
        match_spec(levels, taker_side, remaining, limit_price, taker_owner).0.len() == 0
            ==> match_spec(levels, taker_side, remaining, limit_price, taker_owner).1 == levels,
{
}

/// The orders of one queue belong to price level `price` on `side`: the
/// queue is non-empty and internally consistent, and each order carries that
/// price and side, a positive remaining quantity, and no more remaining than
/// it started with.
pub open spec fn queue_holds_level(q: OrderQueue, price: u64, side: Side) -> bool {
    &&& q.wf()
    &&& q@.len() > 0
    &&& forall|j: int| 0 <= j < q@.len() ==> {
        let o = #[trigger] q@[j];
        &&& o.price == price
        &&& o.side == side
        &&& o.quantity >= 1
        &&& o.quantity <= o.original_quantity
    }
}

/// Observable state of an [`OrderBook`]: the identifying keys, the level
/// maps of both sides, and the cached count and best prices. Slab slot
/// assignment is allocation bookkeeping and not part of it.
pub ghost struct BookV {
    pub market: AccountId,
    pub base_mint: AccountId,
    pub quote_mint: AccountId,
    pub bid_levels: Map<u64, Seq<OrderV>>,
    pub ask_levels: Map<u64, Seq<OrderV>>,
    pub total_orders: u64,
    pub best_bid: u64,
    pub best_ask: u64,
}

/// An order book for one market.
pub struct OrderBook {
    /// The market this book belongs to.
    pub market: AccountId,
    /// Mint of the base token.
    pub base_mint: AccountId,
    /// Mint of the quote token.
    pub quote_mint: AccountId,
    /// Buy side: prices to queue slots, best bid = maximum key.
    pub bids: CritBitTree,
    /// Sell side: prices to queue slots, best ask = minimum key.
    pub asks: CritBitTree,
    /// The slab of price-level queues both trees point into.
    pub order_queues: Vec<OrderQueue>,
    /// First slab slot never handed out yet.
    pub next_queue_index: u32,
    /// Number of orders resting in the book.
    pub total_orders: u64,
    /// Cached best bid price (0 when there are no bids).
    pub best_bid: u64,
    /// Cached best ask price (`u64::MAX` when there are no asks).
    pub best_ask: u64,
}

impl View for OrderBook {
    type V = BookV;

    open spec fn view(&self) -> BookV {
        BookV {
            market: self.market,
            base_mint: self.base_mint,
            quote_mint: self.quote_mint,
            bid_levels: self.levels(Side::Bid),
            ask_levels: self.levels(Side::Ask),
            total_orders: self.total_orders,
            best_bid: self.best_bid,
            best_ask: self.best_ask,
        }
    }
}

impl OrderBook {
    /// The crit-bit tree of one side, as its price-to-slot map.
    pub open spec fn side_tree(self, side: Side) -> Map<u64, u32> {
        match side {
            Side::Bid => self.bids@,
            Side::Ask => self.asks@,
        }
    }

    /// The level map of one side: price to the orders resting there, oldest
    /// first.
    pub open spec fn levels(self, side: Side) -> Map<u64, Seq<OrderV>> {
        let tree = self.side_tree(side);
        Map::new(
            |p: u64| tree.dom().contains(p),
            |p: u64| self.order_queues[tree[p] as int]@,
        )
    }

    /// A slab slot is live when some price level of either side points to
    /// it.
    pub open spec fn slot_live(self, i: int) -> bool {
        ||| exists|p: u64| self.bids@.dom().contains(p) && self.bids@[p] == i
        ||| exists|p: u64| self.asks@.dom().contains(p) && self.asks@[p] == i
    }

    /// Structural soundness of trees and slab, without the cached totals:
    /// what every intermediate state of an operation maintains.
    pub open spec fn wf_core(self) -> bool {
        &&& self.bids.wf()
        &&& self.asks.wf()
        &&& self.order_queues@.len() == MAX_PRICE_LEVELS
        &&& self.next_queue_index <= MAX_PRICE_LEVELS as u32
        &&& forall|p: u64| #[trigger] self.bids@.dom().contains(p) ==> self.bids@[p]
            < self.next_queue_index
        &&& forall|p: u64| #[trigger] self.asks@.dom().contains(p) ==> self.asks@[p]
            < self.next_queue_index
        &&& forall|p1: u64, p2: u64|
            self.bids@.dom().contains(p1) && self.bids@.dom().contains(p2) && p1 != p2
                ==> self.bids@[p1] != self.bids@[p2]
        &&& forall|p1: u64, p2: u64|
            self.asks@.dom().contains(p1) && self.asks@.dom().contains(p2) && p1 != p2
                ==> self.asks@[p1] != self.asks@[p2]
        &&& forall|p1: u64, p2: u64|
            self.bids@.dom().contains(p1) && self.asks@.dom().contains(p2) ==> self.bids@[p1]
                != self.asks@[p2]
        &&& forall|p: u64| #[trigger] self.bids@.dom().contains(p) ==> queue_holds_level(
            self.order_queues[self.bids@[p] as int],
            p,
            Side::Bid,
        )
        &&& forall|p: u64| #[trigger] self.asks@.dom().contains(p) ==> queue_holds_level(
            self.order_queues[self.asks@[p] as int],
            p,
            Side::Ask,
        )
        &&& forall|i: int|
            0 <= i < self.order_queues@.len() && !self.slot_live(i) ==> (
            #[trigger] self.order_queues[i])@.len() == 0 && self.order_queues[i].wf()
    }

    /// Full well-formedness: the core plus the cached order count and best
    /// prices.
    pub open spec fn wf(self) -> bool {
        &&& self.wf_core()
        &&& self.total_orders == sum_queue_lens(self.order_queues@)
        &&& if self.bids@.dom().len() == 0 {
            self.best_bid == 0
        } else {
            is_max_of(self.bids@.dom(), self.best_bid)
        }
        &&& if self.asks@.dom().len() == 0 {
            self.best_ask == u64::MAX
        } else {
            is_min_of(self.asks@.dom(), self.best_ask)
        }
    }

    /// A fresh, empty book for a market: empty trees, a slab of empty
    /// queues, and the empty-side cache sentinels.
    pub fn new(market: AccountId, base_mint: AccountId, quote_mint: AccountId) -> (r: OrderBook)
        ensures
            r.wf(),
            r.market == market,
            r.base_mint == base_mint,
            r.quote_mint == quote_mint,
            r.levels(Side::Bid) =~= Map::<u64, Seq<OrderV>>::empty(),
            r.levels(Side::Ask) =~= Map::<u64, Seq<OrderV>>::empty(),
            r.total_orders == 0,
            r.best_bid == 0,
            r.best_ask == u64::MAX,
            r.next_queue_index == 0,
            r.bids.spec_capacity() == MAX_PRICE_LEVELS as int,
            r.asks.spec_capacity() == MAX_PRICE_LEVELS as int,
    {
        let mut order_queues: Vec<OrderQueue> = Vec::new();
        let mut i: usize = 0;
        while i < MAX_PRICE_LEVELS
            invariant
                i <= MAX_PRICE_LEVELS,
                order_queues@.len() == i,
                forall|j: int| 0 <= j < i ==> (#[trigger] order_queues[j])@.len() == 0
                    && order_queues[j].wf(),
                sum_queue_lens(order_queues@) == 0,
            decreases MAX_PRICE_LEVELS - i,
        {
            let ghost qs0 = order_queues@;
            order_queues.push(OrderQueue::new());
            proof {
                assert(order_queues@.drop_last() =~= qs0);
            }
            i = i + 1;
        }
        let r = OrderBook {
            market,
            base_mint,
            quote_mint,
            bids: CritBitTree::new(MAX_PRICE_LEVELS),
            asks: CritBitTree::new(MAX_PRICE_LEVELS),
            order_queues,
            next_queue_index: 0,
            total_orders: 0,
            best_bid: 0,
            best_ask: u64::MAX,
        };
        proof {
            assert(r.levels(Side::Bid) =~= Map::<u64, Seq<OrderV>>::empty());
            assert(r.levels(Side::Ask) =~= Map::<u64, Seq<OrderV>>::empty());
        }
        r
    }

    /// Whether an order at `price` on `side` can be accepted: its price
    /// level exists already, or a fresh slab slot and the tree nodes for a
    /// new level are both available.
    pub open spec fn spec_can_insert(self, side: Side, price: u64) -> bool {
        self.side_tree(side).dom().contains(price) || (self.next_queue_index < MAX_PRICE_LEVELS
            as u32 && (match side {
            Side::Bid => self.bids.spec_has_room_for(price),
            Side::Ask => self.asks.spec_has_room_for(price),
        }))
    }

    /// Whether an order at `price` on `side` can be accepted, as an
    /// executable test of `spec_can_insert`.
    pub fn can_insert(&self, side: Side, price: u64) -> (r: bool)
        requires
            self.wf(),
        ensures
            r == self.spec_can_insert(side, price),
    {
        let found: bool = match side {
            Side::Bid => self.bids.find(price).is_some(),
            Side::Ask => self.asks.find(price).is_some(),
        };
        if found {
            return true;
        }
        if self.next_queue_index >= (MAX_PRICE_LEVELS as u32) {
            return false;
        }
        match side {
            Side::Bid => self.bids.has_room(price),
            Side::Ask => self.asks.has_room(price),
        }
    }

    /// Inserts a resting order at its price level, creating the level when
    /// needed, and refreshes the count and the best-price caches. Fails with
    /// `OrderBookFull`, leaving the book untouched, when a new level is
    /// needed but no slab slot or tree node is left.
    pub fn insert_order(&mut self, order: Order) -> (res: Result<(), ErrorCode>)
        requires
            old(self).wf(),
            order.quantity >= 1,
            order.quantity <= order.original_quantity,
            old(self).total_orders < u64::MAX,
            old(self).side_tree(order.side).dom().contains(order.price) ==> sum_quantities(
                old(self).levels(order.side)[order.price],
            ) + order.quantity <= u64::MAX,
        ensures
            final(self).wf(),
            old(self).spec_can_insert(order.side, order.price) ==> {
                &&& res is Ok
                &&& final(self).levels(order.side) =~= old(self).levels(order.side).insert(
                    order.price,
                    (if old(self).side_tree(order.side).dom().contains(order.price) {
                        old(self).levels(order.side)[order.price]
                    } else {
                        Seq::<OrderV>::empty()
                    }).push(order@),
                )
                &&& final(self).levels(order.side.spec_opposite()) == old(self).levels(
                    order.side.spec_opposite(),
                )
                &&& final(self).total_orders == old(self).total_orders + 1
            },
            !old(self).spec_can_insert(order.side, order.price) ==> res == Err::<(), ErrorCode>(
                ErrorCode::OrderBookFull,
            ) && *final(self) == *old(self),
            final(self).market == old(self).market,
            final(self).base_mint == old(self).base_mint,
            final(self).quote_mint == old(self).quote_mint,
    {
        let price: u64 = order.price;
        let oside: Side = order.side;
        let found: Option<u32> = match oside {
            Side::Bid => self.bids.find(price),
            Side::Ask => self.asks.find(price),
        };
        match found {
            Some(queue_index) => {
                proof {
                    assert(self.side_tree(order.side).dom().contains(price));
                    assert(self.levels(order.side)[price]
                        == self.order_queues[queue_index as int]@);
                }
                let ghost qs0 = self.order_queues@;
                let q: &mut OrderQueue = &mut self.order_queues[queue_index as usize];
                q.push(order);
                proof {
                    assert(self.order_queues@ =~= qs0.update(
                        queue_index as int,
                        self.order_queues[queue_index as int],
                    ));
                    lemma_sum_queue_lens_update(
                        qs0,
                        queue_index as int,
                        self.order_queues[queue_index as int],
                    );
                }
                self.total_orders = self.total_orders + 1;
                proof {
                    assert(self.wf_core());
                }
                self.update_best_prices();
                proof {
                    assert(self.levels(order.side) =~= old(self).levels(order.side).insert(
                        price,
                        old(self).levels(order.side)[price].push(order@),
                    ));
                    assert(self.levels(order.side.spec_opposite()) =~= old(self).levels(
                        order.side.spec_opposite(),
                    ));
                }
                Ok(())
            },
            None => {
                if self.next_queue_index >= (MAX_PRICE_LEVELS as u32) {
                    return Err(ErrorCode::OrderBookFull);
                }
                let room: bool = match order.side {
                    Side::Bid => self.bids.has_room(price),
                    Side::Ask => self.asks.has_room(price),
                };
                if !room {
                    return Err(ErrorCode::OrderBookFull);
                }
                let queue_index: u32 = self.next_queue_index;
                self.next_queue_index = self.next_queue_index + 1;
                proof {
                    assert(!old(self).slot_live(queue_index as int));
                    assert(self.order_queues[queue_index as int]@.len() == 0);
                }
                let ghost qs0 = self.order_queues@;
                let q: &mut OrderQueue = &mut self.order_queues[queue_index as usize];
                q.push(order);
                proof {
                    assert(self.order_queues@ =~= qs0.update(
                        queue_index as int,
                        self.order_queues[queue_index as int],
                    ));
                    lemma_sum_queue_lens_update(
                        qs0,
                        queue_index as int,
                        self.order_queues[queue_index as int],
                    );
                }
                let ins: Result<(), critbit::ErrorCode> = match oside {
                    Side::Bid => self.bids.insert(price, queue_index),
                    Side::Ask => self.asks.insert(price, queue_index),
                };
                match ins {
                    Ok(_) => {},
                    Err(_) => {
                        proof {
                            assert(false);
                        }
                        return Err(ErrorCode::OrderBookFull);
                    },
                }
                self.total_orders = self.total_orders + 1;
                proof {
                    match oside {
                        Side::Bid => {
                            assert(self.bids@.dom().contains(price) && self.bids@[price]
                                == queue_index);
                        },
                        Side::Ask => {
                            assert(self.asks@.dom().contains(price) && self.asks@[price]
                                == queue_index);
                        },
                    }
                    assert(self.slot_live(queue_index as int));
                    assert forall|i: int|
                        0 <= i < self.order_queues@.len() && !self.slot_live(i) implies (
                    #[trigger] self.order_queues[i])@.len() == 0 && self.order_queues[i].wf() by {
                        assert(i != queue_index as int);
                        if old(self).slot_live(i) {
                            if exists|p: u64|
                                old(self).bids@.dom().contains(p) && old(self).bids@[p] == i {
                                let p = choose|p: u64|
                                    old(self).bids@.dom().contains(p) && old(self).bids@[p] == i;
                                assert(self.bids@.dom().contains(p) && self.bids@[p] == i);
                            } else {
                                let p = choose|p: u64|
                                    old(self).asks@.dom().contains(p) && old(self).asks@[p] == i;
                                assert(self.asks@.dom().contains(p) && self.asks@[p] == i);
                            }
                            assert(self.slot_live(i));
                        }
                        assert(!old(self).slot_live(i));
                    }
                    assert(self.wf_core());
                }
                self.update_best_prices();
                proof {
                    assert(self.levels(order.side) =~~= old(self).levels(order.side).insert(
                        price,
                        Seq::<OrderV>::empty().push(order@),
                    ));
                    assert(self.levels(order.side.spec_opposite()) =~~= old(self).levels(
                        order.side.spec_opposite(),
                    ));
                }
                Ok(())
            },
        }
    }

    /// Removes the first order with `order_id` from the level at `price` on
    /// `side`, pruning the level when it empties, and returns the removed
    /// order so escrow can be released. Fails with `OrderNotFound`, leaving
    /// the book untouched, when the level or the identifier is absent.
    pub fn remove_order(&mut self, order_id: u128, side: Side, price: u64) -> (res: Result<
        Order,
        ErrorCode,
    >)
        requires
            old(self).wf(),
        ensures
            final(self).wf(),
            ({
                let lv = old(self).levels(side);
                if !lv.dom().contains(price) || first_index_of(lv[price], order_id) < 0 {
                    res == Err::<Order, ErrorCode>(ErrorCode::OrderNotFound) && final(self)@
                        == old(self)@
                } else {
                    let q = lv[price];
                    let i = first_index_of(q, order_id);
                    &&& res is Ok
                    &&& res.unwrap()@ == q[i]
                    &&& final(self).levels(side) =~= if q.len() == 1 {
                        lv.remove(price)
                    } else {
                        lv.insert(price, q.remove(i))
                    }
                    &&& final(self).levels(side.spec_opposite()) == old(self).levels(
                        side.spec_opposite(),
                    )
                    &&& final(self).total_orders == old(self).total_orders - 1
                    &&& final(self).next_queue_index == old(self).next_queue_index
                    &&& final(self).market == old(self).market
                    &&& final(self).base_mint == old(self).base_mint
                    &&& final(self).quote_mint == old(self).quote_mint
                }
            }),
    {
        let found: Option<u32> = match side {
            Side::Bid => self.bids.find(price),
            Side::Ask => self.asks.find(price),
        };
        match found {
            None => Err(ErrorCode::OrderNotFound),
            Some(queue_index) => {
                proof {
                    assert(self.side_tree(side).dom().contains(price));
                    assert(self.levels(side)[price] == self.order_queues[queue_index as int]@);
                }
                let ghost qs0 = self.order_queues@;
                let q: &mut OrderQueue = &mut self.order_queues[queue_index as usize];
                let removed: Option<Order> = q.remove(order_id);
                match removed {
                    None => {
                        proof {
                            assert(self.order_queues@ =~= qs0);
                            assert(self.levels(Side::Bid) =~= old(self).levels(Side::Bid));
                            assert(self.levels(Side::Ask) =~= old(self).levels(Side::Ask));
                            assert(self@ == old(self)@);
                        }
                        Err(ErrorCode::OrderNotFound)
                    },
                    Some(order) => {
                        proof {
                            assert(self.order_queues@ =~= qs0.update(
                                queue_index as int,
                                self.order_queues[queue_index as int],
                            ));
                            lemma_sum_queue_lens_update(
                                qs0,
                                queue_index as int,
                                self.order_queues[queue_index as int],
                            );
                            lemma_first_index_of(qs0[queue_index as int]@, order_id);
                        }
                        let now_empty: bool = self.order_queues[queue_index as usize].is_empty();
                        if now_empty {
                            let rr: Result<u32, critbit::ErrorCode> = match side {
                                Side::Bid => self.bids.remove(price),
                                Side::Ask => self.asks.remove(price),
                            };
                            match rr {
                                Ok(_) => {},
                                Err(_) => {
                                    proof {
                                        assert(false);
                                    }
                                    return Err(ErrorCode::OrderNotFound);
                                },
                            }
                        }
                        proof {
                            lemma_sum_queue_lens_prefix(self.order_queues@, 0);
                        }
                        self.total_orders = self.total_orders - 1;
                        proof {
                            assert forall|i: int|
                                0 <= i < self.order_queues@.len() && !self.slot_live(i) implies (
                            #[trigger] self.order_queues[i])@.len() == 0
                                && self.order_queues[i].wf() by {
                                if i != queue_index as int {
                                    if old(self).slot_live(i) {
                                        if exists|p: u64|
                                            old(self).bids@.dom().contains(p) && old(self).bids@[p]
                                                == i {
                                            let p = choose|p: u64|
                                                old(self).bids@.dom().contains(p) && old(
                                                    self,
                                                ).bids@[p] == i;
                                            assert(self.bids@.dom().contains(p) && self.bids@[p]
                                                == i);
                                        } else {
                                            let p = choose|p: u64|
                                                old(self).asks@.dom().contains(p) && old(
                                                    self,
                                                ).asks@[p] == i;
                                            assert(self.asks@.dom().contains(p) && self.asks@[p]
                                                == i);
                                        }
                                        assert(self.slot_live(i));
                                    }
                                    assert(!old(self).slot_live(i));
                                } else {
                                    if !now_empty {
                                        match side {
                                            Side::Bid => {
                                                assert(self.bids@.dom().contains(price)
                                                    && self.bids@[price] == queue_index);
                                            },
                                            Side::Ask => {
                                                assert(self.asks@.dom().contains(price)
                                                    && self.asks@[price] == queue_index);
                                            },
                                        }
                                        assert(self.slot_live(i));
                                    }
                                }
                            }
                            assert(self.wf_core());
                        }
                        self.update_best_prices();
                        proof {
                            let lv = old(self).levels(side);
                            let oq = lv[price];
                            let i = first_index_of(oq, order_id);
                            if oq.len() == 1 {
                                assert(self.levels(side) =~= lv.remove(price));
                            } else {
                                assert(self.levels(side) =~= lv.insert(price, oq.remove(i)));
                            }
                            assert(self.levels(side.spec_opposite()) =~= old(self).levels(
                                side.spec_opposite(),
                            ));
                        }
                        Ok(order)
                    },
                }
            },
        }
    }

    /// The best price of one side: the highest bid or the lowest ask.
    /// Meaningful only when the side is non-empty.
    pub open spec fn spec_best_price(self, side: Side) -> u64 {
        match side {
            Side::Bid => choose|k: u64| is_max_of(self.bids@.dom(), k),
            Side::Ask => choose|k: u64| is_min_of(self.asks@.dom(), k),
        }
    }

    /// Whether a taker on `side` would cross their own resting order: the
    /// head order of the opposite side's best level belongs to `owner`.
    pub open spec fn spec_would_self_trade(self, side: Side, owner: AccountId) -> bool {
        let opp = side.spec_opposite();
        &&& self.levels(opp).dom().len() > 0
        &&& self.levels(opp)[self.spec_best_price(opp)][0].owner == owner
    }

    /// The oldest order at the best price of `side`: the highest bid or the
    /// lowest ask, `None` when the side is empty.
    pub fn get_best_order(&self, side: Side) -> (r: Option<&Order>)
        requires
            self.wf(),
        ensures
            self.levels(side).dom().len() == 0 ==> r is None,
            self.levels(side).dom().len() > 0 ==> r is Some && {
                let o = r.unwrap()@;
                &&& o.price == self.spec_best_price(side)
                &&& (match side {
                    Side::Bid => is_max_of(self.bids@.dom(), o.price),
                    Side::Ask => is_min_of(self.asks@.dom(), o.price),
                })
                &&& o == self.levels(side)[o.price][0]
            },
    {
        proof {
            assert(self.levels(side).dom() =~= self.side_tree(side).dom());
        }
        let best: Option<(u64, u32)> = match side {
            Side::Bid => self.bids.max(),
            Side::Ask => self.asks.min(),
        };
        match best {
            None => None,
            Some((price, queue_index)) => {
                proof {
                    match side {
                        Side::Bid => {
                            lemma_extremes_unique(
                                self.bids@.dom(),
                                price,
                                self.spec_best_price(side),
                            );
                        },
                        Side::Ask => {
                            lemma_extremes_unique(
                                self.asks@.dom(),
                                price,
                                self.spec_best_price(side),
                            );
                        },
                    }
                    assert(self.levels(side)[price] == self.order_queues[queue_index as int]@);
                }
                let r = self.order_queues[queue_index as usize].peek();
                proof {
                    assert(r is Some);
                }
                r
            },
        }
    }

    /// Mutable access to the oldest order at the best price of `side`. The
    /// caller is responsible for keeping the book consistent with what it
    /// writes through the reference; the book's own operations never use
    /// this.
    pub fn get_best_order_mut(&mut self, side: Side) -> (r: Option<&mut Order>)
        requires
            old(self).wf(),
        ensures
            old(self).levels(side).dom().len() == 0 ==> r is None && *final(self) == *old(self),
            old(self).levels(side).dom().len() > 0 ==> r is Some && {
                let p = old(self).spec_best_price(side);
                &&& r.unwrap()@ == old(self).levels(side)[p][0]
                &&& final(self).levels(side) =~~= old(self).levels(side).insert(
                    p,
                    old(self).levels(side)[p].update(0, final(r.unwrap())@),
                )
                &&& final(self).levels(side.spec_opposite()) == old(self).levels(
                    side.spec_opposite(),
                )
                &&& final(self).bids@ == old(self).bids@
                &&& final(self).asks@ == old(self).asks@
                &&& final(self).total_orders == old(self).total_orders
                &&& final(self).best_bid == old(self).best_bid
                &&& final(self).best_ask == old(self).best_ask
                &&& final(self).market == old(self).market
                &&& final(self).base_mint == old(self).base_mint
                &&& final(self).quote_mint == old(self).quote_mint
            },
    {
        proof {
            assert(self.levels(side).dom() =~= self.side_tree(side).dom());
        }
        let best: Option<(u64, u32)> = match side {
            Side::Bid => self.bids.max(),
            Side::Ask => self.asks.min(),
        };
        match best {
            None => None,
            Some((price, queue_index)) => {
                proof {
                    match side {
                        Side::Bid => {
                            lemma_extremes_unique(
                                self.bids@.dom(),
                                price,
                                old(self).spec_best_price(side),
                            );
                        },
                        Side::Ask => {
                            lemma_extremes_unique(
                                self.asks@.dom(),
                                price,
                                old(self).spec_best_price(side),
                            );
                        },
                    }
                    assert(self.levels(side)[price] == self.order_queues[queue_index as int]@);
                }
                let ghost qs0 = self.order_queues@;
                let q: &mut OrderQueue = &mut self.order_queues[queue_index as usize];
                let r: &mut Order = &mut q.orders[0];
                proof {
                    assert(qs0[queue_index as int]@[0] == old(self).levels(side)[price][0]);
                }
                Some(r)
            },
        }
    }

    /// The best price level of `side` as `(price, total quantity)`; the
    /// book keeps no deeper aggregated view, so at most one level is
    /// reported whatever `_levels` asks for.
    pub fn get_depth(&self, side: Side, _levels: usize) -> (r: Vec<(u64, u64)>)
        requires
            self.wf(),
        ensures
            self.levels(side).dom().len() == 0 ==> r@.len() == 0,
            self.levels(side).dom().len() > 0 ==> {
                &&& r@.len() == 1
                &&& r@[0].0 == self.spec_best_price(side)
                &&& r@[0].1 == sum_quantities(self.levels(side)[r@[0].0])
            },
    {
        proof {
            assert(self.levels(side).dom() =~= self.side_tree(side).dom());
        }
        let best: Option<(u64, u32)> = match side {
            Side::Bid => self.bids.max(),
            Side::Ask => self.asks.min(),
        };
        let mut depth: Vec<(u64, u64)> = Vec::new();
        match best {
            None => {},
            Some((price, queue_index)) => {
                proof {
                    match side {
                        Side::Bid => {
                            lemma_extremes_unique(
                                self.bids@.dom(),
                                price,
                                self.spec_best_price(side),
                            );
                        },
                        Side::Ask => {
                            lemma_extremes_unique(
                                self.asks@.dom(),
                                price,
                                self.spec_best_price(side),
                            );
                        },
                    }
                    assert(self.levels(side)[price] == self.order_queues[queue_index as int]@);
                }
                let total: u64 = self.order_queues[queue_index as usize].total_quantity;
                depth.push((price, total));
            },
        }
        depth
    }

    /// Difference between the best ask and the best bid, `None` when either
    /// side is empty (its cache still holds the sentinel). A crossed book
    /// reports a spread of zero rather than a negative value.
    pub fn get_spread(&self) -> (r: Option<u64>)
        ensures
            r == if self.best_bid == 0 || self.best_ask == u64::MAX {
                None
            } else {
                Some(
                    (if self.best_ask >= self.best_bid {
                        (self.best_ask - self.best_bid) as u64
                    } else {
                        0u64
                    }),
                )
            },
    {
        if self.best_bid == 0 || self.best_ask == u64::MAX {
            return None;
        }
        Some(self.best_ask.saturating_sub(self.best_bid))
    }

    /// Midpoint of the cached best bid and ask, `None` when either side is
    /// empty.
    pub fn get_mid_price(&self) -> (r: Option<u64>)
        ensures
            r == if self.best_bid == 0 || self.best_ask == u64::MAX {
                None
            } else {
                Some((((self.best_bid + self.best_ask) as int / 2) as u64))
            },
    {
        if self.best_bid == 0 || self.best_ask == u64::MAX {
            return None;
        }
        let wide: u128 = (self.best_bid as u128) + (self.best_ask as u128);
        Some((wide / 2) as u64)
    }

    /// Whether a taker on `side` would trade against their own resting
    /// order at the opposite side's best level.
    pub fn would_self_trade(&self, side: Side, owner: &AccountId) -> (r: bool)
        requires
            self.wf(),
        ensures
            r == self.spec_would_self_trade(side, *owner),
    {
        let best = self.get_best_order(side.opposite());
        match best {
            Some(order) => order.owner == *owner,
            None => false,
        }
    }

    /// The resting order with `order_id` at the level `price` on `side`,
    /// if both the level and the identifier exist (the first holder when
    /// the identifier is repeated).
    pub fn find_order(&self, side: Side, price: u64, order_id: u128) -> (r: Option<&Order>)
        requires
            self.wf(),
        ensures
            ({
                let lv = self.levels(side);
                if lv.dom().contains(price) && first_index_of(lv[price], order_id) >= 0 {
                    r is Some && r.unwrap()@ == lv[price][first_index_of(lv[price], order_id)]
                } else {
                    r is None
                }
            }),
    {
        proof {
            assert(self.levels(side).dom() =~= self.side_tree(side).dom());
        }
        let found: Option<u32> = match side {
            Side::Bid => self.bids.find(price),
            Side::Ask => self.asks.find(price),
        };
        match found {
            None => None,
            Some(queue_index) => {
                proof {
                    assert(self.levels(side)[price] == self.order_queues[queue_index as int]@);
                }
                match self.order_queues[queue_index as usize].position_of(order_id) {
                    None => None,
                    Some(idx) => {
                        proof {
                            lemma_first_index_of(
                                self.order_queues[queue_index as int]@,
                                order_id,
                            );
                            assert((idx as int) < self.order_queues[queue_index as int]@.len());
                            assert((idx as int) == first_index_of(
                                self.order_queues[queue_index as int]@,
                                order_id,
                            ));
                            assert(self.order_queues[queue_index as int]@[idx as int]
                                == self.order_queues@[queue_index as int].orders@[idx as int]
                                .deep_view());
                        }
                        Some(&self.order_queues[queue_index as usize].orders[idx])
                    },
                }
            },
        }
    }

    /// Locates an order anywhere in the book by identifier, returning its
    /// slab slot and position within the queue; the slot belongs to a live
    /// price level of one of the sides.
    pub fn find_order_slot(&self, order_id: u128) -> (r: Option<(u32, usize)>)
        requires
            self.wf(),
        ensures
            r is None ==> forall|sd: Side, pr: u64|
                #![auto]
                self.side_tree(sd).dom().contains(pr) ==> forall|j: int|
                    0 <= j < self.levels(sd)[pr].len() ==> self.levels(sd)[pr][j].order_id
                        != order_id,
            r is Some ==> ({
                let slot = r.unwrap().0;
                let idx = r.unwrap().1;
                &&& (slot as int) < self.order_queues@.len()
                &&& (idx as int) < self.order_queues[slot as int]@.len()
                &&& self.order_queues[slot as int]@[idx as int].order_id == order_id
                &&& exists|sd: Side, pr: u64|
                    #![auto]
                    self.side_tree(sd).dom().contains(pr) && self.side_tree(sd)[pr] == slot
            }),
    {
        let n: usize = self.order_queues.len();
        let mut slot: usize = 0;
        while slot < n
            invariant
                self.wf(),
                n == self.order_queues@.len(),
                slot <= n,
                forall|i: int, j: int|
                    0 <= i < slot && 0 <= j < (#[trigger] self.order_queues[i])@.len() ==> (
                #[trigger] self.order_queues[i]@[j]).order_id != order_id,
            decreases n - slot,
        {
            match self.order_queues[slot].position_of(order_id) {
                None => {
                    proof {
                        lemma_first_index_of(self.order_queues[slot as int]@, order_id);
                    }
                },
                Some(idx) => {
                    proof {
                        lemma_first_index_of(self.order_queues[slot as int]@, order_id);
                        assert(self.order_queues[slot as int]@.len() > 0);
                        assert((idx as int) == first_index_of(
                            self.order_queues[slot as int]@,
                            order_id,
                        ));
                        assert(self.order_queues[slot as int]@[idx as int].order_id == order_id);
                        assert(self.slot_live(slot as int));
                        if exists|p: u64|
                            self.bids@.dom().contains(p) && self.bids@[p] == slot as int {
                            let p = choose|p: u64|
                                self.bids@.dom().contains(p) && self.bids@[p] == slot as int;
                            assert(self.side_tree(Side::Bid).dom().contains(p)
                                && self.side_tree(Side::Bid)[p] == slot as u32);
                        } else {
                            let p = choose|p: u64|
                                self.asks@.dom().contains(p) && self.asks@[p] == slot as int;
                            assert(self.side_tree(Side::Ask).dom().contains(p)
                                && self.side_tree(Side::Ask)[p] == slot as u32);
                        }
                    }
                    return Some((slot as u32, idx));
                },
            }
            slot = slot + 1;
        }
        proof {
            assert forall|sd: Side, pr: u64|
                #![auto]
                self.side_tree(sd).dom().contains(pr) implies forall|j: int|
                0 <= j < self.levels(sd)[pr].len() ==> self.levels(sd)[pr][j].order_id
                    != order_id by {
                let qi = self.side_tree(sd)[pr] as int;
                assert(0 <= qi < n);
                assert(self.levels(sd)[pr] == self.order_queues[qi]@);
            }
        }
        None
    }

    /// Rewrites the settlement fields of the order at `idx` in slab slot
    /// `slot`, leaving its identity, price and quantities untouched: the
    /// one mutation the settlement path performs on the book.
    pub fn set_payment_fields(
        &mut self,
        slot: u32,
        idx: usize,
        payment_status: PaymentStatus,
        payment_marked_timestamp: i64,
        settlement_timestamp: i64,
    )
        requires
            old(self).wf(),
            (slot as int) < old(self).order_queues@.len(),
            (idx as int) < old(self).order_queues[slot as int]@.len(),
        ensures
            final(self).wf(),
            final(self).bids@ == old(self).bids@,
            final(self).asks@ == old(self).asks@,
            final(self).total_orders == old(self).total_orders,
            final(self).best_bid == old(self).best_bid,
            final(self).best_ask == old(self).best_ask,
            final(self).market == old(self).market,
            final(self).base_mint == old(self).base_mint,
            final(self).quote_mint == old(self).quote_mint,
            final(self).next_queue_index == old(self).next_queue_index,
            forall|sd: Side, pr: u64|
                #![auto]
                old(self).side_tree(sd).dom().contains(pr) && old(self).side_tree(sd)[pr] != slot
                    ==> final(self).levels(sd)[pr] == old(self).levels(sd)[pr],
            forall|sd: Side, pr: u64|
                #![auto]
                old(self).side_tree(sd).dom().contains(pr) && old(self).side_tree(sd)[pr] == slot
                    ==> final(self).levels(sd)[pr] == old(self).levels(sd)[pr].update(
                    idx as int,
                    OrderV {
                        payment_status,
                        payment_marked_timestamp,
                        settlement_timestamp,
                        ..old(self).levels(sd)[pr][idx as int]
                    },
                ),
    {
        let ghost qs0 = self.order_queues@;
        let ghost q0 = self.order_queues[slot as int]@;
        let q: &mut OrderQueue = &mut self.order_queues[slot as usize];
        let ghost qv0 = q@;
        let o: &mut Order = &mut q.orders[idx];
        let ghost total0 = q.total_quantity;
        o.payment_status = payment_status;
        o.payment_marked_timestamp = payment_marked_timestamp;
        o.settlement_timestamp = settlement_timestamp;
        proof {
            let patched = OrderV {
                payment_status,
                payment_marked_timestamp,
                settlement_timestamp,
                ..q0[idx as int]
            };
            assert(self.order_queues[slot as int]@ =~= q0.update(idx as int, patched));
            assert(self.order_queues@ =~= qs0.update(
                slot as int,
                self.order_queues[slot as int],
            ));
            crate::order::lemma_sum_quantities_update(q0, idx as int, patched);
            lemma_sum_queue_lens_update(qs0, slot as int, self.order_queues[slot as int]);
            assert forall|i: int|
                0 <= i < self.order_queues@.len() && !self.slot_live(i) implies (
            #[trigger] self.order_queues[i])@.len() == 0 && self.order_queues[i].wf() by {
                assert(self.bids == old(self).bids);
                assert(self.asks == old(self).asks);
                assert(self.slot_live(i) == old(self).slot_live(i));
                if i == slot as int {
                    assert(self.order_queues[i]@.len() == q0.len());
                } else {
                    assert(self.order_queues[i] == old(self).order_queues[i]);
                }
            }
            assert(self.wf_core());
            assert(self.wf());
            assert forall|sd: Side, pr: u64|
                #![auto]
                old(self).side_tree(sd).dom().contains(pr) && old(self).side_tree(sd)[pr]
                    != slot implies self.levels(sd)[pr] == old(self).levels(sd)[pr] by {
                assert(self.order_queues[old(self).side_tree(sd)[pr] as int] == old(
                    self,
                ).order_queues[old(self).side_tree(sd)[pr] as int]);
            }
        }
    }

    /// A well-formed copy of the book with the same observable state, used
    /// for pre-flight crossings that must not touch the live book.
    pub fn snapshot(&self) -> (r: OrderBook)
        requires
            self.wf(),
        ensures
            r.wf(),
            r@ == self@,
            r.bids@ == self.bids@,
            r.asks@ == self.asks@,
            r.levels(Side::Bid) == self.levels(Side::Bid),
            r.levels(Side::Ask) == self.levels(Side::Ask),
            r.next_queue_index == self.next_queue_index,
    {
        let mut order_queues: Vec<OrderQueue> = Vec::new();
        let mut i: usize = 0;
        let n: usize = self.order_queues.len();
        while i < n
            invariant
                n == self.order_queues@.len(),
                i <= n,
                order_queues@.len() == i,
                forall|j: int| 0 <= j < i ==> (#[trigger] order_queues[j])@ == self.order_queues[j]@
                    && order_queues[j].total_quantity == self.order_queues[j].total_quantity,
            decreases n - i,
        {
            let q = self.order_queues[i].duplicate();
            order_queues.push(q);
            i = i + 1;
        }
        let r = OrderBook {
            market: self.market,
            base_mint: self.base_mint,
            quote_mint: self.quote_mint,
            bids: self.bids.duplicate(),
            asks: self.asks.duplicate(),
            order_queues,
            next_queue_index: self.next_queue_index,
            total_orders: self.total_orders,
            best_bid: self.best_bid,
            best_ask: self.best_ask,
        };
        proof {
            lemma_sum_queue_lens_congruent(r.order_queues@, self.order_queues@);
            assert(r.levels(Side::Bid) =~~= self.levels(Side::Bid));
            assert(r.levels(Side::Ask) =~~= self.levels(Side::Ask));
            assert forall|i2: int|
                0 <= i2 < r.order_queues@.len() && !r.slot_live(i2) implies (
            #[trigger] r.order_queues[i2])@.len() == 0 && r.order_queues[i2].wf() by {
                assert(r.slot_live(i2) == self.slot_live(i2));
                assert(r.order_queues[i2]@ == self.order_queues[i2]@);
                assert(r.order_queues[i2].total_quantity
                    == self.order_queues[i2].total_quantity);
            }
            assert(r.wf_core());
            assert(r.wf());
            assert(r@ == self@);
        }
        r
    }

    /// One crossing step against the level at `price` (slot `queue_index`)
    /// of the side opposite to the taker: consumes `fill` units from the
    /// head order, pops it when it empties, and prunes the level when the
    /// queue empties.
    fn fill_at_level(&mut self, side: Side, price: u64, queue_index: u32, fill: u64)
        requires
            old(self).wf_core(),
            old(self).side_tree(side.spec_opposite()).dom().contains(price),
            old(self).side_tree(side.spec_opposite())[price] == queue_index,
            fill >= 1,
            fill <= old(self).levels(side.spec_opposite())[price][0].quantity,
        ensures
            final(self).wf_core(),
            ({
                let opp = side.spec_opposite();
                let lv = old(self).levels(opp);
                let q = lv[price];
                let head = q[0];
                &&& final(self).levels(opp) =~~= (if fill == head.quantity {
                    if q.len() == 1 {
                        lv.remove(price)
                    } else {
                        lv.insert(price, q.drop_first())
                    }
                } else {
                    lv.insert(
                        price,
                        q.update(0, OrderV { quantity: (head.quantity - fill) as u64, ..head }),
                    )
                })
                &&& final(self).levels(side) == old(self).levels(side)
            }),
            final(self).market == old(self).market,
            final(self).base_mint == old(self).base_mint,
            final(self).quote_mint == old(self).quote_mint,
            final(self).next_queue_index == old(self).next_queue_index,
            final(self).total_orders == old(self).total_orders,
            final(self).best_bid == old(self).best_bid,
            final(self).best_ask == old(self).best_ask,
            side == Side::Bid ==> final(self).bids == old(self).bids,
            side == Side::Ask ==> final(self).asks == old(self).asks,
            sum_queue_lens(final(self).order_queues@) <= sum_queue_lens(old(self).order_queues@),
    {
        let ghost opp = side.spec_opposite();
        proof {
            assert(self.levels(opp)[price] == self.order_queues[queue_index as int]@);
            match side {
                Side::Bid => {
                    assert(queue_holds_level(
                        self.order_queues[self.asks@[price] as int],
                        price,
                        Side::Ask,
                    ));
                },
                Side::Ask => {
                    assert(queue_holds_level(
                        self.order_queues[self.bids@[price] as int],
                        price,
                        Side::Bid,
                    ));
                },
            }
        }
        let ghost qs0 = self.order_queues@;
        let ghost q0 = self.order_queues[queue_index as int]@;
        let head_quantity: u64 = self.order_queues[queue_index as usize].orders[0].quantity;
        let q: &mut OrderQueue = &mut self.order_queues[queue_index as usize];
        q.fill_head(fill);
        if fill == head_quantity {
            let popped = q.pop_if_filled();
            proof {
                assert(popped is Some);
            }
        }
        proof {
            assert(self.order_queues@ =~= qs0.update(
                queue_index as int,
                self.order_queues[queue_index as int],
            ));
            lemma_sum_queue_lens_update(
                qs0,
                queue_index as int,
                self.order_queues[queue_index as int],
            );
            if fill == head_quantity {
                assert(self.order_queues[queue_index as int]@ =~= q0.drop_first());
            } else {
                assert(self.order_queues[queue_index as int]@ =~= q0.update(
                    0,
                    OrderV { quantity: (q0[0].quantity - fill) as u64, ..q0[0] },
                ));
            }
        }
        let now_empty: bool = self.order_queues[queue_index as usize].is_empty();
        if now_empty {
            let rr: Result<u32, critbit::ErrorCode> = match side {
                Side::Bid => self.asks.remove(price),
                Side::Ask => self.bids.remove(price),
            };
            match rr {
                Ok(_) => {},
                Err(_) => {
                    proof {
                        assert(false);
                    }
                    return;
                },
            }
        }
        proof {
            assert forall|i: int|
                0 <= i < self.order_queues@.len() && !self.slot_live(i) implies (
            #[trigger] self.order_queues[i])@.len() == 0 && self.order_queues[i].wf() by {
                if i != queue_index as int {
                    if old(self).slot_live(i) {
                        if exists|p: u64|
                            old(self).bids@.dom().contains(p) && old(self).bids@[p] == i {
                            let p = choose|p: u64|
                                old(self).bids@.dom().contains(p) && old(self).bids@[p] == i;
                            assert(self.bids@.dom().contains(p) && self.bids@[p] == i);
                        } else {
                            let p = choose|p: u64|
                                old(self).asks@.dom().contains(p) && old(self).asks@[p] == i;
                            assert(self.asks@.dom().contains(p) && self.asks@[p] == i);
                        }
                        assert(self.slot_live(i));
                    }
                    assert(!old(self).slot_live(i));
                } else {
                    if !now_empty {
                        match side {
                            Side::Bid => {
                                assert(self.asks@.dom().contains(price) && self.asks@[price]
                                    == queue_index);
                            },
                            Side::Ask => {
                                assert(self.bids@.dom().contains(price) && self.bids@[price]
                                    == queue_index);
                            },
                        }
                        assert(self.slot_live(i));
                    }
                }
            }
            assert(self.wf_core());
            let lv = old(self).levels(opp);
            if fill == q0[0].quantity {
                if q0.len() == 1 {
                    assert(self.levels(opp) =~~= lv.remove(price));
                } else {
                    assert(self.levels(opp) =~~= lv.insert(price, q0.drop_first()));
                }
            } else {
                assert(self.levels(opp) =~~= lv.insert(
                    price,
                    q0.update(0, OrderV { quantity: (q0[0].quantity - fill) as u64, ..q0[0] }),
                ));
            }
            assert(self.levels(side) =~~= old(self).levels(side));
        }
    }

    /// Crosses a taker of up to `max_quantity` units at limit `limit_price`
    /// against the opposite side under price-time priority, stopping at the
    /// limit, when the taker is satisfied, or at the taker's own resting
    /// order. Returns the `(price, quantity, maker id)` fills in execution
    /// order; the consumed orders leave the book, the order count is
    /// recomputed from the queues and the best-price caches are refreshed.
    pub fn match_order(
        &mut self,
        side: Side,
        max_quantity: u64,
        limit_price: u64,
        taker_owner: AccountId,
    ) -> (res: Result<Vec<(u64, u64, u128)>, ErrorCode>)
        requires
            old(self).wf(),
        ensures
            final(self).wf(),
            res is Ok,
            ({
                let opp = side.spec_opposite();
                let r = match_spec(
                    old(self).levels(opp),
                    side,
                    max_quantity,
                    limit_price,
                    taker_owner,
                );
                &&& res.unwrap()@ == r.0
                &&& final(self).levels(opp) == r.1
                &&& final(self).levels(side) == old(self).levels(side)
                &&& final(self).market == old(self).market
                &&& final(self).base_mint == old(self).base_mint
                &&& final(self).quote_mint == old(self).quote_mint
                &&& final(self).next_queue_index == old(self).next_queue_index
            }),
            side == Side::Bid ==> final(self).bids == old(self).bids,
            side == Side::Ask ==> final(self).asks == old(self).asks,
            final(self).total_orders <= old(self).total_orders,
    {
        let ghost opp = side.spec_opposite();
        let ghost l0 = old(self).levels(opp);
        let mut fills: Vec<(u64, u64, u128)> = Vec::new();
        let mut remaining: u64 = max_quantity;
        let mut done: bool = false;
        while !done && remaining > 0
            invariant
                self.wf_core(),
                opp == side.spec_opposite(),
                l0 == old(self).levels(opp),
                self.levels(side) == old(self).levels(side),
                self.market == old(self).market,
                self.base_mint == old(self).base_mint,
                self.quote_mint == old(self).quote_mint,
                self.next_queue_index == old(self).next_queue_index,
                side == Side::Bid ==> self.bids == old(self).bids,
                side == Side::Ask ==> self.asks == old(self).asks,
                remaining <= max_quantity,
                sum_queue_lens(self.order_queues@) <= old(self).total_orders,
                match_spec(l0, side, max_quantity, limit_price, taker_owner) == {
                    let cur = match_spec(
                        self.levels(opp),
                        side,
                        remaining,
                        limit_price,
                        taker_owner,
                    );
                    (fills@ + cur.0, cur.1)
                },
                done ==> match_spec(self.levels(opp), side, remaining, limit_price, taker_owner)
                    == (Seq::<(u64, u64, u128)>::empty(), self.levels(opp)),
            decreases (if done {
                0int
            } else {
                1int
            }), remaining,
        {
            proof {
                assert(self.levels(opp).dom() =~= self.side_tree(opp).dom());
                match side {
                    Side::Bid => {
                        self.asks.lemma_view_finite();
                    },
                    Side::Ask => {
                        self.bids.lemma_view_finite();
                    },
                }
                assert(self.levels(opp).dom().finite());
            }
            let best: Option<(u64, u32)> = match side {
                Side::Bid => self.asks.min(),
                Side::Ask => self.bids.max(),
            };
            match best {
                None => {
                    done = true;
                },
                Some((price, queue_index)) => {
                    proof {
                        match side {
                            Side::Bid => {
                                assert(is_min_of(self.levels(opp).dom(), price));
                                lemma_extremes_unique(
                                    self.levels(opp).dom(),
                                    price,
                                    best_crossing_price(self.levels(opp), side),
                                );
                            },
                            Side::Ask => {
                                assert(is_max_of(self.levels(opp).dom(), price));
                                lemma_extremes_unique(
                                    self.levels(opp).dom(),
                                    price,
                                    best_crossing_price(self.levels(opp), side),
                                );
                            },
                        }
                        assert(price == best_crossing_price(self.levels(opp), side));
                        assert(self.levels(opp).dom().len() > 0) by {
                            if self.levels(opp).dom().len() == 0 {
                                vstd::set_lib::lemma_set_empty_equivalency_len(
                                    self.levels(opp).dom(),
                                );
                            }
                        }
                        assert(self.levels(opp)[price] == self.order_queues[queue_index as int]@);
                        match side {
                            Side::Bid => {
                                assert(queue_holds_level(
                                    self.order_queues[self.asks@[price] as int],
                                    price,
                                    Side::Ask,
                                ));
                            },
                            Side::Ask => {
                                assert(queue_holds_level(
                                    self.order_queues[self.bids@[price] as int],
                                    price,
                                    Side::Bid,
                                ));
                            },
                        }
                    }
                    let acceptable: bool = match side {
                        Side::Bid => price <= limit_price,
                        Side::Ask => price >= limit_price,
                    };
                    if !acceptable {
                        done = true;
                    } else {
                        let head_owner: AccountId =
                            self.order_queues[queue_index as usize].orders[0].owner;
                        if head_owner == taker_owner {
                            done = true;
                        } else {
                            let head_quantity: u64 =
                                self.order_queues[queue_index as usize].orders[0].quantity;
                            let head_id: u128 =
                                self.order_queues[queue_index as usize].orders[0].order_id;
                            let fill: u64 = if remaining < head_quantity {
                                remaining
                            } else {
                                head_quantity
                            };
                            let ghost lcur = self.levels(opp);
                            let ghost fills_pre = fills@;
                            let ghost rem_pre = remaining;
                            fills.push((price, fill, head_id));
                            self.fill_at_level(side, price, queue_index, fill);
                            remaining = remaining - fill;
                            proof {
                                let step = match_spec(
                                    lcur,
                                    side,
                                    rem_pre,
                                    limit_price,
                                    taker_owner,
                                );
                                let rest = match_spec(
                                    self.levels(opp),
                                    side,
                                    remaining,
                                    limit_price,
                                    taker_owner,
                                );
                                assert(step.0 =~= seq![(price, fill, head_id)] + rest.0);
                                assert(step.1 == rest.1);
                                assert(fills@ =~= fills_pre.push((price, fill, head_id)));
                                assert(fills_pre + step.0 =~= fills@ + rest.0);
                            }
                        }
                    }
                }
            }
        }
        proof {
            let cur = match_spec(self.levels(opp), side, remaining, limit_price, taker_owner);
            if !done {
                assert(remaining == 0);
            }
            assert(cur.0 =~= Seq::<(u64, u64, u128)>::empty());
            assert(fills@ + cur.0 =~= fills@);
            assert(match_spec(l0, side, max_quantity, limit_price, taker_owner).0 == fills@);
            assert(match_spec(l0, side, max_quantity, limit_price, taker_owner).1 == self.levels(
                opp,
            ));
        }
        let ghost before_recount = *self;
        let mut total: u64 = 0;
        let mut i: usize = 0;
        let n: usize = self.order_queues.len();
        while i < n
            invariant
                *self == before_recount,
                self.wf_core(),
                sum_queue_lens(self.order_queues@) <= old(self).total_orders,
                n == self.order_queues@.len(),
                i <= n,
                total == sum_queue_lens(self.order_queues@.take(i as int)),
            decreases n - i,
        {
            proof {
                lemma_sum_queue_lens_prefix(self.order_queues@, i as int + 1);
                assert(self.order_queues@.take(i as int + 1).drop_last() =~= self.order_queues@
                    .take(i as int));
                assert(self.order_queues@.take(i as int + 1).last() == self.order_queues@[i as int]);
            }
            total = total + (self.order_queues[i].orders.len() as u64);
            i = i + 1;
        }
        proof {
            assert(self.order_queues@.take(n as int) =~= self.order_queues@);
        }
        self.total_orders = total;
        proof {
            assert(self.bids == before_recount.bids);
            assert(self.asks == before_recount.asks);
            assert(self.order_queues == before_recount.order_queues);
            assert(self.next_queue_index == before_recount.next_queue_index);
            assert forall|i: int| 0 <= i < self.order_queues@.len() implies self.slot_live(i)
                == before_recount.slot_live(i) by {
                assert(self.bids@ == before_recount.bids@);
                assert(self.asks@ == before_recount.asks@);
            }
            assert(self.wf_core());
        }
        self.update_best_prices();
        Ok(fills)
    }

    /// Refreshes the cached best prices from the trees.
    fn update_best_prices(&mut self)
        requires
            old(self).wf_core(),
        ensures
            final(self).wf_core(),
            *final(self) == (OrderBook {
                best_bid: final(self).best_bid,
                best_ask: final(self).best_ask,
                ..*old(self)
            }),
            if final(self).bids@.dom().len() == 0 {
                final(self).best_bid == 0
            } else {
                is_max_of(final(self).bids@.dom(), final(self).best_bid)
            },
            if final(self).asks@.dom().len() == 0 {
                final(self).best_ask == u64::MAX
            } else {
                is_min_of(final(self).asks@.dom(), final(self).best_ask)
            },
    {
        self.best_bid = match self.bids.max() {
            Some((p, _)) => p,
            None => 0,
        };
        self.best_ask = match self.asks.min() {
            Some((p, _)) => p,
            None => u64::MAX,
        };
        proof {
            assert(self.bids == old(self).bids);
            assert(self.asks == old(self).asks);
            assert(self.order_queues == old(self).order_queues);
            assert(self.next_queue_index == old(self).next_queue_index);
            assert forall|i: int| 0 <= i < self.order_queues@.len() implies self.slot_live(i)
                == old(self).slot_live(i) by {
                assert(self.bids@ == old(self).bids@);
                assert(self.asks@ == old(self).asks@);
            }
            assert(self.wf_core());
        }
    }
}

} // verus!
