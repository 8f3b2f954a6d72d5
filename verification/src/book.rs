//! The two-sided order book for one symbol: matching, resting, cancel,
//! modify and the aggregated depth snapshot.
//!
//! Both sides are kept best-price-first: `bids` in descending and `asks` in
//! ascending price order, so the matching walk always starts at index 0.
//! Every public operation is specified exactly against the recursive
//! functions of `crate::model`.

use vstd::prelude::*;

use crate::model::comes_before;
use crate::model::crosses;
use crate::model::fill_from_maker;
use crate::model::fills_qty;
use crate::model::insert_order;
use crate::model::match_levels;
use crate::model::match_queue;
use crate::model::lemma_has_id_concat;
use crate::model::lemma_insert_order_props;
use crate::model::lemma_match_levels_props;
use crate::model::lemma_no_dup_concat;
use crate::model::lemma_no_dup_join;
use crate::model::lemma_side_drop_absent;
use crate::model::lemma_side_drop_props;
use crate::model::modified_order;
use crate::model::no_dup_ids;
use crate::model::wf_order;
use crate::model::opposite;
use crate::model::order_with_remaining;
use crate::model::queue_drop_id;
use crate::model::queue_find;
use crate::model::queue_has_id;
use crate::model::queue_qty;
use crate::model::sat_queue_qty;
use crate::model::side_drop_id;
use crate::model::side_find;
use crate::model::side_orders;
use crate::model::singleton_level;
use crate::model::spec_can_full_match;
use crate::model::spec_would_match;
use crate::model::wf_side;
use crate::model::side_view;
use crate::model::Level;
use crate::model::SideView;
use crate::risk::consumed_credit;
use crate::risk::exceeds_position_map;
use crate::risk::rate_credit_map;
use crate::risk::RiskEngine;
use crate::types::check_submit_values;
use crate::types::submit_values_ok;
use crate::types::Fill;
use crate::types::Order;
use crate::types::OrderType;
use crate::types::RiskError;
use crate::types::Side;

verus! {

broadcast use crate::model::lemma_side_view_len, crate::model::lemma_side_view_index, crate::model::lemma_queue_qty_nonneg;

/// A two-sided book. `bids` descending by price, `asks` ascending, so the
/// best level of either side sits at index 0.
pub struct OrderBook {
    pub bids: Vec<Level>,
    pub asks: Vec<Level>,
}

impl OrderBook {
    pub open spec fn bids_view(self) -> SideView {
        side_view(self.bids@)
    }

    pub open spec fn asks_view(self) -> SideView {
        side_view(self.asks@)
    }

    /// The stored side of the given book side.
    pub open spec fn view_of(self, s: Side) -> SideView {
        match s {
            Side::Bid => self.bids_view(),
            Side::Ask => self.asks_view(),
        }
    }

    /// The side a taker of side `s` matches against.
    pub open spec fn opp_view(self, s: Side) -> SideView {
        self.view_of(opposite(s))
    }

    /// All resting orders, bids then asks.
    pub open spec fn orders(self) -> Seq<Order> {
        side_orders(self.bids_view()) + side_orders(self.asks_view())
    }

    /// Is an order with this id resting?
    pub open spec fn has_id(self, id: u64) -> bool {
        queue_has_id(self.orders(), id)
    }

    /// The resting order with this id, if any.
    pub open spec fn find(self, id: u64) -> Option<Order> {
        if side_find(self.bids_view(), id) is Some {
            side_find(self.bids_view(), id)
        } else {
            side_find(self.asks_view(), id)
        }
    }

    /// The book's invariant: both sides sorted best-first with non-empty,
    /// well-formed levels, and no order id resting twice.
    pub open spec fn wf(self) -> bool {
        &&& wf_side(self.bids_view(), Side::Bid)
        &&& wf_side(self.asks_view(), Side::Ask)
        &&& no_dup_ids(self.orders())
    }
}

/// What one accepted submission does to the book: the fills it emits, the
/// new opposite side, and the new own side.
pub open spec fn route_spec(book: OrderBook, o: Order) -> (Seq<Fill>, SideView, SideView) {
    route_sides(book.view_of(o.side), book.opp_view(o.side), o)
}

/// `route_spec` over the two sides themselves. A zero-quantity order can
/// never rest: a resting order must keep `remaining > 0`.
pub open spec fn route_sides(same: SideView, opp: SideView, o: Order) -> (
    Seq<Fill>,
    SideView,
    SideView,
) {
    match o.otype {
        OrderType::Market => {
            let m = match_levels(opp, o.user_id, o.id, o.side, o.price, true, o.remaining);
            (m.0, m.1, same)
        },
        OrderType::Limit => {
            let m = match_levels(opp, o.user_id, o.id, o.side, o.price, false, o.remaining);
            if m.2 > 0 {
                (m.0, m.1, insert_order(same, order_with_remaining(o, m.2), o.side))
            } else {
                (m.0, m.1, same)
            }
        },
        OrderType::IOC => {
            let m = match_levels(opp, o.user_id, o.id, o.side, o.price, false, o.remaining);
            (m.0, m.1, same)
        },
        OrderType::FOK => {
            if spec_can_full_match(opp, o.side, o.price, o.remaining) {
                let m = match_levels(opp, o.user_id, o.id, o.side, o.price, false, o.remaining);
                (m.0, m.1, same)
            } else {
                (Seq::<Fill>::empty(), opp, same)
            }
        },
        OrderType::PostOnly | OrderType::MakerOnly => {
            if spec_would_match(opp, o.side, o.price) || o.remaining == 0 {
                (Seq::<Fill>::empty(), opp, same)
            } else {
                (Seq::<Fill>::empty(), opp, insert_order(same, o, o.side))
            }
        },
    }
}

/// Executable form of `crosses`.
fn crosses_exec(taker_side: Side, taker_price: u64, level_price: u64) -> (r: bool)
    ensures
        r == crosses(taker_side, taker_price, level_price),
{
    match taker_side {
        Side::Bid => taker_price >= level_price,
        Side::Ask => taker_price <= level_price,
    }
}

/// Executable form of `comes_before`.
fn comes_before_exec(book_side: Side, a: u64, b: u64) -> (r: bool)
    ensures
        r == comes_before(book_side, a, b),
{
    match book_side {
        Side::Bid => a > b,
        Side::Ask => a < b,
    }
}

/// Copy of the queue from position `j` on.
fn copy_queue_from(q: &Vec<Order>, j: usize) -> (r: Vec<Order>)
    requires
        j <= q.len(),
    ensures
        r@ =~= q@.skip(j as int),
    decreases q.len() - j,
{
    if j == q.len() {
        Vec::new()
    } else {
        let mut rest = copy_queue_from(q, j + 1);
        rest.insert(0, q[j]);
        proof {
            assert(rest@ =~= q@.skip(j as int));
        }
        rest
    }
}

/// Copy of the side from level `i` on.
fn copy_levels_from(levels: &Vec<Level>, i: usize) -> (r: Vec<Level>)
    requires
        i <= levels.len(),
    ensures
        side_view(r@) =~= side_view(levels@).skip(i as int),
    decreases levels.len() - i,
{
    if i == levels.len() {
        Vec::new()
    } else {
        let q = copy_queue_from(&levels[i].queue, 0);
        let mut rest = copy_levels_from(levels, i + 1);
        let ghost pre = rest@;
        rest.insert(0, Level { price: levels[i].price, queue: q });
        proof {
            assert(q@ =~= levels@[i as int].queue@);
            assert forall|k: int| 0 <= k < rest@.len() implies side_view(rest@)[k] == side_view(
                levels@,
            ).skip(i as int)[k] by {
                if k > 0 {
                    assert(rest@[k] == pre[k - 1]);
                    assert(side_view(pre)[k - 1] == side_view(levels@).skip(i as int + 1)[k - 1]);
                }
            }
            assert(side_view(rest@) =~= side_view(levels@).skip(i as int));
        }
        rest
    }
}

/// The matching walk over one level's queue from position `j` on.
fn match_queue_into(
    q: &Vec<Order>,
    j: usize,
    taker_user: u64,
    taker_id: u64,
    level_price: u64,
    rem: u64,
) -> (r: (Vec<Fill>, Vec<Order>, u64))
    requires
        j <= q.len(),
    ensures
        ({
            let m = match_queue(q@.skip(j as int), taker_user, taker_id, level_price, rem);
            r.0@ == m.0 && r.1@ == m.1 && r.2 == m.2
        }),
    decreases q.len() - j,
{
    proof {
        assert(q@.skip(j as int).len() == q.len() - j);
    }
    if rem == 0 || j == q.len() {
        let kept = copy_queue_from(q, j);
        (Vec::new(), kept, rem)
    } else {
        let m = q[j];
        proof {
            assert(q@.skip(j as int)[0] == q@[j as int]);
            assert(q@.skip(j as int).drop_first() =~= q@.skip(j as int + 1));
        }
        if m.user_id == taker_user {
            let rec = match_queue_into(q, j + 1, taker_user, taker_id, level_price, rem);
            let mut kept = rec.1;
            kept.insert(0, m);
            proof {
                let ms = match_queue(q@.skip(j as int), taker_user, taker_id, level_price, rem);
                assert(kept@ =~= ms.1);
            }
            (rec.0, kept, rec.2)
        } else {
            let f = if rem <= m.remaining {
                rem
            } else {
                m.remaining
            };
            let fill = Fill { maker_id: m.id, taker_id: taker_id, price: level_price, qty: f };
            let rec = match_queue_into(q, j + 1, taker_user, taker_id, level_price, rem - f);
            let mut fills = rec.0;
            fills.insert(0, fill);
            let mut kept = rec.1;
            if m.remaining > f {
                kept.insert(
                    0,
                    Order {
                        id: m.id,
                        user_id: m.user_id,
                        side: m.side,
                        price: m.price,
                        qty: m.qty,
                        remaining: m.remaining - f,
                        otype: m.otype,
                    },
                );
            }
            proof {
                let ms = match_queue(q@.skip(j as int), taker_user, taker_id, level_price, rem);
                assert(fills@ =~= ms.0);
                assert(kept@ =~= ms.1);
            }
            (fills, kept, rec.2)
        }
    }
}

/// The matching walk over the opposite side from level `i` on.
fn match_into(
    levels: &Vec<Level>,
    i: usize,
    taker_user: u64,
    taker_id: u64,
    taker_side: Side,
    taker_price: u64,
    ignore_price: bool,
    rem: u64,
) -> (r: (Vec<Fill>, Vec<Level>, u64))
    requires
        i <= levels.len(),
    ensures
        ({
            let m = match_levels(
                side_view(levels@).skip(i as int),
                taker_user,
                taker_id,
                taker_side,
                taker_price,
                ignore_price,
                rem,
            );
            r.0@ == m.0 && side_view(r.1@) == m.1 && r.2 == m.2
        }),
    decreases levels.len() - i,
{
    proof {
        assert(side_view(levels@).skip(i as int).len() == levels.len() - i);
    }
    if rem == 0 || i == levels.len() {
        let kept = copy_levels_from(levels, i);
        (Vec::new(), kept, rem)
    } else {
        let level_price = levels[i].price;
        proof {
            assert(side_view(levels@).skip(i as int)[0] == (levels@[i as int].price, levels@[
                i as int
            ].queue@));
            assert(side_view(levels@).skip(i as int).drop_first() =~= side_view(levels@).skip(
                i as int + 1,
            ));
        }
        if !ignore_price && !crosses_exec(taker_side, taker_price, level_price) {
            let kept = copy_levels_from(levels, i);
            (Vec::new(), kept, rem)
        } else {
            proof {
                assert(levels@[i as int].queue@.skip(0) =~= levels@[i as int].queue@);
            }
            let lm = match_queue_into(&levels[i].queue, 0, taker_user, taker_id, level_price, rem);
            let rec = match_into(
                levels,
                i + 1,
                taker_user,
                taker_id,
                taker_side,
                taker_price,
                ignore_price,
                lm.2,
            );
            let mut fills = lm.0;
            let mut tail_fills = rec.0;
            fills.append(&mut tail_fills);
            let mut kept = rec.1;
            if lm.1.len() > 0 {
                kept.insert(0, Level { price: level_price, queue: lm.1 });
            }
            proof {
                let ms = match_levels(
                    side_view(levels@).skip(i as int),
                    taker_user,
                    taker_id,
                    taker_side,
                    taker_price,
                    ignore_price,
                    rem,
                );
                assert(fills@ =~= ms.0);
                assert(side_view(kept@) =~= ms.1);
            }
            (fills, kept, rec.2)
        }
    }
}

/// Saturating total of a queue's remaining quantity from position `j` on.
fn queue_total_from(q: &Vec<Order>, j: usize) -> (t: u64)
    requires
        j <= q.len(),
    ensures
        t == sat_queue_qty(q@.skip(j as int)),
    decreases q.len() - j,
{
    proof {
        assert(q@.skip(j as int).len() == q.len() - j);
    }
    if j == q.len() {
        0
    } else {
        proof {
            assert(q@.skip(j as int)[0] == q@[j as int]);
            assert(q@.skip(j as int).drop_first() =~= q@.skip(j as int + 1));
        }
        let rest = queue_total_from(q, j + 1);
        let a = q[j].remaining;
        proof {
            let qq = queue_qty(q@.skip(j as int));
            let qqr = queue_qty(q@.skip(j as int + 1));
            assert(qq == a + qqr);
            assert(rest == sat_queue_qty(q@.skip(j as int + 1)));
            if a > u64::MAX - rest {
                assert(qqr >= rest);
                assert(qq > u64::MAX);
            } else if qqr > u64::MAX {
                assert(a == 0);
                assert(qq > u64::MAX);
            } else {
                assert(qq == a + rest);
            }
        }
        if a > u64::MAX - rest {
            u64::MAX
        } else {
            a + rest
        }
    }
}

/// The fill-or-kill pre-scan from level `i` on.
fn can_full_from(
    levels: &Vec<Level>,
    i: usize,
    taker_side: Side,
    taker_price: u64,
    rem: u64,
) -> (r: bool)
    requires
        i <= levels.len(),
    ensures
        r == spec_can_full_match(side_view(levels@).skip(i as int), taker_side, taker_price, rem),
    decreases levels.len() - i,
{
    proof {
        assert(side_view(levels@).skip(i as int).len() == levels.len() - i);
    }
    if i == levels.len() {
        false
    } else {
        proof {
            assert(side_view(levels@).skip(i as int)[0] == (levels@[i as int].price, levels@[
                i as int
            ].queue@));
            assert(side_view(levels@).skip(i as int).drop_first() =~= side_view(levels@).skip(
                i as int + 1,
            ));
        }
        if !crosses_exec(taker_side, taker_price, levels[i].price) {
            false
        } else {
            proof {
                assert(levels@[i as int].queue@.skip(0) =~= levels@[i as int].queue@);
            }
            let lq = queue_total_from(&levels[i].queue, 0);
            proof {
                let qq = queue_qty(levels@[i as int].queue@);
                assert(lq == sat_queue_qty(levels@[i as int].queue@));
                if lq >= rem {
                    assert(qq >= rem);
                } else {
                    assert(qq == lq && qq < rem);
                }
            }
            if lq >= rem {
                true
            } else {
                can_full_from(levels, i + 1, taker_side, taker_price, rem - lq)
            }
        }
    }
}

/// Resting an order on a side, from level `i` on.
fn insert_from(levels: &Vec<Level>, i: usize, o: Order, book_side: Side) -> (r: Vec<Level>)
    requires
        i <= levels.len(),
    ensures
        side_view(r@) == insert_order(side_view(levels@).skip(i as int), o, book_side),
    decreases levels.len() - i,
{
    proof {
        assert(side_view(levels@).skip(i as int).len() == levels.len() - i);
        if i < levels.len() {
            assert(side_view(levels@).skip(i as int)[0] == (levels@[i as int].price, levels@[
                i as int
            ].queue@));
            assert(side_view(levels@).skip(i as int).drop_first() =~= side_view(levels@).skip(
                i as int + 1,
            ));
        }
    }
    if i == levels.len() {
        let mut q = Vec::new();
        q.push(o);
        let mut r = Vec::new();
        r.push(Level { price: o.price, queue: q });
        proof {
            assert(side_view(r@) =~= insert_order(
                side_view(levels@).skip(i as int),
                o,
                book_side,
            ));
        }
        r
    } else if levels[i].price == o.price {
        let mut q = copy_queue_from(&levels[i].queue, 0);
        proof {
            assert(q@ =~= levels@[i as int].queue@);
        }
        q.push(o);
        let mut rest = copy_levels_from(levels, i + 1);
        rest.insert(0, Level { price: o.price, queue: q });
        proof {
            assert(side_view(rest@) =~= insert_order(
                side_view(levels@).skip(i as int),
                o,
                book_side,
            ));
        }
        rest
    } else if comes_before_exec(book_side, o.price, levels[i].price) {
        let mut q = Vec::new();
        q.push(o);
        let mut rest = copy_levels_from(levels, i);
        rest.insert(0, Level { price: o.price, queue: q });
        proof {
            assert(side_view(rest@) =~= insert_order(
                side_view(levels@).skip(i as int),
                o,
                book_side,
            ));
        }
        rest
    } else {
        let q = copy_queue_from(&levels[i].queue, 0);
        proof {
            assert(q@ =~= levels@[i as int].queue@);
        }
        let mut rest = insert_from(levels, i + 1, o, book_side);
        rest.insert(0, Level { price: levels[i].price, queue: q });
        proof {
            assert(side_view(rest@) =~= insert_order(
                side_view(levels@).skip(i as int),
                o,
                book_side,
            ));
        }
        rest
    }
}

/// Search and removal of an id in one queue, from position `j` on.
fn cancel_queue_from(q: &Vec<Order>, j: usize, id: u64) -> (r: (Option<Order>, Vec<Order>))
    requires
        j <= q.len(),
    ensures
        r.0 == queue_find(q@.skip(j as int), id),
        r.1@ == queue_drop_id(q@.skip(j as int), id),
    decreases q.len() - j,
{
    proof {
        assert(q@.skip(j as int).len() == q.len() - j);
        if j < q.len() {
            assert(q@.skip(j as int)[0] == q@[j as int]);
            assert(q@.skip(j as int).drop_first() =~= q@.skip(j as int + 1));
        }
    }
    if j == q.len() {
        (None, Vec::new())
    } else if q[j].id == id {
        let kept = copy_queue_from(q, j + 1);
        (Some(q[j]), kept)
    } else {
        let rec = cancel_queue_from(q, j + 1, id);
        let mut kept = rec.1;
        kept.insert(0, q[j]);
        proof {
            assert(kept@ =~= queue_drop_id(q@.skip(j as int), id));
        }
        (rec.0, kept)
    }
}

/// Search and removal of an id on one side, from level `i` on.
fn cancel_from(levels: &Vec<Level>, i: usize, id: u64) -> (r: (Option<Order>, Vec<Level>))
    requires
        i <= levels.len(),
    ensures
        r.0 == side_find(side_view(levels@).skip(i as int), id),
        side_view(r.1@) == side_drop_id(side_view(levels@).skip(i as int), id),
    decreases levels.len() - i,
{
    proof {
        assert(side_view(levels@).skip(i as int).len() == levels.len() - i);
        if i < levels.len() {
            assert(side_view(levels@).skip(i as int)[0] == (levels@[i as int].price, levels@[
                i as int
            ].queue@));
            assert(side_view(levels@).skip(i as int).drop_first() =~= side_view(levels@).skip(
                i as int + 1,
            ));
        }
    }
    if i == levels.len() {
        (None, Vec::new())
    } else {
        proof {
            assert(levels@[i as int].queue@.skip(0) =~= levels@[i as int].queue@);
        }
        let lr = cancel_queue_from(&levels[i].queue, 0, id);
        match lr.0 {
            Some(o) => {
                let mut rest = copy_levels_from(levels, i + 1);
                if lr.1.len() > 0 {
                    rest.insert(0, Level { price: levels[i].price, queue: lr.1 });
                }
                proof {
                    assert(side_view(rest@) =~= side_drop_id(
                        side_view(levels@).skip(i as int),
                        id,
                    ));
                }
                (Some(o), rest)
            },
            None => {
                let q = copy_queue_from(&levels[i].queue, 0);
                proof {
                    assert(q@ =~= levels@[i as int].queue@);
                }
                let rec = cancel_from(levels, i + 1, id);
                let mut kept = rec.1;
                kept.insert(0, Level { price: levels[i].price, queue: q });
                proof {
                    assert(side_view(kept@) =~= side_drop_id(
                        side_view(levels@).skip(i as int),
                        id,
                    ));
                }
                (rec.0, kept)
            },
        }
    }
}

/// Depth rows `(price, saturated total remaining)` from level `i` on, at
/// most `depth` of them.
fn l2_from(levels: &Vec<Level>, i: usize, depth: usize) -> (r: Vec<(u64, u64)>)
    requires
        i <= levels.len(),
    ensures
        r@.len() == if depth <= levels.len() - i {
            depth as int
        } else {
            levels.len() - i
        },
        forall|k: int|
            0 <= k < r@.len() ==> #[trigger] r@[k] == (
                levels@[i + k].price,
                sat_queue_qty(levels@[i + k].queue@),
            ),
    decreases levels.len() - i,
{
    if depth == 0 || i == levels.len() {
        Vec::new()
    } else {
        let t = queue_total_from(&levels[i].queue, 0);
        proof {
            assert(levels@[i as int].queue@.skip(0) =~= levels@[i as int].queue@);
        }
        let mut rest = l2_from(levels, i + 1, depth - 1);
        rest.insert(0, (levels[i].price, t));
        rest
    }
}

impl OrderBook {
    /// An empty book.
    pub fn new() -> (r: Self)
        ensures
            r.bids_view() == Seq::<(u64, Seq<Order>)>::empty(),
            r.asks_view() == Seq::<(u64, Seq<Order>)>::empty(),
            r.wf(),
    {
        let r = OrderBook { bids: Vec::new(), asks: Vec::new() };
        proof {
            assert(r.bids_view() =~= Seq::<(u64, Seq<Order>)>::empty());
            assert(r.asks_view() =~= Seq::<(u64, Seq<Order>)>::empty());
            assert(r.orders() =~= Seq::<Order>::empty());
        }
        r
    }

    /// Would this order trade against the best opposite level?
    fn would_match(&self, incoming: &Order) -> (r: bool)
        ensures
            r == spec_would_match(self.opp_view(incoming.side), incoming.side, incoming.price),
    {
        match incoming.side {
            Side::Bid => {
                if self.asks.len() == 0 {
                    false
                } else {
                    crosses_exec(Side::Bid, incoming.price, self.asks[0].price)
                }
            },
            Side::Ask => {
                if self.bids.len() == 0 {
                    false
                } else {
                    crosses_exec(Side::Ask, incoming.price, self.bids[0].price)
                }
            },
        }
    }

    /// The fill-or-kill pre-scan over the whole opposite side.
    fn can_full_match(&self, incoming: &Order) -> (r: bool)
        ensures
            r == spec_can_full_match(
                self.opp_view(incoming.side),
                incoming.side,
                incoming.price,
                incoming.remaining,
            ),
    {
        let r = match incoming.side {
            Side::Bid => can_full_from(&self.asks, 0, Side::Bid, incoming.price, incoming.remaining),
            Side::Ask => can_full_from(&self.bids, 0, Side::Ask, incoming.price, incoming.remaining),
        };
        proof {
            assert(side_view(self.asks@).skip(0) =~= side_view(self.asks@));
            assert(side_view(self.bids@).skip(0) =~= side_view(self.bids@));
        }
        r
    }

    /// The full matching walk; returns the fills and the taker's leftover.
    fn match_order(&mut self, taker: Order, ignore_price: bool) -> (r: (Vec<Fill>, u64))
        ensures
            ({
                let m = match_levels(
                    old(self).opp_view(taker.side),
                    taker.user_id,
                    taker.id,
                    taker.side,
                    taker.price,
                    ignore_price,
                    taker.remaining,
                );
                r.0@ == m.0 && r.1 == m.2 && final(self).opp_view(taker.side) == m.1
                    && final(self).view_of(taker.side) == old(self).view_of(taker.side)
            }),
            old(self).wf() ==> final(self).wf(),
            old(self).wf() ==> (forall|k: int|
                0 <= k < r.0@.len() ==> fill_from_maker(
                    #[trigger] r.0@[k],
                    side_orders(old(self).opp_view(taker.side)),
                    taker.user_id,
                )),
            old(self).wf() ==> (forall|k1: int, k2: int|
                0 <= k1 < k2 < r.0@.len() ==> r.0@[k1].price == r.0@[k2].price || comes_before(
                    opposite(taker.side),
                    r.0@[k1].price,
                    r.0@[k2].price,
                )),
            old(self).wf() ==> ({
                let opp = old(self).opp_view(taker.side);
                forall|i: int, j1: int, j2: int, k2: int|
                    0 <= i < opp.len() && 0 <= j1 < j2 < opp[i].1.len() && 0 <= k2 < r.0@.len()
                        && (#[trigger] opp[i].1[j1]).user_id != taker.user_id && (
                    #[trigger] r.0@[k2]).maker_id == (#[trigger] opp[i].1[j2]).id ==> exists|
                        k1: int,
                    | 0 <= k1 < k2 && r.0@[k1].maker_id == opp[i].1[j1].id
            }),
    {
        proof {
            assert(side_view(self.asks@).skip(0) =~= side_view(self.asks@));
            assert(side_view(self.bids@).skip(0) =~= side_view(self.bids@));
        }
        match taker.side {
            Side::Bid => {
                let res = match_into(
                    &self.asks,
                    0,
                    taker.user_id,
                    taker.id,
                    Side::Bid,
                    taker.price,
                    ignore_price,
                    taker.remaining,
                );
                self.asks = res.1;
                proof {
                    if old(self).wf() {
                        lemma_no_dup_concat(
                            side_orders(old(self).bids_view()),
                            side_orders(old(self).asks_view()),
                        );
                        lemma_match_levels_props(
                            old(self).asks_view(),
                            taker.user_id,
                            taker.id,
                            Side::Bid,
                            taker.price,
                            ignore_price,
                            taker.remaining,
                            Side::Ask,
                        );
                        crate::laws::law_price_priority(
                            old(self).asks_view(),
                            taker.user_id,
                            taker.id,
                            Side::Bid,
                            taker.price,
                            ignore_price,
                            taker.remaining,
                            Side::Ask,
                        );
                        crate::laws::law_time_priority_levels(
                            old(self).asks_view(),
                            taker.user_id,
                            taker.id,
                            Side::Bid,
                            taker.price,
                            ignore_price,
                            taker.remaining,
                            Side::Ask,
                        );
                        assert forall|x: u64| !(#[trigger] queue_has_id(
                            side_orders(self.bids_view()),
                            x,
                        ) && queue_has_id(side_orders(self.asks_view()), x)) by {
                            if queue_has_id(side_orders(self.asks_view()), x) {
                                assert(queue_has_id(side_orders(old(self).asks_view()), x));
                            }
                        }
                        lemma_no_dup_join(
                            side_orders(self.bids_view()),
                            side_orders(self.asks_view()),
                        );
                    }
                }
                (res.0, res.2)
            },
            Side::Ask => {
                let res = match_into(
                    &self.bids,
                    0,
                    taker.user_id,
                    taker.id,
                    Side::Ask,
                    taker.price,
                    ignore_price,
                    taker.remaining,
                );
                self.bids = res.1;
                proof {
                    if old(self).wf() {
                        lemma_no_dup_concat(
                            side_orders(old(self).bids_view()),
                            side_orders(old(self).asks_view()),
                        );
                        lemma_match_levels_props(
                            old(self).bids_view(),
                            taker.user_id,
                            taker.id,
                            Side::Ask,
                            taker.price,
                            ignore_price,
                            taker.remaining,
                            Side::Bid,
                        );
                        crate::laws::law_price_priority(
                            old(self).bids_view(),
                            taker.user_id,
                            taker.id,
                            Side::Ask,
                            taker.price,
                            ignore_price,
                            taker.remaining,
                            Side::Bid,
                        );
                        crate::laws::law_time_priority_levels(
                            old(self).bids_view(),
                            taker.user_id,
                            taker.id,
                            Side::Ask,
                            taker.price,
                            ignore_price,
                            taker.remaining,
                            Side::Bid,
                        );
                        assert forall|x: u64| !(#[trigger] queue_has_id(
                            side_orders(self.bids_view()),
                            x,
                        ) && queue_has_id(side_orders(self.asks_view()), x)) by {
                            if queue_has_id(side_orders(self.bids_view()), x) {
                                assert(queue_has_id(side_orders(old(self).bids_view()), x));
                            }
                        }
                        lemma_no_dup_join(
                            side_orders(self.bids_view()),
                            side_orders(self.asks_view()),
                        );
                    }
                }
                (res.0, res.2)
            },
        }
    }

    /// Rest an order on its own side.
    fn add_to_book(&mut self, o: Order)
        requires
            o.side == Side::Bid || o.side == Side::Ask,
        ensures
            final(self).view_of(o.side) == insert_order(old(self).view_of(o.side), o, o.side),
            final(self).opp_view(o.side) == old(self).opp_view(o.side),
    {
        proof {
            assert(side_view(self.asks@).skip(0) =~= side_view(self.asks@));
            assert(side_view(self.bids@).skip(0) =~= side_view(self.bids@));
        }
        match o.side {
            Side::Bid => {
                self.bids = insert_from(&self.bids, 0, o, Side::Bid);
            },
            Side::Ask => {
                self.asks = insert_from(&self.asks, 0, o, Side::Ask);
            },
        }
    }
}

} // verus!

verus! {

/// What an accepted submission guarantees of the two sides it rewrites:
/// both stay well-formed and duplicate-free, no id appears from nowhere,
/// and the fills never exceed the submitted quantity.
pub proof fn lemma_route_sides_props(same: SideView, opp: SideView, o: Order)
    requires
        wf_side(same, o.side),
        wf_side(opp, opposite(o.side)),
        no_dup_ids(side_orders(same)),
        no_dup_ids(side_orders(opp)),
        forall|x: u64|
            !(#[trigger] queue_has_id(side_orders(same), x) && queue_has_id(side_orders(opp), x)),
        !queue_has_id(side_orders(same), o.id),
        !queue_has_id(side_orders(opp), o.id),
        o.remaining <= o.qty,
    ensures
        ({
            let eff = route_sides(same, opp, o);
            &&& wf_side(eff.1, opposite(o.side))
            &&& wf_side(eff.2, o.side)
            &&& no_dup_ids(side_orders(eff.2) + side_orders(eff.1))
            &&& no_dup_ids(side_orders(eff.1) + side_orders(eff.2))
            &&& forall|x: u64|
                #[trigger] queue_has_id(side_orders(eff.1), x) ==> queue_has_id(
                    side_orders(opp),
                    x,
                )
            &&& forall|x: u64|
                #[trigger] queue_has_id(side_orders(eff.2), x) ==> queue_has_id(
                    side_orders(same),
                    x,
                ) || x == o.id
            &&& fills_qty(eff.0) <= o.remaining
        }),
{
    let eff = route_sides(same, opp, o);
    assert(fills_qty(Seq::<Fill>::empty()) == 0);
    match o.otype {
        OrderType::Market | OrderType::Limit | OrderType::IOC | OrderType::FOK => {
            let ig = o.otype == OrderType::Market;
            if o.otype == OrderType::FOK && !spec_can_full_match(opp, o.side, o.price, o.remaining) {
                lemma_no_dup_join(side_orders(same), side_orders(opp));
            } else {
                let m = match_levels(opp, o.user_id, o.id, o.side, o.price, ig, o.remaining);
                lemma_match_levels_props(
                    opp,
                    o.user_id,
                    o.id,
                    o.side,
                    o.price,
                    ig,
                    o.remaining,
                    opposite(o.side),
                );
                if o.otype == OrderType::Limit && m.2 > 0 {
                    let o2 = order_with_remaining(o, m.2);
                    lemma_insert_order_props(same, o2, o.side);
                    let ins = insert_order(same, o2, o.side);
                    assert forall|x: u64| !(#[trigger] queue_has_id(side_orders(ins), x)
                        && queue_has_id(side_orders(m.1), x)) by {
                        if queue_has_id(side_orders(ins), x) && queue_has_id(
                            side_orders(m.1),
                            x,
                        ) {
                            assert(queue_has_id(side_orders(opp), x));
                            assert(queue_has_id(side_orders(same), x) || x == o.id);
                        }
                    }
                    lemma_no_dup_join(side_orders(ins), side_orders(m.1));
                } else {
                    assert forall|x: u64| !(#[trigger] queue_has_id(side_orders(same), x)
                        && queue_has_id(side_orders(m.1), x)) by {
                        if queue_has_id(side_orders(m.1), x) {
                            assert(queue_has_id(side_orders(opp), x));
                        }
                    }
                    lemma_no_dup_join(side_orders(same), side_orders(m.1));
                }
            }
        },
        OrderType::PostOnly | OrderType::MakerOnly => {
            if spec_would_match(opp, o.side, o.price) || o.remaining == 0 {
                lemma_no_dup_join(side_orders(same), side_orders(opp));
            } else {
                lemma_insert_order_props(same, o, o.side);
                let ins = insert_order(same, o, o.side);
                assert forall|x: u64| !(#[trigger] queue_has_id(side_orders(ins), x)
                    && queue_has_id(side_orders(opp), x)) by {
                    if queue_has_id(side_orders(ins), x) && queue_has_id(side_orders(opp), x) {
                        assert(queue_has_id(side_orders(same), x) || x == o.id);
                    }
                }
                lemma_no_dup_join(side_orders(ins), side_orders(opp));
            }
        },
    }
}

impl OrderBook {
    /// Submit one order: validate, pass the risk gate, then route by order
    /// type; returns the fills in the order they occurred, or the error.
    pub fn submit(
        &mut self,
        id: u64,
        user_id: u64,
        otype: OrderType,
        side: Side,
        price: u64,
        qty: u64,
        risk: &mut RiskEngine,
    ) -> (r: Result<Vec<Fill>, RiskError>)
        requires
            old(self).wf(),
            !old(self).has_id(id),
        ensures
            final(self).wf(),
            final(risk).position_limits_view() == old(risk).position_limits_view(),
            (r matches Err(e) && e == RiskError::PriceOutOfRange) <==> !submit_values_ok(
                price,
                qty,
            ),
            (r matches Err(e) && e == RiskError::PositionLimit) <==> (submit_values_ok(price, qty)
                && old(risk).spec_exceeds_position(user_id, qty)),
            (r matches Err(e) && e == RiskError::RateLimit) <==> (submit_values_ok(price, qty)
                && !old(risk).spec_exceeds_position(user_id, qty) && old(risk).spec_rate_credit(
                user_id,
            ) == 0),
            r is Err ==> final(self).bids_view() == old(self).bids_view()
                && final(self).asks_view() == old(self).asks_view(),
            final(risk).rate_limits_view() == (if submit_values_ok(price, qty)
                && !old(risk).spec_exceeds_position(user_id, qty) {
                old(risk).rate_limits_view().insert(
                    user_id,
                    consumed_credit(old(risk).spec_rate_credit(user_id)),
                )
            } else {
                old(risk).rate_limits_view()
            }),
            (r is Ok) == (submit_values_ok(price, qty) && !old(risk).spec_exceeds_position(
                user_id,
                qty,
            ) && old(risk).spec_rate_credit(user_id) != 0),
            r matches Ok(fills) ==> ({
                let o = Order {
                    id,
                    user_id,
                    side,
                    price,
                    qty,
                    remaining: qty,
                    otype,
                };
                let eff = route_spec(*old(self), o);
                &&& fills@ == eff.0
                &&& final(self).opp_view(side) == eff.1
                &&& final(self).view_of(side) == eff.2
            }),
            forall|x: u64| #[trigger] final(self).has_id(x) ==> old(self).has_id(x) || x == id,
            r matches Ok(fills) ==> fills_qty(fills@) <= qty,
    {
        if !check_submit_values(price, qty) {
            return Err(RiskError::PriceOutOfRange);
        }
        if risk.check_position_limit(user_id, qty) {
            return Err(RiskError::PositionLimit);
        }
        if risk.check_rate_limit(user_id) {
            return Err(RiskError::RateLimit);
        }
        let order = Order { id, user_id, side, price, qty, remaining: qty, otype };
        let ghost book0 = *self;
        proof {
            lemma_no_dup_concat(
                side_orders(book0.bids_view()),
                side_orders(book0.asks_view()),
            );
            lemma_has_id_concat(
                side_orders(book0.bids_view()),
                side_orders(book0.asks_view()),
                id,
            );
            assert forall|x: u64| !(#[trigger] queue_has_id(
                side_orders(book0.view_of(side)),
                x,
            ) && queue_has_id(side_orders(book0.opp_view(side)), x)) by {
                if side == Side::Bid {
                } else {
                    if queue_has_id(side_orders(book0.view_of(side)), x) && queue_has_id(
                        side_orders(book0.opp_view(side)),
                        x,
                    ) {
                        assert(queue_has_id(side_orders(book0.bids_view()), x) && queue_has_id(
                            side_orders(book0.asks_view()),
                            x,
                        ));
                    }
                }
            }
            lemma_route_sides_props(book0.view_of(side), book0.opp_view(side), order);
        }
        let fills = match otype {
            OrderType::Market => {
                let mr = self.match_order(order, true);
                mr.0
            },
            OrderType::Limit => {
                let mr = self.match_order(order, false);
                if mr.1 > 0 {
                    self.add_to_book(
                        Order {
                            id,
                            user_id,
                            side,
                            price,
                            qty,
                            remaining: mr.1,
                            otype,
                        },
                    );
                }
                mr.0
            },
            OrderType::IOC => {
                let mr = self.match_order(order, false);
                mr.0
            },
            OrderType::FOK => {
                if self.can_full_match(&order) {
                    let mr = self.match_order(order, false);
                    mr.0
                } else {
                    Vec::new()
                }
            },
            OrderType::PostOnly | OrderType::MakerOnly => {
                if self.would_match(&order) || order.remaining == 0 {
                    Vec::new()
                } else {
                    self.add_to_book(order);
                    Vec::new()
                }
            },
        };
        proof {
            let eff = route_sides(book0.view_of(side), book0.opp_view(side), order);
            assert(self.opp_view(side) == eff.1);
            assert(self.view_of(side) == eff.2);
            if side == Side::Bid {
                assert(self.bids_view() == eff.2 && self.asks_view() == eff.1);
            } else {
                assert(self.bids_view() == eff.1 && self.asks_view() == eff.2);
            }
            assert forall|x: u64| #[trigger] self.has_id(x) implies book0.has_id(x) || x
                == id by {
                lemma_has_id_concat(
                    side_orders(self.bids_view()),
                    side_orders(self.asks_view()),
                    x,
                );
                lemma_has_id_concat(
                    side_orders(book0.bids_view()),
                    side_orders(book0.asks_view()),
                    x,
                );
            }
        }
        Ok(fills)
    }

    /// Remove the resting order with this id, returning its descriptor.
    pub fn cancel(&mut self, id: u64) -> (r: Option<Order>)
        requires
            old(self).wf(),
        ensures
            final(self).wf(),
            r == old(self).find(id),
            (r is Some) == old(self).has_id(id),
            r matches Some(o) ==> o.id == id,
            final(self).bids_view() == (if side_find(old(self).bids_view(), id) is Some {
                side_drop_id(old(self).bids_view(), id)
            } else {
                old(self).bids_view()
            }),
            final(self).asks_view() == (if side_find(old(self).bids_view(), id) is Some {
                old(self).asks_view()
            } else {
                side_drop_id(old(self).asks_view(), id)
            }),
            forall|x: u64| #[trigger] final(self).has_id(x) ==> old(self).has_id(x),
            !final(self).has_id(id),
    {
        proof {
            assert(side_view(self.bids@).skip(0) =~= side_view(self.bids@));
            assert(side_view(self.asks@).skip(0) =~= side_view(self.asks@));
            lemma_side_drop_props(self.bids_view(), id, Side::Bid);
            lemma_side_drop_props(self.asks_view(), id, Side::Ask);
            lemma_no_dup_concat(side_orders(self.bids_view()), side_orders(self.asks_view()));
            lemma_has_id_concat(side_orders(self.bids_view()), side_orders(self.asks_view()), id);
        }
        let ghost book0 = *self;
        let rb = cancel_from(&self.bids, 0, id);
        match rb.0 {
            Some(o) => {
                self.bids = rb.1;
                proof {
                    assert forall|x: u64| !(#[trigger] queue_has_id(
                        side_orders(self.bids_view()),
                        x,
                    ) && queue_has_id(side_orders(self.asks_view()), x)) by {
                        if queue_has_id(side_orders(self.bids_view()), x) {
                            assert(queue_has_id(side_orders(book0.bids_view()), x));
                        }
                    }
                    lemma_no_dup_join(
                        side_orders(self.bids_view()),
                        side_orders(self.asks_view()),
                    );
                    assert forall|x: u64| #[trigger] self.has_id(x) implies book0.has_id(
                        x,
                    ) by {
                        lemma_has_id_concat(
                            side_orders(self.bids_view()),
                            side_orders(self.asks_view()),
                            x,
                        );
                        lemma_has_id_concat(
                            side_orders(book0.bids_view()),
                            side_orders(book0.asks_view()),
                            x,
                        );
                    }
                    assert(!self.has_id(id)) by {
                        lemma_has_id_concat(
                            side_orders(self.bids_view()),
                            side_orders(self.asks_view()),
                            id,
                        );
                    }
                }
                Some(o)
            },
            None => {
                let ra = cancel_from(&self.asks, 0, id);
                self.asks = ra.1;
                proof {
                    assert forall|x: u64| !(#[trigger] queue_has_id(
                        side_orders(self.bids_view()),
                        x,
                    ) && queue_has_id(side_orders(self.asks_view()), x)) by {
                        if queue_has_id(side_orders(self.asks_view()), x) {
                            assert(queue_has_id(side_orders(book0.asks_view()), x));
                        }
                    }
                    lemma_no_dup_join(
                        side_orders(self.bids_view()),
                        side_orders(self.asks_view()),
                    );
                    assert forall|x: u64| #[trigger] self.has_id(x) implies book0.has_id(
                        x,
                    ) by {
                        lemma_has_id_concat(
                            side_orders(self.bids_view()),
                            side_orders(self.asks_view()),
                            x,
                        );
                        lemma_has_id_concat(
                            side_orders(book0.bids_view()),
                            side_orders(book0.asks_view()),
                            x,
                        );
                    }
                    assert(!self.has_id(id)) by {
                        lemma_has_id_concat(
                            side_orders(self.bids_view()),
                            side_orders(self.asks_view()),
                            id,
                        );
                    }
                }
                ra.0
            },
        }
    }

    /// Cancel-and-re-add: the resting order loses its queue position; a new
    /// price or quantity replaces the old, a new quantity also resets the
    /// remaining quantity. No rematching happens. Unknown ids are ignored.
    pub fn modify(&mut self, id: u64, new_price: Option<u64>, new_qty: Option<u64>)
        requires
            old(self).wf(),
            new_qty matches Some(q) ==> q > 0,
        ensures
            final(self).wf(),
            old(self).find(id) is None ==> final(self).bids_view() == old(self).bids_view()
                && final(self).asks_view() == old(self).asks_view(),
            old(self).find(id) matches Some(o) ==> ({
                let o2 = modified_order(o, new_price, new_qty);
                &&& o.side == Side::Bid ==> final(self).bids_view() == insert_order(
                    side_drop_id(old(self).bids_view(), id),
                    o2,
                    Side::Bid,
                ) && final(self).asks_view() == old(self).asks_view()
                &&& o.side == Side::Ask ==> final(self).asks_view() == insert_order(
                    side_drop_id(old(self).asks_view(), id),
                    o2,
                    Side::Ask,
                ) && final(self).bids_view() == old(self).bids_view()
            }),
    {
        let ghost book0 = *self;
        proof {
            lemma_side_drop_props(self.bids_view(), id, Side::Bid);
            lemma_side_drop_props(self.asks_view(), id, Side::Ask);
            lemma_no_dup_concat(side_orders(self.bids_view()), side_orders(self.asks_view()));
        }
        let c = self.cancel(id);
        match c {
            Some(o) => {
                let p = match new_price {
                    Some(p) => p,
                    None => o.price,
                };
                let (q, rem) = match new_qty {
                    Some(q) => (q, q),
                    None => (o.qty, o.remaining),
                };
                let o2 = Order {
                    id: o.id,
                    user_id: o.user_id,
                    side: o.side,
                    price: p,
                    qty: q,
                    remaining: rem,
                    otype: o.otype,
                };
                proof {
                    assert(o2 == modified_order(o, new_price, new_qty));
                    lemma_no_dup_concat(
                        side_orders(self.bids_view()),
                        side_orders(self.asks_view()),
                    );
                    lemma_has_id_concat(
                        side_orders(self.bids_view()),
                        side_orders(self.asks_view()),
                        o2.id,
                    );
                    lemma_insert_order_props(self.view_of(o2.side), o2, o2.side);
                }
                let ghost book1 = *self;
                self.add_to_book(o2);
                proof {
                    let ins = insert_order(book1.view_of(o2.side), o2, o2.side);
                    if o2.side == Side::Bid {
                        assert(self.bids_view() == ins && self.asks_view() == book1.asks_view());
                    } else {
                        assert(self.asks_view() == ins && self.bids_view() == book1.bids_view());
                    }
                    assert forall|x: u64| !(#[trigger] queue_has_id(
                        side_orders(self.bids_view()),
                        x,
                    ) && queue_has_id(side_orders(self.asks_view()), x)) by {
                        if queue_has_id(side_orders(self.bids_view()), x) && queue_has_id(
                            side_orders(self.asks_view()),
                            x,
                        ) {
                            assert(queue_has_id(side_orders(book1.bids_view()), x) || x == o2.id);
                            assert(queue_has_id(side_orders(book1.asks_view()), x) || x == o2.id);
                            assert(!book1.has_id(o2.id));
                            lemma_has_id_concat(
                                side_orders(book1.bids_view()),
                                side_orders(book1.asks_view()),
                                x,
                            );
                        }
                    }
                    lemma_no_dup_join(
                        side_orders(self.bids_view()),
                        side_orders(self.asks_view()),
                    );
                }
            },
            None => {
                proof {
                    lemma_side_drop_absent(book0.asks_view(), id);
                }
            },
        }
    }

    /// Submit a list of orders in sequence; one failure does not stop the
    /// rest. Returns one result per submission, in order.
    pub fn batch_submit(
        &mut self,
        orders: Vec<(u64, u64, OrderType, Side, u64, u64)>,
        risk: &mut RiskEngine,
    ) -> (r: Vec<Result<Vec<Fill>, RiskError>>)
        requires
            old(self).wf(),
            forall|k: int|
                0 <= k < orders@.len() ==> !old(self).has_id((#[trigger] orders@[k]).0),
            forall|k1: int, k2: int|
                0 <= k1 < k2 < orders@.len() ==> (#[trigger] orders@[k1]).0 != (
                #[trigger] orders@[k2]).0,
        ensures
            final(self).wf(),
            r@.len() == orders@.len(),
            ({
                let f = batch_fold(
                    old(self).bids_view(),
                    old(self).asks_view(),
                    old(risk).position_limits_view(),
                    old(risk).rate_limits_view(),
                    orders@,
                );
                &&& forall|k: int|
                    0 <= k < r@.len() ==> result_matches(#[trigger] r@[k], f.0[k])
                &&& final(self).bids_view() == f.1
                &&& final(self).asks_view() == f.2
                &&& final(risk).position_limits_view() == f.3
                &&& final(risk).rate_limits_view() == f.4
            }),
    {
        let ghost full = batch_fold(
            self.bids_view(),
            self.asks_view(),
            risk.position_limits_view(),
            risk.rate_limits_view(),
            orders@,
        );
        proof {
            assert(orders@.skip(0) =~= orders@);
            lemma_batch_fold_len(
                self.bids_view(),
                self.asks_view(),
                risk.position_limits_view(),
                risk.rate_limits_view(),
                orders@,
            );
        }
        let mut results: Vec<Result<Vec<Fill>, RiskError>> = Vec::new();
        let mut i: usize = 0;
        while i < orders.len()
            invariant
                i <= orders.len(),
                results@.len() == i as int,
                self.wf(),
                forall|k: int|
                    i <= k < orders@.len() ==> !self.has_id((#[trigger] orders@[k]).0),
                forall|k1: int, k2: int|
                    0 <= k1 < k2 < orders@.len() ==> (#[trigger] orders@[k1]).0 != (
                    #[trigger] orders@[k2]).0,
                full == batch_fold(
                    old(self).bids_view(),
                    old(self).asks_view(),
                    old(risk).position_limits_view(),
                    old(risk).rate_limits_view(),
                    orders@,
                ),
                full.0.len() == orders@.len(),
                ({
                    let now = batch_fold(
                        self.bids_view(),
                        self.asks_view(),
                        risk.position_limits_view(),
                        risk.rate_limits_view(),
                        orders@.skip(i as int),
                    );
                    &&& now.0 == full.0.skip(i as int)
                    &&& now.1 == full.1
                    &&& now.2 == full.2
                    &&& now.3 == full.3
                    &&& now.4 == full.4
                }),
                forall|k: int|
                    0 <= k < i ==> result_matches(#[trigger] results@[k], full.0[k]),
            decreases orders.len() - i,
        {
            let t = orders[i];
            let ghost bv = self.bids_view();
            let ghost av = self.asks_view();
            let ghost pv = risk.position_limits_view();
            let ghost rv = risk.rate_limits_view();
            let res = self.submit(t.0, t.1, t.2, t.3, t.4, t.5, risk);
            proof {
                let ts = orders@;
                assert(ts.skip(i as int)[0] == ts[i as int]);
                assert(ts.skip(i as int).drop_first() =~= ts.skip(i as int + 1));
                let stp = submit_step(bv, av, pv, rv, t);
                if res is Ok {
                    if t.3 == Side::Bid {
                    } else {
                    }
                }
                assert(result_matches(res, stp.0));
                assert(self.bids_view() == stp.1);
                assert(self.asks_view() == stp.2);
                assert(risk.position_limits_view() == stp.3);
                assert(risk.rate_limits_view() == stp.4);
                let pre = batch_fold(bv, av, pv, rv, ts.skip(i as int));
                let post = batch_fold(stp.1, stp.2, stp.3, stp.4, ts.skip(i as int + 1));
                assert(pre.0 == full.0.skip(i as int));
                assert(full.0.len() == ts.len());
                assert(pre.0 == seq![stp.0] + post.0);
                assert(post.0 =~= pre.0.drop_first());
                assert(full.0.skip(i as int).drop_first() =~= full.0.skip(i as int + 1));
                assert(stp.0 == full.0.skip(i as int)[0]);
                assert(full.0.skip(i as int)[0] == full.0[i as int]);
            }
            results.push(res);
            i += 1;
        }
        proof {
            assert(orders@.skip(orders@.len() as int) =~= Seq::<(
                u64,
                u64,
                OrderType,
                Side,
                u64,
                u64,
            )>::empty());
        }
        results
    }

    /// The aggregated depth snapshot: up to `depth` best levels per side as
    /// `(price, total remaining)` rows, bids descending, asks ascending.
    pub fn get_l2_snapshot(&self, depth: usize) -> (r: (Vec<(u64, u64)>, Vec<(u64, u64)>))
        requires
            self.wf(),
        ensures
            r.0@.len() == (if depth as int <= self.bids_view().len() {
                depth as int
            } else {
                self.bids_view().len() as int
            }),
            r.1@.len() == (if depth as int <= self.asks_view().len() {
                depth as int
            } else {
                self.asks_view().len() as int
            }),
            forall|k: int|
                0 <= k < r.0@.len() ==> (#[trigger] r.0@[k]).0 == self.bids_view()[k].0 && r.0@[
                    k
                ].1 == sat_queue_qty(self.bids_view()[k].1),
            forall|k: int|
                0 <= k < r.1@.len() ==> (#[trigger] r.1@[k]).0 == self.asks_view()[k].0 && r.1@[
                    k
                ].1 == sat_queue_qty(self.asks_view()[k].1),
            forall|i: int, j: int| 0 <= i < j < r.0@.len() ==> r.0@[i].0 > r.0@[j].0,
            forall|i: int, j: int| 0 <= i < j < r.1@.len() ==> r.1@[i].0 < r.1@[j].0,
    {
        let b = l2_from(&self.bids, 0, depth);
        let a = l2_from(&self.asks, 0, depth);
        proof {
            assert forall|i: int, j: int| 0 <= i < j < b@.len() implies b@[i].0 > b@[j].0 by {
                assert(comes_before(Side::Bid, self.bids_view()[i].0, self.bids_view()[j].0));
            }
            assert forall|i: int, j: int| 0 <= i < j < a@.len() implies a@[i].0 < a@[j].0 by {
                assert(comes_before(Side::Ask, self.asks_view()[i].0, self.asks_view()[j].0));
            }
        }
        (b, a)
    }
}

} // verus!

verus! {

/// The full contract of one submission, relating the book's two sides and
/// the risk gate before and after to the returned value.
pub open spec fn submit_post(
    bids0: SideView,
    asks0: SideView,
    rk0: RiskEngine,
    bids1: SideView,
    asks1: SideView,
    rk1: RiskEngine,
    id: u64,
    user_id: u64,
    otype: OrderType,
    side: Side,
    price: u64,
    qty: u64,
    r: Result<Vec<Fill>, RiskError>,
) -> bool {
    let o = Order { id, user_id, side, price, qty, remaining: qty, otype };
    let same0 = if side == Side::Bid {
        bids0
    } else {
        asks0
    };
    let opp0 = if side == Side::Bid {
        asks0
    } else {
        bids0
    };
    let same1 = if side == Side::Bid {
        bids1
    } else {
        asks1
    };
    let opp1 = if side == Side::Bid {
        asks1
    } else {
        bids1
    };
    &&& rk1.position_limits_view() == rk0.position_limits_view()
    &&& ((r matches Err(e) && e == RiskError::PriceOutOfRange) <==> !submit_values_ok(price, qty))
    &&& ((r matches Err(e) && e == RiskError::PositionLimit) <==> (submit_values_ok(price, qty)
        && rk0.spec_exceeds_position(user_id, qty)))
    &&& ((r matches Err(e) && e == RiskError::RateLimit) <==> (submit_values_ok(price, qty)
        && !rk0.spec_exceeds_position(user_id, qty) && rk0.spec_rate_credit(user_id) == 0))
    &&& (r is Err ==> bids1 == bids0 && asks1 == asks0)
    &&& rk1.rate_limits_view() == (if submit_values_ok(price, qty) && !rk0.spec_exceeds_position(
        user_id,
        qty,
    ) {
        rk0.rate_limits_view().insert(user_id, consumed_credit(rk0.spec_rate_credit(user_id)))
    } else {
        rk0.rate_limits_view()
    })
    &&& ((r is Ok) == (submit_values_ok(price, qty) && !rk0.spec_exceeds_position(user_id, qty)
        && rk0.spec_rate_credit(user_id) != 0))
    &&& (r matches Ok(fills) ==> ({
        let eff = route_sides(same0, opp0, o);
        &&& fills@ == eff.0
        &&& opp1 == eff.1
        &&& same1 == eff.2
    }))
}

/// The full contract of one depth snapshot of a well-formed book.
pub open spec fn l2_post(b: OrderBook, depth: usize, out: (Seq<(u64, u64)>, Seq<(u64, u64)>)) -> bool {
    &&& out.0.len() == (if depth as int <= b.bids_view().len() {
        depth as int
    } else {
        b.bids_view().len() as int
    })
    &&& out.1.len() == (if depth as int <= b.asks_view().len() {
        depth as int
    } else {
        b.asks_view().len() as int
    })
    &&& forall|k: int|
        0 <= k < out.0.len() ==> (#[trigger] out.0[k]).0 == b.bids_view()[k].0 && out.0[k].1
            == sat_queue_qty(b.bids_view()[k].1)
    &&& forall|k: int|
        0 <= k < out.1.len() ==> (#[trigger] out.1[k]).0 == b.asks_view()[k].0 && out.1[k].1
            == sat_queue_qty(b.asks_view()[k].1)
    &&& forall|i: int, j: int| 0 <= i < j < out.0.len() ==> out.0[i].0 > out.0[j].0
    &&& forall|i: int, j: int| 0 <= i < j < out.1.len() ==> out.1[i].0 < out.1[j].0
}

} // verus!

verus! {

/// One submission's effect at the level of side views and risk maps: the
/// outcome (error or fills) and the state after.
pub open spec fn submit_step(
    bids: SideView,
    asks: SideView,
    pos: Map<u64, u64>,
    rate: Map<u64, u64>,
    t: (u64, u64, OrderType, Side, u64, u64),
) -> ((Option<RiskError>, Seq<Fill>), SideView, SideView, Map<u64, u64>, Map<u64, u64>) {
    let o = Order {
        id: t.0,
        user_id: t.1,
        side: t.3,
        price: t.4,
        qty: t.5,
        remaining: t.5,
        otype: t.2,
    };
    if !submit_values_ok(t.4, t.5) {
        ((Some(RiskError::PriceOutOfRange), Seq::<Fill>::empty()), bids, asks, pos, rate)
    } else if exceeds_position_map(pos, t.1, t.5) {
        ((Some(RiskError::PositionLimit), Seq::<Fill>::empty()), bids, asks, pos, rate)
    } else if rate_credit_map(rate, t.1) == 0 {
        ((Some(RiskError::RateLimit), Seq::<Fill>::empty()), bids, asks, pos, rate.insert(t.1, 0))
    } else {
        let same = if t.3 == Side::Bid {
            bids
        } else {
            asks
        };
        let opp = if t.3 == Side::Bid {
            asks
        } else {
            bids
        };
        let eff = route_sides(same, opp, o);
        let bids2 = if t.3 == Side::Bid {
            eff.2
        } else {
            eff.1
        };
        let asks2 = if t.3 == Side::Bid {
            eff.1
        } else {
            eff.2
        };
        (
            (None, eff.0),
            bids2,
            asks2,
            pos,
            rate.insert(t.1, (rate_credit_map(rate, t.1) - 1) as u64),
        )
    }
}

/// A batch of submissions applied left to right.
pub open spec fn batch_fold(
    bids: SideView,
    asks: SideView,
    pos: Map<u64, u64>,
    rate: Map<u64, u64>,
    ts: Seq<(u64, u64, OrderType, Side, u64, u64)>,
) -> (Seq<(Option<RiskError>, Seq<Fill>)>, SideView, SideView, Map<u64, u64>, Map<u64, u64>)
    decreases ts.len(),
{
    if ts.len() == 0 {
        (Seq::<(Option<RiskError>, Seq<Fill>)>::empty(), bids, asks, pos, rate)
    } else {
        let s = submit_step(bids, asks, pos, rate, ts[0]);
        let rest = batch_fold(s.1, s.2, s.3, s.4, ts.drop_first());
        (seq![s.0] + rest.0, rest.1, rest.2, rest.3, rest.4)
    }
}

/// A batch produces one outcome per submission.
pub proof fn lemma_batch_fold_len(
    bids: SideView,
    asks: SideView,
    pos: Map<u64, u64>,
    rate: Map<u64, u64>,
    ts: Seq<(u64, u64, OrderType, Side, u64, u64)>,
)
    ensures
        batch_fold(bids, asks, pos, rate, ts).0.len() == ts.len(),
    decreases ts.len(),
{
    if ts.len() > 0 {
        let s = submit_step(bids, asks, pos, rate, ts[0]);
        lemma_batch_fold_len(s.1, s.2, s.3, s.4, ts.drop_first());
    }
}

/// A returned result agrees with a modeled outcome.
pub open spec fn result_matches(
    r: Result<Vec<Fill>, RiskError>,
    s: (Option<RiskError>, Seq<Fill>),
) -> bool {
    match r {
        Ok(fills) => s.0 is None && fills@ == s.1,
        Err(e) => s.0 == Some(e),
    }
}

} // verus!
