//! The laws of the matching engine, stated and proved over the model that
//! the executable contracts are written against.

use vstd::prelude::*;

use crate::book::route_sides;
use crate::book::OrderBook;
use crate::model::comes_before;
use crate::model::crosses;
use crate::model::fill_from_maker;
use crate::model::fills_qty;
use crate::model::has_price;
use crate::model::insert_order;
use crate::model::lemma_has_id_concat;
use crate::model::lemma_insert_order_props;
use crate::model::lemma_match_levels_props;
use crate::model::lemma_match_queue_props;
use crate::model::lemma_no_dup_concat;
use crate::model::lemma_queue_qty_nonneg;
use crate::model::lemma_side_drop_props;
use crate::model::match_levels;
use crate::model::match_queue;
use crate::model::modified_order;
use crate::model::no_dup_ids;
use crate::model::opposite;
use crate::model::queue_has_id;
use crate::model::queue_qty;
use crate::model::side_drop_id;
use crate::model::side_find;
use crate::model::side_orders;
use crate::model::spec_can_full_match;
use crate::model::spec_would_match;
use crate::model::wf_level;
use crate::model::wf_order;
use crate::model::wf_side;
use crate::model::SideView;
use crate::types::Fill;
use crate::types::Order;
use crate::types::OrderType;
use crate::types::Side;

verus! {

/// Conservation of quantity: one matching walk emits fills totaling exactly
/// the taker quantity it consumed, and never consumes more than was
/// submitted.
pub proof fn law_fill_conservation(
    levels: SideView,
    taker_user: u64,
    taker_id: u64,
    taker_side: Side,
    taker_price: u64,
    ignore_price: bool,
    rem: u64,
    book_side: Side,
)
    requires
        wf_side(levels, book_side),
    ensures
        ({
            let m = match_levels(
                levels,
                taker_user,
                taker_id,
                taker_side,
                taker_price,
                ignore_price,
                rem,
            );
            fills_qty(m.0) == rem - m.2 && m.2 <= rem
        }),
{
    lemma_match_levels_props(
        levels,
        taker_user,
        taker_id,
        taker_side,
        taker_price,
        ignore_price,
        rem,
        book_side,
    );
}

/// No self-trade: every fill of a matching walk names a resting maker
/// whose user differs from the taker's user.
pub proof fn law_no_self_trade(
    levels: SideView,
    taker_user: u64,
    taker_id: u64,
    taker_side: Side,
    taker_price: u64,
    ignore_price: bool,
    rem: u64,
    book_side: Side,
)
    requires
        wf_side(levels, book_side),
    ensures
        ({
            let m = match_levels(
                levels,
                taker_user,
                taker_id,
                taker_side,
                taker_price,
                ignore_price,
                rem,
            );
            forall|k: int|
                0 <= k < m.0.len() ==> fill_from_maker(
                    #[trigger] m.0[k],
                    side_orders(levels),
                    taker_user,
                )
        }),
{
    lemma_match_levels_props(
        levels,
        taker_user,
        taker_id,
        taker_side,
        taker_price,
        ignore_price,
        rem,
        book_side,
    );
}

/// Fill price: every fill executes at its maker's resting price (which
/// `fill_from_maker` states), never at the taker's own price.
pub proof fn law_fill_price(
    levels: SideView,
    taker_user: u64,
    taker_id: u64,
    taker_side: Side,
    taker_price: u64,
    ignore_price: bool,
    rem: u64,
    book_side: Side,
)
    requires
        wf_side(levels, book_side),
    ensures
        ({
            let m = match_levels(
                levels,
                taker_user,
                taker_id,
                taker_side,
                taker_price,
                ignore_price,
                rem,
            );
            forall|k: int|
                0 <= k < m.0.len() ==> (exists|j: int|
                    0 <= j < side_orders(levels).len() && side_orders(levels)[j].id == (
                    #[trigger] m.0[k]).maker_id && m.0[k].price == side_orders(levels)[j].price)
        }),
{
    lemma_match_levels_props(
        levels,
        taker_user,
        taker_id,
        taker_side,
        taker_price,
        ignore_price,
        rem,
        book_side,
    );
    let m = match_levels(levels, taker_user, taker_id, taker_side, taker_price, ignore_price, rem);
    assert forall|k: int| 0 <= k < m.0.len() implies (exists|j: int|
        0 <= j < side_orders(levels).len() && side_orders(levels)[j].id == (
        #[trigger] m.0[k]).maker_id && m.0[k].price == side_orders(levels)[j].price) by {
        assert(fill_from_maker(m.0[k], side_orders(levels), taker_user));
        let j = choose|j: int|
            0 <= j < side_orders(levels).len() && side_orders(levels)[j].id == m.0[k].maker_id
                && side_orders(levels)[j].user_id != taker_user && m.0[k].price == side_orders(
                levels,
            )[j].price && m.0[k].qty <= side_orders(levels)[j].remaining;
        assert(side_orders(levels)[j].id == m.0[k].maker_id);
    }
}

/// Price priority: the fills of one matching walk carry level prices of the
/// walked side, and they appear best price first.
pub proof fn law_price_priority(
    levels: SideView,
    taker_user: u64,
    taker_id: u64,
    taker_side: Side,
    taker_price: u64,
    ignore_price: bool,
    rem: u64,
    book_side: Side,
)
    requires
        wf_side(levels, book_side),
    ensures
        ({
            let m = match_levels(
                levels,
                taker_user,
                taker_id,
                taker_side,
                taker_price,
                ignore_price,
                rem,
            );
            &&& forall|k: int|
                0 <= k < m.0.len() ==> has_price(levels, (#[trigger] m.0[k]).price)
            &&& forall|k1: int, k2: int|
                0 <= k1 < k2 < m.0.len() ==> m.0[k1].price == m.0[k2].price || comes_before(
                    book_side,
                    m.0[k1].price,
                    m.0[k2].price,
                )
        }),
    decreases levels.len(),
{
    let m = match_levels(levels, taker_user, taker_id, taker_side, taker_price, ignore_price, rem);
    if rem == 0 || levels.len() == 0 {
    } else if !ignore_price && !crosses(taker_side, taker_price, levels[0].0) {
    } else {
        let l0 = levels[0];
        let ld = levels.drop_first();
        assert(forall|i: int| 0 <= i < ld.len() ==> ld[i] == levels[i + 1]);
        assert(wf_level(levels[0], book_side));
        assert forall|i: int| 0 <= i < ld.len() implies wf_level(#[trigger] ld[i], book_side) by {
            assert(wf_level(levels[i + 1], book_side));
        }
        assert forall|i: int, j: int| 0 <= i < j < ld.len() implies comes_before(
            book_side,
            #[trigger] ld[i].0,
            #[trigger] ld[j].0,
        ) by {
            assert(comes_before(book_side, levels[i + 1].0, levels[j + 1].0));
        }
        let lm = match_queue(l0.1, taker_user, taker_id, l0.0, rem);
        lemma_match_queue_props(l0.1, taker_user, taker_id, l0.0, rem, book_side);
        law_price_priority(
            ld,
            taker_user,
            taker_id,
            taker_side,
            taker_price,
            ignore_price,
            lm.2,
            book_side,
        );
        let rest = match_levels(ld, taker_user, taker_id, taker_side, taker_price, ignore_price, lm.2);
        assert(m.0 == lm.0 + rest.0);
        assert forall|k: int| 0 <= k < lm.0.len() implies lm.0[k].price == l0.0 by {
            assert(fill_from_maker(lm.0[k], l0.1, taker_user));
            let j = choose|j: int|
                0 <= j < l0.1.len() && l0.1[j].id == lm.0[k].maker_id && l0.1[j].user_id
                    != taker_user && lm.0[k].price == l0.1[j].price && lm.0[k].qty <= l0.1[
                    j
                ].remaining;
            assert(wf_order(l0.1[j], l0.0, book_side));
        }
        assert forall|k: int| 0 <= k < m.0.len() implies has_price(
            levels,
            (#[trigger] m.0[k]).price,
        ) by {
            if k < lm.0.len() {
                assert(m.0[k] == lm.0[k]);
                assert(levels[0].0 == m.0[k].price);
            } else {
                assert(m.0[k] == rest.0[k - lm.0.len()]);
                assert(has_price(ld, rest.0[k - lm.0.len()].price));
                let i0 = choose|i0: int| 0 <= i0 < ld.len() && ld[i0].0 == m.0[k].price;
                assert(levels[i0 + 1].0 == m.0[k].price);
            }
        }
        assert forall|k1: int, k2: int| 0 <= k1 < k2 < m.0.len() implies m.0[k1].price == m.0[
            k2
        ].price || comes_before(book_side, m.0[k1].price, m.0[k2].price) by {
            if k2 < lm.0.len() {
                assert(m.0[k1].price == l0.0 && m.0[k2].price == l0.0);
            } else if k1 < lm.0.len() {
                assert(m.0[k1].price == l0.0);
                assert(m.0[k2] == rest.0[k2 - lm.0.len()]);
                let p2 = m.0[k2].price;
                assert(has_price(ld, p2));
                if p2 != l0.0 {
                    let i0 = choose|i0: int| 0 <= i0 < ld.len() && ld[i0].0 == p2;
                    assert(comes_before(book_side, levels[0].0, levels[i0 + 1].0));
                }
            } else {
                assert(m.0[k1] == rest.0[k1 - lm.0.len()] && m.0[k2] == rest.0[k2 - lm.0.len()]);
            }
        }
    }
}

/// Post-only never crosses: a post-only (or maker-only) submission emits no
/// fill, and when it would have crossed the best opposite level it does not
/// rest either.
pub proof fn law_postonly_never_crosses(same: SideView, opp: SideView, o: Order)
    requires
        o.otype == OrderType::PostOnly || o.otype == OrderType::MakerOnly,
    ensures
        route_sides(same, opp, o).0.len() == 0,
        spec_would_match(opp, o.side, o.price) || o.remaining == 0 ==> route_sides(
            same,
            opp,
            o,
        ).2 == same && route_sides(same, opp, o).1 == opp,
        !spec_would_match(opp, o.side, o.price) && o.remaining > 0 ==> route_sides(
            same,
            opp,
            o,
        ).2 == insert_order(same, o, o.side),
{
}

/// One queue walk with no same-user makers consumes exactly the smaller of
/// the taker's quantity and the queue's resting quantity.
proof fn lemma_match_queue_consumes(
    q: Seq<Order>,
    taker_user: u64,
    taker_id: u64,
    level_price: u64,
    rem: u64,
)
    requires
        forall|j: int| 0 <= j < q.len() ==> (#[trigger] q[j]).user_id != taker_user,
    ensures
        ({
            let r = match_queue(q, taker_user, taker_id, level_price, rem);
            r.2 == if rem <= queue_qty(q) {
                0
            } else {
                (rem - queue_qty(q)) as u64
            }
        }),
    decreases q.len(),
{
    lemma_queue_qty_nonneg(q);
    if rem == 0 || q.len() == 0 {
    } else {
        let qd = q.drop_first();
        assert(forall|j: int| 0 <= j < qd.len() ==> qd[j] == q[j + 1]);
        lemma_queue_qty_nonneg(qd);
        let m = q[0];
        let f = if rem <= m.remaining {
            rem
        } else {
            m.remaining
        };
        lemma_match_queue_consumes(qd, taker_user, taker_id, level_price, (rem - f) as u64);
    }
}

/// A level walk with no same-user makers that passed the fill-or-kill
/// pre-scan leaves nothing of the taker's quantity.
proof fn lemma_match_levels_consumes(
    levels: SideView,
    taker_user: u64,
    taker_id: u64,
    taker_side: Side,
    taker_price: u64,
    rem: u64,
)
    requires
        forall|i: int, j: int|
            0 <= i < levels.len() && 0 <= j < levels[i].1.len() ==> (#[trigger] levels[i].1[
                j
            ]).user_id != taker_user,
        spec_can_full_match(levels, taker_side, taker_price, rem),
    ensures
        match_levels(levels, taker_user, taker_id, taker_side, taker_price, false, rem).2 == 0,
    decreases levels.len(),
{
    let l0 = levels[0];
    lemma_queue_qty_nonneg(l0.1);
    assert forall|j: int| 0 <= j < l0.1.len() implies (#[trigger] l0.1[j]).user_id
        != taker_user by {
        assert(levels[0].1[j].user_id != taker_user);
    }
    lemma_match_queue_consumes(l0.1, taker_user, taker_id, l0.0, rem);
    let lm = match_queue(l0.1, taker_user, taker_id, l0.0, rem);
    let ld = levels.drop_first();
    assert(forall|i: int| 0 <= i < ld.len() ==> ld[i] == levels[i + 1]);
    let m = match_levels(levels, taker_user, taker_id, taker_side, taker_price, false, rem);
    let rest = match_levels(ld, taker_user, taker_id, taker_side, taker_price, false, lm.2);
    assert(crosses(taker_side, taker_price, levels[0].0));
    if rem == 0 {
        assert(m.2 == 0);
    } else if queue_qty(l0.1) >= rem {
        assert(lm.2 == 0);
        assert(rest.2 == 0);
        assert(m.2 == rest.2);
    } else {
        assert forall|i: int, j: int|
            0 <= i < ld.len() && 0 <= j < ld[i].1.len() implies (#[trigger] ld[i].1[j]).user_id
            != taker_user by {
            assert(levels[i + 1].1[j].user_id != taker_user);
        }
        lemma_match_levels_consumes(
            ld,
            taker_user,
            taker_id,
            taker_side,
            taker_price,
            (rem - queue_qty(l0.1)) as u64,
        );
        assert(lm.2 == (rem - queue_qty(l0.1)) as u64);
        assert(rest.2 == 0);
        assert(m.2 == rest.2);
    }
}

/// Fill-or-kill atomicity, away from the self-trade caveat: when no
/// opposite-side maker belongs to the submitting user, a fill-or-kill
/// submission either fills its quantity exactly or touches nothing.
pub proof fn law_fok_atomicity(same: SideView, opp: SideView, o: Order)
    requires
        o.otype == OrderType::FOK,
        wf_side(opp, opposite(o.side)),
        forall|i: int, j: int|
            0 <= i < opp.len() && 0 <= j < opp[i].1.len() ==> (#[trigger] opp[i].1[j]).user_id
                != o.user_id,
    ensures
        ({
            let eff = route_sides(same, opp, o);
            &&& spec_can_full_match(opp, o.side, o.price, o.remaining) ==> fills_qty(eff.0)
                == o.remaining
            &&& !spec_can_full_match(opp, o.side, o.price, o.remaining) ==> eff.0.len() == 0
                && eff.1 == opp && eff.2 == same
        }),
{
    if spec_can_full_match(opp, o.side, o.price, o.remaining) {
        lemma_match_levels_consumes(opp, o.user_id, o.id, o.side, o.price, o.remaining);
        lemma_match_levels_props(
            opp,
            o.user_id,
            o.id,
            o.side,
            o.price,
            false,
            o.remaining,
            opposite(o.side),
        );
    }
}

/// Modification with neither a new price nor a new quantity rewrites
/// nothing of the order: the re-added order is identical, only its queue
/// position is lost; and it is findable again under its id.
pub proof fn law_modify_identity(b: OrderBook, o: Order)
    requires
        b.wf(),
        b.find(o.id) == Some(o),
    ensures
        modified_order(o, None, None) == o,
        o.side == Side::Bid ==> side_find(
            insert_order(side_drop_id(b.bids_view(), o.id), o, Side::Bid),
            o.id,
        ) == Some(o),
        o.side == Side::Ask ==> side_find(
            insert_order(side_drop_id(b.asks_view(), o.id), o, Side::Ask),
            o.id,
        ) == Some(o),
{
    lemma_no_dup_concat(side_orders(b.bids_view()), side_orders(b.asks_view()));
    lemma_side_drop_props(b.bids_view(), o.id, Side::Bid);
    lemma_side_drop_props(b.asks_view(), o.id, Side::Ask);
    if side_find(b.bids_view(), o.id) is Some {
        assert(wf_order(o, o.price, Side::Bid));
        lemma_insert_order_props(side_drop_id(b.bids_view(), o.id), o, Side::Bid);
    } else {
        assert(wf_order(o, o.price, Side::Ask));
        lemma_insert_order_props(side_drop_id(b.asks_view(), o.id), o, Side::Ask);
    }
}

/// Recursive id-uniqueness implies pairwise distinctness.
proof fn lemma_no_dup_pairwise(s: Seq<Order>)
    requires
        no_dup_ids(s),
    ensures
        forall|i: int, j: int| 0 <= i < j < s.len() ==> s[i].id != s[j].id,
    decreases s.len(),
{
    if s.len() > 0 {
        lemma_no_dup_pairwise(s.drop_first());
        assert forall|i: int, j: int| 0 <= i < j < s.len() implies s[i].id != s[j].id by {
            if i == 0 {
                if s[0].id == s[j].id {
                    assert(s.drop_first()[j - 1].id == s[0].id);
                    assert(queue_has_id(s.drop_first(), s[0].id));
                }
            } else {
                assert(s.drop_first()[i - 1].id != s.drop_first()[j - 1].id);
            }
        }
    }
}

/// The id lookup is a bijection over the resting orders: no id rests twice,
/// and an id is held by a resting order exactly when the lookup finds one.
pub proof fn law_by_id_bijective(b: OrderBook)
    requires
        b.wf(),
    ensures
        forall|i: int, j: int|
            0 <= i < j < b.orders().len() ==> (#[trigger] b.orders()[i]).id != (
            #[trigger] b.orders()[j]).id,
        forall|id: u64| #[trigger] b.has_id(id) == (b.find(id) is Some),
{
    lemma_no_dup_pairwise(b.orders());
    assert forall|id: u64| #[trigger] b.has_id(id) == (b.find(id) is Some) by {
        lemma_has_id_concat(side_orders(b.bids_view()), side_orders(b.asks_view()), id);
        lemma_side_drop_props(b.bids_view(), id, Side::Bid);
        lemma_side_drop_props(b.asks_view(), id, Side::Ask);
    }
}

} // verus!

verus! {

/// Time priority: within one price level, if a later-resting maker received
/// a fill, then every earlier-resting maker of another user received one
/// too, and earlier in the fill list.
pub proof fn law_time_priority(
    q: Seq<Order>,
    taker_user: u64,
    taker_id: u64,
    level_price: u64,
    rem: u64,
)
    requires
        no_dup_ids(q),
    ensures
        ({
            let r = match_queue(q, taker_user, taker_id, level_price, rem);
            forall|j1: int, j2: int, k2: int|
                0 <= j1 < j2 < q.len() && 0 <= k2 < r.0.len() && (#[trigger] q[j1]).user_id
                    != taker_user && (#[trigger] r.0[k2]).maker_id == (#[trigger] q[j2]).id
                    ==> exists|k1: int| 0 <= k1 < k2 && r.0[k1].maker_id == q[j1].id
        }),
    decreases q.len(),
{
    let r = match_queue(q, taker_user, taker_id, level_price, rem);
    if rem == 0 || q.len() == 0 {
    } else {
        let qd = q.drop_first();
        assert(forall|j: int| 0 <= j < qd.len() ==> qd[j] == q[j + 1]);
        assert(no_dup_ids(qd));
        lemma_no_dup_pairwise(q);
        if q[0].user_id == taker_user {
            law_time_priority(qd, taker_user, taker_id, level_price, rem);
            let rr = match_queue(qd, taker_user, taker_id, level_price, rem);
            assert(r.0 == rr.0);
            assert forall|j1: int, j2: int, k2: int|
                0 <= j1 < j2 < q.len() && 0 <= k2 < r.0.len() && (#[trigger] q[j1]).user_id
                    != taker_user && (#[trigger] r.0[k2]).maker_id == (#[trigger] q[j2]).id
                implies exists|k1: int| 0 <= k1 < k2 && r.0[k1].maker_id == q[j1].id by {
                assert(j1 >= 1);
                assert(qd[j1 - 1] == q[j1] && qd[j2 - 1] == q[j2]);
                assert(rr.0[k2].maker_id == qd[j2 - 1].id);
                assert(exists|k1: int| 0 <= k1 < k2 && rr.0[k1].maker_id == qd[j1 - 1].id);
                let k1 = choose|k1: int| 0 <= k1 < k2 && rr.0[k1].maker_id == qd[j1 - 1].id;
                assert(r.0[k1].maker_id == q[j1].id);
            }
        } else {
            let m = q[0];
            let f = if rem <= m.remaining {
                rem
            } else {
                m.remaining
            };
            law_time_priority(qd, taker_user, taker_id, level_price, (rem - f) as u64);
            let rr = match_queue(qd, taker_user, taker_id, level_price, (rem - f) as u64);
            assert(r.0 == seq![Fill { maker_id: m.id, taker_id: taker_id, price: level_price, qty: f }]
                + rr.0);
            assert(r.0[0].maker_id == q[0].id);
            assert forall|j1: int, j2: int, k2: int|
                0 <= j1 < j2 < q.len() && 0 <= k2 < r.0.len() && (#[trigger] q[j1]).user_id
                    != taker_user && (#[trigger] r.0[k2]).maker_id == (#[trigger] q[j2]).id
                implies exists|k1: int| 0 <= k1 < k2 && r.0[k1].maker_id == q[j1].id by {
                assert(q[0].id != q[j2].id);
                assert(k2 >= 1);
                if j1 == 0 {
                    assert(0 <= 0 < k2 && r.0[0].maker_id == q[0].id);
                } else {
                    assert(qd[j1 - 1] == q[j1] && qd[j2 - 1] == q[j2]);
                    assert(rr.0[k2 - 1] == r.0[k2]);
                    assert(rr.0[k2 - 1].maker_id == qd[j2 - 1].id);
                    assert(exists|k1: int|
                        0 <= k1 < k2 - 1 && rr.0[k1].maker_id == qd[j1 - 1].id);
                    let k1 = choose|k1: int|
                        0 <= k1 < k2 - 1 && rr.0[k1].maker_id == qd[j1 - 1].id;
                    assert(r.0[k1 + 1] == rr.0[k1]);
                    assert(0 <= k1 + 1 < k2 && r.0[k1 + 1].maker_id == q[j1].id);
                }
            }
        }
    }
}

} // verus!

verus! {

/// Every order of a level is among the side's orders.
proof fn lemma_side_orders_has(levels: SideView, i: int, j: int)
    requires
        0 <= i < levels.len(),
        0 <= j < levels[i].1.len(),
    ensures
        queue_has_id(side_orders(levels), levels[i].1[j].id),
    decreases i,
{
    let ld = levels.drop_first();
    assert(side_orders(levels) == levels[0].1 + side_orders(ld));
    if i == 0 {
        assert((levels[0].1 + side_orders(ld))[j] == levels[0].1[j]);
    } else {
        lemma_side_orders_has(ld, i - 1, j);
        assert(ld[i - 1] == levels[i]);
        let k = choose|k: int|
            0 <= k < side_orders(ld).len() && side_orders(ld)[k].id == levels[i].1[j].id;
        assert((levels[0].1 + side_orders(ld))[levels[0].1.len() + k].id == levels[i].1[j].id);
    }
}

/// Time priority over the whole walk: within any one level, if a
/// later-resting maker received a fill, every earlier-resting maker of
/// another user received one too, and earlier in the fill list.
pub proof fn law_time_priority_levels(
    levels: SideView,
    taker_user: u64,
    taker_id: u64,
    taker_side: Side,
    taker_price: u64,
    ignore_price: bool,
    rem: u64,
    book_side: Side,
)
    requires
        wf_side(levels, book_side),
        no_dup_ids(side_orders(levels)),
    ensures
        ({
            let m = match_levels(
                levels,
                taker_user,
                taker_id,
                taker_side,
                taker_price,
                ignore_price,
                rem,
            );
            forall|i: int, j1: int, j2: int, k2: int|
                0 <= i < levels.len() && 0 <= j1 < j2 < levels[i].1.len() && 0 <= k2 < m.0.len()
                    && (#[trigger] levels[i].1[j1]).user_id != taker_user && (
                #[trigger] m.0[k2]).maker_id == (#[trigger] levels[i].1[j2]).id ==> exists|k1: int|
                    0 <= k1 < k2 && m.0[k1].maker_id == levels[i].1[j1].id
        }),
    decreases levels.len(),
{
    let m = match_levels(levels, taker_user, taker_id, taker_side, taker_price, ignore_price, rem);
    if rem == 0 || levels.len() == 0 {
    } else if !ignore_price && !crosses(taker_side, taker_price, levels[0].0) {
    } else {
        let l0 = levels[0];
        let ld = levels.drop_first();
        assert(forall|i: int| 0 <= i < ld.len() ==> ld[i] == levels[i + 1]);
        assert(wf_level(levels[0], book_side));
        assert forall|i: int| 0 <= i < ld.len() implies wf_level(#[trigger] ld[i], book_side) by {
            assert(wf_level(levels[i + 1], book_side));
        }
        assert forall|i: int, j: int| 0 <= i < j < ld.len() implies comes_before(
            book_side,
            #[trigger] ld[i].0,
            #[trigger] ld[j].0,
        ) by {
            assert(comes_before(book_side, levels[i + 1].0, levels[j + 1].0));
        }
        assert(side_orders(levels) == l0.1 + side_orders(ld));
        lemma_no_dup_concat(l0.1, side_orders(ld));
        let lm = match_queue(l0.1, taker_user, taker_id, l0.0, rem);
        lemma_match_queue_props(l0.1, taker_user, taker_id, l0.0, rem, book_side);
        law_time_priority(l0.1, taker_user, taker_id, l0.0, rem);
        lemma_match_levels_props(
            ld,
            taker_user,
            taker_id,
            taker_side,
            taker_price,
            ignore_price,
            lm.2,
            book_side,
        );
        law_time_priority_levels(
            ld,
            taker_user,
            taker_id,
            taker_side,
            taker_price,
            ignore_price,
            lm.2,
            book_side,
        );
        let rest = match_levels(ld, taker_user, taker_id, taker_side, taker_price, ignore_price, lm.2);
        assert(m.0 == lm.0 + rest.0);
        assert forall|i: int, j1: int, j2: int, k2: int|
            0 <= i < levels.len() && 0 <= j1 < j2 < levels[i].1.len() && 0 <= k2 < m.0.len() && (
            #[trigger] levels[i].1[j1]).user_id != taker_user && (#[trigger] m.0[k2]).maker_id == (
            #[trigger] levels[i].1[j2]).id implies exists|k1: int|
            0 <= k1 < k2 && m.0[k1].maker_id == levels[i].1[j1].id by {
            if i == 0 {
                if k2 >= lm.0.len() {
                    assert(m.0[k2] == rest.0[k2 - lm.0.len()]);
                    assert(fill_from_maker(rest.0[k2 - lm.0.len()], side_orders(ld), taker_user));
                    let j = choose|j: int|
                        0 <= j < side_orders(ld).len() && side_orders(ld)[j].id == m.0[
                            k2
                        ].maker_id && side_orders(ld)[j].user_id != taker_user && m.0[k2].price
                            == side_orders(ld)[j].price && m.0[k2].qty <= side_orders(ld)[
                            j
                        ].remaining;
                    assert(queue_has_id(side_orders(ld), l0.1[j2].id));
                    assert(queue_has_id(l0.1, l0.1[j2].id));
                    assert(false);
                }
                assert(m.0[k2] == lm.0[k2]);
                assert(exists|k1: int| 0 <= k1 < k2 && lm.0[k1].maker_id == l0.1[j1].id);
                let k1 = choose|k1: int| 0 <= k1 < k2 && lm.0[k1].maker_id == l0.1[j1].id;
                assert(m.0[k1] == lm.0[k1]);
            } else {
                lemma_side_orders_has(ld, i - 1, j2);
                if k2 < lm.0.len() {
                    assert(fill_from_maker(lm.0[k2], l0.1, taker_user));
                    let j = choose|j: int|
                        0 <= j < l0.1.len() && l0.1[j].id == m.0[k2].maker_id && l0.1[j].user_id
                            != taker_user && m.0[k2].price == l0.1[j].price && m.0[k2].qty <= l0.1[
                            j
                        ].remaining;
                    assert(queue_has_id(l0.1, levels[i].1[j2].id));
                    assert(ld[i - 1] == levels[i]);
                    assert(queue_has_id(side_orders(ld), levels[i].1[j2].id));
                    assert(false);
                }
                assert(m.0[k2] == rest.0[k2 - lm.0.len()]);
                assert(ld[i - 1] == levels[i]);
                assert(exists|k1: int|
                    0 <= k1 < k2 - lm.0.len() && rest.0[k1].maker_id == ld[i - 1].1[j1].id);
                let k1 = choose|k1: int|
                    0 <= k1 < k2 - lm.0.len() && rest.0[k1].maker_id == ld[i - 1].1[j1].id;
                assert(m.0[lm.0.len() + k1] == rest.0[k1]);
                assert(0 <= lm.0.len() + k1 < k2 && m.0[lm.0.len() + k1].maker_id == levels[
                    i
                ].1[j1].id);
            }
        }
    }
}

} // verus!
