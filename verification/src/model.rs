//! The mathematical model of one side of a book and of the matching walk.
//!
//! A side is a sequence of price levels, best level first: bids descending,
//! asks ascending. Each level is a pair of its price and the queue of resting
//! orders at that price, oldest first. Every observable operation of the
//! book is specified as a recursive function over this view.

use vstd::prelude::*;

use crate::types::Fill;
use crate::types::Order;
use crate::types::Side;

verus! {

/// One side of the book: `(price, queue)` pairs, best price first.
pub type SideView = Seq<(u64, Seq<Order>)>;

/// One price level: the price and the resting orders at it, oldest first.
pub struct Level {
    pub price: u64,
    pub queue: Vec<Order>,
}

/// The abstract value of a stored side.
pub open spec fn side_view(levels: Seq<Level>) -> SideView {
    levels.map(|i: int, l: Level| (l.price, l.queue@))
}

pub broadcast proof fn lemma_side_view_len(s: Seq<Level>)
    ensures
        #[trigger] side_view(s).len() == s.len(),
{
}

pub broadcast proof fn lemma_side_view_index(s: Seq<Level>, k: int)
    requires
        0 <= k < s.len(),
    ensures
        #[trigger] side_view(s)[k] == (s[k].price, s[k].queue@),
{
}

/// A level of one resting order, used when a new price level is created.
pub open spec fn singleton_level(o: Order) -> (u64, Seq<Order>) {
    (o.price, seq![o])
}

/// The side a taker of side `s` matches against.
pub open spec fn opposite(s: Side) -> Side {
    match s {
        Side::Bid => Side::Ask,
        Side::Ask => Side::Bid,
    }
}

/// A taker at `taker_price` is willing to trade at `level_price`.
pub open spec fn crosses(taker_side: Side, taker_price: u64, level_price: u64) -> bool {
    match taker_side {
        Side::Bid => taker_price >= level_price,
        Side::Ask => taker_price <= level_price,
    }
}

/// On a side stored best-first, price `a` is strictly better than `b`.
pub open spec fn comes_before(book_side: Side, a: u64, b: u64) -> bool {
    match book_side {
        Side::Bid => a > b,
        Side::Ask => a < b,
    }
}

/// The order `o` with its remaining quantity replaced.
pub open spec fn order_with_remaining(o: Order, r: u64) -> Order {
    Order {
        id: o.id,
        user_id: o.user_id,
        side: o.side,
        price: o.price,
        qty: o.qty,
        remaining: r,
        otype: o.otype,
    }
}

/// Matching one price-level queue, oldest maker first. Same-user makers are
/// skipped in place (self-trade prevention); every other maker trades
/// `min(rem, maker.remaining)` at the level price. Returns the fills in
/// order, the queue of surviving makers, and the taker's leftover quantity.
pub open spec fn match_queue(
    q: Seq<Order>,
    taker_user: u64,
    taker_id: u64,
    level_price: u64,
    rem: u64,
) -> (Seq<Fill>, Seq<Order>, u64)
    decreases q.len(),
{
    if rem == 0 || q.len() == 0 {
        (Seq::<Fill>::empty(), q, rem)
    } else if q[0].user_id == taker_user {
        let rest = match_queue(q.drop_first(), taker_user, taker_id, level_price, rem);
        (rest.0, seq![q[0]] + rest.1, rest.2)
    } else {
        let m = q[0];
        let f = if rem <= m.remaining { rem } else { m.remaining };
        let fill = Fill { maker_id: m.id, taker_id: taker_id, price: level_price, qty: f };
        let rest = match_queue(q.drop_first(), taker_user, taker_id, level_price, (rem - f) as u64);
        if m.remaining > f {
            (
                seq![fill] + rest.0,
                seq![order_with_remaining(m, (m.remaining - f) as u64)] + rest.1,
                rest.2,
            )
        } else {
            (seq![fill] + rest.0, rest.1, rest.2)
        }
    }
}

/// Matching the opposite side, best level first. The walk stops when the
/// taker is exhausted or, unless `ignore_price`, at the first level the
/// taker's price does not cross. Emptied levels disappear.
pub open spec fn match_levels(
    levels: SideView,
    taker_user: u64,
    taker_id: u64,
    taker_side: Side,
    taker_price: u64,
    ignore_price: bool,
    rem: u64,
) -> (Seq<Fill>, SideView, u64)
    decreases levels.len(),
{
    if rem == 0 || levels.len() == 0 {
        (Seq::<Fill>::empty(), levels, rem)
    } else if !ignore_price && !crosses(taker_side, taker_price, levels[0].0) {
        (Seq::<Fill>::empty(), levels, rem)
    } else {
        let lm = match_queue(levels[0].1, taker_user, taker_id, levels[0].0, rem);
        let rest = match_levels(
            levels.drop_first(),
            taker_user,
            taker_id,
            taker_side,
            taker_price,
            ignore_price,
            lm.2,
        );
        let kept = if lm.1.len() > 0 {
            seq![(levels[0].0, lm.1)] + rest.1
        } else {
            rest.1
        };
        (lm.0 + rest.0, kept, rest.2)
    }
}

/// Total resting quantity of a queue, as a mathematical integer.
pub open spec fn queue_qty(q: Seq<Order>) -> int
    decreases q.len(),
{
    if q.len() == 0 {
        0
    } else {
        q[0].remaining + queue_qty(q.drop_first())
    }
}

pub broadcast proof fn lemma_queue_qty_nonneg(q: Seq<Order>)
    ensures
        #[trigger] queue_qty(q) >= 0,
    decreases q.len(),
{
    if q.len() > 0 {
        lemma_queue_qty_nonneg(q.drop_first());
    }
}

/// `queue_qty` clamped into `u64`, as the executable aggregation reports it.
pub open spec fn sat_queue_qty(q: Seq<Order>) -> u64 {
    if queue_qty(q) > u64::MAX {
        u64::MAX
    } else {
        queue_qty(q) as u64
    }
}

/// The fill-or-kill pre-scan: walking acceptable levels best-first, does the
/// resting quantity cover `rem` before the first unacceptable level? The
/// scan counts same-user quantity too.
pub open spec fn spec_can_full_match(
    levels: SideView,
    taker_side: Side,
    taker_price: u64,
    rem: u64,
) -> bool
    decreases levels.len(),
{
    if levels.len() == 0 {
        false
    } else if !crosses(taker_side, taker_price, levels[0].0) {
        false
    } else if queue_qty(levels[0].1) >= rem {
        true
    } else {
        spec_can_full_match(
            levels.drop_first(),
            taker_side,
            taker_price,
            (rem - queue_qty(levels[0].1)) as u64,
        )
    }
}

/// The post-only test: would the order trade against the best opposite level?
pub open spec fn spec_would_match(opp: SideView, taker_side: Side, taker_price: u64) -> bool {
    opp.len() > 0 && crosses(taker_side, taker_price, opp[0].0)
}

/// Resting an order on its own side: append to its price level's queue if
/// the level exists, else create the level at its sorted position.
pub open spec fn insert_order(levels: SideView, o: Order, book_side: Side) -> SideView
    decreases levels.len(),
{
    if levels.len() == 0 {
        seq![singleton_level(o)]
    } else if levels[0].0 == o.price {
        seq![(levels[0].0, levels[0].1.push(o))] + levels.drop_first()
    } else if comes_before(book_side, o.price, levels[0].0) {
        seq![singleton_level(o)] + levels
    } else {
        seq![levels[0]] + insert_order(levels.drop_first(), o, book_side)
    }
}

/// Does the queue hold an order with this id?
pub open spec fn queue_has_id(q: Seq<Order>, id: u64) -> bool {
    exists|k: int| 0 <= k < q.len() && q[k].id == id
}

/// The first order with this id in the queue, if any.
pub open spec fn queue_find(q: Seq<Order>, id: u64) -> Option<Order>
    decreases q.len(),
{
    if q.len() == 0 {
        None
    } else if q[0].id == id {
        Some(q[0])
    } else {
        queue_find(q.drop_first(), id)
    }
}

/// The queue with its first order of this id removed, if any.
pub open spec fn queue_drop_id(q: Seq<Order>, id: u64) -> Seq<Order>
    decreases q.len(),
{
    if q.len() == 0 {
        q
    } else if q[0].id == id {
        q.drop_first()
    } else {
        seq![q[0]] + queue_drop_id(q.drop_first(), id)
    }
}

/// The first order with this id on the side, walking best level first.
pub open spec fn side_find(levels: SideView, id: u64) -> Option<Order>
    decreases levels.len(),
{
    if levels.len() == 0 {
        None
    } else if queue_find(levels[0].1, id) is Some {
        queue_find(levels[0].1, id)
    } else {
        side_find(levels.drop_first(), id)
    }
}

/// The side with the first order of this id removed; its level disappears
/// if the removal empties it.
pub open spec fn side_drop_id(levels: SideView, id: u64) -> SideView
    decreases levels.len(),
{
    if levels.len() == 0 {
        levels
    } else if queue_find(levels[0].1, id) is Some {
        let q2 = queue_drop_id(levels[0].1, id);
        if q2.len() > 0 {
            seq![(levels[0].0, q2)] + levels.drop_first()
        } else {
            levels.drop_first()
        }
    } else {
        seq![levels[0]] + side_drop_id(levels.drop_first(), id)
    }
}

/// All resting orders of a side, best level first, queue order inside.
pub open spec fn side_orders(levels: SideView) -> Seq<Order>
    decreases levels.len(),
{
    if levels.len() == 0 {
        Seq::<Order>::empty()
    } else {
        levels[0].1 + side_orders(levels.drop_first())
    }
}

/// No two orders of the sequence share an id.
pub open spec fn no_dup_ids(s: Seq<Order>) -> bool
    decreases s.len(),
{
    s.len() == 0 || (!queue_has_id(s.drop_first(), s[0].id) && no_dup_ids(s.drop_first()))
}

/// A resting order is well-formed for the level and side it rests on.
pub open spec fn wf_order(o: Order, level_price: u64, book_side: Side) -> bool {
    o.side == book_side && o.price == level_price && 0 < o.remaining && o.remaining <= o.qty
}

/// A level is non-empty and all its orders are well-formed for it.
pub open spec fn wf_level(l: (u64, Seq<Order>), book_side: Side) -> bool {
    l.1.len() > 0 && (forall|j: int| 0 <= j < l.1.len() ==> wf_order(#[trigger] l.1[j], l.0, book_side))
}

/// Does the side hold a level at this price?
pub open spec fn has_price(levels: SideView, p: u64) -> bool {
    exists|i: int| 0 <= i < levels.len() && levels[i].0 == p
}

/// A side is a strictly sorted (best first) sequence of well-formed levels.
pub open spec fn wf_side(levels: SideView, book_side: Side) -> bool {
    &&& forall|i: int| 0 <= i < levels.len() ==> wf_level(#[trigger] levels[i], book_side)
    &&& forall|i: int, j: int|
        0 <= i < j < levels.len() ==> comes_before(book_side, #[trigger] levels[i].0, #[trigger] levels[j].0)
}

/// Total executed quantity of a sequence of fills.
pub open spec fn fills_qty(fs: Seq<Fill>) -> int
    decreases fs.len(),
{
    if fs.len() == 0 {
        0
    } else {
        fs[0].qty + fills_qty(fs.drop_first())
    }
}

} // verus!
// The lemmas below carry the book invariant and the fill guarantees through
// every operation of the model.

verus! {

/// The fill names a maker of `q` of another user, at the maker's own price,
/// for no more than the maker had left.
pub open spec fn fill_from_maker(f: Fill, q: Seq<Order>, taker_user: u64) -> bool {
    exists|j: int|
        0 <= j < q.len() && q[j].id == f.maker_id && q[j].user_id != taker_user && f.price == q[
            j
        ].price && f.qty <= q[j].remaining
}

/// Membership of an id in a concatenation.
pub proof fn lemma_has_id_concat(a: Seq<Order>, b: Seq<Order>, id: u64)
    ensures
        queue_has_id(a + b, id) == (queue_has_id(a, id) || queue_has_id(b, id)),
{
    if queue_has_id(a, id) {
        let k = choose|k: int| 0 <= k < a.len() && a[k].id == id;
        assert((a + b)[k].id == id);
    }
    if queue_has_id(b, id) {
        let k = choose|k: int| 0 <= k < b.len() && b[k].id == id;
        assert((a + b)[a.len() + k].id == id);
    }
    if queue_has_id(a + b, id) {
        let k = choose|k: int| 0 <= k < (a + b).len() && (a + b)[k].id == id;
        if k < a.len() {
            assert(a[k].id == id);
        } else {
            assert(b[k - a.len()].id == id);
        }
    }
}

/// Uniqueness of ids splits over a concatenation.
pub proof fn lemma_no_dup_concat(a: Seq<Order>, b: Seq<Order>)
    ensures
        no_dup_ids(a + b) == (no_dup_ids(a) && no_dup_ids(b) && (forall|id: u64|
            !(#[trigger] queue_has_id(a, id) && queue_has_id(b, id)))),
    decreases a.len(),
{
    if a.len() == 0 {
        assert(a + b =~= b);
        assert(forall|id: u64| !(#[trigger] queue_has_id(a, id)));
    } else {
        let ad = a.drop_first();
        assert((a + b).drop_first() =~= ad + b);
        lemma_no_dup_concat(ad, b);
        lemma_has_id_concat(ad, b, a[0].id);
        assert forall|id: u64| #[trigger] queue_has_id(a, id) implies (a[0].id == id
            || queue_has_id(ad, id)) by {
            let k = choose|k: int| 0 <= k < a.len() && a[k].id == id;
            if k > 0 {
                assert(ad[k - 1].id == id);
            }
        }
        assert forall|id: u64| a[0].id == id || queue_has_id(ad, id) implies #[trigger]
            queue_has_id(a, id) by {
            if a[0].id == id {
                assert(a[0].id == id);
            } else {
                let k = choose|k: int| 0 <= k < ad.len() && ad[k].id == id;
                assert(a[k + 1].id == id);
            }
        }
        lemma_has_id_concat(ad, b, a[0].id);
        assert((a + b)[0] == a[0]);
        assert(no_dup_ids(a + b) == (!queue_has_id(ad + b, a[0].id) && no_dup_ids(ad + b)));
        assert(no_dup_ids(a) == (!queue_has_id(ad, a[0].id) && no_dup_ids(ad)));
        assert(queue_has_id(a, a[0].id));
        let disj_a = forall|id: u64| !(#[trigger] queue_has_id(a, id) && queue_has_id(b, id));
        let disj_ad = forall|id: u64| !(#[trigger] queue_has_id(ad, id) && queue_has_id(b, id));
        if disj_a {
            assert forall|id: u64| !(#[trigger] queue_has_id(ad, id) && queue_has_id(b, id)) by {
                if queue_has_id(ad, id) {
                    assert(queue_has_id(a, id));
                }
            }
            assert(!queue_has_id(b, a[0].id));
        }
        if !queue_has_id(b, a[0].id) && disj_ad {
            assert forall|id: u64| !(#[trigger] queue_has_id(a, id) && queue_has_id(b, id)) by {
                if queue_has_id(a, id) && queue_has_id(b, id) {
                    assert(a[0].id == id || queue_has_id(ad, id));
                }
            }
        }
    }
}

/// What the queue walk guarantees: surviving makers are well-formed makers
/// of the starting queue, ids are not invented or duplicated, the fill
/// total accounts exactly for the taker quantity consumed, and every fill
/// names a maker of another user at the maker's price.
pub proof fn lemma_match_queue_props(
    q: Seq<Order>,
    taker_user: u64,
    taker_id: u64,
    level_price: u64,
    rem: u64,
    book_side: Side,
)
    requires
        forall|j: int| 0 <= j < q.len() ==> wf_order(#[trigger] q[j], level_price, book_side),
    ensures
        ({
            let r = match_queue(q, taker_user, taker_id, level_price, rem);
            &&& forall|j: int|
                0 <= j < r.1.len() ==> wf_order(#[trigger] r.1[j], level_price, book_side)
            &&& forall|id: u64| #[trigger] queue_has_id(r.1, id) ==> queue_has_id(q, id)
            &&& no_dup_ids(q) ==> no_dup_ids(r.1)
            &&& r.2 <= rem
            &&& fills_qty(r.0) == rem - r.2
            &&& forall|k: int|
                0 <= k < r.0.len() ==> (#[trigger] r.0[k]).taker_id == taker_id && r.0[k].qty > 0
                    && fill_from_maker(r.0[k], q, taker_user)
        }),
    decreases q.len(),
{
    let r = match_queue(q, taker_user, taker_id, level_price, rem);
    if rem == 0 || q.len() == 0 {
    } else {
        let qd = q.drop_first();
        assert(forall|j: int| 0 <= j < qd.len() ==> qd[j] == q[j + 1]);
        if q[0].user_id == taker_user {
            lemma_match_queue_props(qd, taker_user, taker_id, level_price, rem, book_side);
            let rr = match_queue(qd, taker_user, taker_id, level_price, rem);
            assert(r.1 == seq![q[0]] + rr.1);
            assert(r.1.drop_first() =~= rr.1);
            assert forall|id: u64| #[trigger] queue_has_id(r.1, id) implies queue_has_id(
                q,
                id,
            ) by {
                let k = choose|k: int| 0 <= k < r.1.len() && r.1[k].id == id;
                if k == 0 {
                    assert(q[0].id == id);
                } else {
                    assert(rr.1[k - 1].id == id);
                    assert(queue_has_id(rr.1, id));
                    let j = choose|j: int| 0 <= j < qd.len() && qd[j].id == id;
                    assert(q[j + 1].id == id);
                }
            }
            if no_dup_ids(q) {
                assert(!queue_has_id(qd, q[0].id) && no_dup_ids(qd));
                assert(!queue_has_id(rr.1, q[0].id));
                assert(no_dup_ids(r.1));
            }
            assert forall|k: int| 0 <= k < r.0.len() implies (#[trigger] r.0[k]).taker_id
                == taker_id && r.0[k].qty > 0 && fill_from_maker(r.0[k], q, taker_user) by {
                assert(r.0[k] == rr.0[k]);
                assert(fill_from_maker(rr.0[k], qd, taker_user));
                let j = choose|j: int|
                    0 <= j < qd.len() && qd[j].id == rr.0[k].maker_id && qd[j].user_id
                        != taker_user && rr.0[k].price == qd[j].price && rr.0[k].qty <= qd[
                        j
                    ].remaining;
                assert(q[j + 1] == qd[j]);
            }
        } else {
            let m = q[0];
            let f = if rem <= m.remaining {
                rem
            } else {
                m.remaining
            };
            let rem2 = (rem - f) as u64;
            lemma_match_queue_props(qd, taker_user, taker_id, level_price, rem2, book_side);
            let rr = match_queue(qd, taker_user, taker_id, level_price, rem2);
            assert(r.0 == seq![Fill { maker_id: m.id, taker_id: taker_id, price: level_price, qty: f }]
                + rr.0);
            assert(r.0.drop_first() =~= rr.0);
            assert(fills_qty(r.0) == f + fills_qty(rr.0));
            assert forall|k: int| 0 <= k < r.0.len() implies (#[trigger] r.0[k]).taker_id
                == taker_id && r.0[k].qty > 0 && fill_from_maker(r.0[k], q, taker_user) by {
                if k == 0 {
                    assert(wf_order(q[0], level_price, book_side));
                    assert(r.0[0].maker_id == q[0].id && r.0[0].price == q[0].price && r.0[0].qty
                        <= q[0].remaining);
                } else {
                    assert(r.0[k] == rr.0[k - 1]);
                    assert(fill_from_maker(rr.0[k - 1], qd, taker_user));
                    let j = choose|j: int|
                        0 <= j < qd.len() && qd[j].id == rr.0[k - 1].maker_id && qd[j].user_id
                            != taker_user && rr.0[k - 1].price == qd[j].price && rr.0[k - 1].qty
                            <= qd[j].remaining;
                    assert(q[j + 1] == qd[j]);
                }
            }
            if m.remaining > f {
                let m2 = order_with_remaining(m, (m.remaining - f) as u64);
                assert(r.1 == seq![m2] + rr.1);
                assert(r.1.drop_first() =~= rr.1);
                assert forall|id: u64| #[trigger] queue_has_id(r.1, id) implies queue_has_id(
                    q,
                    id,
                ) by {
                    let k = choose|k: int| 0 <= k < r.1.len() && r.1[k].id == id;
                    if k == 0 {
                        assert(q[0].id == id);
                    } else {
                        assert(rr.1[k - 1].id == id);
                        assert(queue_has_id(rr.1, id));
                        let j = choose|j: int| 0 <= j < qd.len() && qd[j].id == id;
                        assert(q[j + 1].id == id);
                    }
                }
                if no_dup_ids(q) {
                    assert(!queue_has_id(qd, q[0].id) && no_dup_ids(qd));
                    assert(!queue_has_id(rr.1, q[0].id));
                    assert(no_dup_ids(r.1));
                }
            } else {
                assert(r.1 == rr.1);
                assert forall|id: u64| #[trigger] queue_has_id(r.1, id) implies queue_has_id(
                    q,
                    id,
                ) by {
                    let j = choose|j: int| 0 <= j < qd.len() && qd[j].id == id;
                    assert(q[j + 1].id == id);
                }
                if no_dup_ids(q) {
                    assert(!queue_has_id(qd, q[0].id) && no_dup_ids(qd));
                }
            }
        }
    }
}

} // verus!

verus! {

/// Fill totals add over a concatenation.
pub proof fn lemma_fills_qty_concat(a: Seq<Fill>, b: Seq<Fill>)
    ensures
        fills_qty(a + b) == fills_qty(a) + fills_qty(b),
    decreases a.len(),
{
    if a.len() == 0 {
        assert(a + b =~= b);
    } else {
        assert((a + b).drop_first() =~= a.drop_first() + b);
        assert((a + b)[0] == a[0]);
        lemma_fills_qty_concat(a.drop_first(), b);
    }
}

/// `queue_find` succeeds exactly on a present id and returns an order of
/// the queue carrying that id.
pub proof fn lemma_queue_find_props(q: Seq<Order>, id: u64)
    ensures
        (queue_find(q, id) is Some) == queue_has_id(q, id),
        queue_find(q, id) matches Some(o) ==> o.id == id && (exists|j: int|
            0 <= j < q.len() && q[j] == o),
    decreases q.len(),
{
    if q.len() == 0 {
    } else if q[0].id == id {
        assert(q[0].id == id);
    } else {
        lemma_queue_find_props(q.drop_first(), id);
        if queue_has_id(q, id) {
            let k = choose|k: int| 0 <= k < q.len() && q[k].id == id;
            assert(q.drop_first()[k - 1].id == id);
        }
        if queue_has_id(q.drop_first(), id) {
            let k = choose|k: int| 0 <= k < q.drop_first().len() && q.drop_first()[k].id == id;
            assert(q[k + 1].id == id);
        }
        match queue_find(q, id) {
            Some(o) => {
                let j = choose|j: int| 0 <= j < q.drop_first().len() && q.drop_first()[j] == o;
                assert(q[j + 1] == o);
            },
            None => {},
        }
    }
}

/// Appending a fresh order makes it findable, unchanged.
pub proof fn lemma_queue_find_push(q: Seq<Order>, o: Order)
    requires
        !queue_has_id(q, o.id),
    ensures
        queue_find(q.push(o), o.id) == Some(o),
    decreases q.len(),
{
    if q.len() == 0 {
        assert(q.push(o)[0] == o);
    } else {
        assert(q.push(o)[0] == q[0]);
        assert(q[0].id != o.id) by {
            assert(q[0].id == o.id ==> queue_has_id(q, o.id));
        }
        assert(q.push(o).drop_first() =~= q.drop_first().push(o));
        assert(!queue_has_id(q.drop_first(), o.id)) by {
            if queue_has_id(q.drop_first(), o.id) {
                let k = choose|k: int|
                    0 <= k < q.drop_first().len() && q.drop_first()[k].id == o.id;
                assert(q[k + 1].id == o.id);
            }
        }
        lemma_queue_find_push(q.drop_first(), o);
    }
}

/// What removal of an id from one queue guarantees.
pub proof fn lemma_queue_drop_props(q: Seq<Order>, id: u64, level_price: u64, book_side: Side)
    requires
        forall|j: int| 0 <= j < q.len() ==> wf_order(#[trigger] q[j], level_price, book_side),
    ensures
        ({
            let qd = queue_drop_id(q, id);
            &&& forall|j: int|
                0 <= j < qd.len() ==> wf_order(#[trigger] qd[j], level_price, book_side)
            &&& forall|id2: u64| #[trigger] queue_has_id(qd, id2) ==> queue_has_id(q, id2)
            &&& no_dup_ids(q) ==> no_dup_ids(qd) && !queue_has_id(qd, id)
            &&& queue_find(q, id) matches Some(o) ==> o.id == id && wf_order(
                o,
                level_price,
                book_side,
            )
        }),
    decreases q.len(),
{
    lemma_queue_find_props(q, id);
    if q.len() == 0 {
    } else if q[0].id == id {
        assert(forall|j: int|
            0 <= j < q.drop_first().len() ==> q.drop_first()[j] == q[j + 1]);
        if no_dup_ids(q) {
            assert(!queue_has_id(q.drop_first(), q[0].id));
        }
    } else {
        let qd0 = q.drop_first();
        assert(forall|j: int| 0 <= j < qd0.len() ==> qd0[j] == q[j + 1]);
        lemma_queue_drop_props(qd0, id, level_price, book_side);
        let rd = queue_drop_id(qd0, id);
        let qd = queue_drop_id(q, id);
        assert(qd == seq![q[0]] + rd);
        assert(qd.drop_first() =~= rd);
        assert forall|id2: u64| #[trigger] queue_has_id(qd, id2) implies queue_has_id(
            q,
            id2,
        ) by {
            let k = choose|k: int| 0 <= k < qd.len() && qd[k].id == id2;
            if k == 0 {
                assert(q[0].id == id2);
            } else {
                assert(rd[k - 1].id == id2);
                assert(queue_has_id(rd, id2));
                let j = choose|j: int| 0 <= j < qd0.len() && qd0[j].id == id2;
                assert(q[j + 1].id == id2);
            }
        }
        if no_dup_ids(q) {
            assert(!queue_has_id(qd0, q[0].id) && no_dup_ids(qd0));
            assert(!queue_has_id(rd, q[0].id));
            assert(no_dup_ids(qd));
            assert(!queue_has_id(qd, id)) by {
                if queue_has_id(qd, id) {
                    let k = choose|k: int| 0 <= k < qd.len() && qd[k].id == id;
                    if k == 0 {
                    } else {
                        assert(rd[k - 1].id == id);
                        assert(queue_has_id(rd, id));
                    }
                }
            }
        }
    }
}

} // verus!

verus! {

/// What the level walk guarantees: the surviving side is well-formed with
/// no new prices or ids, the fill total accounts exactly for the taker
/// quantity consumed, and every fill names a resting maker of another user
/// at the maker's own price.
pub proof fn lemma_match_levels_props(
    levels: SideView,
    taker_user: u64,
    taker_id: u64,
    taker_side: Side,
    taker_price: u64,
    ignore_price: bool,
    rem: u64,
    book_side: Side,
)
    requires
        wf_side(levels, book_side),
    ensures
        ({
            let m = match_levels(
                levels,
                taker_user,
                taker_id,
                taker_side,
                taker_price,
                ignore_price,
                rem,
            );
            &&& wf_side(m.1, book_side)
            &&& forall|p: u64| #[trigger] has_price(m.1, p) ==> has_price(levels, p)
            &&& forall|id: u64|
                #[trigger] queue_has_id(side_orders(m.1), id) ==> queue_has_id(
                    side_orders(levels),
                    id,
                )
            &&& no_dup_ids(side_orders(levels)) ==> no_dup_ids(side_orders(m.1))
            &&& m.2 <= rem
            &&& fills_qty(m.0) == rem - m.2
            &&& forall|k: int|
                0 <= k < m.0.len() ==> (#[trigger] m.0[k]).taker_id == taker_id && m.0[k].qty > 0
                    && fill_from_maker(m.0[k], side_orders(levels), taker_user)
        }),
    decreases levels.len(),
{
    let m = match_levels(levels, taker_user, taker_id, taker_side, taker_price, ignore_price, rem);
    if rem == 0 || levels.len() == 0 {
    } else if !ignore_price && !crosses(taker_side, taker_price, levels[0].0) {
    } else {
        let l0 = levels[0];
        let ld = levels.drop_first();
        assert(forall|i: int| 0 <= i < ld.len() ==> ld[i] == levels[i + 1]);
        assert(wf_level(levels[0], book_side));
        assert forall|i: int| 0 <= i < ld.len() implies wf_level(#[trigger] ld[i], book_side) by {
            assert(wf_level(levels[i + 1], book_side));
        }
        assert forall|i: int, j: int| 0 <= i < j < ld.len() implies comes_before(
            book_side,
            #[trigger] ld[i].0,
            #[trigger] ld[j].0,
        ) by {
            assert(comes_before(book_side, levels[i + 1].0, levels[j + 1].0));
        }
        let lm = match_queue(l0.1, taker_user, taker_id, l0.0, rem);
        lemma_match_queue_props(l0.1, taker_user, taker_id, l0.0, rem, book_side);
        lemma_match_levels_props(
            ld,
            taker_user,
            taker_id,
            taker_side,
            taker_price,
            ignore_price,
            lm.2,
            book_side,
        );
        let rest = match_levels(ld, taker_user, taker_id, taker_side, taker_price, ignore_price, lm.2);
        let so_all = side_orders(levels);
        assert(so_all == l0.1 + side_orders(ld));
        lemma_fills_qty_concat(lm.0, rest.0);
        assert(m.0 == lm.0 + rest.0);
        assert forall|k: int| 0 <= k < m.0.len() implies (#[trigger] m.0[k]).taker_id == taker_id
            && m.0[k].qty > 0 && fill_from_maker(m.0[k], so_all, taker_user) by {
            if k < lm.0.len() {
                assert(m.0[k] == lm.0[k]);
                assert(fill_from_maker(lm.0[k], l0.1, taker_user));
                let j = choose|j: int|
                    0 <= j < l0.1.len() && l0.1[j].id == lm.0[k].maker_id && l0.1[j].user_id
                        != taker_user && lm.0[k].price == l0.1[j].price && lm.0[k].qty <= l0.1[
                        j
                    ].remaining;
                assert(so_all[j] == l0.1[j]);
            } else {
                assert(m.0[k] == rest.0[k - lm.0.len()]);
                assert(fill_from_maker(rest.0[k - lm.0.len()], side_orders(ld), taker_user));
                let j = choose|j: int|
                    0 <= j < side_orders(ld).len() && side_orders(ld)[j].id == m.0[k].maker_id
                        && side_orders(ld)[j].user_id != taker_user && m.0[k].price == side_orders(
                        ld,
                    )[j].price && m.0[k].qty <= side_orders(ld)[j].remaining;
                assert(so_all[l0.1.len() + j] == side_orders(ld)[j]);
            }
        }
        if lm.1.len() > 0 {
            assert(m.1 == seq![(l0.0, lm.1)] + rest.1);
            assert(m.1.drop_first() =~= rest.1);
            assert(m.1[0] == (l0.0, lm.1));
            assert(side_orders(m.1) == lm.1 + side_orders(rest.1));
            assert forall|id: u64| #[trigger] queue_has_id(side_orders(m.1), id) implies
                queue_has_id(so_all, id) by {
                lemma_has_id_concat(lm.1, side_orders(rest.1), id);
                lemma_has_id_concat(l0.1, side_orders(ld), id);
            }
            if no_dup_ids(so_all) {
                lemma_no_dup_concat(l0.1, side_orders(ld));
                lemma_no_dup_concat(lm.1, side_orders(rest.1));
                assert forall|id: u64| !(#[trigger] queue_has_id(lm.1, id) && queue_has_id(
                    side_orders(rest.1),
                    id,
                )) by {
                    if queue_has_id(lm.1, id) && queue_has_id(side_orders(rest.1), id) {
                        assert(queue_has_id(l0.1, id));
                        assert(queue_has_id(side_orders(ld), id));
                    }
                }
            }
            assert forall|i: int| 0 <= i < m.1.len() implies wf_level(
                #[trigger] m.1[i],
                book_side,
            ) by {
                if i > 0 {
                    assert(m.1[i] == rest.1[i - 1]);
                    assert(wf_level(rest.1[i - 1], book_side));
                }
            }
            assert forall|p: u64| #[trigger] has_price(m.1, p) implies has_price(levels, p) by {
                let i = choose|i: int| 0 <= i < m.1.len() && m.1[i].0 == p;
                if i == 0 {
                    assert(levels[0].0 == p);
                } else {
                    assert(rest.1[i - 1].0 == p);
                    assert(has_price(rest.1, p));
                    let i0 = choose|i0: int| 0 <= i0 < ld.len() && ld[i0].0 == p;
                    assert(levels[i0 + 1].0 == p);
                }
            }
            assert forall|i: int, j: int| 0 <= i < j < m.1.len() implies comes_before(
                book_side,
                #[trigger] m.1[i].0,
                #[trigger] m.1[j].0,
            ) by {
                if i == 0 {
                    assert(rest.1[j - 1].0 == m.1[j].0);
                    assert(has_price(rest.1, m.1[j].0));
                    let i0 = choose|i0: int| 0 <= i0 < ld.len() && ld[i0].0 == m.1[j].0;
                    assert(comes_before(book_side, levels[0].0, levels[i0 + 1].0));
                } else {
                    assert(m.1[i] == rest.1[i - 1] && m.1[j] == rest.1[j - 1]);
                    assert(comes_before(book_side, rest.1[i - 1].0, rest.1[j - 1].0));
                }
            }
        } else {
            assert(m.1 == rest.1);
            assert forall|id: u64| #[trigger] queue_has_id(side_orders(m.1), id) implies
                queue_has_id(so_all, id) by {
                lemma_has_id_concat(l0.1, side_orders(ld), id);
            }
            if no_dup_ids(so_all) {
                lemma_no_dup_concat(l0.1, side_orders(ld));
            }
            assert forall|p: u64| #[trigger] has_price(m.1, p) implies has_price(levels, p) by {
                assert(has_price(rest.1, p));
                let i0 = choose|i0: int| 0 <= i0 < ld.len() && ld[i0].0 == p;
                assert(levels[i0 + 1].0 == p);
            }
        }
    }
}

} // verus!

verus! {

/// What resting an order guarantees: the side stays well-formed, gains only
/// the order's price and id, and the fresh order is findable unchanged.
#[verifier::rlimit(60)]
pub proof fn lemma_insert_order_props(levels: SideView, o: Order, book_side: Side)
    requires
        wf_side(levels, book_side),
        o.side == book_side,
        0 < o.remaining,
        o.remaining <= o.qty,
    ensures
        ({
            let r = insert_order(levels, o, book_side);
            &&& wf_side(r, book_side)
            &&& forall|p: u64| #[trigger] has_price(r, p) ==> has_price(levels, p) || p == o.price
            &&& forall|id: u64|
                #[trigger] queue_has_id(side_orders(r), id) ==> queue_has_id(
                    side_orders(levels),
                    id,
                ) || id == o.id
            &&& no_dup_ids(side_orders(levels)) && !queue_has_id(side_orders(levels), o.id)
                ==> no_dup_ids(side_orders(r))
            &&& !queue_has_id(side_orders(levels), o.id) ==> side_find(r, o.id) == Some(o)
        }),
    decreases levels.len(),
{
    let r = insert_order(levels, o, book_side);
    let so_all = side_orders(levels);
    if levels.len() == 0 {
        assert(r == seq![(o.price, seq![o])]);
        assert(r.drop_first() =~= Seq::<(u64, Seq<Order>)>::empty());
        assert(side_orders(r) == seq![o] + side_orders(r.drop_first()));
        assert(side_orders(r) =~= seq![o]);
        assert(queue_find(seq![o], o.id) == Some(o));
        assert(wf_order(o, o.price, book_side));
        assert(seq![o].drop_first() =~= Seq::<Order>::empty());
        assert(!queue_has_id(Seq::<Order>::empty(), o.id));
        assert(no_dup_ids(Seq::<Order>::empty()));
        assert(no_dup_ids(seq![o]));
        assert forall|id: u64| #[trigger] queue_has_id(side_orders(r), id) implies queue_has_id(
            so_all,
            id,
        ) || id == o.id by {
            let k = choose|k: int| 0 <= k < side_orders(r).len() && side_orders(r)[k].id == id;
            assert(side_orders(r)[0] == o);
        }
    } else {
        let l0 = levels[0];
        let ld = levels.drop_first();
        assert(forall|i: int| 0 <= i < ld.len() ==> ld[i] == levels[i + 1]);
        assert(wf_level(levels[0], book_side));
        assert(so_all == l0.1 + side_orders(ld));
        lemma_has_id_concat(l0.1, side_orders(ld), o.id);
        if l0.0 == o.price {
            let q2 = l0.1.push(o);
            assert(q2 =~= l0.1 + seq![o]);
            assert(r == seq![(l0.0, q2)] + ld);
            assert(r.drop_first() =~= ld);
            assert(r[0] == (l0.0, q2));
            assert(side_orders(r) == q2 + side_orders(ld));
            assert forall|id: u64| #[trigger] queue_has_id(side_orders(r), id) implies
                queue_has_id(so_all, id) || id == o.id by {
                lemma_has_id_concat(q2, side_orders(ld), id);
                lemma_has_id_concat(l0.1, seq![o], id);
                lemma_has_id_concat(l0.1, side_orders(ld), id);
                if queue_has_id(seq![o], id) {
                    assert(seq![o][0].id == id);
                }
            }
            if no_dup_ids(so_all) && !queue_has_id(so_all, o.id) {
                lemma_no_dup_concat(l0.1, side_orders(ld));
                assert(seq![o].drop_first() =~= Seq::<Order>::empty());
                assert(no_dup_ids(Seq::<Order>::empty()));
                assert(no_dup_ids(seq![o]));
                lemma_no_dup_concat(l0.1, seq![o]);
                assert forall|id: u64| !(#[trigger] queue_has_id(l0.1, id) && queue_has_id(
                    seq![o],
                    id,
                )) by {
                    if queue_has_id(seq![o], id) {
                        assert(seq![o][0].id == id);
                        assert(!queue_has_id(l0.1, o.id));
                    }
                }
                assert(no_dup_ids(q2));
                lemma_no_dup_concat(q2, side_orders(ld));
                assert forall|id: u64| !(#[trigger] queue_has_id(q2, id) && queue_has_id(
                    side_orders(ld),
                    id,
                )) by {
                    lemma_has_id_concat(l0.1, seq![o], id);
                    if queue_has_id(seq![o], id) {
                        assert(seq![o][0].id == id);
                    }
                }
                assert(no_dup_ids(side_orders(r)));
            }
            assert forall|i: int| 0 <= i < r.len() implies wf_level(#[trigger] r[i], book_side) by {
                if i == 0 {
                    assert forall|j: int| 0 <= j < q2.len() implies wf_order(
                        #[trigger] q2[j],
                        l0.0,
                        book_side,
                    ) by {
                        if j < l0.1.len() {
                            assert(q2[j] == l0.1[j]);
                        } else {
                            assert(q2[j] == o);
                        }
                    }
                } else {
                    assert(r[i] == levels[i]);
                    assert(wf_level(levels[i], book_side));
                }
            }
            assert forall|i: int, j: int| 0 <= i < j < r.len() implies comes_before(
                book_side,
                #[trigger] r[i].0,
                #[trigger] r[j].0,
            ) by {
                assert(r[i].0 == levels[i].0 && r[j].0 == levels[j].0);
            }
            assert forall|p: u64| #[trigger] has_price(r, p) implies has_price(levels, p) || p
                == o.price by {
                let i = choose|i: int| 0 <= i < r.len() && r[i].0 == p;
                assert(levels[i].0 == p);
            }
            if !queue_has_id(so_all, o.id) {
                assert(!queue_has_id(l0.1, o.id));
                lemma_queue_find_push(l0.1, o);
                assert(side_find(r, o.id) == Some(o));
            }
        } else if comes_before(book_side, o.price, l0.0) {
            assert(r == seq![(o.price, seq![o])] + levels);
            assert(r.drop_first() =~= levels);
            assert(r[0] == (o.price, seq![o]));
            assert(side_orders(r) == seq![o] + so_all);
            assert forall|id: u64| #[trigger] queue_has_id(side_orders(r), id) implies
                queue_has_id(so_all, id) || id == o.id by {
                let k = choose|k: int|
                    0 <= k < side_orders(r).len() && side_orders(r)[k].id == id;
                if k == 0 {
                    assert(side_orders(r)[0] == o);
                } else {
                    assert(so_all[k - 1].id == id);
                }
            }
            if no_dup_ids(so_all) && !queue_has_id(so_all, o.id) {
                lemma_no_dup_concat(seq![o], so_all);
                assert(seq![o].drop_first() =~= Seq::<Order>::empty());
                assert(no_dup_ids(Seq::<Order>::empty()));
                assert(no_dup_ids(seq![o]));
                assert forall|id: u64| !(#[trigger] queue_has_id(seq![o], id) && queue_has_id(
                    so_all,
                    id,
                )) by {
                    if queue_has_id(seq![o], id) {
                        assert(seq![o][0].id == id);
                    }
                }
            }
            assert forall|i: int| 0 <= i < r.len() implies wf_level(#[trigger] r[i], book_side) by {
                if i == 0 {
                    assert(wf_order(o, o.price, book_side));
                } else {
                    assert(r[i] == levels[i - 1]);
                    assert(wf_level(levels[i - 1], book_side));
                }
            }
            assert forall|i: int, j: int| 0 <= i < j < r.len() implies comes_before(
                book_side,
                #[trigger] r[i].0,
                #[trigger] r[j].0,
            ) by {
                if i == 0 {
                    if j > 1 {
                        assert(comes_before(book_side, levels[0].0, levels[j - 1].0));
                    }
                } else {
                    assert(comes_before(book_side, levels[i - 1].0, levels[j - 1].0));
                }
            }
            assert forall|p: u64| #[trigger] has_price(r, p) implies has_price(levels, p) || p
                == o.price by {
                let i = choose|i: int| 0 <= i < r.len() && r[i].0 == p;
                if i > 0 {
                    assert(levels[i - 1].0 == p);
                }
            }
            assert(queue_find(seq![o], o.id) == Some(o));
        } else {
            let rr = insert_order(ld, o, book_side);
            assert(r == seq![l0] + rr);
            assert(r.drop_first() =~= rr);
            assert(r[0] == l0);
            assert forall|i: int| 0 <= i < ld.len() implies wf_level(
                #[trigger] ld[i],
                book_side,
            ) by {
                assert(wf_level(levels[i + 1], book_side));
            }
            assert forall|i: int, j: int| 0 <= i < j < ld.len() implies comes_before(
                book_side,
                #[trigger] ld[i].0,
                #[trigger] ld[j].0,
            ) by {
                assert(comes_before(book_side, levels[i + 1].0, levels[j + 1].0));
            }
            lemma_insert_order_props(ld, o, book_side);
            assert(side_orders(r) == l0.1 + side_orders(rr));
            if !queue_has_id(so_all, o.id) {
                assert(!queue_has_id(side_orders(ld), o.id));
                assert(!queue_has_id(l0.1, o.id));
            }
            assert forall|id: u64| #[trigger] queue_has_id(side_orders(r), id) implies
                queue_has_id(so_all, id) || id == o.id by {
                lemma_has_id_concat(l0.1, side_orders(rr), id);
                lemma_has_id_concat(l0.1, side_orders(ld), id);
            }
            if no_dup_ids(so_all) && !queue_has_id(so_all, o.id) {
                lemma_no_dup_concat(l0.1, side_orders(ld));
                lemma_no_dup_concat(l0.1, side_orders(rr));
                assert forall|id: u64| !(#[trigger] queue_has_id(l0.1, id) && queue_has_id(
                    side_orders(rr),
                    id,
                )) by {
                    if queue_has_id(l0.1, id) && queue_has_id(side_orders(rr), id) {
                        assert(queue_has_id(side_orders(ld), id) || id == o.id);
                    }
                }
            }
            assert forall|i: int| 0 <= i < r.len() implies wf_level(#[trigger] r[i], book_side) by {
                if i > 0 {
                    assert(r[i] == rr[i - 1]);
                    assert(wf_level(rr[i - 1], book_side));
                }
            }
            assert forall|i: int, j: int| 0 <= i < j < r.len() implies comes_before(
                book_side,
                #[trigger] r[i].0,
                #[trigger] r[j].0,
            ) by {
                if i == 0 {
                    assert(rr[j - 1].0 == r[j].0);
                    assert(has_price(rr, r[j].0));
                    if r[j].0 == o.price {
                        assert(comes_before(book_side, l0.0, o.price));
                    } else {
                        let i0 = choose|i0: int| 0 <= i0 < ld.len() && ld[i0].0 == r[j].0;
                        assert(comes_before(book_side, levels[0].0, levels[i0 + 1].0));
                    }
                } else {
                    assert(comes_before(book_side, rr[i - 1].0, rr[j - 1].0));
                }
            }
            assert forall|p: u64| #[trigger] has_price(r, p) implies has_price(levels, p) || p
                == o.price by {
                let i = choose|i: int| 0 <= i < r.len() && r[i].0 == p;
                if i == 0 {
                    assert(levels[0].0 == p);
                } else {
                    assert(rr[i - 1].0 == p);
                    assert(has_price(rr, p));
                    if p != o.price {
                        let i0 = choose|i0: int| 0 <= i0 < ld.len() && ld[i0].0 == p;
                        assert(levels[i0 + 1].0 == p);
                    }
                }
            }
            if !queue_has_id(so_all, o.id) {
                lemma_queue_find_props(l0.1, o.id);
                assert(side_find(r, o.id) == side_find(rr, o.id));
            }
        }
    }
}

/// What removal of an id from one side guarantees.
pub proof fn lemma_side_drop_props(levels: SideView, id: u64, book_side: Side)
    requires
        wf_side(levels, book_side),
    ensures
        ({
            let r = side_drop_id(levels, id);
            &&& wf_side(r, book_side)
            &&& forall|p: u64| #[trigger] has_price(r, p) ==> has_price(levels, p)
            &&& forall|id2: u64|
                #[trigger] queue_has_id(side_orders(r), id2) ==> queue_has_id(
                    side_orders(levels),
                    id2,
                )
            &&& no_dup_ids(side_orders(levels)) ==> no_dup_ids(side_orders(r)) && !queue_has_id(
                side_orders(r),
                id,
            )
            &&& (side_find(levels, id) is Some) == queue_has_id(side_orders(levels), id)
            &&& side_find(levels, id) matches Some(o) ==> o.id == id && wf_order(
                o,
                o.price,
                book_side,
            )
        }),
    decreases levels.len(),
{
    let r = side_drop_id(levels, id);
    let so_all = side_orders(levels);
    if levels.len() == 0 {
        assert(so_all =~= Seq::<Order>::empty());
    } else {
        let l0 = levels[0];
        let ld = levels.drop_first();
        assert(forall|i: int| 0 <= i < ld.len() ==> ld[i] == levels[i + 1]);
        assert(wf_level(levels[0], book_side));
        assert(so_all == l0.1 + side_orders(ld));
        assert forall|i: int| 0 <= i < ld.len() implies wf_level(#[trigger] ld[i], book_side) by {
            assert(wf_level(levels[i + 1], book_side));
        }
        assert forall|i: int, j: int| 0 <= i < j < ld.len() implies comes_before(
            book_side,
            #[trigger] ld[i].0,
            #[trigger] ld[j].0,
        ) by {
            assert(comes_before(book_side, levels[i + 1].0, levels[j + 1].0));
        }
        lemma_queue_find_props(l0.1, id);
        lemma_queue_drop_props(l0.1, id, l0.0, book_side);
        lemma_has_id_concat(l0.1, side_orders(ld), id);
        lemma_side_drop_props(ld, id, book_side);
        if queue_find(l0.1, id) is Some {
            let q2 = queue_drop_id(l0.1, id);
            if q2.len() > 0 {
                assert(r == seq![(l0.0, q2)] + ld);
                assert(r.drop_first() =~= ld);
                assert(r[0] == (l0.0, q2));
                assert(side_orders(r) == q2 + side_orders(ld));
                assert forall|id2: u64| #[trigger] queue_has_id(side_orders(r), id2) implies
                    queue_has_id(so_all, id2) by {
                    lemma_has_id_concat(q2, side_orders(ld), id2);
                    lemma_has_id_concat(l0.1, side_orders(ld), id2);
                }
                if no_dup_ids(so_all) {
                    lemma_no_dup_concat(l0.1, side_orders(ld));
                    lemma_no_dup_concat(q2, side_orders(ld));
                    assert forall|id2: u64| !(#[trigger] queue_has_id(q2, id2) && queue_has_id(
                        side_orders(ld),
                        id2,
                    )) by {
                        if queue_has_id(q2, id2) {
                            assert(queue_has_id(l0.1, id2));
                        }
                    }
                    assert(!queue_has_id(side_orders(r), id)) by {
                        lemma_has_id_concat(q2, side_orders(ld), id);
                    }
                }
                assert forall|i: int| 0 <= i < r.len() implies wf_level(
                    #[trigger] r[i],
                    book_side,
                ) by {
                    if i > 0 {
                        assert(r[i] == levels[i]);
                        assert(wf_level(levels[i], book_side));
                    }
                }
                assert forall|i: int, j: int| 0 <= i < j < r.len() implies comes_before(
                    book_side,
                    #[trigger] r[i].0,
                    #[trigger] r[j].0,
                ) by {
                    assert(r[i].0 == levels[i].0 && r[j].0 == levels[j].0);
                }
                assert forall|p: u64| #[trigger] has_price(r, p) implies has_price(levels, p) by {
                    let i = choose|i: int| 0 <= i < r.len() && r[i].0 == p;
                    assert(levels[i].0 == p);
                }
            } else {
                assert(r == ld);
                assert forall|id2: u64| #[trigger] queue_has_id(side_orders(r), id2) implies
                    queue_has_id(so_all, id2) by {
                    lemma_has_id_concat(l0.1, side_orders(ld), id2);
                }
                if no_dup_ids(so_all) {
                    lemma_no_dup_concat(l0.1, side_orders(ld));
                    assert(!queue_has_id(side_orders(r), id)) by {
                        if queue_has_id(side_orders(ld), id) {
                            assert(queue_has_id(l0.1, id));
                        }
                    }
                }
                assert forall|p: u64| #[trigger] has_price(r, p) implies has_price(levels, p) by {
                    let i0 = choose|i0: int| 0 <= i0 < ld.len() && ld[i0].0 == p;
                    assert(levels[i0 + 1].0 == p);
                }
            }
        } else {
            let rr = side_drop_id(ld, id);
            assert(r == seq![l0] + rr);
            assert(r.drop_first() =~= rr);
            assert(r[0] == l0);
            assert(side_orders(r) == l0.1 + side_orders(rr));
            assert((side_find(levels, id) is Some) == (side_find(ld, id) is Some));
            assert forall|id2: u64| #[trigger] queue_has_id(side_orders(r), id2) implies
                queue_has_id(so_all, id2) by {
                lemma_has_id_concat(l0.1, side_orders(rr), id2);
                lemma_has_id_concat(l0.1, side_orders(ld), id2);
            }
            if no_dup_ids(so_all) {
                lemma_no_dup_concat(l0.1, side_orders(ld));
                lemma_no_dup_concat(l0.1, side_orders(rr));
                assert forall|id2: u64| !(#[trigger] queue_has_id(l0.1, id2) && queue_has_id(
                    side_orders(rr),
                    id2,
                )) by {
                    if queue_has_id(l0.1, id2) && queue_has_id(side_orders(rr), id2) {
                        assert(queue_has_id(side_orders(ld), id2));
                    }
                }
                assert(!queue_has_id(side_orders(r), id)) by {
                    lemma_has_id_concat(l0.1, side_orders(rr), id);
                }
            }
            assert forall|i: int| 0 <= i < r.len() implies wf_level(#[trigger] r[i], book_side) by {
                if i > 0 {
                    assert(r[i] == rr[i - 1]);
                    assert(wf_level(rr[i - 1], book_side));
                }
            }
            assert forall|i: int, j: int| 0 <= i < j < r.len() implies comes_before(
                book_side,
                #[trigger] r[i].0,
                #[trigger] r[j].0,
            ) by {
                if i == 0 {
                    assert(rr[j - 1].0 == r[j].0);
                    assert(has_price(rr, r[j].0));
                    let i0 = choose|i0: int| 0 <= i0 < ld.len() && ld[i0].0 == r[j].0;
                    assert(comes_before(book_side, levels[0].0, levels[i0 + 1].0));
                } else {
                    assert(comes_before(book_side, rr[i - 1].0, rr[j - 1].0));
                }
            }
            assert forall|p: u64| #[trigger] has_price(r, p) implies has_price(levels, p) by {
                let i = choose|i: int| 0 <= i < r.len() && r[i].0 == p;
                if i == 0 {
                    assert(levels[0].0 == p);
                } else {
                    assert(rr[i - 1].0 == p);
                    assert(has_price(rr, p));
                    let i0 = choose|i0: int| 0 <= i0 < ld.len() && ld[i0].0 == p;
                    assert(levels[i0 + 1].0 == p);
                }
            }
        }
    }
}

} // verus!

verus! {

/// Two id-disjoint duplicate-free sequences concatenate, either way round,
/// into a duplicate-free sequence.
pub proof fn lemma_no_dup_join(a: Seq<Order>, b: Seq<Order>)
    requires
        no_dup_ids(a),
        no_dup_ids(b),
        forall|id: u64| !(#[trigger] queue_has_id(a, id) && queue_has_id(b, id)),
    ensures
        no_dup_ids(a + b),
        no_dup_ids(b + a),
{
    lemma_no_dup_concat(a, b);
    lemma_no_dup_concat(b, a);
    assert forall|id: u64| !(#[trigger] queue_has_id(b, id) && queue_has_id(a, id)) by {
        if queue_has_id(b, id) && queue_has_id(a, id) {
            assert(queue_has_id(a, id) && queue_has_id(b, id));
        }
    }
}

/// Removing an id that is not on the side leaves the side unchanged.
pub proof fn lemma_side_drop_absent(levels: SideView, id: u64)
    requires
        side_find(levels, id) is None,
    ensures
        side_drop_id(levels, id) == levels,
    decreases levels.len(),
{
    if levels.len() > 0 {
        lemma_side_drop_absent(levels.drop_first(), id);
        assert(side_drop_id(levels, id) =~= seq![levels[0]] + side_drop_id(
            levels.drop_first(),
            id,
        ));
        assert(seq![levels[0]] + levels.drop_first() =~= levels);
    }
}

/// The order as a modification rewrites it: price replaced if given, and
/// quantity and remaining both reset if a new quantity is given.
pub open spec fn modified_order(o: Order, new_price: Option<u64>, new_qty: Option<u64>) -> Order {
    Order {
        id: o.id,
        user_id: o.user_id,
        side: o.side,
        price: match new_price {
            Some(p) => p,
            None => o.price,
        },
        qty: match new_qty {
            Some(q) => q,
            None => o.qty,
        },
        remaining: match new_qty {
            Some(q) => q,
            None => o.remaining,
        },
        otype: o.otype,
    }
}

} // verus!
