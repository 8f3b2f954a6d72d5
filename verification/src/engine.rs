//! The symbol-multiplexing engine: a map from symbol to its book, one risk
//! gate shared by all books, and the routing façade over both.

use vstd::prelude::*;

use crate::book::batch_fold;
use crate::book::l2_post;
use crate::book::result_matches;
use crate::book::submit_post;
use crate::book::OrderBook;
use crate::model::insert_order;
use crate::model::modified_order;
use crate::model::side_drop_id;
use crate::model::side_find;
use crate::risk::RiskEngine;
use crate::tables::book_table_get;
use crate::tables::book_table_insert;
use crate::tables::book_table_new;
use crate::tables::book_table_remove;
use crate::tables::book_table_view;
use crate::tables::BookTable;
use crate::types::Fill;
use crate::types::Order;
use crate::types::OrderType;
use crate::types::RiskError;
use crate::types::Side;

verus! {

pub struct MatchingEngine {
    pub books: BookTable,
    pub risk: RiskEngine,
}

impl MatchingEngine {
    /// The symbol-to-book map.
    pub open spec fn books_view(self) -> Map<Seq<char>, OrderBook> {
        book_table_view(self.books)
    }

    /// Every book held by the engine satisfies the book invariant.
    pub open spec fn wf(self) -> bool {
        forall|s: Seq<char>|
            #[trigger] self.books_view().dom().contains(s) ==> self.books_view()[s].wf()
    }

    /// An engine with no books and an unconfigured risk gate.
    pub fn new() -> (r: Self)
        ensures
            r.wf(),
            r.books_view() == Map::<Seq<char>, OrderBook>::empty(),
            r.risk.position_limits_view() == Map::<u64, u64>::empty(),
            r.risk.rate_limits_view() == Map::<u64, u64>::empty(),
    {
        let r = MatchingEngine { books: book_table_new(), risk: RiskEngine::new() };
        r
    }

    /// Set or overwrite the remaining rate credit for a user.
    pub fn set_rate_limit(&mut self, user_id: u64, limit: u64)
        ensures
            final(self).books_view() == old(self).books_view(),
            final(self).risk.rate_limits_view() == old(self).risk.rate_limits_view().insert(
                user_id,
                limit,
            ),
            final(self).risk.position_limits_view() == old(self).risk.position_limits_view(),
    {
        self.risk.set_rate_limit(user_id, limit);
    }

    /// Set or overwrite the user's maximum single-order quantity.
    pub fn set_position_limit(&mut self, user_id: u64, max_qty: u64)
        ensures
            final(self).books_view() == old(self).books_view(),
            final(self).risk.position_limits_view() == old(self).risk.position_limits_view().insert(user_id, max_qty),
            final(self).risk.rate_limits_view() == old(self).risk.rate_limits_view(),
    {
        self.risk.set_position_limit(user_id, max_qty);
    }

    /// Submit one order against a symbol, creating its book on demand.
    pub fn submit(
        &mut self,
        symbol: &str,
        id: u64,
        user_id: u64,
        otype: OrderType,
        side: Side,
        price: u64,
        qty: u64,
    ) -> (r: Result<Vec<Fill>, RiskError>)
        requires
            old(self).wf(),
            old(self).books_view().dom().contains(symbol@) ==> !old(self).books_view()[
                symbol@
            ].has_id(id),
        ensures
            final(self).wf(),
            final(self).books_view().dom() == old(self).books_view().dom().insert(symbol@),
            forall|s: Seq<char>|
                #[trigger] old(self).books_view().dom().contains(s) && s != symbol@ ==> final(self).books_view()[s] == old(self).books_view()[s],
            old(self).books_view().dom().contains(symbol@) ==> submit_post(
                old(self).books_view()[symbol@].bids_view(),
                old(self).books_view()[symbol@].asks_view(),
                old(self).risk,
                final(self).books_view()[symbol@].bids_view(),
                final(self).books_view()[symbol@].asks_view(),
                final(self).risk,
                id,
                user_id,
                otype,
                side,
                price,
                qty,
                r,
            ),
            !old(self).books_view().dom().contains(symbol@) ==> submit_post(
                Seq::<(u64, Seq<Order>)>::empty(),
                Seq::<(u64, Seq<Order>)>::empty(),
                old(self).risk,
                final(self).books_view()[symbol@].bids_view(),
                final(self).books_view()[symbol@].asks_view(),
                final(self).risk,
                id,
                user_id,
                otype,
                side,
                price,
                qty,
                r,
            ),
    {
        let existing = book_table_remove(&mut self.books, symbol);
        let mut book = match existing {
            Some(b) => b,
            None => OrderBook::new(),
        };
        proof {
            if !old(self).books_view().dom().contains(symbol@) {
                assert(book.orders() =~= Seq::<Order>::empty());
            }
        }
        let res = book.submit(id, user_id, otype, side, price, qty, &mut self.risk);
        book_table_insert(&mut self.books, symbol, book);
        proof {
            assert(self.books_view().dom() =~= old(self).books_view().dom().insert(symbol@));
        }
        res
    }

    /// Cancel a resting order; an unknown symbol is "not found".
    pub fn cancel(&mut self, symbol: &str, id: u64) -> (r: Option<Order>)
        requires
            old(self).wf(),
        ensures
            final(self).wf(),
            !old(self).books_view().dom().contains(symbol@) ==> r is None && final(self).books_view() == old(self).books_view(),
            old(self).books_view().dom().contains(symbol@) ==> ({
                let b0 = old(self).books_view()[symbol@];
                let b1 = final(self).books_view()[symbol@];
                &&& r == b0.find(id)
                &&& final(self).books_view().dom() == old(self).books_view().dom()
                &&& b1.bids_view() == (if side_find(b0.bids_view(), id) is Some {
                    side_drop_id(b0.bids_view(), id)
                } else {
                    b0.bids_view()
                })
                &&& b1.asks_view() == (if side_find(b0.bids_view(), id) is Some {
                    b0.asks_view()
                } else {
                    side_drop_id(b0.asks_view(), id)
                })
                &&& forall|s: Seq<char>|
                    #[trigger] old(self).books_view().dom().contains(s) && s != symbol@ ==> final(self).books_view()[s] == old(self).books_view()[s]
            }),
            final(self).risk == old(self).risk,
    {
        let existing = book_table_remove(&mut self.books, symbol);
        match existing {
            Some(b) => {
                let mut book = b;
                let r = book.cancel(id);
                book_table_insert(&mut self.books, symbol, book);
                proof {
                    assert(self.books_view().dom() =~= old(self).books_view().dom());
                }
                r
            },
            None => {
                proof {
                    assert(self.books_view() =~= old(self).books_view());
                }
                None
            },
        }
    }

    /// Modify a resting order; unknown symbols and ids are ignored.
    pub fn modify(&mut self, symbol: &str, id: u64, new_price: Option<u64>, new_qty: Option<u64>)
        requires
            old(self).wf(),
            new_qty matches Some(q) ==> q > 0,
        ensures
            final(self).wf(),
            !old(self).books_view().dom().contains(symbol@) ==> final(self).books_view() == old(self).books_view(),
            final(self).risk == old(self).risk,
            old(self).books_view().dom().contains(symbol@) ==> ({
                let b0 = old(self).books_view()[symbol@];
                let b1 = final(self).books_view()[symbol@];
                &&& final(self).books_view().dom() == old(self).books_view().dom()
                &&& forall|s: Seq<char>|
                    #[trigger] old(self).books_view().dom().contains(s) && s != symbol@ ==> final(self).books_view()[s] == old(self).books_view()[s]
                &&& b0.find(id) is None ==> b1.bids_view() == b0.bids_view() && b1.asks_view() == b0.asks_view()
                &&& b0.find(id) matches Some(o) ==> ({
                    let o2 = modified_order(o, new_price, new_qty);
                    &&& o.side == Side::Bid ==> b1.bids_view() == insert_order(
                        side_drop_id(b0.bids_view(), id),
                        o2,
                        Side::Bid,
                    ) && b1.asks_view() == b0.asks_view()
                    &&& o.side == Side::Ask ==> b1.asks_view() == insert_order(
                        side_drop_id(b0.asks_view(), id),
                        o2,
                        Side::Ask,
                    ) && b1.bids_view() == b0.bids_view()
                })
            }),
    {
        let existing = book_table_remove(&mut self.books, symbol);
        match existing {
            Some(b) => {
                let mut book = b;
                proof {
                    assert(old(self).books_view()[symbol@].wf());
                }
                book.modify(id, new_price, new_qty);
                book_table_insert(&mut self.books, symbol, book);
                proof {
                    assert(self.books_view().dom() =~= old(self).books_view().dom());
                    assert forall|s: Seq<char>| #[trigger] self.books_view().dom().contains(s)
                        implies self.books_view()[s].wf() by {
                        if s != symbol@ {
                            assert(self.books_view()[s] == old(self).books_view()[s]);
                        }
                    }
                }
            },
            None => {
                proof {
                    assert(self.books_view() =~= old(self).books_view());
                }
            },
        }
    }

    /// Submit a list of orders against one symbol; an unknown symbol
    /// returns an empty list and creates no book.
    pub fn batch_submit(
        &mut self,
        symbol: &str,
        orders: Vec<(u64, u64, OrderType, Side, u64, u64)>,
    ) -> (r: Vec<Result<Vec<Fill>, RiskError>>)
        requires
            old(self).wf(),
            old(self).books_view().dom().contains(symbol@) ==> forall|k: int|
                0 <= k < orders@.len() ==> !old(self).books_view()[symbol@].has_id(
                    (#[trigger] orders@[k]).0,
                ),
            forall|k1: int, k2: int|
                0 <= k1 < k2 < orders@.len() ==> (#[trigger] orders@[k1]).0 != (
                #[trigger] orders@[k2]).0,
        ensures
            final(self).wf(),
            !old(self).books_view().dom().contains(symbol@) ==> r@.len() == 0 && final(self).books_view() == old(self).books_view(),
            old(self).books_view().dom().contains(symbol@) ==> r@.len() == orders@.len(),
            old(self).books_view().dom().contains(symbol@) ==> ({
                let b0 = old(self).books_view()[symbol@];
                let b1 = final(self).books_view()[symbol@];
                let f = batch_fold(
                    b0.bids_view(),
                    b0.asks_view(),
                    old(self).risk.position_limits_view(),
                    old(self).risk.rate_limits_view(),
                    orders@,
                );
                &&& forall|k: int|
                    0 <= k < r@.len() ==> result_matches(#[trigger] r@[k], f.0[k])
                &&& b1.bids_view() == f.1
                &&& b1.asks_view() == f.2
                &&& final(self).risk.position_limits_view() == f.3
                &&& final(self).risk.rate_limits_view() == f.4
                &&& final(self).books_view().dom() == old(self).books_view().dom()
                &&& forall|s: Seq<char>|
                    #[trigger] old(self).books_view().dom().contains(s) && s != symbol@ ==> final(self).books_view()[s] == old(self).books_view()[s]
            }),
    {
        let existing = book_table_remove(&mut self.books, symbol);
        match existing {
            Some(b) => {
                let mut book = b;
                proof {
                    assert(old(self).books_view()[symbol@].wf());
                }
                let r = book.batch_submit(orders, &mut self.risk);
                book_table_insert(&mut self.books, symbol, book);
                proof {
                    assert(self.books_view().dom() =~= old(self).books_view().dom());
                    assert forall|s: Seq<char>| #[trigger] self.books_view().dom().contains(s)
                        implies self.books_view()[s].wf() by {
                        if s != symbol@ {
                            assert(self.books_view()[s] == old(self).books_view()[s]);
                        }
                    }
                }
                r
            },
            None => {
                proof {
                    assert(self.books_view() =~= old(self).books_view());
                }
                Vec::new()
            },
        }
    }

    /// The depth snapshot of a symbol's book, if the symbol is known.
    pub fn get_l2_snapshot(&self, symbol: &str, depth: usize) -> (r: Option<
        (Vec<(u64, u64)>, Vec<(u64, u64)>),
    >)
        requires
            self.wf(),
        ensures
            (r is Some) == self.books_view().dom().contains(symbol@),
            r matches Some(p) ==> l2_post(
                self.books_view()[symbol@],
                depth,
                (p.0@, p.1@),
            ),
    {
        let found = book_table_get(&self.books, symbol);
        match found {
            Some(book) => {
                proof {
                    assert(self.books_view()[symbol@].wf());
                }
                let p = book.get_l2_snapshot(depth);
                Some(p)
            },
            None => None,
        }
    }
}

} // verus!
