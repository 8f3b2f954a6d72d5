//! The hash tables the engine keeps its keyed state in. They are hashbrown
//! maps held behind an opaque boundary; each operation used by the library
//! is a thin wrapper whose contract restates what hashbrown's documentation
//! and source promise of it, over a mathematical `Map` of the contents.

use vstd::prelude::*;

use crate::book::OrderBook;

verus! {

/// A map from a 64-bit key to a 64-bit value, backed by `hashbrown::HashMap`.
#[verifier::external_body]
pub struct LimitTable {
    inner: hashbrown::HashMap<u64, u64>,
}

/// The entries of a `LimitTable`.
pub uninterp spec fn limit_table_view(t: LimitTable) -> Map<u64, u64>;

/// Holds when the table has no entries.
pub open spec fn limit_table_empty(t: LimitTable) -> bool {
    limit_table_view(t) == Map::<u64, u64>::empty()
}

/// Relies on hashbrown::HashMap::new: the new map has no entries.
#[verifier::external_body]
pub fn limit_table_new() -> (r: LimitTable)
    ensures
        limit_table_empty(r),
{
    LimitTable { inner: hashbrown::HashMap::new() }
}

/// Relies on hashbrown::HashMap::get: the value stored under the key, if any.
#[verifier::external_body]
pub fn limit_table_get(t: &LimitTable, k: u64) -> (r: Option<u64>)
    ensures
        limit_table_view(*t).dom().contains(k) ==> r == Some(limit_table_view(*t)[k]),
        !limit_table_view(*t).dom().contains(k) ==> r is None,
{
    t.inner.get(&k).copied()
}

/// Relies on hashbrown::HashMap::insert: the key now maps to the value and
/// every other entry is unchanged.
#[verifier::external_body]
pub fn limit_table_insert(t: &mut LimitTable, k: u64, v: u64)
    ensures
        limit_table_view(*final(t)) == limit_table_view(*old(t)).insert(k, v),
{
    t.inner.insert(k, v);
}

/// A map from a symbol to its book, backed by `hashbrown::HashMap`.
#[verifier::external_body]
pub struct BookTable {
    inner: hashbrown::HashMap<String, OrderBook>,
}

/// The entries of a `BookTable`, keyed by the symbol's characters.
pub uninterp spec fn book_table_view(t: BookTable) -> Map<Seq<char>, OrderBook>;

/// Holds when the table has no entries.
pub open spec fn book_table_empty(t: BookTable) -> bool {
    book_table_view(t) == Map::<Seq<char>, OrderBook>::empty()
}

/// Relies on hashbrown::HashMap::new: the new map has no entries.
#[verifier::external_body]
pub fn book_table_new() -> (r: BookTable)
    ensures
        book_table_empty(r),
{
    BookTable { inner: hashbrown::HashMap::new() }
}

/// Relies on hashbrown::HashMap::get: the book stored under the symbol, if any.
#[verifier::external_body]
pub fn book_table_get<'a>(t: &'a BookTable, k: &str) -> (r: Option<&'a OrderBook>)
    ensures
        book_table_view(*t).dom().contains(k@) ==> r is Some,
        !book_table_view(*t).dom().contains(k@) ==> r is None,
        r matches Some(b) ==> *b == book_table_view(*t)[k@],
{
    t.inner.get(k)
}

/// Relies on hashbrown::HashMap::remove: takes the entry under the symbol
/// out of the map, if there is one, and leaves every other entry unchanged.
#[verifier::external_body]
pub fn book_table_remove(t: &mut BookTable, k: &str) -> (r: Option<OrderBook>)
    ensures
        book_table_view(*old(t)).dom().contains(k@) ==> r is Some,
        !book_table_view(*old(t)).dom().contains(k@) ==> r is None,
        r matches Some(b) ==> b == book_table_view(*old(t))[k@],
        book_table_view(*final(t)) == book_table_view(*old(t)).remove(k@),
{
    t.inner.remove(k)
}

/// Relies on hashbrown::HashMap::insert: the symbol now maps to the book and
/// every other entry is unchanged.
#[verifier::external_body]
pub fn book_table_insert(t: &mut BookTable, k: &str, v: OrderBook)
    ensures
        book_table_view(*final(t)) == book_table_view(*old(t)).insert(k@, v),
{
    t.inner.insert(k.to_string(), v);
}

} // verus!
