//! The order book: one price-level ledger per side and a synchronization
//! flag.
//!
//! A single writer (the synchronizer) mutates the book; any number of
//! readers query it. The reader/writer discipline itself is transport-layer
//! plumbing and lives outside the library: every method here works on the
//! book under the writer's (or a reader's) access.

use vstd::prelude::*;
use crate::connection::Order;
use crate::ledger::PriceLevelLedger;
use crate::ledger::Side;
use crate::ledger::better_or_equal;
use crate::ledger::is_best_price;
use crate::ledger::upserted;

verus! {

/// The abstract state of an order book: the two sides' contents and whether
/// the book is in sync with the feed.
#[verifier::ext_equal]
pub struct BookView {
    /// Buy-side contents, price -> quantity.
    pub bids: Map<u64, u64>,
    /// Sell-side contents, price -> quantity.
    pub asks: Map<u64, u64>,
    /// False while the book is mid-resync or invalidated.
    pub synchronized: bool,
}

impl BookView {
    /// The empty, unsynchronized book.
    pub open spec fn empty() -> BookView {
        BookView { bids: Map::empty(), asks: Map::empty(), synchronized: false }
    }
}

/// The book state after one price-level update.
pub open spec fn applied(b: BookView, o: Order) -> BookView {
    match o {
        Order::Bid(d) => BookView {
            bids: upserted(b.bids, d.price, d.quantity),
            asks: b.asks,
            synchronized: b.synchronized,
        },
        Order::Ask(d) => BookView {
            bids: b.bids,
            asks: upserted(b.asks, d.price, d.quantity),
            synchronized: b.synchronized,
        },
    }
}

/// The book state after a sequence of price-level updates, applied in order.
pub open spec fn applied_all(b: BookView, levels: Seq<Order>) -> BookView
    decreases levels.len(),
{
    if levels.len() == 0 {
        b
    } else {
        applied(applied_all(b, levels.drop_last()), levels.last())
    }
}

/// Price-level updates never change whether the book is synchronized: only
/// the synchronizer's own transitions do.
pub proof fn lemma_applied_all_keeps_sync(b: BookView, levels: Seq<Order>)
    ensures
        applied_all(b, levels).synchronized == b.synchronized,
    decreases levels.len(),
{
    if levels.len() > 0 {
        lemma_applied_all_keeps_sync(b, levels.drop_last());
    }
}

/// The order book.
pub struct OrderBook {
    bids: PriceLevelLedger,
    asks: PriceLevelLedger,
    synchronized: bool,
}

impl View for OrderBook {
    type V = BookView;

    closed spec fn view(&self) -> BookView {
        BookView { bids: self.bids@, asks: self.asks@, synchronized: self.synchronized }
    }
}

impl OrderBook {
    /// Both ledgers are well formed and serve their own side.
    pub closed spec fn wf(&self) -> bool {
        &&& self.bids.wf()
        &&& self.bids.side() == Side::Bid
        &&& self.asks.wf()
        &&& self.asks.side() == Side::Ask
    }

    /// Creates an empty order book, not yet synchronized with any feed.
    pub fn create() -> (r: Self)
        ensures
            r.wf(),
            r@ == BookView::empty(),
    {
        OrderBook {
            bids: PriceLevelLedger::new(Side::Bid),
            asks: PriceLevelLedger::new(Side::Ask),
            synchronized: false,
        }
    }

    /// Applies one price-level update to the side it names.
    pub fn apply(&mut self, order: &Order)
        requires
            old(self).wf(),
        ensures
            final(self).wf(),
            final(self)@ == applied(old(self)@, *order),
    {
        match order {
            Order::Bid(d) => self.bids.upsert(d.price, d.quantity),
            Order::Ask(d) => self.asks.upsert(d.price, d.quantity),
        }
    }

    /// Clears both ledgers and marks the book out of sync: queries must
    /// report no value rather than stale data.
    pub fn reset(&mut self)
        requires
            old(self).wf(),
        ensures
            final(self).wf(),
            final(self)@ == BookView::empty(),
    {
        self.bids.clear();
        self.asks.clear();
        self.synchronized = false;
    }

    /// Marks the book in sync with the feed; only the synchronizer does
    /// this, once a fresh snapshot is being loaded under its exclusive
    /// access.
    pub(crate) fn mark_synchronized(&mut self)
        ensures
            final(self).wf() == old(self).wf(),
            final(self)@ == (BookView { synchronized: true, ..old(self)@ }),
    {
        self.synchronized = true;
    }

    /// The best bid and ask prices. Both are `None` while the book is out
    /// of sync; an empty side reports `None` as well.
    pub fn top_bid_ask(&self) -> (r: (Option<u64>, Option<u64>))
        requires
            self.wf(),
        ensures
            !self@.synchronized ==> r == (Option::<u64>::None, Option::<u64>::None),
            self@.synchronized ==> match r.0 {
                Option::Some(p) => is_best_price(Side::Bid, self@.bids, p),
                Option::None => self@.bids == Map::<u64, u64>::empty(),
            },
            self@.synchronized ==> match r.1 {
                Option::Some(p) => is_best_price(Side::Ask, self@.asks, p),
                Option::None => self@.asks == Map::<u64, u64>::empty(),
            },
    {
        if !self.synchronized {
            return (None, None);
        }
        let bid = match self.bids.best() {
            Some(pq) => Some(pq.0),
            None => None,
        };
        let ask = match self.asks.best() {
            Some(pq) => Some(pq.0),
            None => None,
        };
        (bid, ask)
    }

    /// The quantity the book holds at `price` on `side`, if such a level
    /// exists.
    pub fn quantity_at(&self, side: Side, price: u64) -> (r: Option<u64>)
        requires
            self.wf(),
        ensures
            ({
                let m = if side == Side::Bid { self@.bids } else { self@.asks };
                match r {
                    Option::Some(q) => m.dom().contains(price) && m[price] == q,
                    Option::None => !m.dom().contains(price),
                }
            }),
    {
        match side {
            Side::Bid => self.bids.get(price),
            Side::Ask => self.asks.get(price),
        }
    }
}

/// Law: the best price reported for a side is the side-minimal one — any
/// two best prices of the same contents are equal.
pub proof fn lemma_best_price_unique(side: Side, m: Map<u64, u64>, p1: u64, p2: u64)
    requires
        is_best_price(side, m, p1),
        is_best_price(side, m, p2),
    ensures
        p1 == p2,
{
    assert(better_or_equal(side, p1, p2));
    assert(better_or_equal(side, p2, p1));
}

} // verus!
