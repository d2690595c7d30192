//! One side of the order book: a sorted price -> quantity ledger.
//!
//! A ledger holds at most one entry per price and never stores a quantity of
//! zero. Entries are kept sorted with the side's best price first, so the
//! best-price query reads the front entry. The ledger's abstract state is a
//! `Map<u64, u64>` from price to quantity.

use vstd::prelude::*;
use vstd::assert_maps_equal;

verus! {

/// Which side of the book a price level belongs to.
#[derive(Clone, Copy, Debug, PartialEq, Eq, Structural)]
pub enum Side {
    /// The buy side: higher prices are better.
    Bid,
    /// The sell side: lower prices are better.
    Ask,
}

/// True when price `a` is strictly better than price `b` on `side`: bids
/// prefer higher prices, asks prefer lower ones.
pub open spec fn better(side: Side, a: u64, b: u64) -> bool {
    match side {
        Side::Bid => a > b,
        Side::Ask => a < b,
    }
}

/// True when price `a` is at least as good as price `b` on `side`.
pub open spec fn better_or_equal(side: Side, a: u64, b: u64) -> bool {
    better(side, a, b) || a == b
}

/// `price` is the best price among the contents `m` under `side`'s ordering.
pub open spec fn is_best_price(side: Side, m: Map<u64, u64>, price: u64) -> bool {
    &&& m.dom().contains(price)
    &&& forall|k: u64| m.dom().contains(k) ==> better_or_equal(side, price, k)
}

/// What `upsert` does to a ledger's contents: a positive quantity is stored
/// at the price, replacing any previous quantity there; a quantity of zero
/// removes the price level (a no-op when the price is absent).
pub open spec fn upserted(m: Map<u64, u64>, price: u64, quantity: u64) -> Map<u64, u64> {
    if quantity > 0 {
        m.insert(price, quantity)
    } else {
        m.remove(price)
    }
}

/// There is an entry at price `p` among the entries `s`.
pub open spec fn has_price(s: Seq<(u64, u64)>, p: u64) -> bool {
    exists|i: int| 0 <= i < s.len() && s[i].0 == p
}

/// The index of the entry at price `p`, when one exists.
pub open spec fn price_index(s: Seq<(u64, u64)>, p: u64) -> int {
    choose|i: int| 0 <= i < s.len() && s[i].0 == p
}

/// No two entries share a price.
pub open spec fn unique_prices(s: Seq<(u64, u64)>) -> bool {
    forall|i: int, j: int|
        0 <= i < s.len() && 0 <= j < s.len() && i != j ==> s[i].0 != s[j].0
}

/// The price -> quantity map denoted by a sequence of unique-price entries.
pub open spec fn contents(s: Seq<(u64, u64)>) -> Map<u64, u64> {
    Map::new(|p: u64| has_price(s, p), |p: u64| s[price_index(s, p)].1)
}

/// An entry of a unique-price sequence is a binding of its contents.
proof fn lemma_contents_at(s: Seq<(u64, u64)>, i: int)
    requires
        unique_prices(s),
        0 <= i < s.len(),
    ensures
        contents(s).dom().contains(s[i].0),
        contents(s)[s[i].0] == s[i].1,
{
    let p = s[i].0;
    assert(has_price(s, p));
    let j = price_index(s, p);
    assert(0 <= j < s.len() && s[j].0 == p);
    assert(j == i);
}

/// Updating the entry at price `p` in place replaces that binding alone.
proof fn lemma_contents_update(s: Seq<(u64, u64)>, i: int, p: u64, q: u64)
    requires
        unique_prices(s),
        0 <= i < s.len(),
        s[i].0 == p,
    ensures
        unique_prices(s.update(i, (p, q))),
        contents(s.update(i, (p, q))) == contents(s).insert(p, q),
{
    let s2 = s.update(i, (p, q));
    assert(forall|x: int| 0 <= x < s2.len() ==> s2[x].0 == s[x].0);
    assert(unique_prices(s2));
    assert_maps_equal!(contents(s2), contents(s).insert(p, q), k => {
        if k == p {
            lemma_contents_at(s2, i);
        } else {
            if has_price(s, k) {
                let w = price_index(s, k);
                assert(0 <= w < s.len() && s[w].0 == k);
                assert(s2[w].0 == k);
                lemma_contents_at(s, w);
                lemma_contents_at(s2, w);
            }
            if has_price(s2, k) {
                let w = price_index(s2, k);
                assert(0 <= w < s.len() && s[w].0 == k);
            }
        }
    });
}

/// Inserting an entry at a fresh price adds exactly that binding.
proof fn lemma_contents_insert(s: Seq<(u64, u64)>, i: int, p: u64, q: u64)
    requires
        unique_prices(s),
        0 <= i <= s.len(),
        !has_price(s, p),
    ensures
        unique_prices(s.insert(i, (p, q))),
        contents(s.insert(i, (p, q))) == contents(s).insert(p, q),
{
    let s2 = s.insert(i, (p, q));
    assert(forall|x: int| 0 <= x < i ==> s2[x] == s[x]);
    assert(forall|x: int| i < x < s2.len() ==> s2[x] == s[x - 1]);
    assert(s2[i] == (p, q));
    assert forall|x: int, y: int|
        0 <= x < s2.len() && 0 <= y < s2.len() && x != y implies s2[x].0 != s2[y].0 by {
        if s2[x].0 == s2[y].0 {
            if x == i {
                let yo = if y < i { y } else { y - 1 };
                assert(s[yo].0 == p);
                assert(has_price(s, p));
            } else if y == i {
                let xo = if x < i { x } else { x - 1 };
                assert(s[xo].0 == p);
                assert(has_price(s, p));
            } else {
                let xo = if x < i { x } else { x - 1 };
                let yo = if y < i { y } else { y - 1 };
                assert(s[xo].0 == s[yo].0 && xo != yo);
            }
        }
    }
    assert_maps_equal!(contents(s2), contents(s).insert(p, q), k => {
        if k == p {
            lemma_contents_at(s2, i);
        } else {
            if has_price(s, k) {
                let w = price_index(s, k);
                assert(0 <= w < s.len() && s[w].0 == k);
                let w2 = if w < i { w } else { w + 1 };
                assert(s2[w2].0 == k);
                lemma_contents_at(s, w);
                lemma_contents_at(s2, w2);
            }
            if has_price(s2, k) {
                let w2 = price_index(s2, k);
                assert(0 <= w2 < s2.len() && s2[w2].0 == k);
                let w = if w2 < i { w2 } else { w2 - 1 };
                assert(s[w].0 == k);
                assert(has_price(s, k));
            }
        }
    });
}

/// Removing the entry at price `p` drops exactly that binding.
proof fn lemma_contents_remove(s: Seq<(u64, u64)>, i: int, p: u64)
    requires
        unique_prices(s),
        0 <= i < s.len(),
        s[i].0 == p,
    ensures
        unique_prices(s.remove(i)),
        contents(s.remove(i)) == contents(s).remove(p),
{
    let s2 = s.remove(i);
    assert(forall|x: int| 0 <= x < i ==> s2[x] == s[x]);
    assert(forall|x: int| i <= x < s2.len() ==> s2[x] == s[x + 1]);
    assert forall|x: int, y: int|
        0 <= x < s2.len() && 0 <= y < s2.len() && x != y implies s2[x].0 != s2[y].0 by {
        let xo = if x < i { x } else { x + 1 };
        let yo = if y < i { y } else { y + 1 };
        assert(s2[x] == s[xo] && s2[y] == s[yo] && xo != yo);
    }
    assert_maps_equal!(contents(s2), contents(s).remove(p), k => {
        if k != p {
            if has_price(s, k) {
                let w = price_index(s, k);
                assert(0 <= w < s.len() && s[w].0 == k);
                assert(w != i);
                let w2 = if w < i { w } else { w - 1 };
                assert(s2[w2].0 == k);
                lemma_contents_at(s, w);
                lemma_contents_at(s2, w2);
            }
            if has_price(s2, k) {
                let w2 = price_index(s2, k);
                assert(0 <= w2 < s2.len() && s2[w2].0 == k);
                let w = if w2 < i { w2 } else { w2 + 1 };
                assert(s[w].0 == k);
                assert(has_price(s, k));
            }
        } else {
            if has_price(s2, p) {
                let w2 = price_index(s2, p);
                assert(0 <= w2 < s2.len() && s2[w2].0 == p);
                let w = if w2 < i { w2 } else { w2 + 1 };
                assert(s[w].0 == p && w != i);
            }
        }
    });
}

/// A sequence with no entry at price `p` denotes a map without `p`.
proof fn lemma_contents_absent(s: Seq<(u64, u64)>, p: u64)
    requires
        !has_price(s, p),
    ensures
        contents(s).remove(p) == contents(s),
{
    assert_maps_equal!(contents(s).remove(p), contents(s), k => {});
}

/// One side of an order book: price levels sorted best-first.
pub struct PriceLevelLedger {
    side: Side,
    levels: Vec<(u64, u64)>,
}

impl View for PriceLevelLedger {
    type V = Map<u64, u64>;

    /// The ledger's contents, as a price -> quantity map.
    closed spec fn view(&self) -> Map<u64, u64> {
        contents(self.levels@)
    }
}

impl PriceLevelLedger {
    /// The side this ledger serves.
    pub closed spec fn side(&self) -> Side {
        self.side
    }

    /// Entries are sorted strictly best-first (so prices are unique) and
    /// every stored quantity is positive.
    pub closed spec fn wf(&self) -> bool {
        &&& forall|i: int, j: int|
            0 <= i < j < self.levels@.len() ==> better(
                self.side,
                self.levels@[i].0,
                self.levels@[j].0,
            )
        &&& forall|i: int| 0 <= i < self.levels@.len() ==> self.levels@[i].1 > 0
    }

    /// Sorted entries have unique prices: the better-than order is strict.
    proof fn lemma_wf_unique(&self)
        requires
            self.wf(),
        ensures
            unique_prices(self.levels@),
    {
        assert forall|i: int, j: int|
            0 <= i < self.levels@.len() && 0 <= j < self.levels@.len() && i != j
            implies self.levels@[i].0 != self.levels@[j].0 by {
            if i < j {
                assert(better(self.side, self.levels@[i].0, self.levels@[j].0));
            } else {
                assert(better(self.side, self.levels@[j].0, self.levels@[i].0));
            }
        }
    }

    /// Law: a well-formed ledger never holds a level of quantity zero — a
    /// quantity of zero means "absent", it is never stored.
    pub proof fn lemma_quantities_positive(&self)
        requires
            self.wf(),
        ensures
            forall|k: u64| self@.dom().contains(k) ==> self@[k] > 0,
    {
        self.lemma_wf_unique();
        assert forall|k: u64| self@.dom().contains(k) implies self@[k] > 0 by {
            let w = price_index(self.levels@, k);
            assert(0 <= w < self.levels@.len() && self.levels@[w].0 == k);
            lemma_contents_at(self.levels@, w);
        }
    }

    /// Creates an empty ledger for `side`.
    pub fn new(side: Side) -> (r: Self)
        ensures
            r.wf(),
            r.side() == side,
            r@ == Map::<u64, u64>::empty(),
    {
        let r = PriceLevelLedger { side, levels: Vec::new() };
        proof {
            assert(r@ =~= Map::<u64, u64>::empty());
        }
        r
    }

    /// Decides `better(side, a, b)` for this ledger's side.
    fn is_better(&self, a: u64, b: u64) -> (r: bool)
        ensures
            r == better(self.side(), a, b),
    {
        match self.side {
            Side::Bid => a > b,
            Side::Ask => a < b,
        }
    }

    /// The index of the first entry whose price is not better than `price`:
    /// the slot where `price` belongs.
    fn position_of(&self, price: u64) -> (i: usize)
        requires
            self.wf(),
        ensures
            i <= self.levels@.len(),
            forall|j: int| 0 <= j < i ==> better(self.side(), self.levels@[j].0, price),
            i < self.levels@.len() ==> !better(self.side(), self.levels@[i as int].0, price),
    {
        let mut i: usize = 0;
        loop
            invariant
                self.wf(),
                i <= self.levels@.len(),
                forall|j: int| 0 <= j < i ==> better(self.side(), self.levels@[j].0, price),
            decreases self.levels@.len() - i,
        {
            if i == self.levels.len() {
                return i;
            }
            let entry_price = self.levels[i].0;
            if !self.is_better(entry_price, price) {
                return i;
            }
            i = i + 1;
        }
    }

    /// Stores `quantity` at `price` when the quantity is positive, replacing
    /// any quantity previously stored there; removes the level at `price`
    /// when the quantity is zero.
    pub fn upsert(&mut self, price: u64, quantity: u64)
        requires
            old(self).wf(),
        ensures
            final(self).wf(),
            final(self).side() == old(self).side(),
            final(self)@ == upserted(old(self)@, price, quantity),
    {
        proof {
            self.lemma_wf_unique();
        }
        let ghost s0 = self.levels@;
        let i = self.position_of(price);
        if i < self.levels.len() && self.levels[i].0 == price {
            if quantity > 0 {
                self.levels.set(i, (price, quantity));
                proof {
                    lemma_contents_update(s0, i as int, price, quantity);
                }
            } else {
                self.levels.remove(i);
                proof {
                    lemma_contents_remove(s0, i as int, price);
                }
            }
        } else {
            proof {
                // `price` is absent: entries before `i` are strictly better
                // than it, entries from `i` on are strictly worse.
                assert forall|j: int| 0 <= j < s0.len() implies s0[j].0 != price by {
                    if j >= i {
                        assert(!better(self.side, s0[i as int].0, price));
                        if j > i {
                            assert(better(self.side, s0[i as int].0, s0[j].0));
                        }
                    }
                }
                assert(!has_price(s0, price));
            }
            if quantity > 0 {
                self.levels.insert(i, (price, quantity));
                proof {
                    lemma_contents_insert(s0, i as int, price, quantity);
                    // Sortedness holds around the inserted slot.
                    assert forall|x: int, y: int|
                        0 <= x < y < self.levels@.len() implies better(
                        self.side,
                        self.levels@[x].0,
                        self.levels@[y].0,
                    ) by {
                        if y == i {
                            assert(self.levels@[x] == s0[x]);
                        } else if x == i {
                            assert(self.levels@[y] == s0[y - 1]);
                            assert(!better(self.side, s0[i as int].0, price));
                            if y - 1 > i {
                                assert(better(self.side, s0[i as int].0, s0[y - 1].0));
                            }
                        } else if x < i && y > i {
                            assert(self.levels@[x] == s0[x]);
                            assert(self.levels@[y] == s0[y - 1]);
                            if y - 1 > i {
                                assert(better(self.side, s0[i as int].0, s0[y - 1].0));
                            }
                            assert(!better(self.side, s0[i as int].0, price));
                        } else if y < i {
                            assert(self.levels@[x] == s0[x] && self.levels@[y] == s0[y]);
                        } else {
                            assert(self.levels@[x] == s0[x - 1] && self.levels@[y] == s0[y - 1]);
                        }
                    }
                }
            } else {
                proof {
                    lemma_contents_absent(s0, price);
                }
            }
        }
    }

    /// The quantity stored at `price`, if that level exists.
    pub fn get(&self, price: u64) -> (r: Option<u64>)
        requires
            self.wf(),
        ensures
            match r {
                Option::Some(q) => self@.dom().contains(price) && self@[price] == q,
                Option::None => !self@.dom().contains(price),
            },
    {
        proof {
            self.lemma_wf_unique();
        }
        let i = self.position_of(price);
        if i < self.levels.len() && self.levels[i].0 == price {
            proof {
                lemma_contents_at(self.levels@, i as int);
            }
            Some(self.levels[i].1)
        } else {
            proof {
                assert forall|j: int| 0 <= j < self.levels@.len()
                    implies self.levels@[j].0 != price by {
                    if j >= i {
                        assert(!better(self.side, self.levels@[i as int].0, price));
                        if j > i {
                            assert(better(self.side, self.levels@[i as int].0, self.levels@[j].0));
                        }
                    }
                }
                assert(!has_price(self.levels@, price));
            }
            None
        }
    }

    /// The best price level: the minimum entry under the side's ordering,
    /// or `None` when the ledger is empty.
    pub fn best(&self) -> (r: Option<(u64, u64)>)
        requires
            self.wf(),
        ensures
            match r {
                Option::Some(pq) => {
                    &&& is_best_price(self.side(), self@, pq.0)
                    &&& self@[pq.0] == pq.1
                    &&& pq.1 > 0
                },
                Option::None => self@ == Map::<u64, u64>::empty(),
            },
    {
        proof {
            self.lemma_wf_unique();
        }
        if self.levels.len() == 0 {
            proof {
                assert(self@ =~= Map::<u64, u64>::empty());
            }
            None
        } else {
            let (p, q) = self.levels[0];
            proof {
                lemma_contents_at(self.levels@, 0);
                assert forall|k: u64| self@.dom().contains(k)
                    implies better_or_equal(self.side, p, k) by {
                    let w = price_index(self.levels@, k);
                    assert(0 <= w < self.levels@.len() && self.levels@[w].0 == k);
                    if w > 0 {
                        assert(better(self.side, self.levels@[0].0, self.levels@[w].0));
                    }
                }
            }
            Some((p, q))
        }
    }

    /// Empties the ledger.
    pub fn clear(&mut self)
        ensures
            final(self).wf(),
            final(self).side() == old(self).side(),
            final(self)@ == Map::<u64, u64>::empty(),
    {
        self.levels.clear();
        proof {
            assert(self@ =~= Map::<u64, u64>::empty());
        }
    }
}

/// Law: removing a price that a ledger does not hold leaves its contents
/// unchanged.
pub proof fn lemma_upsert_zero_absent(m: Map<u64, u64>, price: u64)
    requires
        !m.dom().contains(price),
    ensures
        upserted(m, price, 0) == m,
{
    assert(upserted(m, price, 0) =~= m);
}

/// Law: upserting twice at one price leaves exactly the second quantity
/// bound there — a repeated price replaces the stored quantity, it does not
/// keep the old one and it does not duplicate the level.
pub proof fn lemma_upsert_replaces(m: Map<u64, u64>, price: u64, q1: u64, q2: u64)
    requires
        q2 > 0,
    ensures
        upserted(upserted(m, price, q1), price, q2).dom().contains(price),
        upserted(upserted(m, price, q1), price, q2)[price] == q2,
        upserted(upserted(m, price, q1), price, q2) == upserted(m, price, q2),
{
    assert(upserted(upserted(m, price, q1), price, q2) =~= upserted(m, price, q2));
}

} // verus!
