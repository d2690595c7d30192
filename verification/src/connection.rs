//! Values exchanged with a market-data connection, and the failure taxonomy
//! of a session.

use vstd::prelude::*;

verus! {

/// Why a market-data session was abandoned. Every variant leads to the same
/// recovery: the session is discarded and reconciliation restarts from a
/// fresh connection.
#[derive(Clone, Copy, Debug, PartialEq, Eq, Structural)]
pub enum Error {
    /// The one-shot snapshot request failed.
    Rest,
    /// The delta stream failed or ended.
    Stream,
    /// A stream message could not be decoded.
    ParseJson,
    /// A numeric field of a message could not be parsed.
    ParseFloat,
    /// A well-formed item that the protocol does not allow here, such as a
    /// sequence gap between the snapshot and the buffered deltas.
    UnexpectedItem,
}

/// One price level carried by a snapshot or a delta. `price` is the level's
/// identity; `quantity` is its payload. Both are fixed-point integers in
/// ticks; a quantity of zero means the level is gone.
#[derive(Clone, Copy, Debug, PartialEq, Eq, Structural)]
pub struct OrderDetails {
    pub price: u64,
    pub quantity: u64,
}

/// A side-tagged price level update.
#[derive(Clone, Copy, Debug, PartialEq, Eq, Structural)]
pub enum Order {
    /// An update to the buy side.
    Bid(OrderDetails),
    /// An update to the sell side.
    Ask(OrderDetails),
}

/// Identifies one market-data session with the exchange: everything the
/// transports need from the core is the traded symbol.
pub struct BinanceConnection {
    symbol: String,
}

impl BinanceConnection {
    /// The traded symbol this connection was created for.
    pub closed spec fn symbol(&self) -> Seq<char> {
        self.symbol@
    }

    /// Creates a connection description for `symbol`.
    pub fn new(symbol: &str) -> (r: Self)
        ensures
            r.symbol() == symbol@,
    {
        BinanceConnection { symbol: symbol.to_owned() }
    }

    /// The symbol, for the transport layer to build its requests from.
    pub fn symbol_str(&self) -> (r: &str)
        ensures
            r@ == self.symbol(),
    {
        self.symbol.as_str()
    }
}

} // verus!
