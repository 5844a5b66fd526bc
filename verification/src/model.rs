//! The request model: what a client may ask for, and what the book reports
//! back.

use vstd::prelude::*;

verus! {

/// Which side of the book a request is on.
#[derive(Clone, Copy, Debug, PartialEq, Eq, Structural)]
pub enum Side {
    Buy,
    Sell,
}

/// How a request behaves when it cannot be filled at once.
#[derive(Clone, Copy, Debug, PartialEq, Eq, Structural)]
pub enum Type {
    /// Fills what it can; the rest waits in the book.
    Limit,
    /// Fills completely or leaves the book as it was.
    FillOrKill,
    /// Fills what it can; the rest is cancelled.
    ImmediateOrCancel,
}

/// An order: `size` units at `price` ticks, on behalf of `user_id`.
#[derive(Clone, Copy, Debug, PartialEq, Eq, Structural)]
pub struct Request {
    pub side: Side,
    pub price: u64,
    pub size: u64,
    pub user_id: u64,
    pub request_type: Type,
}

/// One executed trade.
#[derive(Clone, Copy, Debug, PartialEq, Eq, Structural)]
pub struct MarketAction {
    pub size: u64,
    pub price: u64,
    pub seller_user_id: u64,
    pub buyer_user_id: u64,
}

/// How an incoming request was resolved.
#[derive(Clone, Copy, Debug, PartialEq, Eq, Structural)]
pub enum RequestAction {
    Filled,
    FilledPartially,
    Cancelled,
    AddedToBook,
}

/// What one call of the matcher did: the trades, in execution order, and
/// the resolution of the incoming request.
#[derive(Debug, PartialEq, Eq)]
pub struct MatchingResult {
    pub market_actions: Vec<MarketAction>,
    pub request_actions: Vec<RequestAction>,
}

impl Side {
    /// The side an order of this side trades against.
    pub open spec fn opposite(self) -> Side {
        match self {
            Side::Buy => Side::Sell,
            Side::Sell => Side::Buy,
        }
    }

    /// Price `a` has priority at least as high as price `b` among resting
    /// orders of this side: bids rank from the highest price down, asks
    /// from the lowest price up.
    pub open spec fn ranks_no_later(self, a: u64, b: u64) -> bool {
        match self {
            Side::Buy => a >= b,
            Side::Sell => a <= b,
        }
    }

    /// Executable form of [`Side::ranks_no_later`].
    pub fn price_ranks_no_later(self, a: u64, b: u64) -> (r: bool)
        ensures
            r == self.ranks_no_later(a, b),
    {
        match self {
            Side::Buy => a >= b,
            Side::Sell => a <= b,
        }
    }
}

impl Request {
    /// The incoming request `self` may trade with the resting order
    /// `resting` as far as price goes: a buyer pays at most its own price,
    /// a seller takes at least its own price.
    pub open spec fn crosses(self, resting: Request) -> bool {
        match self.side {
            Side::Buy => resting.price <= self.price,
            Side::Sell => resting.price >= self.price,
        }
    }

    /// The trade of `size` units between the incoming request `self` and
    /// the resting order `resting`, at the resting order's price.
    pub open spec fn trade_with(self, resting: Request, size: u64) -> MarketAction {
        match self.side {
            Side::Buy => MarketAction {
                size,
                price: resting.price,
                seller_user_id: resting.user_id,
                buyer_user_id: self.user_id,
            },
            Side::Sell => MarketAction {
                size,
                price: resting.price,
                seller_user_id: self.user_id,
                buyer_user_id: resting.user_id,
            },
        }
    }

    /// This order with `size` units left.
    pub open spec fn with_size(self, size: u64) -> Request {
        Request { size, ..self }
    }

    /// What rests in the book when `left` units of `self` stay unfilled: a
    /// limit order of the same side, price and user.
    pub open spec fn residual(self, left: u64) -> Request {
        Request { request_type: Type::Limit, size: left, ..self }
    }

    /// Executable form of [`Request::crosses`].
    pub fn price_crosses(&self, resting: &Request) -> (r: bool)
        ensures
            r == self.crosses(*resting),
    {
        match self.side {
            Side::Buy => resting.price <= self.price,
            Side::Sell => resting.price >= self.price,
        }
    }

    /// Executable form of [`Request::trade_with`].
    pub fn make_trade(&self, resting: &Request, size: u64) -> (r: MarketAction)
        ensures
            r == self.trade_with(*resting, size),
    {
        match self.side {
            Side::Buy => MarketAction {
                size,
                price: resting.price,
                seller_user_id: resting.user_id,
                buyer_user_id: self.user_id,
            },
            Side::Sell => MarketAction {
                size,
                price: resting.price,
                seller_user_id: self.user_id,
                buyer_user_id: resting.user_id,
            },
        }
    }
}

} // verus!
