//! The order book and its one operation: matching an incoming request.

use vstd::prelude::*;

use crate::book_side::{is_book_side, lemma_rest_at_tail_keeps_book_side, rest_at_tail};
use crate::laws::law_no_self_trade;
use crate::model::{MarketAction, MatchingResult, Request, RequestAction, Side, Type};
use crate::queue::{FillPlan, RequestQueue};
use crate::walk::{lemma_walk_keeps_book_side, walk};

verus! {

/// Both sides of the book, best orders first.
#[derive(Debug, Clone)]
pub struct OrderBook {
    pub buyers: RequestQueue,
    pub sellers: RequestQueue,
}

/// What matching one request comes to: the two sides afterwards and the
/// report to the caller.
pub struct Outcome {
    pub bids: Seq<Request>,
    pub asks: Seq<Request>,
    pub market_actions: Seq<MarketAction>,
    pub request_actions: Seq<RequestAction>,
}

/// Whether the trades of a walk that left `left` units unfilled are
/// carried out. Only a fill-or-kill request that was not filled completely
/// is dropped.
pub open spec fn commits(incoming: Request, left: u64) -> bool {
    left == 0 || incoming.request_type != Type::FillOrKill
}

/// Whether the `left` unfilled units of `incoming` come to rest in the
/// book.
pub open spec fn rests(incoming: Request, left: u64) -> bool {
    left > 0 && incoming.request_type == Type::Limit
}

/// How `incoming` is reported resolved when its walk left `left` units
/// unfilled. A request for no units at all is not resolved in any way.
pub open spec fn resolution(incoming: Request, left: u64) -> Seq<RequestAction> {
    if incoming.size == 0 {
        Seq::empty()
    } else if left == 0 {
        seq![RequestAction::Filled]
    } else {
        match incoming.request_type {
            Type::Limit => if left != incoming.size {
                seq![RequestAction::FilledPartially, RequestAction::AddedToBook]
            } else {
                seq![RequestAction::AddedToBook]
            },
            Type::ImmediateOrCancel => if left != incoming.size {
                seq![RequestAction::FilledPartially, RequestAction::Cancelled]
            } else {
                seq![RequestAction::Cancelled]
            },
            Type::FillOrKill => seq![RequestAction::Cancelled],
        }
    }
}

/// The side that `incoming` trades against.
pub open spec fn opposite_side(bids: Seq<Request>, asks: Seq<Request>, incoming: Request) -> Seq<
    Request,
> {
    match incoming.side {
        Side::Buy => asks,
        Side::Sell => bids,
    }
}

/// The side that `incoming` rests on.
pub open spec fn own_side(bids: Seq<Request>, asks: Seq<Request>, incoming: Request) -> Seq<
    Request,
> {
    match incoming.side {
        Side::Buy => bids,
        Side::Sell => asks,
    }
}

/// Matching `incoming` against a book with the sides `bids` and `asks`.
///
/// The request is walked down the opposite side. Unless it is a
/// fill-or-kill request with units left, the trades of the walk are
/// carried out and reported. What is left of a limit request rests on its
/// own side, at the tail of its price band.
pub open spec fn outcome(bids: Seq<Request>, asks: Seq<Request>, incoming: Request) -> Outcome {
    let opposite = opposite_side(bids, asks, incoming);
    let own = own_side(bids, asks, incoming);
    let w = walk(opposite, incoming, incoming.size);
    let opposite_after = if commits(incoming, w.left) {
        w.book
    } else {
        opposite
    };
    let own_after = if rests(incoming, w.left) {
        rest_at_tail(own, incoming.residual(w.left))
    } else {
        own
    };
    Outcome {
        bids: match incoming.side {
            Side::Buy => own_after,
            Side::Sell => opposite_after,
        },
        asks: match incoming.side {
            Side::Buy => opposite_after,
            Side::Sell => own_after,
        },
        market_actions: if commits(incoming, w.left) {
            w.trades
        } else {
            Seq::empty()
        },
        request_actions: resolution(incoming, w.left),
    }
}

impl Default for OrderBook {
    /// The empty book.
    fn default() -> (book: OrderBook)
        ensures
            book.wf(),
            book.buyers@ == Seq::<Request>::empty(),
            book.sellers@ == Seq::<Request>::empty(),
    {
        OrderBook { buyers: RequestQueue::default(), sellers: RequestQueue::default() }
    }
}

impl OrderBook {
    /// Both sides are valid: bids hold resting buy orders from the highest
    /// price down, asks hold resting sell orders from the lowest price up.
    pub open spec fn wf(&self) -> bool {
        &&& self.buyers.wf()
        &&& self.sellers.wf()
        &&& is_book_side(self.buyers@, Side::Buy)
        &&& is_book_side(self.sellers@, Side::Sell)
    }

    /// Whether the book is valid. A book that was made empty and changed
    /// only by matching is.
    pub fn is_valid(&self) -> (ok: bool)
        ensures
            ok == self.wf(),
    {
        self.buyers.is_side(Side::Buy) && self.sellers.is_side(Side::Sell)
    }

    /// Drops from both queues the orders that have left the book. The
    /// book itself stays as it is.
    pub fn flush_request_queues(&mut self)
        requires
            old(self).wf(),
        ensures
            final(self).wf(),
            final(self).buyers@ == old(self).buyers@,
            final(self).sellers@ == old(self).sellers@,
            final(self).buyers.start_from == 0,
            final(self).sellers.start_from == 0,
            final(self).buyers.vec@ == old(self).buyers@,
            final(self).sellers.vec@ == old(self).sellers@,
    {
        self.sellers.flush_vec();
        self.buyers.flush_vec();
    }

    /// Puts the limit order `request` to rest on its own side, at the
    /// tail of its price band.
    fn insert_limit_request(&mut self, request: Request)
        requires
            old(self).wf(),
            request.request_type == Type::Limit,
            request.size > 0,
        ensures
            final(self).wf(),
            own_side(final(self).buyers@, final(self).sellers@, request) == rest_at_tail(
                own_side(old(self).buyers@, old(self).sellers@, request),
                request,
            ),
            opposite_side(final(self).buyers@, final(self).sellers@, request) == opposite_side(
                old(self).buyers@,
                old(self).sellers@,
                request,
            ),
    {
        self.flush_request_queues();
        proof {
            lemma_rest_at_tail_keeps_book_side(
                own_side(self.buyers@, self.sellers@, request),
                request,
            );
        }
        match request.side {
            Side::Buy => self.buyers.insert_at_tail_of_band(request),
            Side::Sell => self.sellers.insert_at_tail_of_band(request),
        }
    }

    /// Matches `request` and changes the book accordingly. Returns the
    /// trades, if `record` is set, and the units left unfilled.
    fn settle(&mut self, request: &Request, record: bool) -> (r: (Vec<MarketAction>, u64))
        requires
            old(self).wf(),
        ensures
            final(self).wf(),
            final(self).buyers@ == outcome(old(self).buyers@, old(self).sellers@, *request).bids,
            final(self).sellers@ == outcome(old(self).buyers@, old(self).sellers@, *request).asks,
            r.0@ == if record {
                outcome(old(self).buyers@, old(self).sellers@, *request).market_actions
            } else {
                Seq::empty()
            },
            r.1 == walk(
                opposite_side(old(self).buyers@, old(self).sellers@, *request),
                *request,
                request.size,
            ).left,
    {
        let plan: FillPlan = match request.side {
            Side::Buy => self.sellers.plan(request, record),
            Side::Sell => self.buyers.plan(request, record),
        };
        let left: u64 = plan.left;
        let commit: bool = left == 0 || request.request_type != Type::FillOrKill;
        if commit {
            proof {
                lemma_walk_keeps_book_side(
                    opposite_side(self.buyers@, self.sellers@, *request),
                    *request,
                    request.size,
                    request.side.opposite(),
                );
            }
            match request.side {
                Side::Buy => self.sellers.apply(&plan),
                Side::Sell => self.buyers.apply(&plan),
            }
        }
        if left > 0 && request.request_type == Type::Limit {
            let leftover_request = Request {
                request_type: Type::Limit,
                side: request.side,
                size: left,
                price: request.price,
                user_id: request.user_id,
            };
            self.insert_limit_request(leftover_request);
        }
        if commit {
            (plan.trades, left)
        } else {
            (Vec::new(), left)
        }
    }

    /// Matches `request` against the book without reporting what was
    /// done. The book changes exactly as under
    /// [`OrderBook::match_request`].
    pub fn match_request_quiet(&mut self, request: &Request)
        requires
            old(self).wf(),
        ensures
            final(self).wf(),
            final(self).buyers@ == outcome(old(self).buyers@, old(self).sellers@, *request).bids,
            final(self).sellers@ == outcome(old(self).buyers@, old(self).sellers@, *request).asks,
    {
        let _ = self.settle(request, false);
    }

    /// Matches `request` against the book: trades it against the
    /// opposite side in price-time priority, lets what is left of a limit
    /// request rest, and reports the trades and how the request was
    /// resolved.
    pub fn match_request(&mut self, request: &Request) -> (result: MatchingResult)
        requires
            old(self).wf(),
        ensures
            final(self).wf(),
            final(self).buyers@ == outcome(old(self).buyers@, old(self).sellers@, *request).bids,
            final(self).sellers@ == outcome(old(self).buyers@, old(self).sellers@, *request).asks,
            result.market_actions@ == outcome(
                old(self).buyers@,
                old(self).sellers@,
                *request,
            ).market_actions,
            result.request_actions@ == outcome(
                old(self).buyers@,
                old(self).sellers@,
                *request,
            ).request_actions,
            forall|i: int|
                0 <= i < result.market_actions@.len() ==> (#[trigger] result.market_actions@[i]).seller_user_id
                    != result.market_actions@[i].buyer_user_id,
    {
        proof {
            law_no_self_trade(self.buyers@, self.sellers@, *request);
        }
        let (market_actions, left) = self.settle(request, true);
        let mut request_actions: Vec<RequestAction> = Vec::new();
        if request.size == 0 {
        } else if left > 0 {
            match request.request_type {
                Type::Limit => {
                    if left != request.size {
                        request_actions.push(RequestAction::FilledPartially);
                    }
                    request_actions.push(RequestAction::AddedToBook);
                },
                Type::FillOrKill => request_actions.push(RequestAction::Cancelled),
                Type::ImmediateOrCancel => {
                    if left != request.size {
                        request_actions.push(RequestAction::FilledPartially);
                    }
                    request_actions.push(RequestAction::Cancelled);
                },
            }
        } else {
            request_actions.push(RequestAction::Filled);
        }
        assert(request_actions@ =~= resolution(*request, left));
        MatchingResult { market_actions, request_actions }
    }
}

} // verus!
