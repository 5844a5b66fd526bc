//! What holds of every match, proved from the definition of
//! [`outcome`](crate::matcher::outcome).

use vstd::prelude::*;

use crate::book_side::{
    is_book_side, keeps_order, lemma_keeps_order_refl, lemma_rest_at_tail_keeps_book_side,
    lemma_tail_of_band_in_range, lemma_tail_of_band_splits, lemma_total_size_insert, orders_of,
    price_ordered, rest_at_tail, splits_at, tail_of_band, total_size,
};
use crate::matcher::{commits, opposite_side, outcome, own_side, rests};
use crate::model::{MarketAction, Request, RequestAction, Side, Type};
use crate::walk::{
    lemma_walk_conserves_units, lemma_walk_exhausts_side, lemma_walk_keeps_book_side,
    lemma_walk_keeps_order, lemma_walk_passes_own_orders, lemma_walk_past_own_orders,
    lemma_walk_trades_against_resting, lemma_walk_trades_follow_prices,
    lemma_walk_trades_move_units, traded_units, trades_against, walk,
};

verus! {

/// A match leaves a valid book valid: bids stay ordered from the highest
/// price down and asks from the lowest price up, and every resting order
/// is a limit order of its side with at least one unit.
pub proof fn law_book_stays_valid(bids: Seq<Request>, asks: Seq<Request>, incoming: Request)
    requires
        is_book_side(bids, Side::Buy),
        is_book_side(asks, Side::Sell),
    ensures
        is_book_side(outcome(bids, asks, incoming).bids, Side::Buy),
        is_book_side(outcome(bids, asks, incoming).asks, Side::Sell),
{
    let opposite = opposite_side(bids, asks, incoming);
    let own = own_side(bids, asks, incoming);
    let w = walk(opposite, incoming, incoming.size);
    lemma_walk_keeps_book_side(opposite, incoming, incoming.size, incoming.side.opposite());
    if rests(incoming, w.left) {
        lemma_rest_at_tail_keeps_book_side(own, incoming.residual(w.left));
    }
}

/// An order that comes to rest stands behind every order of its side
/// whose price is as good as its own or better, and before every order
/// with a worse price. The other orders stay in their order.
pub proof fn law_rest_at_tail_of_band(s: Seq<Request>, order: Request)
    requires
        price_ordered(s, order.side),
    ensures
        ({
            let at = tail_of_band(s, order.side, order.price);
            let t = rest_at_tail(s, order);
            &&& 0 <= at <= s.len()
            &&& t.len() == s.len() + 1
            &&& t[at] == order
            &&& forall|i: int|
                0 <= i < at ==> #[trigger] t[i] == s[i] && order.side.ranks_no_later(
                    s[i].price,
                    order.price,
                )
            &&& forall|i: int|
                at < i < t.len() ==> #[trigger] t[i] == s[i - 1] && !order.side.ranks_no_later(
                    s[i - 1].price,
                    order.price,
                )
        }),
{
    lemma_tail_of_band_splits(s, order.side, order.price);
}

/// Time priority is kept. The orders that stay on the side that the
/// incoming request trades against stand in the order in which they
/// stood. On its own side nothing changes, unless the request comes to
/// rest: then what is left of it is put in behind every order at its
/// price or a better one.
pub proof fn law_resting_orders_keep_their_turn(
    bids: Seq<Request>,
    asks: Seq<Request>,
    incoming: Request,
)
    requires
        price_ordered(own_side(bids, asks, incoming), incoming.side),
    ensures
        ({
            let before = opposite_side(bids, asks, incoming);
            let after = opposite_side(
                outcome(bids, asks, incoming).bids,
                outcome(bids, asks, incoming).asks,
                incoming,
            );
            keeps_order(before, after)
        }),
        ({
            let before = own_side(bids, asks, incoming);
            let after = own_side(
                outcome(bids, asks, incoming).bids,
                outcome(bids, asks, incoming).asks,
                incoming,
            );
            let left = walk(opposite_side(bids, asks, incoming), incoming, incoming.size).left;
            let at = tail_of_band(before, incoming.side, incoming.price);
            if rests(incoming, left) {
                &&& splits_at(before, incoming.side, incoming.price, at)
                &&& after == before.insert(at, incoming.residual(left))
            } else {
                after == before
            }
        }),
{
    let opposite = opposite_side(bids, asks, incoming);
    let own = own_side(bids, asks, incoming);
    let w = walk(opposite, incoming, incoming.size);
    lemma_walk_keeps_order(opposite, incoming, incoming.size);
    lemma_keeps_order_refl(opposite);
    lemma_tail_of_band_splits(own, incoming.side, incoming.price);
}

/// Every trade is a trade of the incoming request with an order that
/// rested on the opposite side: with an order of another user, whose
/// price crosses, for no more units than that order had, and at that
/// order's price.
pub proof fn law_trades_are_against_resting_orders(
    bids: Seq<Request>,
    asks: Seq<Request>,
    incoming: Request,
)
    ensures
        forall|i: int|
            0 <= i < outcome(bids, asks, incoming).market_actions.len() ==> exists|j: int|
                0 <= j < opposite_side(bids, asks, incoming).len() && trades_against(
                    #[trigger] outcome(bids, asks, incoming).market_actions[i],
                    incoming,
                    #[trigger] opposite_side(bids, asks, incoming)[j],
                ),
{
    lemma_walk_trades_against_resting(
        opposite_side(bids, asks, incoming),
        incoming,
        incoming.size,
    );
}

/// No trade has one user on both ends: the incoming request's user
/// stands on the request's own end of every trade, and another user on
/// the other end.
pub proof fn law_no_self_trade(bids: Seq<Request>, asks: Seq<Request>, incoming: Request)
    ensures
        forall|i: int|
            0 <= i < outcome(bids, asks, incoming).market_actions.len() ==> {
                let trade = #[trigger] outcome(bids, asks, incoming).market_actions[i];
                &&& trade.seller_user_id != trade.buyer_user_id
                &&& match incoming.side {
                    Side::Buy => trade.buyer_user_id == incoming.user_id,
                    Side::Sell => trade.seller_user_id == incoming.user_id,
                }
            },
{
    let trades = outcome(bids, asks, incoming).market_actions;
    let opposite = opposite_side(bids, asks, incoming);
    law_trades_are_against_resting_orders(bids, asks, incoming);
    assert forall|i: int| 0 <= i < trades.len() implies {
        let trade = #[trigger] trades[i];
        &&& trade.seller_user_id != trade.buyer_user_id
        &&& match incoming.side {
            Side::Buy => trade.buyer_user_id == incoming.user_id,
            Side::Sell => trade.seller_user_id == incoming.user_id,
        }
    } by {
        let j = choose|j: int|
            0 <= j < opposite.len() && trades_against(trades[i], incoming, #[trigger] opposite[j]);
        assert(trades_against(trades[i], incoming, opposite[j]));
    }
}

/// In a valid book every trade moves at least one unit.
pub proof fn law_trades_move_units(bids: Seq<Request>, asks: Seq<Request>, incoming: Request)
    requires
        is_book_side(bids, Side::Buy),
        is_book_side(asks, Side::Sell),
    ensures
        forall|i: int|
            0 <= i < outcome(bids, asks, incoming).market_actions.len() ==> (#[trigger] outcome(
                bids,
                asks,
                incoming,
            ).market_actions[i]).size > 0,
{
    lemma_walk_trades_move_units(opposite_side(bids, asks, incoming), incoming, incoming.size);
}

/// Matching follows price priority: on an ordered book no trade has a
/// price that ranks, on the opposite side, before the price of an
/// earlier trade.
pub proof fn law_trades_follow_price_priority(
    bids: Seq<Request>,
    asks: Seq<Request>,
    incoming: Request,
)
    requires
        price_ordered(opposite_side(bids, asks, incoming), incoming.side.opposite()),
    ensures
        forall|i: int, j: int|
            0 <= i <= j < outcome(bids, asks, incoming).market_actions.len()
                ==> incoming.side.opposite().ranks_no_later(
                (#[trigger] outcome(bids, asks, incoming).market_actions[i]).price,
                (#[trigger] outcome(bids, asks, incoming).market_actions[j]).price,
            ),
{
    let side = incoming.side.opposite();
    let bound = match side {
        Side::Buy => u64::MAX,
        Side::Sell => 0u64,
    };
    lemma_walk_trades_follow_prices(
        opposite_side(bids, asks, incoming),
        incoming,
        incoming.size,
        side,
        bound,
    );
}

/// Matching goes as far as it can: where units of the incoming request
/// are left unfilled and the request is not dropped as a whole, every
/// order left on the opposite side of an ordered book belongs to the
/// request's own user or has a price that does not cross.
pub proof fn law_nothing_tradable_is_left(
    bids: Seq<Request>,
    asks: Seq<Request>,
    incoming: Request,
)
    requires
        price_ordered(opposite_side(bids, asks, incoming), incoming.side.opposite()),
        incoming.request_type != Type::FillOrKill,
        walk(opposite_side(bids, asks, incoming), incoming, incoming.size).left > 0,
    ensures
        ({
            let after = opposite_side(
                outcome(bids, asks, incoming).bids,
                outcome(bids, asks, incoming).asks,
                incoming,
            );
            forall|j: int|
                0 <= j < after.len() ==> (#[trigger] after[j]).user_id == incoming.user_id
                    || !incoming.crosses(after[j])
        }),
{
    lemma_walk_exhausts_side(opposite_side(bids, asks, incoming), incoming, incoming.size);
}

/// The resting orders of the incoming request's own user are passed
/// over: they stay on the opposite side as they are, in their order.
pub proof fn law_own_orders_are_passed_over(
    bids: Seq<Request>,
    asks: Seq<Request>,
    incoming: Request,
)
    ensures
        orders_of(
            opposite_side(
                outcome(bids, asks, incoming).bids,
                outcome(bids, asks, incoming).asks,
                incoming,
            ),
            incoming.user_id,
        ) == orders_of(opposite_side(bids, asks, incoming), incoming.user_id),
{
    lemma_walk_passes_own_orders(opposite_side(bids, asks, incoming), incoming, incoming.size);
}

/// Units are conserved. The opposite side loses the units that the
/// reported trades move. The incoming request's own side gains the units
/// that were not traded if the request comes to rest, and nothing
/// otherwise. No more units are traded than were asked for.
pub proof fn law_units_are_conserved(bids: Seq<Request>, asks: Seq<Request>, incoming: Request)
    ensures
        ({
            let after = outcome(bids, asks, incoming);
            let traded = traded_units(after.market_actions);
            let left = walk(opposite_side(bids, asks, incoming), incoming, incoming.size).left;
            &&& 0 <= traded <= incoming.size
            &&& commits(incoming, left) ==> traded + left == incoming.size
            &&& total_size(opposite_side(bids, asks, incoming)) - total_size(
                opposite_side(after.bids, after.asks, incoming),
            ) == traded
            &&& total_size(own_side(after.bids, after.asks, incoming)) - total_size(
                own_side(bids, asks, incoming),
            ) == if rests(incoming, left) {
                incoming.size - traded
            } else {
                0
            }
        }),
{
    let opposite = opposite_side(bids, asks, incoming);
    let own = own_side(bids, asks, incoming);
    let w = walk(opposite, incoming, incoming.size);
    lemma_walk_conserves_units(opposite, incoming, incoming.size);
    lemma_traded_units_bounds(w.trades);
    lemma_tail_of_band_in_range(own, incoming.side, incoming.price);
    lemma_total_size_insert(
        own,
        tail_of_band(own, incoming.side, incoming.price),
        incoming.residual(w.left),
    );
}

/// Trades move no negative number of units.
proof fn lemma_traded_units_bounds(trades: Seq<MarketAction>)
    ensures
        traded_units(trades) >= 0,
    decreases trades.len(),
{
    if trades.len() > 0 {
        lemma_traded_units_bounds(trades.drop_last());
    }
}

/// A fill-or-kill request that is reported cancelled has changed
/// nothing: both sides of the book are as they were, and no trade is
/// reported.
pub proof fn law_fill_or_kill_rolls_back(bids: Seq<Request>, asks: Seq<Request>, incoming: Request)
    requires
        incoming.request_type == Type::FillOrKill,
        outcome(bids, asks, incoming).request_actions.contains(RequestAction::Cancelled),
    ensures
        outcome(bids, asks, incoming).bids == bids,
        outcome(bids, asks, incoming).asks == asks,
        outcome(bids, asks, incoming).market_actions == Seq::<MarketAction>::empty(),
{
    let after = outcome(bids, asks, incoming);
    let w = walk(opposite_side(bids, asks, incoming), incoming, incoming.size);
    if incoming.size == 0 || w.left == 0 {
        let k = choose|k: int|
            0 <= k < after.request_actions.len() && after.request_actions[k]
                == RequestAction::Cancelled;
        assert(after.request_actions[k] == RequestAction::Cancelled);
    }
}

/// A fill-or-kill request is filled completely or not at all: where it
/// is reported cancelled, no trade is reported and both sides of the book
/// are as they were; where it is not, it is reported filled and all its
/// units were traded.
pub proof fn law_fill_or_kill_is_all_or_nothing(
    bids: Seq<Request>,
    asks: Seq<Request>,
    incoming: Request,
)
    requires
        incoming.request_type == Type::FillOrKill,
        incoming.size > 0,
    ensures
        ({
            let after = outcome(bids, asks, incoming);
            if after.request_actions.contains(RequestAction::Cancelled) {
                &&& after.request_actions == seq![RequestAction::Cancelled]
                &&& after.market_actions == Seq::<MarketAction>::empty()
                &&& after.bids == bids
                &&& after.asks == asks
            } else {
                &&& after.request_actions == seq![RequestAction::Filled]
                &&& traded_units(after.market_actions) == incoming.size
            }
        }),
{
    let after = outcome(bids, asks, incoming);
    let w = walk(opposite_side(bids, asks, incoming), incoming, incoming.size);
    lemma_walk_conserves_units(opposite_side(bids, asks, incoming), incoming, incoming.size);
    if w.left == 0 {
        let actions = seq![RequestAction::Filled];
        assert(after.request_actions == actions);
        assert forall|k: int| 0 <= k < actions.len() implies actions[k]
            != RequestAction::Cancelled by {}
    } else {
        assert(after.request_actions[0] == RequestAction::Cancelled);
    }
}

/// Against an empty opposite side nothing trades: a limit request rests
/// whole, any other request is cancelled and the book stays as it was.
pub proof fn law_empty_opposite_side(bids: Seq<Request>, asks: Seq<Request>, incoming: Request)
    requires
        opposite_side(bids, asks, incoming).len() == 0,
        incoming.size > 0,
    ensures
        ({
            let after = outcome(bids, asks, incoming);
            let own = own_side(bids, asks, incoming);
            &&& after.market_actions == Seq::<MarketAction>::empty()
            &&& opposite_side(after.bids, after.asks, incoming) == opposite_side(
                bids,
                asks,
                incoming,
            )
            &&& if incoming.request_type == Type::Limit {
                &&& after.request_actions == seq![RequestAction::AddedToBook]
                &&& own_side(after.bids, after.asks, incoming) == rest_at_tail(own, incoming)
            } else {
                &&& after.request_actions == seq![RequestAction::Cancelled]
                &&& own_side(after.bids, after.asks, incoming) == own
            }
        }),
{
    if incoming.request_type == Type::Limit {
        assert(incoming.residual(incoming.size) == incoming);
    }
}

/// Where every order on the opposite side belongs to the incoming
/// request's own user, the walk runs past the end of the side with all
/// its units left: nothing trades, whatever the prices, and the request
/// is resolved as against an empty side.
pub proof fn law_own_orders_block_every_trade(
    bids: Seq<Request>,
    asks: Seq<Request>,
    incoming: Request,
)
    requires
        forall|j: int|
            0 <= j < opposite_side(bids, asks, incoming).len() ==> (#[trigger] opposite_side(
                bids,
                asks,
                incoming,
            )[j]).user_id == incoming.user_id,
        incoming.size > 0,
    ensures
        ({
            let after = outcome(bids, asks, incoming);
            let own = own_side(bids, asks, incoming);
            &&& walk(opposite_side(bids, asks, incoming), incoming, incoming.size).left
                == incoming.size
            &&& after.market_actions == Seq::<MarketAction>::empty()
            &&& opposite_side(after.bids, after.asks, incoming) == opposite_side(
                bids,
                asks,
                incoming,
            )
            &&& if incoming.request_type == Type::Limit {
                &&& after.request_actions == seq![RequestAction::AddedToBook]
                &&& own_side(after.bids, after.asks, incoming) == rest_at_tail(own, incoming)
            } else {
                &&& after.request_actions == seq![RequestAction::Cancelled]
                &&& own_side(after.bids, after.asks, incoming) == own
            }
        }),
{
    lemma_walk_past_own_orders(opposite_side(bids, asks, incoming), incoming, incoming.size);
    if incoming.request_type == Type::Limit {
        assert(incoming.residual(incoming.size) == incoming);
    }
}

/// A request for no units changes nothing and reports nothing.
pub proof fn law_empty_request_is_ignored(
    bids: Seq<Request>,
    asks: Seq<Request>,
    incoming: Request,
)
    requires
        incoming.size == 0,
    ensures
        outcome(bids, asks, incoming).bids == bids,
        outcome(bids, asks, incoming).asks == asks,
        outcome(bids, asks, incoming).market_actions == Seq::<MarketAction>::empty(),
        outcome(bids, asks, incoming).request_actions == Seq::<RequestAction>::empty(),
{
}

} // verus!
