//! The walk of an incoming request down the opposite side of the book.

use vstd::prelude::*;

use crate::book_side::{
    is_book_side, keeps_order, lemma_keeps_order_refl, lemma_total_size_front, orders_of,
    price_ordered, ranks_from, total_size,
};
use crate::model::{MarketAction, Request, Side};

verus! {

/// What a walk yields.
pub struct Walk {
    /// The trades, in execution order.
    pub trades: Seq<MarketAction>,
    /// The side that was walked, as the trades leave it.
    pub book: Seq<Request>,
    /// The units of the incoming request that found no counterparty.
    pub left: u64,
}

/// Walks `incoming`, with `remaining` units still to fill, down `resting`
/// from its head.
///
/// An order of the incoming request's own user is passed over and stays
/// where it is. The walk ends at the first order of another user whose
/// price does not cross, at the end of the side, or when nothing remains
/// to fill. Every other order trades at its own price: it leaves the side
/// if the incoming request takes all of it, and stays with what is left
/// of it otherwise.
pub open spec fn walk(resting: Seq<Request>, incoming: Request, remaining: u64) -> Walk
    decreases resting.len(),
{
    if remaining == 0 || resting.len() == 0 {
        Walk { trades: Seq::empty(), book: resting, left: remaining }
    } else {
        let head = resting.first();
        let rest = resting.drop_first();
        if head.user_id == incoming.user_id {
            let w = walk(rest, incoming, remaining);
            Walk { trades: w.trades, book: seq![head] + w.book, left: w.left }
        } else if !incoming.crosses(head) {
            Walk { trades: Seq::empty(), book: resting, left: remaining }
        } else if remaining < head.size {
            Walk {
                trades: seq![incoming.trade_with(head, remaining)],
                book: resting.update(0, head.with_size((head.size - remaining) as u64)),
                left: 0,
            }
        } else {
            let w = walk(rest, incoming, (remaining - head.size) as u64);
            Walk {
                trades: seq![incoming.trade_with(head, head.size)] + w.trades,
                book: w.book,
                left: w.left,
            }
        }
    }
}

/// `resting` from position `cursor` on, with `taken` units gone from the
/// order at `cursor`.
pub open spec fn remainder(resting: Seq<Request>, cursor: int, taken: u64) -> Seq<Request> {
    let rest = resting.skip(cursor);
    if taken > 0 {
        rest.update(0, rest[0].with_size((rest[0].size - taken) as u64))
    } else {
        rest
    }
}

/// The units that `trades` move.
pub open spec fn traded_units(trades: Seq<MarketAction>) -> int
    decreases trades.len(),
{
    if trades.len() == 0 {
        0
    } else {
        traded_units(trades.drop_last()) + trades.last().size
    }
}

/// `trade` is a trade of the incoming request `incoming` with the resting
/// order `resting`: the two are of different users, their prices cross,
/// and the trade moves no more units than the resting order has, at the
/// resting order's price.
pub open spec fn trades_against(trade: MarketAction, incoming: Request, resting: Request) -> bool {
    &&& resting.user_id != incoming.user_id
    &&& incoming.crosses(resting)
    &&& trade.size <= resting.size
    &&& trade == incoming.trade_with(resting, trade.size)
}

/// The units that trades move, counted from the first trade.
pub proof fn lemma_traded_units_front(first: MarketAction, rest: Seq<MarketAction>)
    ensures
        traded_units(seq![first] + rest) == first.size + traded_units(rest),
    decreases rest.len(),
{
    let s = seq![first] + rest;
    if rest.len() == 0 {
        assert(s.drop_last() =~= Seq::<MarketAction>::empty());
        assert(traded_units(s.drop_last()) == 0);
        assert(s.last() == first);
    } else {
        assert(s.drop_last() =~= seq![first] + rest.drop_last());
        assert(s.last() == rest.last());
        lemma_traded_units_front(first, rest.drop_last());
    }
}

/// Every trade of a walk is a trade with an order of the side walked.
pub proof fn lemma_walk_trades_against_resting(
    resting: Seq<Request>,
    incoming: Request,
    remaining: u64,
)
    ensures
        forall|i: int|
            0 <= i < walk(resting, incoming, remaining).trades.len() ==> exists|j: int|
                0 <= j < resting.len() && trades_against(
                    #[trigger] walk(resting, incoming, remaining).trades[i],
                    incoming,
                    #[trigger] resting[j],
                ),
    decreases resting.len(),
{
    let full = walk(resting, incoming, remaining);
    if remaining != 0 && resting.len() != 0 {
        let head = resting.first();
        let rest = resting.drop_first();
        if head.user_id == incoming.user_id || (incoming.crosses(head) && remaining >= head.size) {
            let less: u64 = if head.user_id == incoming.user_id {
                remaining
            } else {
                (remaining - head.size) as u64
            };
            let w = walk(rest, incoming, less);
            lemma_walk_trades_against_resting(rest, incoming, less);
            assert forall|i: int| 0 <= i < full.trades.len() implies exists|j: int|
                0 <= j < resting.len() && trades_against(
                    #[trigger] full.trades[i],
                    incoming,
                    #[trigger] resting[j],
                ) by {
                if head.user_id != incoming.user_id && i == 0 {
                    assert(trades_against(full.trades[0], incoming, resting[0]));
                } else {
                    let k = if head.user_id == incoming.user_id {
                        i
                    } else {
                        i - 1
                    };
                    assert(full.trades[i] == w.trades[k]);
                    let j = choose|j: int|
                        0 <= j < rest.len() && trades_against(w.trades[k], incoming, #[trigger] rest[j]);
                    assert(resting[j + 1] == rest[j]);
                }
            }
        } else if incoming.crosses(head) {
            assert(trades_against(full.trades[0], incoming, resting[0]));
        }
    }
}

/// Where every resting order holds at least one unit, every trade of a
/// walk moves at least one unit.
pub proof fn lemma_walk_trades_move_units(
    resting: Seq<Request>,
    incoming: Request,
    remaining: u64,
)
    requires
        forall|j: int| 0 <= j < resting.len() ==> (#[trigger] resting[j]).size > 0,
    ensures
        forall|i: int|
            0 <= i < walk(resting, incoming, remaining).trades.len() ==> (#[trigger] walk(
                resting,
                incoming,
                remaining,
            ).trades[i]).size > 0,
    decreases resting.len(),
{
    let full = walk(resting, incoming, remaining);
    if remaining != 0 && resting.len() != 0 {
        let head = resting.first();
        let rest = resting.drop_first();
        assert forall|j: int| 0 <= j < rest.len() implies (#[trigger] rest[j]).size > 0 by {
            assert(rest[j] == resting[j + 1]);
        }
        assert(head.size > 0);
        if head.user_id == incoming.user_id {
            lemma_walk_trades_move_units(rest, incoming, remaining);
            assert(full.trades == walk(rest, incoming, remaining).trades);
        } else if !incoming.crosses(head) {
            assert(full.trades.len() == 0);
        } else if remaining < head.size {
            assert(full.trades.len() == 1);
            assert(full.trades[0].size == remaining);
        } else {
            let less = (remaining - head.size) as u64;
            let w = walk(rest, incoming, less);
            lemma_walk_trades_move_units(rest, incoming, less);
            assert forall|i: int| 0 <= i < full.trades.len() implies (#[trigger] full.trades[i]).size
                > 0 by {
                if i > 0 {
                    assert(full.trades[i] == w.trades[i - 1]);
                } else {
                    assert(full.trades[0] == incoming.trade_with(head, head.size));
                }
            }
        }
    }
}

/// A walk moves units and loses none: what leaves the side walked is what
/// the trades move, and what the trades move is what the incoming request
/// does not keep.
pub proof fn lemma_walk_conserves_units(resting: Seq<Request>, incoming: Request, remaining: u64)
    ensures
        total_size(resting) == total_size(walk(resting, incoming, remaining).book) + traded_units(
            walk(resting, incoming, remaining).trades,
        ),
        remaining == traded_units(walk(resting, incoming, remaining).trades) + walk(
            resting,
            incoming,
            remaining,
        ).left,
    decreases resting.len(),
{
    if remaining != 0 && resting.len() != 0 {
        let head = resting.first();
        let rest = resting.drop_first();
        assert(resting =~= seq![head] + rest);
        lemma_total_size_front(head, rest);
        if head.user_id == incoming.user_id {
            lemma_walk_conserves_units(rest, incoming, remaining);
            lemma_total_size_front(head, walk(rest, incoming, remaining).book);
        } else if !incoming.crosses(head) {
        } else if remaining < head.size {
            let less = head.with_size((head.size - remaining) as u64);
            assert(resting.update(0, less) =~= seq![less] + rest);
            lemma_total_size_front(less, rest);
            lemma_traded_units_front(incoming.trade_with(head, remaining), Seq::empty());
        } else {
            let w = walk(rest, incoming, (remaining - head.size) as u64);
            lemma_walk_conserves_units(rest, incoming, (remaining - head.size) as u64);
            lemma_traded_units_front(incoming.trade_with(head, head.size), w.trades);
        }
    }
}

/// A walk keeps the orders it leaves in the order in which they stood.
pub proof fn lemma_walk_keeps_order(resting: Seq<Request>, incoming: Request, remaining: u64)
    ensures
        keeps_order(resting, walk(resting, incoming, remaining).book),
    decreases resting.len(),
{
    if remaining != 0 && resting.len() != 0 {
        let head = resting.first();
        let rest = resting.drop_first();
        if head.user_id == incoming.user_id {
            let w = walk(rest, incoming, remaining);
            lemma_walk_keeps_order(rest, incoming, remaining);
            assert((seq![head] + w.book).drop_first() =~= w.book);
        } else if !incoming.crosses(head) {
            lemma_keeps_order_refl(resting);
        } else if remaining < head.size {
            let less = head.with_size((head.size - remaining) as u64);
            assert(resting.update(0, less).drop_first() =~= rest);
            lemma_keeps_order_refl(rest);
        } else {
            lemma_walk_keeps_order(rest, incoming, (remaining - head.size) as u64);
        }
    } else {
        lemma_keeps_order_refl(resting);
    }
}

/// A walk leaves the orders of the incoming request's own user as they
/// are and where they are among themselves.
pub proof fn lemma_walk_passes_own_orders(resting: Seq<Request>, incoming: Request, remaining: u64)
    ensures
        orders_of(walk(resting, incoming, remaining).book, incoming.user_id) == orders_of(
            resting,
            incoming.user_id,
        ),
    decreases resting.len(),
{
    if remaining != 0 && resting.len() != 0 {
        let own = |order: Request| order.user_id == incoming.user_id;
        let head = resting.first();
        let rest = resting.drop_first();
        assert(resting =~= seq![head] + rest);
        Seq::filter_distributes_over_add(seq![head], rest, own);
        if head.user_id == incoming.user_id {
            let w = walk(rest, incoming, remaining);
            lemma_walk_passes_own_orders(rest, incoming, remaining);
            Seq::filter_distributes_over_add(seq![head], w.book, own);
        } else if !incoming.crosses(head) {
        } else if remaining < head.size {
            let less = head.with_size((head.size - remaining) as u64);
            assert(resting.update(0, less) =~= seq![less] + rest);
            Seq::filter_distributes_over_add(seq![less], rest, own);
            assert(seq![less].filter(own) =~= seq![head].filter(own)) by {
                reveal_with_fuel(Seq::filter, 2);
            }
        } else {
            lemma_walk_passes_own_orders(rest, incoming, (remaining - head.size) as u64);
            assert(seq![head].filter(own) =~= Seq::<Request>::empty()) by {
                reveal_with_fuel(Seq::filter, 2);
            }
        }
    }
}

/// Against a side that holds only orders of the incoming request's own
/// user, a walk trades nothing and changes nothing.
pub proof fn lemma_walk_past_own_orders(resting: Seq<Request>, incoming: Request, remaining: u64)
    requires
        forall|j: int| 0 <= j < resting.len() ==> (#[trigger] resting[j]).user_id == incoming.user_id,
    ensures
        walk(resting, incoming, remaining) == (Walk {
            trades: Seq::empty(),
            book: resting,
            left: remaining,
        }),
    decreases resting.len(),
{
    if remaining != 0 && resting.len() != 0 {
        let head = resting.first();
        let rest = resting.drop_first();
        assert forall|j: int| 0 <= j < rest.len() implies (#[trigger] rest[j]).user_id
            == incoming.user_id by {
            assert(rest[j] == resting[j + 1]);
        }
        lemma_walk_past_own_orders(rest, incoming, remaining);
        assert(seq![head] + rest =~= resting);
    }
}

/// A walk that leaves units unfilled leaves nothing to trade with: every
/// order still on the side walked belongs to the incoming request's own
/// user or has a price that does not cross.
pub proof fn lemma_walk_exhausts_side(
    resting: Seq<Request>,
    incoming: Request,
    remaining: u64,
)
    requires
        price_ordered(resting, incoming.side.opposite()),
        walk(resting, incoming, remaining).left > 0,
    ensures
        forall|j: int|
            0 <= j < walk(resting, incoming, remaining).book.len() ==> {
                let order = #[trigger] walk(resting, incoming, remaining).book[j];
                order.user_id == incoming.user_id || !incoming.crosses(order)
            },
    decreases resting.len(),
{
    let full = walk(resting, incoming, remaining);
    if remaining != 0 && resting.len() != 0 {
        let head = resting.first();
        let rest = resting.drop_first();
        let side = incoming.side.opposite();
        assert forall|i: int, j: int| 0 <= i <= j < rest.len() implies side.ranks_no_later(
            #[trigger] rest[i].price,
            #[trigger] rest[j].price,
        ) by {
            assert(side.ranks_no_later(resting[i + 1].price, resting[j + 1].price));
        }
        if head.user_id == incoming.user_id {
            let w = walk(rest, incoming, remaining);
            lemma_walk_exhausts_side(rest, incoming, remaining);
            assert forall|j: int| 0 <= j < full.book.len() implies {
                let order = #[trigger] full.book[j];
                order.user_id == incoming.user_id || !incoming.crosses(order)
            } by {
                if j > 0 {
                    assert(full.book[j] == w.book[j - 1]);
                }
            }
        } else if !incoming.crosses(head) {
            assert forall|j: int| 0 <= j < full.book.len() implies {
                let order = #[trigger] full.book[j];
                order.user_id == incoming.user_id || !incoming.crosses(order)
            } by {
                assert(side.ranks_no_later(resting[0].price, resting[j].price));
            }
        } else if remaining >= head.size {
            lemma_walk_exhausts_side(rest, incoming, (remaining - head.size) as u64);
        }
    }
}

/// The trades of a walk down an ordered side come in the order of the
/// side: no trade has a price that ranks before `bound` if no order has,
/// and no trade has a price that ranks before the price of an earlier
/// trade.
pub proof fn lemma_walk_trades_follow_prices(
    resting: Seq<Request>,
    incoming: Request,
    remaining: u64,
    side: Side,
    bound: u64,
)
    requires
        price_ordered(resting, side),
        ranks_from(resting, side, bound),
    ensures
        forall|i: int|
            0 <= i < walk(resting, incoming, remaining).trades.len() ==> side.ranks_no_later(
                bound,
                (#[trigger] walk(resting, incoming, remaining).trades[i]).price,
            ),
        forall|i: int, j: int|
            0 <= i <= j < walk(resting, incoming, remaining).trades.len() ==> side.ranks_no_later(
                (#[trigger] walk(resting, incoming, remaining).trades[i]).price,
                (#[trigger] walk(resting, incoming, remaining).trades[j]).price,
            ),
    decreases resting.len(),
{
    let full = walk(resting, incoming, remaining);
    if remaining != 0 && resting.len() != 0 {
        let head = resting.first();
        let rest = resting.drop_first();
        assert forall|i: int, j: int| 0 <= i <= j < rest.len() implies side.ranks_no_later(
            #[trigger] rest[i].price,
            #[trigger] rest[j].price,
        ) by {
            assert(side.ranks_no_later(resting[i + 1].price, resting[j + 1].price));
        }
        assert forall|i: int| 0 <= i < rest.len() implies side.ranks_no_later(
            bound,
            #[trigger] rest[i].price,
        ) && side.ranks_no_later(head.price, rest[i].price) by {
            assert(side.ranks_no_later(bound, resting[i + 1].price));
            assert(side.ranks_no_later(resting[0].price, resting[i + 1].price));
        }
        assert(side.ranks_no_later(bound, resting[0].price));
        if head.user_id == incoming.user_id {
            lemma_walk_trades_follow_prices(rest, incoming, remaining, side, bound);
            assert(full.trades == walk(rest, incoming, remaining).trades);
        } else if !incoming.crosses(head) {
            assert(full.trades.len() == 0);
        } else if remaining < head.size {
            assert(full.trades.len() == 1);
            assert(full.trades[0].price == head.price);
        } else {
            let less = (remaining - head.size) as u64;
            let w = walk(rest, incoming, less);
            lemma_walk_trades_follow_prices(rest, incoming, less, side, head.price);
            assert(full.trades[0].price == head.price);
            assert forall|i: int| 0 < i < full.trades.len() implies #[trigger] full.trades[i]
                == w.trades[i - 1] by {}
            assert forall|i: int| 0 <= i < full.trades.len() implies side.ranks_no_later(
                bound,
                (#[trigger] full.trades[i]).price,
            ) by {
                if i > 0 {
                    assert(side.ranks_no_later(head.price, w.trades[i - 1].price));
                }
            }
            assert forall|i: int, j: int| 0 <= i <= j < full.trades.len() implies side.ranks_no_later(
                (#[trigger] full.trades[i]).price,
                (#[trigger] full.trades[j]).price,
            ) by {
                if i > 0 {
                    assert(side.ranks_no_later(w.trades[i - 1].price, w.trades[j - 1].price));
                } else if j > 0 {
                    assert(side.ranks_no_later(head.price, w.trades[j - 1].price));
                }
            }
        }
    }
}

/// A walk leaves a valid side valid, and brings no order to its head that
/// ranks before `bound` if none did before.
pub proof fn lemma_walk_keeps_bound(
    resting: Seq<Request>,
    incoming: Request,
    remaining: u64,
    side: Side,
    bound: u64,
)
    requires
        is_book_side(resting, side),
        ranks_from(resting, side, bound),
    ensures
        is_book_side(walk(resting, incoming, remaining).book, side),
        ranks_from(walk(resting, incoming, remaining).book, side, bound),
    decreases resting.len(),
{
    if remaining != 0 && resting.len() != 0 {
        let head = resting.first();
        let rest = resting.drop_first();
        assert forall|i: int| 0 <= i < rest.len() implies #[trigger] rest[i] == resting[i + 1] by {}
        assert(is_book_side(rest, side) && ranks_from(rest, side, bound) && ranks_from(
            rest,
            side,
            head.price,
        )) by {
            assert forall|i: int, j: int| 0 <= i <= j < rest.len() implies side.ranks_no_later(
                #[trigger] rest[i].price,
                #[trigger] rest[j].price,
            ) by {
                assert(side.ranks_no_later(resting[i + 1].price, resting[j + 1].price));
            }
            assert forall|i: int| 0 <= i < rest.len() implies side.ranks_no_later(
                head.price,
                #[trigger] rest[i].price,
            ) by {
                assert(side.ranks_no_later(resting[0].price, resting[i + 1].price));
            }
        }
        if head.user_id == incoming.user_id {
            lemma_walk_keeps_bound(rest, incoming, remaining, side, bound);
            lemma_walk_keeps_bound(rest, incoming, remaining, side, head.price);
            let w = walk(rest, incoming, remaining);
            let book = seq![head] + w.book;
            assert forall|i: int| 0 < i < book.len() implies #[trigger] book[i] == w.book[i - 1] by {}
            assert(book[0] == resting[0]);
            assert forall|i: int, j: int| 0 <= i <= j < book.len() implies side.ranks_no_later(
                #[trigger] book[i].price,
                #[trigger] book[j].price,
            ) by {
                if i > 0 {
                    assert(side.ranks_no_later(w.book[i - 1].price, w.book[j - 1].price));
                } else if j > 0 {
                    assert(side.ranks_no_later(head.price, w.book[j - 1].price));
                }
            }
        } else if !incoming.crosses(head) {
        } else if remaining < head.size {
            let book = resting.update(0, head.with_size((head.size - remaining) as u64));
            assert forall|i: int| 0 < i < book.len() implies #[trigger] book[i] == resting[i] by {}
            assert forall|i: int, j: int| 0 <= i <= j < book.len() implies side.ranks_no_later(
                #[trigger] book[i].price,
                #[trigger] book[j].price,
            ) by {
                assert(side.ranks_no_later(resting[i].price, resting[j].price));
            }
        } else {
            lemma_walk_keeps_bound(rest, incoming, (remaining - head.size) as u64, side, bound);
        }
    }
}

/// A walk leaves a valid side valid.
pub proof fn lemma_walk_keeps_book_side(
    resting: Seq<Request>,
    incoming: Request,
    remaining: u64,
    side: Side,
)
    requires
        is_book_side(resting, side),
    ensures
        is_book_side(walk(resting, incoming, remaining).book, side),
{
    let bound = match side {
        Side::Buy => u64::MAX,
        Side::Sell => 0u64,
    };
    lemma_walk_keeps_bound(resting, incoming, remaining, side, bound);
}

} // verus!
