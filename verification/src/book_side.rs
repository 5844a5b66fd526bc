//! One side of the book as a sequence of resting orders: what makes it
//! well ordered, and where a new order comes to rest.

use vstd::prelude::*;

use crate::model::{Request, Side, Type};

verus! {

/// `s` is ordered best price first for `side`: no order has a price that
/// ranks later than the price of an order behind it.
pub open spec fn price_ordered(s: Seq<Request>, side: Side) -> bool {
    forall|i: int, j: int|
        0 <= i <= j < s.len() ==> side.ranks_no_later(#[trigger] s[i].price, #[trigger] s[j].price)
}

/// Every order in `s` may rest on `side`: it is a limit order of that side
/// with at least one unit left.
pub open spec fn all_resting(s: Seq<Request>, side: Side) -> bool {
    forall|i: int|
        0 <= i < s.len() ==> {
            &&& (#[trigger] s[i]).side == side
            &&& s[i].request_type == Type::Limit
            &&& s[i].size > 0
        }
}

/// `s` is a valid side of the book.
pub open spec fn is_book_side(s: Seq<Request>, side: Side) -> bool {
    all_resting(s, side) && price_ordered(s, side)
}

/// No order in `s` has a price that ranks before `bound`.
pub open spec fn ranks_from(s: Seq<Request>, side: Side, bound: u64) -> bool {
    forall|i: int| 0 <= i < s.len() ==> side.ranks_no_later(bound, #[trigger] s[i].price)
}

/// The position just behind the last order of `s` whose price ranks no
/// later than `price`. On an ordered side this is the tail of the band of
/// `price`: every order at that price or better stands before it, every
/// order at a worse price behind it.
pub open spec fn tail_of_band(s: Seq<Request>, side: Side, price: u64) -> int
    decreases s.len(),
{
    if s.len() == 0 {
        0
    } else if side.ranks_no_later(s.last().price, price) {
        s.len() as int
    } else {
        tail_of_band(s.drop_last(), side, price)
    }
}

/// `i` splits `s` into the orders that rank no later than `price` and
/// those that rank later.
pub open spec fn splits_at(s: Seq<Request>, side: Side, price: u64, i: int) -> bool {
    &&& 0 <= i <= s.len()
    &&& forall|j: int| 0 <= j < i ==> side.ranks_no_later(#[trigger] s[j].price, price)
    &&& forall|j: int| i <= j < s.len() ==> !side.ranks_no_later(#[trigger] s[j].price, price)
}

/// `s` with `order` placed at the tail of its price band.
pub open spec fn rest_at_tail(s: Seq<Request>, order: Request) -> Seq<Request> {
    s.insert(tail_of_band(s, order.side, order.price), order)
}

/// The units resting in `s`.
pub open spec fn total_size(s: Seq<Request>) -> int
    decreases s.len(),
{
    if s.len() == 0 {
        0
    } else {
        total_size(s.drop_last()) + s.last().size
    }
}

/// The orders of `s` that belong to `user_id`, in book order.
pub open spec fn orders_of(s: Seq<Request>, user_id: u64) -> Seq<Request> {
    s.filter(|order: Request| order.user_id == user_id)
}

/// `after` is what is left of `before` when some orders have gone and
/// some have lost units: the orders still there stand in the order in
/// which they stood, and differ from what they were in size at most.
pub open spec fn keeps_order(before: Seq<Request>, after: Seq<Request>) -> bool
    decreases before.len(),
{
    if after.len() == 0 {
        true
    } else if before.len() == 0 {
        false
    } else {
        ||| {
            &&& after.first() == before.first().with_size(after.first().size)
            &&& after.first().size <= before.first().size
            &&& keeps_order(before.drop_first(), after.drop_first())
        }
        ||| keeps_order(before.drop_first(), after)
    }
}

/// A side keeps its own order.
pub proof fn lemma_keeps_order_refl(s: Seq<Request>)
    ensures
        keeps_order(s, s),
    decreases s.len(),
{
    if s.len() > 0 {
        lemma_keeps_order_refl(s.drop_first());
    }
}

/// The units of a side, counted from its head.
pub proof fn lemma_total_size_front(head: Request, rest: Seq<Request>)
    ensures
        total_size(seq![head] + rest) == head.size + total_size(rest),
    decreases rest.len(),
{
    let s = seq![head] + rest;
    if rest.len() == 0 {
        assert(s.drop_last() =~= Seq::<Request>::empty());
        assert(total_size(s.drop_last()) == 0);
        assert(s.last() == head);
    } else {
        assert(s.drop_last() =~= seq![head] + rest.drop_last());
        assert(s.last() == rest.last());
        lemma_total_size_front(head, rest.drop_last());
    }
}

/// An order that comes to rest adds its units to the side.
pub proof fn lemma_total_size_insert(s: Seq<Request>, at: int, order: Request)
    requires
        0 <= at <= s.len(),
    ensures
        total_size(s.insert(at, order)) == total_size(s) + order.size,
    decreases s.len(),
{
    let t = s.insert(at, order);
    if at == s.len() {
        assert(t.drop_last() =~= s);
    } else {
        assert(t.drop_last() =~= s.drop_last().insert(at, order));
        lemma_total_size_insert(s.drop_last(), at, order);
    }
}

/// The tail of a band is a position of the side, or the one behind its
/// last order.
pub proof fn lemma_tail_of_band_in_range(s: Seq<Request>, side: Side, price: u64)
    ensures
        0 <= tail_of_band(s, side, price) <= s.len(),
    decreases s.len(),
{
    if s.len() > 0 {
        lemma_tail_of_band_in_range(s.drop_last(), side, price);
    }
}

/// A position that splits `s` at `price` is the tail of the band.
pub proof fn lemma_split_is_tail_of_band(s: Seq<Request>, side: Side, price: u64, i: int)
    requires
        splits_at(s, side, price, i),
    ensures
        tail_of_band(s, side, price) == i,
    decreases s.len(),
{
    if s.len() > 0 && i < s.len() {
        assert(!side.ranks_no_later(s[s.len() - 1].price, price));
        let t = s.drop_last();
        assert forall|j: int| 0 <= j < i implies side.ranks_no_later(#[trigger] t[j].price, price) by {
            assert(t[j] == s[j]);
        }
        assert forall|j: int| i <= j < t.len() implies !side.ranks_no_later(
            #[trigger] t[j].price,
            price,
        ) by {
            assert(t[j] == s[j]);
        }
        lemma_split_is_tail_of_band(t, side, price, i);
    } else if s.len() > 0 {
        assert(side.ranks_no_later(s[s.len() - 1].price, price));
    }
}

/// On an ordered side the tail of the band splits the side at `price`.
pub proof fn lemma_tail_of_band_splits(s: Seq<Request>, side: Side, price: u64)
    requires
        price_ordered(s, side),
    ensures
        splits_at(s, side, price, tail_of_band(s, side, price)),
    decreases s.len(),
{
    if s.len() > 0 {
        let last = s[s.len() - 1];
        if side.ranks_no_later(last.price, price) {
            assert forall|j: int| 0 <= j < s.len() implies side.ranks_no_later(
                #[trigger] s[j].price,
                price,
            ) by {
                assert(side.ranks_no_later(s[j].price, last.price));
            }
        } else {
            let t = s.drop_last();
            assert(price_ordered(t, side)) by {
                assert forall|i: int, j: int| 0 <= i <= j < t.len() implies side.ranks_no_later(
                    #[trigger] t[i].price,
                    #[trigger] t[j].price,
                ) by {
                    assert(t[i] == s[i] && t[j] == s[j]);
                }
            }
            lemma_tail_of_band_splits(t, side, price);
            let i = tail_of_band(t, side, price);
            assert forall|j: int| 0 <= j < i implies side.ranks_no_later(#[trigger] s[j].price, price) by {
                assert(t[j] == s[j]);
            }
            assert forall|j: int| i <= j < s.len() implies !side.ranks_no_later(
                #[trigger] s[j].price,
                price,
            ) by {
                if j < t.len() {
                    assert(t[j] == s[j]);
                }
            }
        }
    }
}

/// An order put to rest at the tail of its band leaves the side valid.
pub proof fn lemma_rest_at_tail_keeps_book_side(s: Seq<Request>, order: Request)
    requires
        is_book_side(s, order.side),
        order.request_type == Type::Limit,
        order.size > 0,
    ensures
        is_book_side(rest_at_tail(s, order), order.side),
{
    let side = order.side;
    let at = tail_of_band(s, side, order.price);
    let t = rest_at_tail(s, order);
    lemma_tail_of_band_splits(s, side, order.price);
    assert forall|i: int, j: int| 0 <= i <= j < t.len() implies side.ranks_no_later(
        #[trigger] t[i].price,
        #[trigger] t[j].price,
    ) by {
        if j < at {
            assert(t[i] == s[i] && t[j] == s[j]);
        } else if j == at {
            if i < at {
                assert(t[i] == s[i]);
            }
        } else if i < at {
            assert(t[i] == s[i] && t[j] == s[j - 1]);
        } else if i == at {
            assert(t[j] == s[j - 1]);
        } else {
            assert(t[i] == s[i - 1] && t[j] == s[j - 1]);
        }
    }
    assert forall|i: int| 0 <= i < t.len() implies {
        &&& (#[trigger] t[i]).side == side
        &&& t[i].request_type == Type::Limit
        &&& t[i].size > 0
    } by {
        if i < at {
            assert(t[i] == s[i]);
        } else if i > at {
            assert(t[i] == s[i - 1]);
        }
    }
}

} // verus!
