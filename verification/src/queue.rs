//! The executable book side: a vector of resting orders behind a head
//! cursor.

use vstd::prelude::*;

use crate::book_side::{
    is_book_side, lemma_split_is_tail_of_band, price_ordered, rest_at_tail, splits_at,
    tail_of_band,
};
use crate::model::{MarketAction, Request, Side, Type};
use crate::walk::{remainder, walk};

verus! {

/// One side of the book. The orders before `start_from` have left the
/// book and only wait to be dropped; the live orders follow, best first.
#[derive(Debug, Clone)]
pub struct RequestQueue {
    pub vec: Vec<Request>,
    pub start_from: usize,
}

/// What a walk down one side found, before anything is changed: enough to
/// carry the walk out, or to drop it.
#[derive(Debug)]
pub struct FillPlan {
    /// The trades, in execution order, if they were asked for.
    pub trades: Vec<MarketAction>,
    /// The orders of the incoming request's own user that the walk passed
    /// over, in book order.
    pub passed: Vec<Request>,
    /// How many live orders the walk left behind it.
    pub cursor: usize,
    /// The units taken from the order at `cursor`, which stays in the
    /// book; 0 if that order is untouched.
    pub taken: u64,
    /// The units of the incoming request that found no counterparty.
    pub left: u64,
}

impl FillPlan {
    /// The plan can be carried out on `resting`.
    pub open spec fn fits(&self, resting: Seq<Request>) -> bool {
        &&& self.passed@.len() <= self.cursor <= resting.len()
        &&& self.taken > 0 ==> self.cursor < resting.len() && self.taken
            < resting[self.cursor as int].size
    }

    /// The side `resting` once the plan is carried out.
    pub open spec fn book_after(&self, resting: Seq<Request>) -> Seq<Request> {
        self.passed@ + remainder(resting, self.cursor as int, self.taken)
    }
}

impl View for RequestQueue {
    type V = Seq<Request>;

    /// The live orders, best first.
    open spec fn view(&self) -> Seq<Request> {
        self.vec@.skip(self.start_from as int)
    }
}

impl Default for RequestQueue {
    fn default() -> (q: RequestQueue)
        ensures
            q.wf(),
            q@ == Seq::<Request>::empty(),
            q.start_from == 0,
    {
        RequestQueue { vec: Vec::new(), start_from: 0 }
    }
}

impl vstd::std_specs::core::IndexSpecImpl<usize> for RequestQueue {
    /// Indexing is by position among the live orders.
    open spec fn index_req(&self, index: &usize) -> bool {
        self.wf() && *index < self@.len()
    }
}

impl std::ops::Index<usize> for RequestQueue {
    type Output = Request;

    /// The live order at position `index`, counted from the best.
    fn index(&self, index: usize) -> (order: &Request)
        ensures
            *order == self@[index as int],
    {
        self.get(index)
    }
}

impl RequestQueue {
    /// The head cursor lies within the vector.
    pub open spec fn wf(&self) -> bool {
        self.start_from <= self.vec@.len()
    }

    /// The number of live orders.
    pub fn len(&self) -> (n: usize)
        requires
            self.wf(),
        ensures
            n == self@.len(),
    {
        self.vec.len() - self.start_from
    }

    /// The live order at position `i`, counted from the best.
    pub fn get(&self, i: usize) -> (order: &Request)
        requires
            self.wf(),
            i < self@.len(),
        ensures
            *order == self@[i as int],
    {
        assert(self.start_from + i < self.vec.len());
        &self.vec[self.start_from + i]
    }

    /// Whether no order is live.
    pub fn is_empty(&self) -> (b: bool)
        requires
            self.wf(),
        ensures
            b == (self@.len() == 0),
    {
        self.vec.len() == self.start_from
    }

    /// The live orders, best first, as a vector of their own.
    pub fn to_vec(&self) -> (v: Vec<Request>)
        requires
            self.wf(),
        ensures
            v@ == self@,
    {
        let mut v: Vec<Request> = Vec::new();
        let mut i: usize = self.start_from;
        while i < self.vec.len()
            invariant
                self.start_from <= i <= self.vec@.len(),
                v@ == self.vec@.subrange(self.start_from as int, i as int),
            decreases self.vec@.len() - i,
        {
            v.push(self.vec[i]);
            i += 1;
        }
        v
    }

    /// Whether the queue is a valid `side` of the book: the head cursor
    /// lies within the vector, and the live orders are limit orders of
    /// `side` with at least one unit each, best price first.
    pub fn is_side(&self, side: Side) -> (ok: bool)
        ensures
            ok == (self.wf() && is_book_side(self@, side)),
    {
        if self.start_from > self.vec.len() {
            return false;
        }
        let n: usize = self.len();
        let mut i: usize = 0;
        while i < n
            invariant
                self.wf(),
                n == self@.len(),
                i <= n,
                is_book_side(self@.take(i as int), side),
            decreases n - i,
        {
            let order: &Request = self.get(i);
            let fits: bool = order.side == side && order.request_type == Type::Limit && order.size
                > 0;
            if !fits {
                return false;
            }
            if i > 0 && !side.price_ranks_no_later(self.get(i - 1).price, order.price) {
                assert(!side.ranks_no_later(self@[i - 1].price, self@[i as int].price));
                return false;
            }
            proof {
                let before = self@.take(i as int);
                let now = self@.take(i + 1);
                assert forall|a: int, b: int| 0 <= a <= b < now.len() implies side.ranks_no_later(
                    #[trigger] now[a].price,
                    #[trigger] now[b].price,
                ) by {
                    if b < i {
                        assert(side.ranks_no_later(before[a].price, before[b].price));
                    } else if a < i {
                        assert(side.ranks_no_later(before[a].price, before[i - 1].price));
                    }
                }
                assert forall|a: int| 0 <= a < now.len() implies {
                    &&& (#[trigger] now[a]).side == side
                    &&& now[a].request_type == Type::Limit
                    &&& now[a].size > 0
                } by {
                    if a < i {
                        assert(now[a] == before[a]);
                    }
                }
            }
            i += 1;
        }
        assert(self@.take(n as int) =~= self@);
        true
    }

    /// Drops the orders before the head cursor. The live orders stay as
    /// they are.
    pub fn flush_vec(&mut self)
        requires
            old(self).wf(),
        ensures
            final(self).wf(),
            final(self).start_from == 0,
            final(self).vec@ == old(self)@,
            final(self)@ == old(self)@,
    {
        if self.start_from > 0 {
            let live = self.vec.split_off(self.start_from);
            self.vec = live;
            self.start_from = 0;
        }
    }

    /// Binary search for an order at `price`. `Ok` holds the position of
    /// one such order. `Err` holds the gap where the price would stand:
    /// every order before it has a better price, every order from it on a
    /// worse one.
    pub fn search_price(&self, side: Side, price: u64) -> (r: Result<usize, usize>)
        requires
            self.wf(),
            price_ordered(self@, side),
        ensures
            match r {
                Ok(i) => i < self@.len() && self@[i as int].price == price,
                Err(i) => {
                    &&& i <= self@.len()
                    &&& forall|j: int|
                        0 <= j < i ==> !side.ranks_no_later(price, #[trigger] self@[j].price)
                    &&& forall|j: int|
                        i <= j < self@.len() ==> !side.ranks_no_later(
                            #[trigger] self@[j].price,
                            price,
                        )
                },
            },
    {
        let mut lo: usize = 0;
        let mut hi: usize = self.len();
        while lo < hi
            invariant
                self.wf(),
                price_ordered(self@, side),
                lo <= hi <= self@.len(),
                forall|j: int| 0 <= j < lo ==> !side.ranks_no_later(price, #[trigger] self@[j].price),
                forall|j: int|
                    hi <= j < self@.len() ==> !side.ranks_no_later(#[trigger] self@[j].price, price),
            decreases hi - lo,
        {
            let mid: usize = lo + (hi - lo) / 2;
            let probe: u64 = self.get(mid).price;
            if probe == price {
                return Ok(mid);
            } else if side.price_ranks_no_later(probe, price) {
                assert forall|j: int| 0 <= j < mid + 1 implies !side.ranks_no_later(
                    price,
                    #[trigger] self@[j].price,
                ) by {
                    assert(side.ranks_no_later(self@[j].price, self@[mid as int].price));
                }
                lo = mid + 1;
            } else {
                assert forall|j: int| mid <= j < self@.len() implies !side.ranks_no_later(
                    #[trigger] self@[j].price,
                    price,
                ) by {
                    assert(side.ranks_no_later(self@[mid as int].price, self@[j].price));
                }
                hi = mid;
            }
        }
        Err(lo)
    }

    /// The position at which an order at `price` comes to rest: behind
    /// every live order at that price or a better one.
    pub fn band_tail(&self, side: Side, price: u64) -> (at: usize)
        requires
            self.wf(),
            price_ordered(self@, side),
        ensures
            at == tail_of_band(self@, side, price),
            at <= self@.len(),
    {
        let at: usize = match self.search_price(side, price) {
            Err(gap) => {
                assert(splits_at(self@, side, price, gap as int));
                gap
            },
            Ok(found) => {
                let n: usize = self.len();
                let mut index: usize = found + 1;
                while index < n && self.get(index).price == price
                    invariant
                        self.wf(),
                        n == self@.len(),
                        found < index <= n,
                        forall|j: int| found <= j < index ==> (#[trigger] self@[j]).price == price,
                    decreases n - index,
                {
                    index += 1;
                }
                assert forall|j: int| 0 <= j < index implies side.ranks_no_later(
                    #[trigger] self@[j].price,
                    price,
                ) by {
                    if j < found {
                        assert(side.ranks_no_later(self@[j].price, self@[found as int].price));
                    }
                }
                assert forall|j: int| index <= j < self@.len() implies !side.ranks_no_later(
                    #[trigger] self@[j].price,
                    price,
                ) by {
                    assert(self@[index as int].price != price);
                    assert(side.ranks_no_later(self@[found as int].price, self@[index as int].price));
                    assert(side.ranks_no_later(self@[index as int].price, self@[j].price));
                }
                index
            },
        };
        proof {
            lemma_split_is_tail_of_band(self@, side, price, at as int);
        }
        at
    }

    /// Puts `order` to rest at the tail of its price band.
    pub fn insert_at_tail_of_band(&mut self, order: Request)
        requires
            old(self).wf(),
            price_ordered(old(self)@, order.side),
        ensures
            final(self).wf(),
            final(self).start_from == old(self).start_from,
            final(self)@ == rest_at_tail(old(self)@, order),
    {
        let at: usize = self.band_tail(order.side, order.price);
        assert(self.start_from + at <= self.vec.len());
        self.vec.insert(self.start_from + at, order);
        assert(self@ =~= rest_at_tail(old(self)@, order));
    }

    /// Walks `incoming` down the live orders without changing them.
    /// The trades are listed only if `record` is set.
    pub fn plan(&self, incoming: &Request, record: bool) -> (plan: FillPlan)
        requires
            self.wf(),
        ensures
            plan.fits(self@),
            plan.left == walk(self@, *incoming, incoming.size).left,
            plan.book_after(self@) == walk(self@, *incoming, incoming.size).book,
            plan.trades@ == if record {
                walk(self@, *incoming, incoming.size).trades
            } else {
                Seq::empty()
            },
    {
        let ghost full = walk(self@, *incoming, incoming.size);
        let n: usize = self.len();
        let mut trades: Vec<MarketAction> = Vec::new();
        let mut passed: Vec<Request> = Vec::new();
        let mut cursor: usize = 0;
        let mut taken: u64 = 0;
        let mut left: u64 = incoming.size;
        assert(self@.skip(0) =~= self@);
        assert(passed@ + full.book =~= full.book);
        assert(trades@ + full.trades =~= full.trades);
        while left > 0 && cursor < n
            invariant_except_break
                taken == 0,
                full.left == walk(self@.skip(cursor as int), *incoming, left).left,
                full.book == passed@ + walk(self@.skip(cursor as int), *incoming, left).book,
                record ==> full.trades == trades@ + walk(
                    self@.skip(cursor as int),
                    *incoming,
                    left,
                ).trades,
            invariant
                self.wf(),
                n == self@.len(),
                full == walk(self@, *incoming, incoming.size),
                passed@.len() <= cursor <= n,
                !record ==> trades@ == Seq::<MarketAction>::empty(),
            ensures
                taken > 0 ==> cursor < n && taken < self@[cursor as int].size,
                full.left == left,
                full.book == passed@ + remainder(self@, cursor as int, taken),
                record ==> full.trades == trades@,
            decreases n - cursor,
        {
            let ghost here = self@.skip(cursor as int);
            let resting: Request = *self.get(cursor);
            assert(here.first() == resting);
            assert(here.drop_first() =~= self@.skip(cursor + 1));
            if resting.user_id == incoming.user_id {
                let ghost w = walk(here.drop_first(), *incoming, left);
                assert((passed@.push(resting)) + w.book =~= passed@ + (seq![resting] + w.book));
                passed.push(resting);
                cursor += 1;
            } else if !incoming.price_crosses(&resting) {
                assert(trades@ + Seq::<MarketAction>::empty() =~= trades@);
                break;
            } else if left < resting.size {
                let ghost trade = incoming.trade_with(resting, left);
                assert(trades@ + seq![trade] =~= trades@.push(trade));
                if record {
                    trades.push(incoming.make_trade(&resting, left));
                }
                taken = left;
                left = 0;
                break;
            } else {
                let ghost trade = incoming.trade_with(resting, resting.size);
                let ghost w = walk(here.drop_first(), *incoming, (left - resting.size) as u64);
                assert(trades@ + (seq![trade] + w.trades) =~= trades@.push(trade) + w.trades);
                if record {
                    trades.push(incoming.make_trade(&resting, resting.size));
                }
                left -= resting.size;
                cursor += 1;
            }
        }
        assert(trades@ + Seq::<MarketAction>::empty() =~= trades@);
        FillPlan { trades, passed, cursor, taken, left }
    }

    /// Carries a plan out: the first `plan.cursor` live orders leave the
    /// book, but for those in `plan.passed`, which stay at the head in
    /// their order; the order at `plan.cursor` loses `plan.taken` units.
    pub fn apply(&mut self, plan: &FillPlan)
        requires
            old(self).wf(),
            plan.fits(old(self)@),
        ensures
            final(self).wf(),
            final(self)@ == plan.book_after(old(self)@),
    {
        let kept: usize = plan.passed.len();
        assert(self.start_from + plan.cursor <= self.vec.len());
        let end: usize = self.start_from + plan.cursor;
        let head: usize = end - kept;
        let mut i: usize = 0;
        while i < kept
            invariant
                kept == plan.passed@.len(),
                head + kept == end,
                end <= self.vec@.len(),
                i <= kept,
                self.vec@.len() == old(self).vec@.len(),
                forall|j: int| 0 <= j < i ==> self.vec@[head + j] == plan.passed@[j],
                forall|j: int| end <= j < self.vec@.len() ==> self.vec@[j] == old(self).vec@[j],
            decreases kept - i,
        {
            self.vec[head + i] = plan.passed[i];
            i += 1;
        }
        if plan.taken > 0 {
            let mut order: Request = self.vec[end];
            order.size = order.size - plan.taken;
            self.vec[end] = order;
        }
        self.start_from = head;
        assert(self@ =~= plan.book_after(old(self)@));
    }
}

} // verus!
