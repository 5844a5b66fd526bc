use market_matcher::{MarketAction, MatchingResult, OrderBook, Request, RequestAction, Side, Type};

/// A small deterministic generator of request streams.
struct Stream(u64);

impl Stream {
    fn next(&mut self, bound: u64) -> u64 {
        self.0 = self.0.wrapping_mul(6364136223846793005).wrapping_add(1442695040888963407);
        (self.0 >> 33) % bound
    }

    fn request(&mut self, users: u64) -> Request {
        Request {
            side: if self.next(2) == 0 { Side::Buy } else { Side::Sell },
            price: 95 + self.next(11),
            size: 1 + self.next(9),
            user_id: 1 + self.next(users),
            request_type: match self.next(4) {
                0 => Type::FillOrKill,
                1 => Type::ImmediateOrCancel,
                _ => Type::Limit,
            },
        }
    }
}

fn total(side: &[Request]) -> u64 {
    side.iter().map(|r| r.size).sum()
}

fn traded(result: &MatchingResult) -> u64 {
    result.market_actions.iter().map(|a| a.size).sum()
}

fn crosses(incoming: &Request, resting: &Request) -> bool {
    match incoming.side {
        Side::Buy => resting.price <= incoming.price,
        Side::Sell => resting.price >= incoming.price,
    }
}

/// The book as two plain vectors, matched in the plainest way: one order
/// at a time, removing what is consumed.
struct Model {
    bids: Vec<Request>,
    asks: Vec<Request>,
}

impl Model {
    fn submit(&mut self, incoming: &Request) -> MatchingResult {
        let mut result = MatchingResult { market_actions: vec![], request_actions: vec![] };
        if incoming.size == 0 {
            return result;
        }
        let (own, opposite) = match incoming.side {
            Side::Buy => (&mut self.bids, &mut self.asks),
            Side::Sell => (&mut self.asks, &mut self.bids),
        };
        let mut after = opposite.clone();
        let mut left = incoming.size;
        let mut at = 0;
        while left > 0 && at < after.len() {
            let resting = after[at];
            if resting.user_id == incoming.user_id {
                at += 1;
                continue;
            }
            if !crosses(incoming, &resting) {
                break;
            }
            let size = resting.size.min(left);
            let (seller_user_id, buyer_user_id) = match incoming.side {
                Side::Buy => (resting.user_id, incoming.user_id),
                Side::Sell => (incoming.user_id, resting.user_id),
            };
            result.market_actions.push(MarketAction {
                size,
                price: resting.price,
                seller_user_id,
                buyer_user_id,
            });
            left -= size;
            if size == resting.size {
                after.remove(at);
            } else {
                after[at].size -= size;
            }
        }
        if left == 0 {
            *opposite = after;
            result.request_actions.push(RequestAction::Filled);
            return result;
        }
        match incoming.request_type {
            Type::FillOrKill => {
                result.market_actions.clear();
                result.request_actions.push(RequestAction::Cancelled);
            }
            Type::ImmediateOrCancel => {
                *opposite = after;
                if left != incoming.size {
                    result.request_actions.push(RequestAction::FilledPartially);
                }
                result.request_actions.push(RequestAction::Cancelled);
            }
            Type::Limit => {
                *opposite = after;
                if left != incoming.size {
                    result.request_actions.push(RequestAction::FilledPartially);
                }
                result.request_actions.push(RequestAction::AddedToBook);
                let mut place = 0;
                while place < own.len()
                    && match incoming.side {
                        Side::Buy => own[place].price >= incoming.price,
                        Side::Sell => own[place].price <= incoming.price,
                    }
                {
                    place += 1;
                }
                own.insert(place, Request { size: left, request_type: Type::Limit, ..*incoming });
            }
        }
        result
    }
}

fn check_sides(book: &OrderBook) {
    let bids = book.buyers.to_vec();
    let asks = book.sellers.to_vec();
    for pair in bids.windows(2) {
        assert!(pair[0].price >= pair[1].price);
    }
    for pair in asks.windows(2) {
        assert!(pair[0].price <= pair[1].price);
    }
    for order in bids.iter() {
        assert_eq!(order.side, Side::Buy);
        assert_eq!(order.request_type, Type::Limit);
        assert!(order.size > 0);
    }
    for order in asks.iter() {
        assert_eq!(order.side, Side::Sell);
        assert_eq!(order.request_type, Type::Limit);
        assert!(order.size > 0);
    }
    assert!(book.is_valid());
}

fn run_stream(seed: u64, users: u64, steps: usize) {
    let mut stream = Stream(seed);
    let mut book = OrderBook::default();
    let mut quiet = OrderBook::default();
    let mut model = Model { bids: vec![], asks: vec![] };
    for _ in 0..steps {
        let request = stream.request(users);
        let bids_before = book.buyers.to_vec();
        let asks_before = book.sellers.to_vec();
        let (own_before, opposite_before) = match request.side {
            Side::Buy => (bids_before.clone(), asks_before.clone()),
            Side::Sell => (asks_before.clone(), bids_before.clone()),
        };

        let result = book.match_request(&request);
        quiet.match_request_quiet(&request);
        let expected = model.submit(&request);

        assert_eq!(result, expected);
        assert_eq!(book.buyers.to_vec(), model.bids);
        assert_eq!(book.sellers.to_vec(), model.asks);
        assert_eq!(quiet.buyers.to_vec(), model.bids);
        assert_eq!(quiet.sellers.to_vec(), model.asks);
        check_sides(&book);
        check_sides(&quiet);

        let (own_after, opposite_after) = match request.side {
            Side::Buy => (book.buyers.to_vec(), book.sellers.to_vec()),
            Side::Sell => (book.sellers.to_vec(), book.buyers.to_vec()),
        };
        for action in result.market_actions.iter() {
            assert_ne!(action.seller_user_id, action.buyer_user_id);
            assert!(action.size > 0);
            let counterparty = match request.side {
                Side::Buy => {
                    assert_eq!(action.buyer_user_id, request.user_id);
                    action.seller_user_id
                }
                Side::Sell => {
                    assert_eq!(action.seller_user_id, request.user_id);
                    action.buyer_user_id
                }
            };
            assert!(opposite_before.iter().any(|r| r.user_id == counterparty
                && r.price == action.price
                && r.size >= action.size
                && crosses(&request, r)));
        }
        let rested = result.request_actions.contains(&RequestAction::AddedToBook);
        assert_eq!(total(&opposite_before) - total(&opposite_after), traded(&result));
        assert_eq!(
            total(&own_after) - total(&own_before),
            if rested { request.size - traded(&result) } else { 0 }
        );
        if request.request_type == Type::FillOrKill
            && result.request_actions.contains(&RequestAction::Cancelled)
        {
            assert_eq!(book.buyers.to_vec(), bids_before);
            assert_eq!(book.sellers.to_vec(), asks_before);
            assert_eq!(result.market_actions, vec![]);
        }
        let own_resting = |side: &[Request]| -> Vec<Request> {
            side.iter().filter(|r| r.user_id == request.user_id).cloned().collect()
        };
        assert_eq!(own_resting(&opposite_after), own_resting(&opposite_before));
    }
}

#[test]
fn streams_with_many_users_agree_with_the_plain_model() {
    for seed in 0..20 {
        run_stream(seed, 50, 400);
    }
}

#[test]
fn streams_with_few_users_agree_with_the_plain_model() {
    for seed in 100..120 {
        run_stream(seed, 3, 400);
    }
}

#[test]
fn stream_of_one_user_never_trades() {
    let mut stream = Stream(7);
    let mut book = OrderBook::default();
    for _ in 0..200 {
        let request = stream.request(1);
        let result = book.match_request(&request);
        assert_eq!(result.market_actions, vec![]);
        assert!(!result.request_actions.contains(&RequestAction::Filled));
        assert!(!result.request_actions.contains(&RequestAction::FilledPartially));
    }
}

#[test]
fn arrival_order_is_kept_within_a_price() {
    let mut book = OrderBook::default();
    let mut stream = Stream(11);
    let mut arrivals: Vec<(Side, u64, u64)> = vec![];
    for user_id in 1..=300u64 {
        let side = if stream.next(2) == 0 { Side::Buy } else { Side::Sell };
        let price = match side {
            Side::Buy => 10 + stream.next(5),
            Side::Sell => 20 + stream.next(5),
        };
        let request = Request { side, price, size: 1, user_id, request_type: Type::Limit };
        book.match_request(&request);
        arrivals.push((side, price, user_id));
    }
    for (side, queue) in [(Side::Buy, book.buyers.to_vec()), (Side::Sell, book.sellers.to_vec())] {
        let expected = arrivals.iter().filter(|a| a.0 == side).count();
        assert_eq!(queue.len(), expected);
        for pair in queue.windows(2) {
            if pair[0].price == pair[1].price {
                assert!(pair[0].user_id < pair[1].user_id);
            }
        }
    }
}

#[test]
fn quiet_matching_and_flushing_keep_the_book() {
    let mut book = OrderBook::default();
    for user_id in 1..=10u64 {
        book.match_request_quiet(&Request {
            side: Side::Buy,
            price: user_id,
            size: 2,
            user_id,
            request_type: Type::Limit,
        });
    }
    book.match_request_quiet(&Request {
        side: Side::Sell,
        price: 8,
        size: 5,
        user_id: 99,
        request_type: Type::ImmediateOrCancel,
    });
    let live = book.buyers.to_vec();
    assert_eq!(live.len(), 8);
    assert_eq!(live[0], Request { side: Side::Buy, price: 8, size: 1, user_id: 8, request_type: Type::Limit });
    assert_eq!(book.buyers.start_from, 2);
    book.flush_request_queues();
    assert_eq!(book.buyers.start_from, 0);
    assert_eq!(book.sellers.start_from, 0);
    assert_eq!(book.buyers.vec, live);
    assert_eq!(book.buyers.to_vec(), live);
    assert_eq!(book.sellers.to_vec(), vec![]);
    book.flush_request_queues();
    assert_eq!(book.buyers.vec, live);
}
