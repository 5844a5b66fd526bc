use market_matcher::{MarketAction, MatchingResult, OrderBook, Request, RequestAction, Side, Type};

fn order(side: Side, price: u64, size: u64, user_id: u64, request_type: Type) -> Request {
    Request { side, price, size, user_id, request_type }
}

fn limit(side: Side, price: u64, size: u64, user_id: u64) -> Request {
    order(side, price, size, user_id, Type::Limit)
}

fn trade(size: u64, price: u64, seller_user_id: u64, buyer_user_id: u64) -> MarketAction {
    MarketAction { size, price, seller_user_id, buyer_user_id }
}

#[test]
fn limit_rests_on_empty_side() {
    let mut book = OrderBook::default();
    let request = limit(Side::Buy, 1, 1, 1);
    let result = book.match_request(&request);
    assert_eq!(
        result,
        MatchingResult { market_actions: vec![], request_actions: vec![RequestAction::AddedToBook] }
    );
    assert_eq!(book.buyers.to_vec(), vec![request]);
    assert_eq!(book.sellers.to_vec(), vec![]);
}

#[test]
fn self_cross_is_skipped_and_rests() {
    let mut book = OrderBook::default();
    let bid = limit(Side::Buy, 1, 1, 1);
    book.match_request(&bid);
    let ask = limit(Side::Sell, 1, 1, 1);
    let result = book.match_request(&ask);
    assert_eq!(
        result,
        MatchingResult { market_actions: vec![], request_actions: vec![RequestAction::AddedToBook] }
    );
    assert_eq!(book.buyers.to_vec(), vec![bid]);
    assert_eq!(book.sellers.to_vec(), vec![ask]);
}

#[test]
fn simple_cross_fills_and_leaves_own_order() {
    let mut book = OrderBook::default();
    book.match_request(&limit(Side::Buy, 1, 1, 1));
    let own_ask = limit(Side::Sell, 1, 1, 1);
    book.match_request(&own_ask);
    let result = book.match_request(&limit(Side::Sell, 1, 1, 2));
    assert_eq!(
        result,
        MatchingResult {
            market_actions: vec![trade(1, 1, 2, 1)],
            request_actions: vec![RequestAction::Filled],
        }
    );
    assert_eq!(book.buyers.to_vec(), vec![]);
    assert_eq!(book.sellers.to_vec(), vec![own_ask]);
}

#[test]
fn partial_fill_rests_the_residual() {
    let mut book = OrderBook::default();
    book.match_request(&limit(Side::Buy, 1, 1, 1));
    let result = book.match_request(&limit(Side::Sell, 1, 5, 2));
    assert_eq!(
        result,
        MatchingResult {
            market_actions: vec![trade(1, 1, 2, 1)],
            request_actions: vec![RequestAction::FilledPartially, RequestAction::AddedToBook],
        }
    );
    assert_eq!(book.sellers.to_vec(), vec![limit(Side::Sell, 1, 4, 2)]);
    assert_eq!(book.buyers.to_vec(), vec![]);
}

#[test]
fn fill_or_kill_rejection_leaves_book_untouched() {
    let mut book = OrderBook::default();
    for _ in 0..100 {
        book.match_request(&limit(Side::Buy, 1, 1, 1));
    }
    let before = book.buyers.to_vec();
    assert_eq!(before.len(), 100);
    let result = book.match_request(&order(Side::Sell, 1, 101, 2, Type::FillOrKill));
    assert_eq!(
        result,
        MatchingResult { market_actions: vec![], request_actions: vec![RequestAction::Cancelled] }
    );
    assert_eq!(book.buyers.to_vec(), before);
    assert_eq!(book.sellers.to_vec(), vec![]);

    let result = book.match_request(&order(Side::Sell, 1, 100, 2, Type::FillOrKill));
    assert_eq!(result.request_actions, vec![RequestAction::Filled]);
    assert_eq!(result.market_actions.len(), 100);
    for action in result.market_actions.iter() {
        assert_eq!(*action, trade(1, 1, 2, 1));
    }
    assert_eq!(book.buyers.to_vec(), vec![]);
    assert_eq!(book.sellers.to_vec(), vec![]);
}

#[test]
fn earliest_order_at_a_price_trades_first() {
    let mut book = OrderBook::default();
    let first = limit(Side::Sell, 5, 1, 10);
    let second = limit(Side::Sell, 5, 1, 11);
    book.match_request(&first);
    book.match_request(&second);
    let result = book.match_request(&limit(Side::Buy, 5, 1, 12));
    assert_eq!(
        result,
        MatchingResult {
            market_actions: vec![trade(1, 5, 10, 12)],
            request_actions: vec![RequestAction::Filled],
        }
    );
    assert_eq!(book.sellers.to_vec(), vec![second]);
}

#[test]
fn empty_opposite_side_by_type() {
    for side in [Side::Buy, Side::Sell] {
        let mut book = OrderBook::default();
        let ioc = order(side, 7, 3, 1, Type::ImmediateOrCancel);
        assert_eq!(
            book.match_request(&ioc),
            MatchingResult { market_actions: vec![], request_actions: vec![RequestAction::Cancelled] }
        );
        let fok = order(side, 7, 3, 1, Type::FillOrKill);
        assert_eq!(
            book.match_request(&fok),
            MatchingResult { market_actions: vec![], request_actions: vec![RequestAction::Cancelled] }
        );
        assert_eq!(book.buyers.len(), 0);
        assert_eq!(book.sellers.len(), 0);
        let resting = limit(side, 7, 3, 1);
        assert_eq!(
            book.match_request(&resting),
            MatchingResult { market_actions: vec![], request_actions: vec![RequestAction::AddedToBook] }
        );
        let (own, opposite) = match side {
            Side::Buy => (&book.buyers, &book.sellers),
            Side::Sell => (&book.sellers, &book.buyers),
        };
        assert_eq!(own.to_vec(), vec![resting]);
        assert!(opposite.is_empty());
    }
}

#[test]
fn own_orders_up_to_the_end_of_the_book_block_every_trade() {
    let mut book = OrderBook::default();
    let asks = vec![limit(Side::Sell, 1, 2, 9), limit(Side::Sell, 2, 2, 9), limit(Side::Sell, 3, 2, 9)];
    for ask in asks.iter() {
        book.match_request(ask);
    }
    let ioc = order(Side::Buy, 10, 5, 9, Type::ImmediateOrCancel);
    assert_eq!(
        book.match_request(&ioc),
        MatchingResult { market_actions: vec![], request_actions: vec![RequestAction::Cancelled] }
    );
    let fok = order(Side::Buy, 10, 5, 9, Type::FillOrKill);
    assert_eq!(
        book.match_request(&fok),
        MatchingResult { market_actions: vec![], request_actions: vec![RequestAction::Cancelled] }
    );
    assert_eq!(book.sellers.to_vec(), asks);
    let bid = limit(Side::Buy, 10, 5, 9);
    assert_eq!(
        book.match_request(&bid),
        MatchingResult { market_actions: vec![], request_actions: vec![RequestAction::AddedToBook] }
    );
    assert_eq!(book.sellers.to_vec(), asks);
    assert_eq!(book.buyers.to_vec(), vec![bid]);
}

#[test]
fn aggressor_trades_past_its_own_resting_order() {
    let mut book = OrderBook::default();
    let own = limit(Side::Sell, 5, 4, 1);
    let other = limit(Side::Sell, 5, 4, 2);
    let far = limit(Side::Sell, 6, 4, 3);
    book.match_request(&own);
    book.match_request(&other);
    book.match_request(&far);
    let result = book.match_request(&limit(Side::Buy, 6, 6, 1));
    assert_eq!(
        result,
        MatchingResult {
            market_actions: vec![trade(4, 5, 2, 1), trade(2, 6, 3, 1)],
            request_actions: vec![RequestAction::Filled],
        }
    );
    assert_eq!(book.sellers.to_vec(), vec![own, limit(Side::Sell, 6, 2, 3)]);
    assert_eq!(book.buyers.to_vec(), vec![]);
}

#[test]
fn several_own_orders_are_kept_in_place_between_trades() {
    let mut book = OrderBook::default();
    let resting = vec![
        limit(Side::Buy, 9, 1, 1),
        limit(Side::Buy, 9, 2, 7),
        limit(Side::Buy, 8, 3, 2),
        limit(Side::Buy, 8, 4, 7),
        limit(Side::Buy, 7, 5, 3),
        limit(Side::Buy, 6, 6, 7),
        limit(Side::Buy, 5, 7, 4),
    ];
    for r in resting.iter() {
        book.match_request(r);
    }
    assert_eq!(book.buyers.to_vec(), resting);
    let result = book.match_request(&order(Side::Sell, 6, 10, 7, Type::ImmediateOrCancel));
    assert_eq!(
        result,
        MatchingResult {
            market_actions: vec![trade(1, 9, 7, 1), trade(3, 8, 7, 2), trade(5, 7, 7, 3)],
            request_actions: vec![RequestAction::FilledPartially, RequestAction::Cancelled],
        }
    );
    assert_eq!(
        book.buyers.to_vec(),
        vec![
            limit(Side::Buy, 9, 2, 7),
            limit(Side::Buy, 8, 4, 7),
            limit(Side::Buy, 6, 6, 7),
            limit(Side::Buy, 5, 7, 4),
        ]
    );
    assert_eq!(book.buyers.len(), 4);
    assert_eq!(book.buyers[0], limit(Side::Buy, 9, 2, 7));
    assert_eq!(book.buyers[3], limit(Side::Buy, 5, 7, 4));
    assert_eq!(book.sellers.to_vec(), vec![]);
}

#[test]
fn trade_price_is_the_resting_price() {
    let mut book = OrderBook::default();
    book.match_request(&limit(Side::Sell, 3, 1, 1));
    book.match_request(&limit(Side::Sell, 4, 1, 2));
    let result = book.match_request(&limit(Side::Buy, 100, 2, 3));
    assert_eq!(result.market_actions, vec![trade(1, 3, 1, 3), trade(1, 4, 2, 3)]);

    let mut book = OrderBook::default();
    book.match_request(&limit(Side::Buy, 50, 1, 1));
    book.match_request(&limit(Side::Buy, 40, 1, 2));
    let result = book.match_request(&limit(Side::Sell, 1, 2, 3));
    assert_eq!(result.market_actions, vec![trade(1, 50, 3, 1), trade(1, 40, 3, 2)]);
}

#[test]
fn walk_stops_at_the_first_price_that_does_not_cross() {
    let mut book = OrderBook::default();
    book.match_request(&limit(Side::Sell, 3, 1, 1));
    book.match_request(&limit(Side::Sell, 5, 1, 2));
    book.match_request(&limit(Side::Sell, 7, 1, 3));
    let result = book.match_request(&limit(Side::Buy, 5, 10, 4));
    assert_eq!(
        result,
        MatchingResult {
            market_actions: vec![trade(1, 3, 1, 4), trade(1, 5, 2, 4)],
            request_actions: vec![RequestAction::FilledPartially, RequestAction::AddedToBook],
        }
    );
    assert_eq!(book.sellers.to_vec(), vec![limit(Side::Sell, 7, 1, 3)]);
    assert_eq!(book.buyers.to_vec(), vec![limit(Side::Buy, 5, 8, 4)]);
}

#[test]
fn partial_fill_of_the_resting_order_keeps_its_place() {
    let mut book = OrderBook::default();
    book.match_request(&limit(Side::Buy, 5, 10, 1));
    book.match_request(&limit(Side::Buy, 5, 10, 2));
    let result = book.match_request(&limit(Side::Sell, 5, 3, 3));
    assert_eq!(
        result,
        MatchingResult {
            market_actions: vec![trade(3, 5, 3, 1)],
            request_actions: vec![RequestAction::Filled],
        }
    );
    assert_eq!(book.buyers.to_vec(), vec![limit(Side::Buy, 5, 7, 1), limit(Side::Buy, 5, 10, 2)]);
    let result = book.match_request(&order(Side::Sell, 5, 8, 3, Type::FillOrKill));
    assert_eq!(
        result,
        MatchingResult {
            market_actions: vec![trade(7, 5, 3, 1), trade(1, 5, 3, 2)],
            request_actions: vec![RequestAction::Filled],
        }
    );
    assert_eq!(book.buyers.to_vec(), vec![limit(Side::Buy, 5, 9, 2)]);
}

#[test]
fn immediate_or_cancel_never_rests() {
    let mut book = OrderBook::default();
    book.match_request(&limit(Side::Sell, 5, 2, 1));
    let result = book.match_request(&order(Side::Buy, 5, 5, 2, Type::ImmediateOrCancel));
    assert_eq!(
        result,
        MatchingResult {
            market_actions: vec![trade(2, 5, 1, 2)],
            request_actions: vec![RequestAction::FilledPartially, RequestAction::Cancelled],
        }
    );
    assert!(book.buyers.is_empty());
    assert!(book.sellers.is_empty());
}

#[test]
fn fill_or_kill_rejected_after_partial_walk_reports_no_trade() {
    let mut book = OrderBook::default();
    let asks = vec![limit(Side::Sell, 5, 2, 1), limit(Side::Sell, 6, 2, 2), limit(Side::Sell, 9, 2, 3)];
    for ask in asks.iter() {
        book.match_request(ask);
    }
    let result = book.match_request(&order(Side::Buy, 6, 5, 4, Type::FillOrKill));
    assert_eq!(
        result,
        MatchingResult { market_actions: vec![], request_actions: vec![RequestAction::Cancelled] }
    );
    assert_eq!(book.sellers.to_vec(), asks);
    assert_eq!(book.buyers.to_vec(), vec![]);
}

#[test]
fn request_for_no_units_is_ignored() {
    let mut book = OrderBook::default();
    let bid = limit(Side::Buy, 5, 2, 1);
    let ask = limit(Side::Sell, 8, 2, 2);
    book.match_request(&bid);
    book.match_request(&ask);
    for request_type in [Type::Limit, Type::ImmediateOrCancel, Type::FillOrKill] {
        for side in [Side::Buy, Side::Sell] {
            let result = book.match_request(&order(side, 6, 0, 3, request_type));
            assert_eq!(result, MatchingResult { market_actions: vec![], request_actions: vec![] });
            assert_eq!(book.buyers.to_vec(), vec![bid]);
            assert_eq!(book.sellers.to_vec(), vec![ask]);
        }
    }
}

#[test]
fn price_zero_is_an_ordinary_price() {
    let mut book = OrderBook::default();
    let bid = limit(Side::Buy, 0, 3, 1);
    assert_eq!(book.match_request(&bid).request_actions, vec![RequestAction::AddedToBook]);
    let result = book.match_request(&limit(Side::Sell, 1, 3, 2));
    assert_eq!(
        result,
        MatchingResult { market_actions: vec![], request_actions: vec![RequestAction::AddedToBook] }
    );
    let result = book.match_request(&order(Side::Sell, 0, 2, 3, Type::ImmediateOrCancel));
    assert_eq!(
        result,
        MatchingResult {
            market_actions: vec![trade(2, 0, 3, 1)],
            request_actions: vec![RequestAction::Filled],
        }
    );
    assert_eq!(book.buyers.to_vec(), vec![limit(Side::Buy, 0, 1, 1)]);
}

#[test]
fn largest_sizes_and_prices_do_not_overflow() {
    let mut book = OrderBook::default();
    book.match_request(&limit(Side::Sell, u64::MAX, u64::MAX, 1));
    book.match_request(&limit(Side::Sell, u64::MAX, u64::MAX, 2));
    let result = book.match_request(&limit(Side::Buy, u64::MAX, u64::MAX, 3));
    assert_eq!(
        result,
        MatchingResult {
            market_actions: vec![trade(u64::MAX, u64::MAX, 1, 3)],
            request_actions: vec![RequestAction::Filled],
        }
    );
    assert_eq!(book.sellers.to_vec(), vec![limit(Side::Sell, u64::MAX, u64::MAX, 2)]);
}
