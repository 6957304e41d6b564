use exchange_core::book::{best_n, delete_by_hash, find_by_hash, insert_entry};
use exchange_core::ledger::Ledger;
use exchange_core::matching::{add_order_to_book, match_order, validate_order};
use exchange_core::types::{
    Account, Address, EIP712DomainSeparator, Hash32, L2OrderBook, Order, OrderSide, RejectReason,
};

fn addr(tag: u8) -> Address {
    let mut bytes = [0u8; 20];
    bytes[19] = tag;
    Address { bytes }
}

fn domain() -> EIP712DomainSeparator {
    EIP712DomainSeparator::new("DDX take-home".to_string(), "0.1.0".to_string())
}

fn order(side: OrderSide, amount: u128, price: u128, trader: Address) -> Order {
    Order {
        amount,
        nonce: Hash32 { bytes: [0u8; 32] },
        price,
        side,
        trader_address: trader,
    }
}

fn ledger_ab() -> Ledger {
    let mut ledger = Ledger::new();
    assert!(ledger.add_account(Account {
        trader_address: addr(1),
        ddx_balance: 0,
        usd_balance: 1000,
    }));
    assert!(ledger.add_account(Account {
        trader_address: addr(2),
        ddx_balance: 10,
        usd_balance: 0,
    }));
    ledger
}

#[test]
fn resting_bid_then_crossing_ask_fills_at_maker_price() {
    let domain = domain();
    let mut book = L2OrderBook::new();
    let mut ledger = ledger_ab();

    let bid = order(OrderSide::Bid, 5, 100, addr(1));
    let fills = add_order_to_book(&bid, &mut book, &domain, &mut ledger).unwrap();
    assert!(fills.is_empty());
    assert_eq!(book.bids.len(), 1);
    assert_eq!(book.bids[0].amount, 5);
    assert_eq!(book.bids[0].price, 100);

    let ask = order(OrderSide::Ask, 5, 90, addr(2));
    let fills = add_order_to_book(&ask, &mut book, &domain, &mut ledger).unwrap();
    assert_eq!(fills.len(), 1);
    assert_eq!(fills[0].fill_amount, 5);
    assert_eq!(fills[0].price, 100);
    assert_eq!(fills[0].maker_hash, bid.eip712_hash(&domain));
    assert_eq!(fills[0].taker_hash, ask.eip712_hash(&domain));

    assert!(book.bids.is_empty());
    assert!(book.asks.is_empty());

    let a = ledger.get(&addr(1)).unwrap();
    assert_eq!(a.ddx_balance, 5);
    assert_eq!(a.usd_balance, 500);
    let b = ledger.get(&addr(2)).unwrap();
    assert_eq!(b.ddx_balance, 5);
    assert_eq!(b.usd_balance, 500);

    // Conservation: the totals across the two traders are untouched.
    assert_eq!(a.usd_balance + b.usd_balance, 1000);
    assert_eq!(a.ddx_balance + b.ddx_balance, 10);
}

#[test]
fn better_priced_ask_fills_first_and_in_full() {
    let domain = domain();
    let mut book = L2OrderBook::new();
    let mut ledger = Ledger::new();
    assert!(ledger.add_account(Account {
        trader_address: addr(1),
        ddx_balance: 0,
        usd_balance: 10_000,
    }));
    assert!(ledger.add_account(Account {
        trader_address: addr(2),
        ddx_balance: 10,
        usd_balance: 0,
    }));
    assert!(ledger.add_account(Account {
        trader_address: addr(3),
        ddx_balance: 20,
        usd_balance: 0,
    }));

    let cheap = order(OrderSide::Ask, 3, 90, addr(2));
    add_order_to_book(&cheap, &mut book, &domain, &mut ledger).unwrap();
    let dear = order(OrderSide::Ask, 10, 95, addr(3));
    add_order_to_book(&dear, &mut book, &domain, &mut ledger).unwrap();
    assert_eq!(book.asks[0].price, 90);
    assert_eq!(book.asks[1].price, 95);

    let bid = order(OrderSide::Bid, 5, 100, addr(1));
    let fills = add_order_to_book(&bid, &mut book, &domain, &mut ledger).unwrap();
    assert_eq!(fills.len(), 2);
    // The p1 entry is filled first, in full, before p2 is touched.
    assert_eq!(fills[0].price, 90);
    assert_eq!(fills[0].fill_amount, 3);
    assert_eq!(fills[1].price, 95);
    assert_eq!(fills[1].fill_amount, 2);

    assert!(book.bids.is_empty());
    assert_eq!(book.asks.len(), 1);
    assert_eq!(book.asks[0].amount, 8);
    assert_eq!(book.asks[0].price, 95);
}

#[test]
fn equal_price_keeps_arrival_order() {
    let domain = domain();
    let mut book = L2OrderBook::new();
    let mut ledger = Ledger::new();
    for tag in 1..=3u8 {
        assert!(ledger.add_account(Account {
            trader_address: addr(tag),
            ddx_balance: 100,
            usd_balance: 10_000,
        }));
    }
    let first = order(OrderSide::Ask, 2, 90, addr(2));
    add_order_to_book(&first, &mut book, &domain, &mut ledger).unwrap();
    let second = order(OrderSide::Ask, 2, 90, addr(3));
    add_order_to_book(&second, &mut book, &domain, &mut ledger).unwrap();
    // Time priority: the earlier arrival stands first at the level.
    assert_eq!(book.asks[0].eip712_hash, first.eip712_hash(&domain));
    assert_eq!(book.asks[1].eip712_hash, second.eip712_hash(&domain));

    let bid = order(OrderSide::Bid, 3, 90, addr(1));
    let fills = add_order_to_book(&bid, &mut book, &domain, &mut ledger).unwrap();
    assert_eq!(fills.len(), 2);
    assert_eq!(fills[0].maker_hash, first.eip712_hash(&domain));
    assert_eq!(fills[0].fill_amount, 2);
    assert_eq!(fills[1].maker_hash, second.eip712_hash(&domain));
    assert_eq!(fills[1].fill_amount, 1);
}

#[test]
fn self_trade_rejects_whole_submit_and_leaves_book_unchanged() {
    let domain = domain();
    let mut book = L2OrderBook::new();
    let mut ledger = Ledger::new();
    assert!(ledger.add_account(Account {
        trader_address: addr(1),
        ddx_balance: 50,
        usd_balance: 10_000,
    }));

    let ask = order(OrderSide::Ask, 5, 90, addr(1));
    add_order_to_book(&ask, &mut book, &domain, &mut ledger).unwrap();
    let before_asks = book.asks.clone();
    let before_bids = book.bids.clone();

    let bid = order(OrderSide::Bid, 5, 100, addr(1));
    let err = add_order_to_book(&bid, &mut book, &domain, &mut ledger).unwrap_err();
    assert_eq!(err, RejectReason::SelfTrade);
    assert_eq!(book.asks, before_asks);
    assert_eq!(book.bids, before_bids);
    let a = ledger.get(&addr(1)).unwrap();
    assert_eq!(a.ddx_balance, 50);
    assert_eq!(a.usd_balance, 10_000);
}

#[test]
fn zero_amount_or_price_is_invalid() {
    let domain = domain();
    let mut book = L2OrderBook::new();
    let mut ledger = ledger_ab();
    let o = order(OrderSide::Bid, 0, 100, addr(1));
    assert!(validate_order(&o).is_err());
    assert_eq!(
        add_order_to_book(&o, &mut book, &domain, &mut ledger).unwrap_err(),
        RejectReason::InvalidOrder
    );
    let o = order(OrderSide::Ask, 5, 0, addr(2));
    assert_eq!(
        add_order_to_book(&o, &mut book, &domain, &mut ledger).unwrap_err(),
        RejectReason::InvalidOrder
    );
    assert!(book.bids.is_empty() && book.asks.is_empty());
}

#[test]
fn unknown_trader_is_rejected() {
    let domain = domain();
    let mut book = L2OrderBook::new();
    let mut ledger = ledger_ab();
    let o = order(OrderSide::Bid, 5, 100, addr(9));
    assert_eq!(
        add_order_to_book(&o, &mut book, &domain, &mut ledger).unwrap_err(),
        RejectReason::UnknownTrader
    );
}

#[test]
fn insufficient_balance_is_rejected_without_resting() {
    let domain = domain();
    let mut book = L2OrderBook::new();
    let mut ledger = ledger_ab();
    // A bid that costs 5 * 300 = 1500 against a quote balance of 1000.
    let o = order(OrderSide::Bid, 5, 300, addr(1));
    assert_eq!(
        add_order_to_book(&o, &mut book, &domain, &mut ledger).unwrap_err(),
        RejectReason::InsufficientBalance
    );
    // An ask for more base than the trader holds.
    let o = order(OrderSide::Ask, 11, 90, addr(2));
    assert_eq!(
        add_order_to_book(&o, &mut book, &domain, &mut ledger).unwrap_err(),
        RejectReason::InsufficientBalance
    );
    // A bid whose cost exceeds the representable range can never be
    // affordable.
    let o = order(OrderSide::Bid, u128::MAX, u128::MAX, addr(1));
    assert_eq!(
        add_order_to_book(&o, &mut book, &domain, &mut ledger).unwrap_err(),
        RejectReason::InsufficientBalance
    );
    assert!(book.bids.is_empty() && book.asks.is_empty());
}

#[test]
fn settlement_failure_rolls_the_whole_submit_back() {
    let domain = domain();
    let mut book = L2OrderBook::new();
    let mut ledger = ledger_ab();
    // A resting ask whose trader has no balance record: the fill cannot
    // settle, and the taker's submit fails atomically.
    let ghost_ask = order(OrderSide::Ask, 5, 90, addr(9));
    book.asks.push(exchange_core::types::OrderEntry {
        amount: 5,
        price: 90,
        trader_address: addr(9),
        eip712_hash: ghost_ask.eip712_hash(&domain),
    });
    let before = book.asks.clone();
    let bid = order(OrderSide::Bid, 5, 100, addr(1));
    let err = add_order_to_book(&bid, &mut book, &domain, &mut ledger).unwrap_err();
    assert_eq!(err, RejectReason::SettlementFailure);
    assert_eq!(book.asks, before);
    assert!(book.bids.is_empty());
    assert_eq!(ledger.get(&addr(1)).unwrap().usd_balance, 1000);
}

#[test]
fn match_order_alone_settles_against_a_rested_order() {
    let domain = domain();
    let mut book = L2OrderBook::new();
    let mut ledger = ledger_ab();
    let bid = order(OrderSide::Bid, 5, 100, addr(1));
    add_order_to_book(&bid, &mut book, &domain, &mut ledger).unwrap();

    // Rest the ask without matching, then run the matching pass itself.
    let ask = order(OrderSide::Ask, 2, 95, addr(2));
    let entry = exchange_core::types::OrderEntry {
        amount: 2,
        price: 95,
        trader_address: addr(2),
        eip712_hash: ask.eip712_hash(&domain),
    };
    insert_entry(&mut book.asks, entry, OrderSide::Ask);
    let fills = match_order(&ask, &mut book, &domain, &mut ledger).unwrap();
    assert_eq!(fills.len(), 1);
    assert_eq!(fills[0].fill_amount, 2);
    assert_eq!(fills[0].price, 100);
    assert!(book.asks.is_empty());
    assert_eq!(book.bids.len(), 1);
    assert_eq!(book.bids[0].amount, 3);
}

#[test]
fn lookup_and_delete_by_identity() {
    let domain = domain();
    let mut book = L2OrderBook::new();
    let mut ledger = ledger_ab();
    let bid = order(OrderSide::Bid, 5, 100, addr(1));
    add_order_to_book(&bid, &mut book, &domain, &mut ledger).unwrap();
    let h = bid.eip712_hash(&domain);

    let found = find_by_hash(&book, &h).unwrap();
    assert_eq!(found.amount, 5);
    assert_eq!(found.price, 100);
    assert_eq!(found.eip712_hash, h);

    let absent = Hash32 { bytes: [7u8; 32] };
    assert!(find_by_hash(&book, &absent).is_none());
    assert!(!delete_by_hash(&mut book, &absent));

    assert!(delete_by_hash(&mut book, &h));
    assert!(find_by_hash(&book, &h).is_none());
    assert!(book.bids.is_empty());
}

#[test]
fn best_n_returns_the_top_of_the_book() {
    let domain = domain();
    let mut book = L2OrderBook::new();
    let mut ledger = Ledger::new();
    for tag in 1..=4u8 {
        assert!(ledger.add_account(Account {
            trader_address: addr(tag),
            ddx_balance: 100,
            usd_balance: 100_000,
        }));
    }
    for (tag, price) in [(1u8, 105u128), (2, 101), (3, 103)] {
        let o = order(OrderSide::Bid, 1, price, addr(tag));
        add_order_to_book(&o, &mut book, &domain, &mut ledger).unwrap();
    }
    let top = best_n(&book, OrderSide::Bid, 2);
    assert_eq!(top.len(), 2);
    assert_eq!(top[0].price, 105);
    assert_eq!(top[1].price, 103);
    let all = best_n(&book, OrderSide::Bid, 50);
    assert_eq!(all.len(), 3);
    assert_eq!(all[2].price, 101);
    assert!(best_n(&book, OrderSide::Ask, 50).is_empty());
}

#[test]
fn partial_fill_leaves_remainder_resting() {
    let domain = domain();
    let mut book = L2OrderBook::new();
    let mut ledger = ledger_ab();
    let bid = order(OrderSide::Bid, 5, 100, addr(1));
    add_order_to_book(&bid, &mut book, &domain, &mut ledger).unwrap();
    let ask = order(OrderSide::Ask, 8, 100, addr(2));
    let fills = add_order_to_book(&ask, &mut book, &domain, &mut ledger).unwrap();
    assert_eq!(fills.len(), 1);
    assert_eq!(fills[0].fill_amount, 5);
    assert!(book.bids.is_empty());
    assert_eq!(book.asks.len(), 1);
    assert_eq!(book.asks[0].amount, 3);
    assert_eq!(book.asks[0].eip712_hash, ask.eip712_hash(&domain));
}
