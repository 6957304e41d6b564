use exchange_core::codec::{parse_book, serialize_book};
use exchange_core::book::find_by_hash;
use exchange_core::types::{
    Address, CreateOrderRequest, EIP712DomainSeparator, Hash32, L2OrderBook, OrderEntry, OrderSide,
};
use exchange_core::request::{parse_address, parse_create_order_request};

fn addr(tag: u8) -> Address {
    let mut bytes = [0u8; 20];
    bytes[19] = tag;
    Address { bytes }
}

fn entry(amount: u128, price: u128, trader: Address, h: u8) -> OrderEntry {
    OrderEntry {
        amount,
        price,
        trader_address: trader,
        eip712_hash: Hash32 { bytes: [h; 32] },
    }
}

#[test]
fn serialized_book_is_canonical_text() {
    let book = L2OrderBook {
        bids: vec![entry(5, 100, addr(1), 0xab)],
        asks: vec![],
    };
    let bytes = serialize_book(&book);
    let text = String::from_utf8(bytes).unwrap();
    assert_eq!(
        text,
        "{\"asks\":[],\"bids\":[{\"amount\":\"5\",\"price\":\"100\",\
         \"trader_address\":\"0x0000000000000000000000000000000000000001\",\
         \"eip712_hash\":\"0xabababababababababababababababababababababababababababababababab\"}]}"
    );
}

#[test]
fn book_round_trips_through_its_serialization() {
    let book = L2OrderBook {
        asks: vec![entry(3, 90, addr(2), 0x11), entry(10, 95, addr(3), 0x22)],
        bids: vec![entry(7, 88, addr(1), 0x33)],
    };
    let bytes = serialize_book(&book);
    let reloaded = parse_book(&bytes).unwrap();
    assert_eq!(reloaded.asks, book.asks);
    assert_eq!(reloaded.bids, book.bids);
}

#[test]
fn empty_book_round_trips() {
    let book = L2OrderBook::new();
    let bytes = serialize_book(&book);
    assert_eq!(String::from_utf8(bytes.clone()).unwrap(), "{\"asks\":[],\"bids\":[]}");
    let reloaded = parse_book(&bytes).unwrap();
    assert!(reloaded.asks.is_empty() && reloaded.bids.is_empty());
}

#[test]
fn lookup_survives_persistence() {
    let e = entry(5, 100, addr(1), 0x44);
    let book = L2OrderBook { asks: vec![], bids: vec![e] };
    let h = e.eip712_hash;
    let before = find_by_hash(&book, &h).unwrap();
    let reloaded = parse_book(&serialize_book(&book)).unwrap();
    let after = find_by_hash(&reloaded, &h).unwrap();
    assert_eq!(before, after);
    assert_eq!(after, e);
}

#[test]
fn corrupt_input_is_refused() {
    let book = L2OrderBook {
        asks: vec![entry(3, 90, addr(2), 0x11)],
        bids: vec![],
    };
    let mut bytes = serialize_book(&book);
    assert!(parse_book(&bytes).is_some());
    bytes[0] = b'X';
    assert!(parse_book(&bytes).is_none());
    assert!(parse_book(b"").is_none());
    assert!(parse_book(b"{\"asks\":[],\"bids\":[]").is_none());
    // Trailing bytes beyond the book are refused too.
    let mut long = serialize_book(&L2OrderBook::new());
    long.push(b' ');
    assert!(parse_book(&long).is_none());
    // A non-canonical number (leading zero) is refused.
    let text = "{\"asks\":[],\"bids\":[{\"amount\":\"05\",\"price\":\"100\",\
        \"trader_address\":\"0x0000000000000000000000000000000000000001\",\
        \"eip712_hash\":\"0x1111111111111111111111111111111111111111111111111111111111111111\"}]}";
    assert!(parse_book(text.as_bytes()).is_none());
    // Upper-case hex is not the canonical form.
    let text = "{\"asks\":[],\"bids\":[{\"amount\":\"5\",\"price\":\"100\",\
        \"trader_address\":\"0x00000000000000000000000000000000000000AB\",\
        \"eip712_hash\":\"0x1111111111111111111111111111111111111111111111111111111111111111\"}]}";
    assert!(parse_book(text.as_bytes()).is_none());
}

#[test]
fn hash_is_deterministic_and_field_sensitive() {
    let domain = EIP712DomainSeparator::new("DDX take-home".to_string(), "0.1.0".to_string());
    let base = exchange_core::types::Order {
        amount: 5,
        nonce: Hash32 { bytes: [0u8; 32] },
        price: 100,
        side: OrderSide::Bid,
        trader_address: addr(1),
    };
    let h1 = base.eip712_hash(&domain);
    let h2 = base.eip712_hash(&domain);
    assert_eq!(h1, h2);

    let mut different_amount = base;
    different_amount.amount = 6;
    assert_ne!(different_amount.eip712_hash(&domain), h1);

    let mut different_side = base;
    different_side.side = OrderSide::Ask;
    assert_ne!(different_side.eip712_hash(&domain), h1);

    let other_domain = EIP712DomainSeparator::new("other".to_string(), "0.1.0".to_string());
    assert_ne!(base.eip712_hash(&other_domain), h1);

    // The nonce takes no part in the identity.
    let mut different_nonce = base;
    different_nonce.nonce = Hash32 { bytes: [9u8; 32] };
    assert_eq!(different_nonce.eip712_hash(&domain), h1);
}

#[test]
fn entry_identity_matches_order_identity() {
    let domain = EIP712DomainSeparator::new("DDX take-home".to_string(), "0.1.0".to_string());
    let order = exchange_core::types::Order {
        amount: 5,
        nonce: Hash32 { bytes: [0u8; 32] },
        price: 100,
        side: OrderSide::Bid,
        trader_address: addr(1),
    };
    let entry = OrderEntry {
        amount: 5,
        price: 100,
        trader_address: addr(1),
        eip712_hash: order.eip712_hash(&domain),
    };
    // The resting entry computes the same identity the order did.
    assert_eq!(entry.eip712_hash(OrderSide::Bid, &domain), order.eip712_hash(&domain));
}

#[test]
fn request_parsing_accepts_canonical_fields() {
    let req = CreateOrderRequest {
        side: "Bid".to_string(),
        amount: "5".to_string(),
        price: "100".to_string(),
        trader_address: "0x00000000000000000000000000000000000000ff".to_string(),
    };
    let o = parse_create_order_request(&req).unwrap();
    assert_eq!(o.side, OrderSide::Bid);
    assert_eq!(o.amount, 5);
    assert_eq!(o.price, 100);
    assert_eq!(o.trader_address.bytes[19], 0xff);
    assert_eq!(o.nonce.bytes, [0u8; 32]);

    let req = CreateOrderRequest { side: "ASK".to_string(), ..req };
    assert_eq!(parse_create_order_request(&req).unwrap().side, OrderSide::Ask);
}

#[test]
fn request_parsing_rejects_malformed_fields() {
    let good = CreateOrderRequest {
        side: "bid".to_string(),
        amount: "5".to_string(),
        price: "100".to_string(),
        trader_address: "0x00000000000000000000000000000000000000ff".to_string(),
    };
    assert!(parse_create_order_request(&good).is_some());

    let bad_side = CreateOrderRequest { side: "hold".to_string(), ..good.clone() };
    assert!(parse_create_order_request(&bad_side).is_none());

    let bad_amount = CreateOrderRequest { amount: "05".to_string(), ..good.clone() };
    assert!(parse_create_order_request(&bad_amount).is_none());

    // One past the largest representable amount.
    let bad_range = CreateOrderRequest {
        amount: "340282366920938463463374607431768211456".to_string(),
        ..good.clone()
    };
    assert!(parse_create_order_request(&bad_range).is_none());

    let bad_addr = CreateOrderRequest { trader_address: "0x1234".to_string(), ..good.clone() };
    assert!(parse_create_order_request(&bad_addr).is_none());

    assert!(parse_address("0x00000000000000000000000000000000000000ff").is_some());
    assert!(parse_address("00000000000000000000000000000000000000ff00").is_none());
}

#[test]
fn largest_amount_round_trips() {
    let e = entry(u128::MAX, 1, addr(1), 0x55);
    let book = L2OrderBook { asks: vec![e], bids: vec![] };
    let bytes = serialize_book(&book);
    let text = String::from_utf8(bytes.clone()).unwrap();
    assert!(text.contains("340282366920938463463374607431768211455"));
    let reloaded = parse_book(&bytes).unwrap();
    assert_eq!(reloaded.asks[0].amount, u128::MAX);
}

#[test]
fn side_names_and_default_order() {
    assert_eq!(OrderSide::Bid.name(), "Bid");
    assert_eq!(OrderSide::Ask.name(), "Ask");
    assert_eq!(OrderSide::from_str("bid"), Some(OrderSide::Bid));
    assert_eq!(OrderSide::from_str("Ask"), Some(OrderSide::Ask));
    assert_eq!(OrderSide::from_str("hold"), None);
    assert_eq!(OrderSide::from_str(""), None);

    let o = exchange_core::types::Order::default();
    assert_eq!(o.amount, 0);
    assert_eq!(o.price, 0);
    assert_eq!(o.side, OrderSide::Bid);
    assert_eq!(o.nonce.bytes, [0u8; 32]);
    assert_eq!(o.trader_address.bytes, [0u8; 20]);
}
