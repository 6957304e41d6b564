use vstd::prelude::*;

verus! {

/// Which side of the book an order belongs to.
#[derive(Clone, Copy, Debug, PartialEq, Eq, Structural)]
pub enum OrderSide {
    Bid,
    Ask,
}

pub open spec fn opposite_of(side: OrderSide) -> OrderSide {
    match side {
        OrderSide::Bid => OrderSide::Ask,
        OrderSide::Ask => OrderSide::Bid,
    }
}

/// A 20-byte account address.
#[derive(Clone, Copy, Debug, PartialEq, Eq)]
#[verifier::ext_equal]
pub struct Address {
    pub bytes: [u8; 20],
}

impl View for Address {
    type V = Seq<u8>;

    open spec fn view(&self) -> Seq<u8> {
        self.bytes@
    }
}

impl Address {
    pub fn new(bytes: [u8; 20]) -> (r: Address)
        ensures
            r@ == bytes@,
    {
        Address { bytes }
    }

    /// Byte-wise equality, usable from verified code.
    pub fn same_as(&self, other: &Address) -> (r: bool)
        ensures
            r == (self@ == other@),
    {
        let mut i: usize = 0;
        while i < 20
            invariant
                i <= 20,
                forall|j: int| 0 <= j < i ==> self.bytes@[j] == other.bytes@[j],
            decreases 20 - i,
        {
            if self.bytes[i] != other.bytes[i] {
                assert(self@[i as int] != other@[i as int]);
                return false;
            }
            i += 1;
        }
        assert(self@ =~= other@);
        true
    }
}

/// A 32-byte content hash, the public identity of an order.
#[derive(Clone, Copy, Debug, PartialEq, Eq)]
#[verifier::ext_equal]
pub struct Hash32 {
    pub bytes: [u8; 32],
}

impl View for Hash32 {
    type V = Seq<u8>;

    open spec fn view(&self) -> Seq<u8> {
        self.bytes@
    }
}

impl Hash32 {
    pub fn new(bytes: [u8; 32]) -> (r: Hash32)
        ensures
            r@ == bytes@,
    {
        Hash32 { bytes }
    }

    pub fn zero() -> (r: Hash32)
        ensures
            r@ == Seq::<u8>::new(32, |i| 0u8),
    {
        let bytes = [0u8; 32];
        assert(bytes@ =~= Seq::<u8>::new(32, |i| 0u8));
        Hash32 { bytes }
    }

    /// Byte-wise equality, usable from verified code.
    pub fn same_as(&self, other: &Hash32) -> (r: bool)
        ensures
            r == (self@ == other@),
    {
        let mut i: usize = 0;
        while i < 32
            invariant
                i <= 32,
                forall|j: int| 0 <= j < i ==> self.bytes@[j] == other.bytes@[j],
            decreases 32 - i,
        {
            if self.bytes[i] != other.bytes[i] {
                assert(self@[i as int] != other@[i as int]);
                return false;
            }
            i += 1;
        }
        assert(self@ =~= other@);
        true
    }
}

/// Two hashes with the same bytes are the same value.
pub proof fn lemma_hash32_unique(a: Hash32, b: Hash32)
    requires
        a@ == b@,
    ensures
        a == b,
{
    broadcast use vstd::array::group_array_axioms;

    assert(a.bytes@ =~= b.bytes@);
    assert(a =~= b);
}

/// Two addresses with the same bytes are the same value.
pub proof fn lemma_address_unique(a: Address, b: Address)
    requires
        a@ == b@,
    ensures
        a == b,
{
    broadcast use vstd::array::group_array_axioms;

    assert(a.bytes@ =~= b.bytes@);
    assert(a =~= b);
}

/// The (name, version) pair mixed into every content hash, scoping
/// identities to one deployment and schema version.
#[derive(Clone, Debug)]
pub struct EIP712DomainSeparator {
    pub name: String,
    pub version: String,
}

impl EIP712DomainSeparator {
    pub fn new(name: String, version: String) -> (r: EIP712DomainSeparator)
        ensures
            r.name@ == name@,
            r.version@ == version@,
    {
        EIP712DomainSeparator { name, version }
    }
}

/// Domain description kept alongside the separator.
#[derive(Clone, Debug)]
pub struct EIP712Domain {
    pub name: String,
    pub version: String,
}

/// An incoming order, as the matching engine consumes it.
///
/// Amounts and prices are integers in the smallest representable unit;
/// the canonical external form of each is its decimal digit string.
#[derive(Clone, Copy, Debug)]
pub struct Order {
    pub amount: u128,
    pub nonce: Hash32,
    pub price: u128,
    pub side: OrderSide,
    pub trader_address: Address,
}

impl Default for Order {
    /// The zero order: empty amounts, bid side, zero nonce and trader.
    fn default() -> (r: Order)
        ensures
            r.amount == 0,
            r.price == 0,
            r.side == OrderSide::Bid,
            r.nonce@ == Seq::<u8>::new(32, |i: int| 0u8),
            r.trader_address@ == Seq::<u8>::new(20, |i: int| 0u8),
    {
        let nonce_bytes = [0u8; 32];
        let trader_bytes = [0u8; 20];
        assert(nonce_bytes@ =~= Seq::<u8>::new(32, |i: int| 0u8));
        assert(trader_bytes@ =~= Seq::<u8>::new(20, |i: int| 0u8));
        Order {
            amount: 0,
            nonce: Hash32 { bytes: nonce_bytes },
            price: 0,
            side: OrderSide::Bid,
            trader_address: Address { bytes: trader_bytes },
        }
    }
}

/// A resting entry of the book: the remainder of an order awaiting a
/// counterparty, carrying its stable content hash.
#[derive(Clone, Copy, Debug, PartialEq, Eq)]
#[verifier::ext_equal]
pub struct OrderEntry {
    pub amount: u128,
    pub price: u128,
    pub trader_address: Address,
    pub eip712_hash: Hash32,
}

/// The two-sided book: bids best-first (descending price), asks
/// best-first (ascending price).
#[derive(Clone, Debug)]
pub struct L2OrderBook {
    pub bids: Vec<OrderEntry>,
    pub asks: Vec<OrderEntry>,
}

/// A read-only top-of-book slice.
#[derive(Debug)]
pub struct L2OrderBookGetResponse {
    pub best_asks: Vec<OrderEntry>,
    pub best_bids: Vec<OrderEntry>,
}

/// A trade record: maker is the resting entry matched against, taker the
/// incoming order; the price is the maker's resting price.
#[derive(Clone, Copy, Debug, PartialEq, Eq)]
pub struct Fill {
    pub maker_hash: Hash32,
    pub taker_hash: Hash32,
    pub fill_amount: u128,
    pub price: u128,
}

/// One trader's balance record: `ddx_balance` is the base asset,
/// `usd_balance` the quote asset.
#[derive(Clone, Copy, Debug, PartialEq, Eq)]
pub struct Account {
    pub trader_address: Address,
    pub ddx_balance: u128,
    pub usd_balance: u128,
}

/// Why a submitted order was rejected. Rejection leaves the book and the
/// ledger exactly as they were.
#[derive(Clone, Copy, Debug, PartialEq, Eq, Structural)]
pub enum RejectReason {
    /// Amount or price is zero.
    InvalidOrder,
    /// The trader has no balance record.
    UnknownTrader,
    /// A bid the trader cannot afford, or an ask the trader cannot cover.
    InsufficientBalance,
    /// The incoming order would cross a resting entry of its own trader.
    SelfTrade,
    /// Settling a fill would need a missing counterparty record or a
    /// balance outside the representable range.
    SettlementFailure,
}

/// The request shape the transport hands over; every field still a string.
#[derive(Clone, Debug)]
pub struct CreateOrderRequest {
    pub side: String,
    pub amount: String,
    pub price: String,
    pub trader_address: String,
}

} // verus!
