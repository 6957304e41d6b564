//! The deterministic content identity of an order. One canonical field
//! tuple — amount, price, side, trader — feeds the digest for both an
//! incoming order and its resting entry, so an order's identity does not
//! change the moment it rests in the book. The domain separator (name,
//! version) scopes identities to one deployment.

use vstd::prelude::*;

use sha3::Digest;

verus! {

use crate::types::{Address, EIP712DomainSeparator, Hash32, Order, OrderEntry, OrderSide};
use crate::numfmt::{dec_str, hex_str, push_dec, push_hex};
use vstd::utf8::encode_utf8;

/// What sha3's Keccak-256 returns for the given bytes; a function of the
/// input alone.
pub uninterp spec fn keccak256_of(data: Seq<u8>) -> Seq<u8>;

/// Relies on sha3's `Keccak256`: the digest has 32 bytes and depends on
/// the input bytes alone.
#[verifier::external_body]
fn keccak256(data: &[u8]) -> (r: Vec<u8>)
    ensures
        r@ == keccak256_of(data@),
        r@.len() == 32,
{
    sha3::Keccak256::digest(data).to_vec()
}

/// ASCII ':' — the field separator of every preimage.
pub open spec fn sep() -> u8 {
    58
}

/// The domain separator's preimage: `name ":" version`, UTF-8 encoded.
pub open spec fn domain_preimage(name: Seq<char>, version: Seq<char>) -> Seq<u8> {
    encode_utf8(name) + seq![sep()] + encode_utf8(version)
}

/// ASCII "Bid" or "Ask".
pub open spec fn side_bytes(side: OrderSide) -> Seq<u8> {
    match side {
        OrderSide::Bid => seq![66u8, 105u8, 100u8],
        OrderSide::Ask => seq![65u8, 115u8, 107u8],
    }
}

/// ASCII "0x" followed by the canonical lowercase hex of the bytes.
pub open spec fn hex_text(bytes: Seq<u8>) -> Seq<u8> {
    seq![48u8, 120u8] + hex_str(bytes)
}

/// The canonical serialization of the economic fields:
/// `amount ":" price ":" side ":" trader`.
pub open spec fn order_preimage(
    amount: u128,
    price: u128,
    side: OrderSide,
    trader: Seq<u8>,
) -> Seq<u8> {
    dec_str(amount as nat) + seq![sep()] + dec_str(price as nat) + seq![sep()] + side_bytes(side)
        + seq![sep()] + hex_text(trader)
}

/// The content identity: the two stage hashes concatenated and hashed
/// again.
pub open spec fn content_digest(
    amount: u128,
    price: u128,
    side: OrderSide,
    trader: Seq<u8>,
    name: Seq<char>,
    version: Seq<char>,
) -> Seq<u8> {
    keccak256_of(
        keccak256_of(domain_preimage(name, version)) + keccak256_of(
            order_preimage(amount, price, side, trader),
        ),
    )
}

/// Copies a 32-byte digest into a `Hash32`.
fn to_hash32(v: &Vec<u8>) -> (r: Hash32)
    requires
        v@.len() == 32,
    ensures
        r@ == v@,
{
    let mut bytes = [0u8; 32];
    let mut i: usize = 0;
    while i < 32
        invariant
            i <= 32,
            v@.len() == 32,
            forall|j: int| 0 <= j < i ==> bytes@[j] == v@[j],
        decreases 32 - i,
    {
        bytes[i] = v[i];
        i += 1;
    }
    assert(bytes@ =~= v@);
    Hash32 { bytes }
}

/// The first-stage hash of the domain separator.
pub fn domain_separator_hash(domain: &EIP712DomainSeparator) -> (r: Hash32)
    ensures
        r@ == keccak256_of(domain_preimage(domain.name@, domain.version@)),
{
    let mut data: Vec<u8> = Vec::new();
    data.extend_from_slice(domain.name.as_str().as_bytes());
    assert(data@ =~= encode_utf8(domain.name@));
    data.push(58);
    data.extend_from_slice(domain.version.as_str().as_bytes());
    assert(data@ =~= domain_preimage(domain.name@, domain.version@));
    let digest = keccak256(data.as_slice());
    to_hash32(&digest)
}

/// The first-stage hash of the economic fields.
fn order_fields_hash(amount: u128, price: u128, side: OrderSide, trader: &Address) -> (r: Hash32)
    ensures
        r@ == keccak256_of(order_preimage(amount, price, side, trader@)),
{
    let mut data: Vec<u8> = Vec::new();
    push_dec(amount, &mut data);
    data.push(58);
    push_dec(price, &mut data);
    data.push(58);
    match side {
        OrderSide::Bid => {
            data.push(66);
            data.push(105);
            data.push(100);
        },
        OrderSide::Ask => {
            data.push(65);
            data.push(115);
            data.push(107);
        },
    }
    data.push(58);
    data.push(48);
    data.push(120);
    push_hex(trader.bytes.as_slice(), &mut data);
    assert(data@ =~= order_preimage(amount, price, side, trader@));
    let digest = keccak256(data.as_slice());
    to_hash32(&digest)
}

/// The content identity of the given economic fields under the given
/// domain.
pub fn content_hash(
    amount: u128,
    price: u128,
    side: OrderSide,
    trader: &Address,
    domain: &EIP712DomainSeparator,
) -> (r: Hash32)
    ensures
        r@ == content_digest(amount, price, side, trader@, domain.name@, domain.version@),
{
    let domain_hash = domain_separator_hash(domain);
    let fields_hash = order_fields_hash(amount, price, side, trader);
    let mut combined: Vec<u8> = Vec::new();
    combined.extend_from_slice(domain_hash.bytes.as_slice());
    combined.extend_from_slice(fields_hash.bytes.as_slice());
    assert(combined@ =~= domain_hash@ + fields_hash@);
    let digest = keccak256(combined.as_slice());
    to_hash32(&digest)
}

impl Order {
    /// The order's content identity; the nonce takes no part, so the
    /// identity survives the order's conversion into a resting entry.
    pub fn eip712_hash(&self, domain: &EIP712DomainSeparator) -> (r: Hash32)
        ensures
            r@ == content_digest(
                self.amount,
                self.price,
                self.side,
                self.trader_address@,
                domain.name@,
                domain.version@,
            ),
    {
        content_hash(self.amount, self.price, self.side, &self.trader_address, domain)
    }
}

impl OrderEntry {
    /// The same canonical digest over the entry's fields; the side comes
    /// from which half of the book holds the entry.
    pub fn eip712_hash(&self, side: OrderSide, domain: &EIP712DomainSeparator) -> (r: Hash32)
        ensures
            r@ == content_digest(
                self.amount,
                self.price,
                side,
                self.trader_address@,
                domain.name@,
                domain.version@,
            ),
    {
        content_hash(self.amount, self.price, side, &self.trader_address, domain)
    }
}

/// An order and a resting entry that carry the same economic fields have
/// the same content identity under every domain: the identity is stable
/// across the order's lifecycle.
pub proof fn lemma_identity_stable(
    o: Order,
    e: OrderEntry,
    name: Seq<char>,
    version: Seq<char>,
)
    requires
        e.amount == o.amount,
        e.price == o.price,
        e.trader_address@ == o.trader_address@,
    ensures
        content_digest(e.amount, e.price, o.side, e.trader_address@, name, version)
            == content_digest(o.amount, o.price, o.side, o.trader_address@, name, version),
{
}

} // verus!
