//! Turning a transport request — every field still a string — into an
//! order the engine can take: the side name case-insensitively, the
//! amount and price as canonical decimal strings, the trader address as
//! `0x` plus forty lowercase hex digits.

use vstd::prelude::*;

verus! {

use crate::types::{Address, CreateOrderRequest, Hash32, Order, OrderSide};
use crate::numfmt::{dec_str, hex_str, parse_dec, parse_hex};
use vstd::string::StringSliceAdditionalSpecFns;
use vstd::utf8::encode_utf8;

/// ASCII upper-case letters folded to lower case; all else unchanged.
pub open spec fn ascii_lower(b: u8) -> u8 {
    if 65 <= b <= 90 {
        (b + 32) as u8
    } else {
        b
    }
}

/// Which side a request's side string names: `bid` or `ask` in any
/// letter case, nothing else.
pub open spec fn side_of_bytes(bs: Seq<u8>) -> Option<OrderSide> {
    if bs.len() == 3 && ascii_lower(bs[0]) == 98 && ascii_lower(bs[1]) == 105 && ascii_lower(
        bs[2],
    ) == 100 {
        Some(OrderSide::Bid)
    } else if bs.len() == 3 && ascii_lower(bs[0]) == 97 && ascii_lower(bs[1]) == 115
        && ascii_lower(bs[2]) == 107 {
        Some(OrderSide::Ask)
    } else {
        None
    }
}

/// Folds one byte to lower case.
fn lower_byte(b: u8) -> (r: u8)
    ensures
        r == ascii_lower(b),
{
    if 65 <= b && b <= 90 {
        b + 32
    } else {
        b
    }
}

impl OrderSide {
    /// Reads a side name, in any letter case.
    pub fn from_str(s: &str) -> (r: Option<OrderSide>)
        ensures
            r == side_of_bytes(s.spec_bytes()),
    {
        let b = s.as_bytes();
        if b.len() != 3 {
            return None;
        }
        let c0 = lower_byte(b[0]);
        let c1 = lower_byte(b[1]);
        let c2 = lower_byte(b[2]);
        if c0 == 98 && c1 == 105 && c2 == 100 {
            Some(OrderSide::Bid)
        } else if c0 == 97 && c1 == 115 && c2 == 107 {
            Some(OrderSide::Ask)
        } else {
            None
        }
    }

    /// The side's display name.
    pub fn name(&self) -> (r: &'static str)
        ensures
            *self == OrderSide::Bid ==> r@ == "Bid"@,
            *self == OrderSide::Ask ==> r@ == "Ask"@,
    {
        match self {
            OrderSide::Bid => "Bid",
            OrderSide::Ask => "Ask",
        }
    }
}

/// The canonical address string: `0x` and then the bytes in lowercase
/// hex.
pub open spec fn addr_text(bytes: Seq<u8>) -> Seq<u8> {
    seq![48u8, 120] + hex_str(bytes)
}

/// Reads a canonical address string.
pub fn parse_address(s: &str) -> (r: Option<Address>)
    ensures
        match r {
            Some(a) => s.spec_bytes() == addr_text(a@),
            None => forall|bs: Seq<u8>| bs.len() == 20 ==> s.spec_bytes() != addr_text(bs),
        },
{
    let b = s.as_bytes();
    if b.len() != 42 || b[0] != 48 || b[1] != 120 {
        proof {
            assert forall|bs: Seq<u8>| bs.len() == 20 implies s.spec_bytes() != addr_text(bs)
                by {
                crate::numfmt::lemma_hex_str_len(bs);
                if s.spec_bytes() == addr_text(bs) {
                    assert(s.spec_bytes()[0] == 48 && s.spec_bytes()[1] == 120);
                }
            }
        }
        return None;
    }
    match parse_hex(b, 2, 20) {
        Some(v) => {
            let mut bytes = [0u8; 20];
            let mut i: usize = 0;
            while i < 20
                invariant
                    i <= 20,
                    v@.len() == 20,
                    forall|j: int| 0 <= j < i ==> bytes@[j] == v@[j],
                decreases 20 - i,
            {
                bytes[i] = v[i];
                i += 1;
            }
            assert(bytes@ =~= v@);
            let a = Address { bytes };
            proof {
                assert(b@.subrange(2, 42) == hex_str(a@));
                assert(b@ =~= addr_text(a@));
            }
            Some(a)
        },
        None => {
            proof {
                assert forall|bs: Seq<u8>| bs.len() == 20 implies s.spec_bytes() != addr_text(
                    bs,
                ) by {
                    crate::numfmt::lemma_hex_str_len(bs);
                    if s.spec_bytes() == addr_text(bs) {
                        assert forall|k: int| 0 <= k < 40 implies b@.subrange(2, 42)[k]
                            == hex_str(bs)[k] by {
                            assert(b@[2 + k] == addr_text(bs)[2 + k]);
                        }
                        assert(b@.subrange(2, 42) =~= hex_str(bs));
                    }
                }
            }
            None
        },
    }
}

/// Turns a request into an order, or nothing when any field is not in
/// canonical form: an unknown side name, a non-canonical or
/// out-of-range number, a malformed address. The nonce starts at zero.
pub fn parse_create_order_request(req: &CreateOrderRequest) -> (r: Option<Order>)
    ensures
        match r {
            Some(o) => side_of_bytes(encode_utf8(req.side@)) == Some(o.side) && encode_utf8(
                req.amount@,
            ) == dec_str(o.amount as nat) && encode_utf8(req.price@) == dec_str(o.price as nat)
                && encode_utf8(req.trader_address@) == addr_text(o.trader_address@) && o.nonce@
                == Seq::<u8>::new(32, |i| 0u8),
            None => side_of_bytes(encode_utf8(req.side@)) is None || (forall|n: u128|
                encode_utf8(req.amount@) != dec_str(n as nat)) || (forall|n: u128|
                encode_utf8(req.price@) != dec_str(n as nat)) || (forall|bs: Seq<u8>|
                bs.len() == 20 ==> encode_utf8(req.trader_address@) != addr_text(bs)),
        },
{
    let side = match OrderSide::from_str(req.side.as_str()) {
        Some(side) => side,
        None => {
            return None;
        },
    };
    let amount = match parse_dec(req.amount.as_str().as_bytes()) {
        Some(n) => n,
        None => {
            return None;
        },
    };
    let price = match parse_dec(req.price.as_str().as_bytes()) {
        Some(n) => n,
        None => {
            return None;
        },
    };
    let trader_address = match parse_address(req.trader_address.as_str()) {
        Some(a) => a,
        None => {
            return None;
        },
    };
    Some(Order { amount, nonce: Hash32::zero(), price, side, trader_address })
}

} // verus!
