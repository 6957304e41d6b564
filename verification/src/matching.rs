//! The matching engine. An incoming order is validated against the
//! ledger, rested on its own side, and crossed against the opposite side
//! in best-price-then-arrival order; each cross emits a fill at the
//! maker's resting price and settles both parties. The whole submit is
//! atomic: any rejection leaves book and ledger exactly as they were.

use vstd::prelude::*;

verus! {

use crate::types::{
    Account, Address, EIP712DomainSeparator, Fill, Hash32, L2OrderBook, Order, OrderEntry,
    OrderSide, RejectReason, lemma_hash32_unique,
};
use crate::book::{
    book_wf, find_entry, find_in_side, insert_entry, insertion_point, lemma_find_entry,
};
use crate::hashing::content_digest;
use crate::laws::lemma_submit_preserves_book;
use crate::ledger::{Ledger, find_account, settle_spec};

/// Does a resting entry at `resting_price` cross an incoming order at
/// `price` on `side`? A bid crosses asks priced at or below it; an ask
/// crosses bids priced at or above it.
pub open spec fn crosses(side: OrderSide, price: u128, resting_price: u128) -> bool {
    match side {
        OrderSide::Bid => resting_price <= price,
        OrderSide::Ask => resting_price >= price,
    }
}

/// One pass of the crossing loop, from position `i` of the opposite
/// side. Entries are visited in book order; a crossable entry of the
/// order's own trader aborts the pass, a settlement that cannot go
/// through aborts it too; otherwise the fill shrinks or removes the
/// resting entry and the scan goes on until the incoming amount is
/// spent or the side is exhausted.
pub open spec fn match_from(
    side: OrderSide,
    price: u128,
    trader: Seq<u8>,
    taker_hash: Hash32,
    i: int,
    remaining: u128,
    opp: Seq<OrderEntry>,
    led: Seq<Account>,
    fills: Seq<Fill>,
) -> Result<(Seq<Fill>, Seq<OrderEntry>, Seq<Account>, u128), RejectReason>
    decreases opp.len() - i,
{
    if i < 0 || i >= opp.len() || remaining == 0 {
        Ok((fills, opp, led, remaining))
    } else {
        let e = opp[i];
        if crosses(side, price, e.price) {
            if e.trader_address@ == trader {
                Err(RejectReason::SelfTrade)
            } else {
                let f = if remaining < e.amount {
                    remaining
                } else {
                    e.amount
                };
                let bidder = if side == OrderSide::Bid {
                    trader
                } else {
                    e.trader_address@
                };
                let asker = if side == OrderSide::Bid {
                    e.trader_address@
                } else {
                    trader
                };
                match settle_spec(led, bidder, asker, f, e.price) {
                    None => Err(RejectReason::SettlementFailure),
                    Some(led2) => {
                        let fill = Fill {
                            maker_hash: e.eip712_hash,
                            taker_hash: taker_hash,
                            fill_amount: f,
                            price: e.price,
                        };
                        let fills2 = fills.push(fill);
                        let rem2 = (remaining - f) as u128;
                        if f == e.amount {
                            match_from(
                                side,
                                price,
                                trader,
                                taker_hash,
                                i,
                                rem2,
                                opp.remove(i),
                                led2,
                                fills2,
                            )
                        } else {
                            match_from(
                                side,
                                price,
                                trader,
                                taker_hash,
                                i + 1,
                                rem2,
                                opp.update(
                                    i,
                                    OrderEntry {
                                        amount: (e.amount - f) as u128,
                                        price: e.price,
                                        trader_address: e.trader_address,
                                        eip712_hash: e.eip712_hash,
                                    },
                                ),
                                led2,
                                fills2,
                            )
                        }
                    },
                }
            }
        } else {
            match_from(side, price, trader, taker_hash, i + 1, remaining, opp, led, fills)
        }
    }
}

/// Post-match reconciliation of the order's own side: the first entry
/// carrying the taker's hash is set to the remaining amount, or removed
/// when the order filled in full.
pub open spec fn reconcile_same(
    same: Seq<OrderEntry>,
    taker_hash: Hash32,
    remaining: u128,
) -> Seq<OrderEntry> {
    match find_entry(same, taker_hash@) {
        Some(i) => if remaining > 0 {
            same.update(
                i,
                OrderEntry {
                    amount: remaining,
                    price: same[i].price,
                    trader_address: same[i].trader_address,
                    eip712_hash: same[i].eip712_hash,
                },
            )
        } else {
            same.remove(i)
        },
        None => same,
    }
}

/// What a whole matching pass does to the book and the ledger: the
/// opposite side is crossed from the best price, then the order's own
/// side is reconciled with what remains. The result carries the fills
/// and the new asks, bids and accounts, in that order.
pub open spec fn match_order_spec(
    order: Order,
    taker_hash: Hash32,
    asks: Seq<OrderEntry>,
    bids: Seq<OrderEntry>,
    led: Seq<Account>,
) -> Result<(Seq<Fill>, Seq<OrderEntry>, Seq<OrderEntry>, Seq<Account>), RejectReason> {
    let opp = if order.side == OrderSide::Bid {
        asks
    } else {
        bids
    };
    let same = if order.side == OrderSide::Bid {
        bids
    } else {
        asks
    };
    match match_from(
        order.side,
        order.price,
        order.trader_address@,
        taker_hash,
        0,
        order.amount,
        opp,
        led,
        Seq::<Fill>::empty(),
    ) {
        Err(e) => Err(e),
        Ok((fills, opp2, led2, rem)) => {
            let same2 = reconcile_same(same, taker_hash, rem);
            if order.side == OrderSide::Bid {
                Ok((fills, opp2, same2, led2))
            } else {
                Ok((fills, same2, opp2, led2))
            }
        },
    }
}

/// The full submit: validation, insertion on the order's own side, then
/// the matching pass. Each rejection is tied to exactly the inputs that
/// produce it.
pub open spec fn submit_spec(
    order: Order,
    taker_hash: Hash32,
    asks: Seq<OrderEntry>,
    bids: Seq<OrderEntry>,
    led: Seq<Account>,
) -> Result<(Seq<Fill>, Seq<OrderEntry>, Seq<OrderEntry>, Seq<Account>), RejectReason> {
    if order.amount == 0 || order.price == 0 {
        Err(RejectReason::InvalidOrder)
    } else {
        match find_account(led, order.trader_address@) {
            None => Err(RejectReason::UnknownTrader),
            Some(ai) => {
                let acct = led[ai];
                let affordable = if order.side == OrderSide::Bid {
                    acct.usd_balance >= order.amount * order.price
                } else {
                    acct.ddx_balance >= order.amount
                };
                if !affordable {
                    Err(RejectReason::InsufficientBalance)
                } else {
                    let entry = OrderEntry {
                        amount: order.amount,
                        price: order.price,
                        trader_address: order.trader_address,
                        eip712_hash: taker_hash,
                    };
                    let asks1 = if order.side == OrderSide::Ask {
                        asks.insert(insertion_point(OrderSide::Ask, asks, order.price), entry)
                    } else {
                        asks
                    };
                    let bids1 = if order.side == OrderSide::Bid {
                        bids.insert(insertion_point(OrderSide::Bid, bids, order.price), entry)
                    } else {
                        bids
                    };
                    match_order_spec(order, taker_hash, asks1, bids1, led)
                }
            },
        }
    }
}

/// Copies a vector of plain values.
fn copy_vec<T: Copy>(v: &Vec<T>) -> (r: Vec<T>)
    ensures
        r@ == v@,
{
    let len = v.len();
    let mut out: Vec<T> = Vec::new();
    let mut i: usize = 0;
    while i < len
        invariant
            0 <= i <= len,
            len == v@.len(),
            out@ == v@.take(i as int),
        decreases len - i,
    {
        out.push(v[i]);
        proof {
            assert(v@.take(i as int + 1) =~= v@.take(i as int).push(v@[i as int]));
        }
        i += 1;
    }
    proof {
        assert(v@.take(len as int) =~= v@);
    }
    out
}

/// Validation of the economic fields alone: a zero amount or price is
/// malformed. (Both sides of the enum are legal sides.)
pub fn validate_order(order: &Order) -> (r: Result<(), RejectReason>)
    ensures
        r == (if order.amount == 0 || order.price == 0 {
            Err::<(), RejectReason>(RejectReason::InvalidOrder)
        } else {
            Ok::<(), RejectReason>(())
        }),
{
    if order.amount == 0 || order.price == 0 {
        Err(RejectReason::InvalidOrder)
    } else {
        Ok(())
    }
}

/// Runs the crossing loop over a scratch opposite side and ledger,
/// mirroring `match_from` exactly.
fn run_matching(
    side: OrderSide,
    price: u128,
    trader: &Address,
    taker_hash: Hash32,
    amount: u128,
    opp: &mut Vec<OrderEntry>,
    led: &mut Ledger,
) -> (r: Result<(Vec<Fill>, u128), RejectReason>)
    ensures
        match r {
            Ok(p) => match_from(
                side,
                price,
                trader@,
                taker_hash,
                0,
                amount,
                old(opp)@,
                old(led).accounts@,
                Seq::<Fill>::empty(),
            ) == Ok::<_, RejectReason>((p.0@, final(opp)@, final(led).accounts@, p.1)),
            Err(e) => match_from(
                side,
                price,
                trader@,
                taker_hash,
                0,
                amount,
                old(opp)@,
                old(led).accounts@,
                Seq::<Fill>::empty(),
            ) == Err::<(Seq<Fill>, Seq<OrderEntry>, Seq<Account>, u128), RejectReason>(e),
        },
{
    let ghost init = match_from(
        side,
        price,
        trader@,
        taker_hash,
        0,
        amount,
        opp@,
        led.accounts@,
        Seq::<Fill>::empty(),
    );
    let mut fills: Vec<Fill> = Vec::new();
    let mut remaining = amount;
    let mut i: usize = 0;
    while i < opp.len() && remaining > 0
        invariant
            0 <= i <= opp@.len(),
            init == match_from(
                side,
                price,
                trader@,
                taker_hash,
                0,
                amount,
                old(opp)@,
                old(led).accounts@,
                Seq::<Fill>::empty(),
            ),
            match_from(
                side,
                price,
                trader@,
                taker_hash,
                i as int,
                remaining,
                opp@,
                led.accounts@,
                fills@,
            ) == init,
        decreases opp@.len() - i,
    {
        let ghost pre_i = i as int;
        let ghost pre_rem = remaining;
        let ghost pre_opp = opp@;
        let ghost pre_led = led.accounts@;
        let ghost pre_fills = fills@;
        let e = opp[i];
        let does_cross = match side {
            OrderSide::Bid => e.price <= price,
            OrderSide::Ask => e.price >= price,
        };
        assert(does_cross == crosses(side, price, e.price));
        if does_cross {
            if e.trader_address.same_as(trader) {
                proof {
                    assert(match_from(
                        side,
                        price,
                        trader@,
                        taker_hash,
                        pre_i,
                        pre_rem,
                        pre_opp,
                        pre_led,
                        pre_fills,
                    ) == Err::<(Seq<Fill>, Seq<OrderEntry>, Seq<Account>, u128), RejectReason>(
                        RejectReason::SelfTrade,
                    ));
                }
                return Err(RejectReason::SelfTrade);
            }
            let f = if remaining < e.amount {
                remaining
            } else {
                e.amount
            };
            let ok = if matches!(side, OrderSide::Bid) {
                led.settle_fill(trader, &e.trader_address, f, e.price)
            } else {
                led.settle_fill(&e.trader_address, trader, f, e.price)
            };
            let ghost bidder: Seq<u8> = if side == OrderSide::Bid {
                trader@
            } else {
                e.trader_address@
            };
            let ghost asker: Seq<u8> = if side == OrderSide::Bid {
                e.trader_address@
            } else {
                trader@
            };
            if !ok {
                proof {
                    assert(settle_spec(pre_led, bidder, asker, f, e.price) is None);
                    assert(match_from(
                        side,
                        price,
                        trader@,
                        taker_hash,
                        pre_i,
                        pre_rem,
                        pre_opp,
                        pre_led,
                        pre_fills,
                    ) == Err::<(Seq<Fill>, Seq<OrderEntry>, Seq<Account>, u128), RejectReason>(
                        RejectReason::SettlementFailure,
                    ));
                }
                return Err(RejectReason::SettlementFailure);
            }
            fills.push(
                Fill { maker_hash: e.eip712_hash, taker_hash: taker_hash, fill_amount: f, price:
                    e.price },
            );
            remaining = remaining - f;
            if f == e.amount {
                opp.remove(i);
            } else {
                opp.set(
                    i,
                    OrderEntry {
                        amount: e.amount - f,
                        price: e.price,
                        trader_address: e.trader_address,
                        eip712_hash: e.eip712_hash,
                    },
                );
                i = i + 1;
            }
            proof {
                assert(led.accounts@ == settle_spec(pre_led, bidder, asker, f, e.price).unwrap());
                assert(match_from(
                    side,
                    price,
                    trader@,
                    taker_hash,
                    pre_i,
                    pre_rem,
                    pre_opp,
                    pre_led,
                    pre_fills,
                ) == match_from(
                    side,
                    price,
                    trader@,
                    taker_hash,
                    i as int,
                    remaining,
                    opp@,
                    led.accounts@,
                    fills@,
                ));
            }
        } else {
            i = i + 1;
            proof {
                assert(match_from(
                    side,
                    price,
                    trader@,
                    taker_hash,
                    pre_i,
                    pre_rem,
                    pre_opp,
                    pre_led,
                    pre_fills,
                ) == match_from(
                    side,
                    price,
                    trader@,
                    taker_hash,
                    i as int,
                    remaining,
                    opp@,
                    led.accounts@,
                    fills@,
                ));
            }
        }
    }
    proof {
        assert(match_from(
            side,
            price,
            trader@,
            taker_hash,
            i as int,
            remaining,
            opp@,
            led.accounts@,
            fills@,
        ) == Ok::<_, RejectReason>((fills@, opp@, led.accounts@, remaining)));
    }
    Ok((fills, remaining))
}

/// The matching pass over a book on which the incoming order already
/// rests. Atomic: on any rejection the book and the ledger come out
/// exactly as they went in; on success the opposite side, the order's
/// own side and the accounts are exactly what `match_order_spec` says.
pub fn match_order(
    order: &Order,
    order_book: &mut L2OrderBook,
    domain: &EIP712DomainSeparator,
    ledger: &mut Ledger,
) -> (r: Result<Vec<Fill>, RejectReason>)
    ensures
        forall|th: Hash32|
            th@ == content_digest(
                order.amount,
                order.price,
                order.side,
                order.trader_address@,
                domain.name@,
                domain.version@,
            ) ==> #[trigger] match_order_spec(
                *order,
                th,
                old(order_book).asks@,
                old(order_book).bids@,
                old(ledger).accounts@,
            ) == (match r {
                Ok(fills) => Ok::<_, RejectReason>(
                    (fills@, final(order_book).asks@, final(order_book).bids@, final(ledger).accounts@),
                ),
                Err(e) => Err::<
                    (Seq<Fill>, Seq<OrderEntry>, Seq<OrderEntry>, Seq<Account>),
                    RejectReason,
                >(e),
            }),
        r is Err ==> final(order_book).asks@ == old(order_book).asks@ && final(order_book).bids@ == old(order_book).bids@ && final(ledger).accounts@ == old(ledger).accounts@,
{
    let taker_hash = order.eip712_hash(domain);
    let mut opp = match order.side {
        OrderSide::Bid => copy_vec(&order_book.asks),
        OrderSide::Ask => copy_vec(&order_book.bids),
    };
    let mut scratch = Ledger { accounts: copy_vec(&ledger.accounts) };
    match run_matching(
        order.side,
        order.price,
        &order.trader_address,
        taker_hash,
        order.amount,
        &mut opp,
        &mut scratch,
    ) {
        Err(e) => {
            proof {
                assert forall|th: Hash32| #![trigger th@]
                    th@ == content_digest(
                        order.amount,
                        order.price,
                        order.side,
                        order.trader_address@,
                        domain.name@,
                        domain.version@,
                    ) implies th == taker_hash by {
                    lemma_hash32_unique(th, taker_hash);
                }
            }
            Err(e)
        },
        Ok((fills, remaining)) => {
            match order.side {
                OrderSide::Bid => {
                    order_book.asks = opp;
                },
                OrderSide::Ask => {
                    order_book.bids = opp;
                },
            }
            ledger.accounts = scratch.accounts;
            match order.side {
                OrderSide::Bid => reconcile(&mut order_book.bids, &taker_hash, remaining),
                OrderSide::Ask => reconcile(&mut order_book.asks, &taker_hash, remaining),
            }
            proof {
                assert forall|th: Hash32| #![trigger th@]
                    th@ == content_digest(
                        order.amount,
                        order.price,
                        order.side,
                        order.trader_address@,
                        domain.name@,
                        domain.version@,
                    ) implies th == taker_hash by {
                    lemma_hash32_unique(th, taker_hash);
                }
            }
            Ok(fills)
        },
    }
}

/// Applies `reconcile_same` to one side in place.
fn reconcile(entries: &mut Vec<OrderEntry>, th: &Hash32, remaining: u128)
    ensures
        final(entries)@ == reconcile_same(old(entries)@, *th, remaining),
{
    proof {
        lemma_find_entry(entries@, th@);
    }
    match find_in_side(entries, th) {
        None => {},
        Some(i) => {
            if remaining > 0 {
                let e = entries[i];
                entries.set(
                    i,
                    OrderEntry {
                        amount: remaining,
                        price: e.price,
                        trader_address: e.trader_address,
                        eip712_hash: e.eip712_hash,
                    },
                );
            } else {
                entries.remove(i);
            }
        },
    }
}

/// The public submit operation: validates the order, checks that the
/// trader's balance backs it, rests it on its own side, and runs the
/// matching pass. On success the book and the ledger hold exactly what
/// `submit_spec` says; on any rejection both come out unchanged, and
/// the reason says exactly why.
pub fn add_order_to_book(
    order: &Order,
    order_book: &mut L2OrderBook,
    domain: &EIP712DomainSeparator,
    ledger: &mut Ledger,
) -> (r: Result<Vec<Fill>, RejectReason>)
    ensures
        forall|th: Hash32|
            th@ == content_digest(
                order.amount,
                order.price,
                order.side,
                order.trader_address@,
                domain.name@,
                domain.version@,
            ) ==> #[trigger] submit_spec(
                *order,
                th,
                old(order_book).asks@,
                old(order_book).bids@,
                old(ledger).accounts@,
            ) == (match r {
                Ok(fills) => Ok::<_, RejectReason>(
                    (fills@, final(order_book).asks@, final(order_book).bids@, final(ledger).accounts@),
                ),
                Err(e) => Err::<
                    (Seq<Fill>, Seq<OrderEntry>, Seq<OrderEntry>, Seq<Account>),
                    RejectReason,
                >(e),
            }),
        r is Err ==> final(order_book).asks@ == old(order_book).asks@ && final(order_book).bids@ == old(order_book).bids@ && final(ledger).accounts@ == old(ledger).accounts@,
        book_wf(*old(order_book)) ==> book_wf(*final(order_book)),
{
    if order.amount == 0 || order.price == 0 {
        return Err(RejectReason::InvalidOrder);
    }
    let acct = match ledger.get(&order.trader_address) {
        None => {
            return Err(RejectReason::UnknownTrader);
        },
        Some(a) => a,
    };
    let affordable = match order.side {
        OrderSide::Bid => match order.amount.checked_mul(order.price) {
            None => false,
            Some(cost) => acct.usd_balance >= cost,
        },
        OrderSide::Ask => acct.ddx_balance >= order.amount,
    };
    if !affordable {
        proof {
            if order.side == OrderSide::Bid && order.amount * order.price > u128::MAX {
                assert(acct.usd_balance < order.amount * order.price);
            }
        }
        return Err(RejectReason::InsufficientBalance);
    }
    let taker_hash = order.eip712_hash(domain);
    let entry = OrderEntry {
        amount: order.amount,
        price: order.price,
        trader_address: order.trader_address,
        eip712_hash: taker_hash,
    };
    let mut staged = L2OrderBook {
        asks: copy_vec(&order_book.asks),
        bids: copy_vec(&order_book.bids),
    };
    match order.side {
        OrderSide::Bid => {
            insert_entry(&mut staged.bids, entry, OrderSide::Bid);
        },
        OrderSide::Ask => {
            insert_entry(&mut staged.asks, entry, OrderSide::Ask);
        },
    }
    let mut staged_led = Ledger { accounts: copy_vec(&ledger.accounts) };
    let result = match_order(order, &mut staged, domain, &mut staged_led);
    proof {
        assert forall|th: Hash32| #![trigger th@]
            th@ == content_digest(
                order.amount,
                order.price,
                order.side,
                order.trader_address@,
                domain.name@,
                domain.version@,
            ) implies th == taker_hash by {
            lemma_hash32_unique(th, taker_hash);
        }
    }
    match result {
        Err(e) => Err(e),
        Ok(fills) => {
            order_book.asks = staged.asks;
            order_book.bids = staged.bids;
            ledger.accounts = staged_led.accounts;
            proof {
                if book_wf(*old(order_book)) {
                    lemma_submit_preserves_book(
                        *order,
                        taker_hash,
                        old(order_book).asks@,
                        old(order_book).bids@,
                        old(ledger).accounts@,
                    );
                }
            }
            Ok(fills)
        },
    }
}

} // verus!
