//! The engine's guarantees, stated over the same spec functions the
//! executable contracts use: price-time priority, conservation of value,
//! non-negative balances, self-trade rejection, and preservation of the
//! book invariant.

use vstd::prelude::*;

verus! {

use crate::types::{Account, Fill, Hash32, Order, OrderEntry, OrderSide, RejectReason,
    opposite_of};
use crate::book::{
    all_positive, better_or_equal, find_entry, insertion_point, lemma_find_entry,
    lemma_insert_sorted, lemma_insertion_point, side_sorted,
};
use crate::ledger::{find_account, lemma_find_account, settle_spec};
use crate::matching::{crosses, match_from, reconcile_same, submit_spec};

/// The sum of all quote balances on the ledger.
pub open spec fn total_usd(led: Seq<Account>) -> int
    decreases led.len(),
{
    if led.len() == 0 {
        0
    } else {
        total_usd(led.drop_last()) + led.last().usd_balance
    }
}

/// The sum of all base balances on the ledger.
pub open spec fn total_ddx(led: Seq<Account>) -> int
    decreases led.len(),
{
    if led.len() == 0 {
        0
    } else {
        total_ddx(led.drop_last()) + led.last().ddx_balance
    }
}

/// Changing one record moves the totals by exactly the change in that
/// record.
proof fn lemma_total_update(led: Seq<Account>, i: int, a: Account)
    requires
        0 <= i < led.len(),
    ensures
        total_usd(led.update(i, a)) == total_usd(led) - led[i].usd_balance + a.usd_balance,
        total_ddx(led.update(i, a)) == total_ddx(led) - led[i].ddx_balance + a.ddx_balance,
    decreases led.len(),
{
    let u = led.update(i, a);
    if i == led.len() - 1 {
        assert(u.drop_last() =~= led.drop_last());
        assert(u.last() == a);
    } else {
        assert(u.drop_last() =~= led.drop_last().update(i, a));
        assert(u.last() == led.last());
        lemma_total_update(led.drop_last(), i, a);
        assert(led.drop_last()[i] == led[i]);
    }
}

/// Conservation at one settlement: across the whole ledger, the quote
/// total and the base total are unchanged — a fill transfers value, it
/// never creates or destroys any.
pub proof fn lemma_settle_conserves_totals(
    led: Seq<Account>,
    bidder: Seq<u8>,
    asker: Seq<u8>,
    amount: u128,
    price: u128,
)
    requires
        settle_spec(led, bidder, asker, amount, price) is Some,
    ensures
        total_usd(settle_spec(led, bidder, asker, amount, price).unwrap()) == total_usd(led),
        total_ddx(settle_spec(led, bidder, asker, amount, price).unwrap()) == total_ddx(led),
{
    lemma_find_account(led, bidder);
    lemma_find_account(led, asker);
    let bi = find_account(led, bidder).unwrap();
    let ai = find_account(led, asker).unwrap();
    let cost = amount * price;
    let b2 = Account {
        trader_address: led[bi].trader_address,
        ddx_balance: (led[bi].ddx_balance + amount) as u128,
        usd_balance: (led[bi].usd_balance - cost) as u128,
    };
    let a2 = Account {
        trader_address: led[ai].trader_address,
        ddx_balance: (led[ai].ddx_balance - amount) as u128,
        usd_balance: (led[ai].usd_balance + cost) as u128,
    };
    let led1 = led.update(bi, b2);
    lemma_total_update(led, bi, b2);
    lemma_total_update(led1, ai, a2);
    assert(led1[ai] == led[ai]);
}

/// Conservation over a whole matching pass: however many fills it
/// produced, the ledger's quote total and base total come out exactly
/// what they were.
pub proof fn lemma_match_conserves_totals(
    side: OrderSide,
    price: u128,
    trader: Seq<u8>,
    taker_hash: Hash32,
    i: int,
    remaining: u128,
    opp: Seq<OrderEntry>,
    led: Seq<Account>,
    fills: Seq<Fill>,
)
    requires
        match_from(side, price, trader, taker_hash, i, remaining, opp, led, fills) is Ok,
    ensures
        ({
            let (_, _, led2, _) = match_from(
                side,
                price,
                trader,
                taker_hash,
                i,
                remaining,
                opp,
                led,
                fills,
            ).unwrap();
            total_usd(led2) == total_usd(led) && total_ddx(led2) == total_ddx(led)
        }),
    decreases opp.len() - i,
{
    if !(i < 0 || i >= opp.len() || remaining == 0) {
        let e = opp[i];
        if crosses(side, price, e.price) && e.trader_address@ != trader {
            let f = if remaining < e.amount {
                remaining
            } else {
                e.amount
            };
            let bidder = if side == OrderSide::Bid {
                trader
            } else {
                e.trader_address@
            };
            let asker = if side == OrderSide::Bid {
                e.trader_address@
            } else {
                trader
            };
            let led2 = settle_spec(led, bidder, asker, f, e.price).unwrap();
            lemma_settle_conserves_totals(led, bidder, asker, f, e.price);
            let fill = Fill {
                maker_hash: e.eip712_hash,
                taker_hash: taker_hash,
                fill_amount: f,
                price: e.price,
            };
            let fills2 = fills.push(fill);
            let rem2 = (remaining - f) as u128;
            if f == e.amount {
                lemma_match_conserves_totals(
                    side,
                    price,
                    trader,
                    taker_hash,
                    i,
                    rem2,
                    opp.remove(i),
                    led2,
                    fills2,
                );
            } else {
                lemma_match_conserves_totals(
                    side,
                    price,
                    trader,
                    taker_hash,
                    i + 1,
                    rem2,
                    opp.update(
                        i,
                        OrderEntry {
                            amount: (e.amount - f) as u128,
                            price: e.price,
                            trader_address: e.trader_address,
                            eip712_hash: e.eip712_hash,
                        },
                    ),
                    led2,
                    fills2,
                );
            }
        } else if crosses(side, price, e.price) {
        } else {
            lemma_match_conserves_totals(
                side,
                price,
                trader,
                taker_hash,
                i + 1,
                remaining,
                opp,
                led,
                fills,
            );
        }
    }
}

/// Every balance a successful settlement leaves behind is non-negative,
/// and the two debited balances were at least the debit beforehand.
pub proof fn lemma_settlement_no_negative_balances(
    led: Seq<Account>,
    bidder: Seq<u8>,
    asker: Seq<u8>,
    amount: u128,
    price: u128,
)
    requires
        settle_spec(led, bidder, asker, amount, price) is Some,
    ensures
        ({
            let led2 = settle_spec(led, bidder, asker, amount, price).unwrap();
            forall|k: int|
                0 <= k < led2.len() ==> (#[trigger] led2[k]).usd_balance >= 0 && led2[
                    k
                ].ddx_balance >= 0
        }),
        led[find_account(led, bidder).unwrap()].usd_balance >= amount * price,
        led[find_account(led, asker).unwrap()].ddx_balance >= amount,
{
    lemma_find_account(led, bidder);
    lemma_find_account(led, asker);
}

/// The fills a matching pass returns extend the fills it was given: a
/// pass appends, it never reorders or drops.
pub proof fn lemma_match_fills_prefix(
    side: OrderSide,
    price: u128,
    trader: Seq<u8>,
    taker_hash: Hash32,
    i: int,
    remaining: u128,
    opp: Seq<OrderEntry>,
    led: Seq<Account>,
    fills: Seq<Fill>,
)
    requires
        match_from(side, price, trader, taker_hash, i, remaining, opp, led, fills) is Ok,
    ensures
        ({
            let (fills2, _, _, _) = match_from(
                side,
                price,
                trader,
                taker_hash,
                i,
                remaining,
                opp,
                led,
                fills,
            ).unwrap();
            fills2.len() >= fills.len() && forall|m: int|
                0 <= m < fills.len() ==> fills2[m] == #[trigger] fills[m]
        }),
    decreases opp.len() - i,
{
    if !(i < 0 || i >= opp.len() || remaining == 0) {
        let e = opp[i];
        if crosses(side, price, e.price) && e.trader_address@ != trader {
            let f = if remaining < e.amount {
                remaining
            } else {
                e.amount
            };
            let bidder = if side == OrderSide::Bid {
                trader
            } else {
                e.trader_address@
            };
            let asker = if side == OrderSide::Bid {
                e.trader_address@
            } else {
                trader
            };
            let led2 = settle_spec(led, bidder, asker, f, e.price).unwrap();
            let fill = Fill {
                maker_hash: e.eip712_hash,
                taker_hash: taker_hash,
                fill_amount: f,
                price: e.price,
            };
            let fills2 = fills.push(fill);
            let rem2 = (remaining - f) as u128;
            let i2 = if f == e.amount {
                i
            } else {
                i + 1
            };
            let opp2 = if f == e.amount {
                opp.remove(i)
            } else {
                opp.update(
                    i,
                    OrderEntry {
                        amount: (e.amount - f) as u128,
                        price: e.price,
                        trader_address: e.trader_address,
                        eip712_hash: e.eip712_hash,
                    },
                )
            };
            assert(match_from(side, price, trader, taker_hash, i, remaining, opp, led, fills)
                == match_from(side, price, trader, taker_hash, i2, rem2, opp2, led2, fills2));
            lemma_match_fills_prefix(side, price, trader, taker_hash, i2, rem2, opp2, led2, fills2);
            let (rf, _, _, _) = match_from(
                side,
                price,
                trader,
                taker_hash,
                i2,
                rem2,
                opp2,
                led2,
                fills2,
            ).unwrap();
            assert forall|m: int| 0 <= m < fills.len() implies rf[m] == #[trigger] fills[m] by {
                assert(rf[m] == fills2[m]);
                assert(fills2[m] == fills[m]);
            }
        } else if !crosses(side, price, e.price) {
            lemma_match_fills_prefix(
                side,
                price,
                trader,
                taker_hash,
                i + 1,
                remaining,
                opp,
                led,
                fills,
            );
        }
    }
}

/// Price-time priority, first half: the first crossable resting entry
/// is the first one filled, for the smaller of what either party has
/// open, at the maker's price.
pub proof fn lemma_best_price_fills_first(
    side: OrderSide,
    price: u128,
    trader: Seq<u8>,
    taker_hash: Hash32,
    remaining: u128,
    opp: Seq<OrderEntry>,
    led: Seq<Account>,
    k: int,
)
    requires
        0 <= k < opp.len(),
        crosses(side, price, opp[k].price),
        forall|j: int| 0 <= j < k ==> !crosses(side, price, (#[trigger] opp[j]).price),
        remaining > 0,
        match_from(
            side,
            price,
            trader,
            taker_hash,
            0,
            remaining,
            opp,
            led,
            Seq::<Fill>::empty(),
        ) is Ok,
    ensures
        ({
            let (fills, _, _, _) = match_from(
                side,
                price,
                trader,
                taker_hash,
                0,
                remaining,
                opp,
                led,
                Seq::<Fill>::empty(),
            ).unwrap();
            fills.len() >= 1 && fills[0] == (Fill {
                maker_hash: opp[k].eip712_hash,
                taker_hash: taker_hash,
                fill_amount: if remaining < opp[k].amount {
                    remaining
                } else {
                    opp[k].amount
                },
                price: opp[k].price,
            })
        }),
{
    lemma_skip_non_crossing(side, price, trader, taker_hash, 0, remaining, opp, led, k);
    let e = opp[k];
    assert(e.trader_address@ != trader) by {
        if e.trader_address@ == trader {
            assert(match_from(
                side,
                price,
                trader,
                taker_hash,
                k,
                remaining,
                opp,
                led,
                Seq::<Fill>::empty(),
            ) is Err);
        }
    }
    let f = if remaining < e.amount {
        remaining
    } else {
        e.amount
    };
    let bidder = if side == OrderSide::Bid {
        trader
    } else {
        e.trader_address@
    };
    let asker = if side == OrderSide::Bid {
        e.trader_address@
    } else {
        trader
    };
    assert(settle_spec(led, bidder, asker, f, e.price) is Some) by {
        if settle_spec(led, bidder, asker, f, e.price) is None {
            assert(match_from(
                side,
                price,
                trader,
                taker_hash,
                k,
                remaining,
                opp,
                led,
                Seq::<Fill>::empty(),
            ) is Err);
        }
    }
    let led2 = settle_spec(led, bidder, asker, f, e.price).unwrap();
    let fill = Fill { maker_hash: e.eip712_hash, taker_hash: taker_hash, fill_amount: f, price:
        e.price };
    let fills1 = Seq::<Fill>::empty().push(fill);
    let rem2 = (remaining - f) as u128;
    assert(fills1[0] == fill);
    if f == e.amount {
        lemma_match_fills_prefix(
            side,
            price,
            trader,
            taker_hash,
            k,
            rem2,
            opp.remove(k),
            led2,
            fills1,
        );
    } else {
        lemma_match_fills_prefix(
            side,
            price,
            trader,
            taker_hash,
            k + 1,
            rem2,
            opp.update(
                k,
                OrderEntry {
                    amount: (e.amount - f) as u128,
                    price: e.price,
                    trader_address: e.trader_address,
                    eip712_hash: e.eip712_hash,
                },
            ),
            led2,
            fills1,
        );
    }
}

/// Entries that do not cross are passed over without any effect.
proof fn lemma_skip_non_crossing(
    side: OrderSide,
    price: u128,
    trader: Seq<u8>,
    taker_hash: Hash32,
    i: int,
    remaining: u128,
    opp: Seq<OrderEntry>,
    led: Seq<Account>,
    k: int,
)
    requires
        0 <= i <= k < opp.len(),
        forall|j: int| i <= j < k ==> !crosses(side, price, (#[trigger] opp[j]).price),
        remaining > 0,
    ensures
        match_from(side, price, trader, taker_hash, i, remaining, opp, led, Seq::<Fill>::empty())
            == match_from(
            side,
            price,
            trader,
            taker_hash,
            k,
            remaining,
            opp,
            led,
            Seq::<Fill>::empty(),
        ),
    decreases k - i,
{
    if i < k {
        lemma_skip_non_crossing(side, price, trader, taker_hash, i + 1, remaining, opp, led, k);
    }
}

/// Self-trade rejection: when the first crossable entry on the opposite
/// side belongs to the incoming order's own trader, the whole matching
/// pass is refused.
pub proof fn lemma_self_trade_rejected(
    side: OrderSide,
    price: u128,
    trader: Seq<u8>,
    taker_hash: Hash32,
    remaining: u128,
    opp: Seq<OrderEntry>,
    led: Seq<Account>,
    k: int,
)
    requires
        0 <= k < opp.len(),
        crosses(side, price, opp[k].price),
        opp[k].trader_address@ == trader,
        forall|j: int| 0 <= j < k ==> !crosses(side, price, (#[trigger] opp[j]).price),
        remaining > 0,
    ensures
        match_from(side, price, trader, taker_hash, 0, remaining, opp, led, Seq::<Fill>::empty())
            == Err::<(Seq<Fill>, Seq<OrderEntry>, Seq<Account>, u128), RejectReason>(
            RejectReason::SelfTrade,
        ),
{
    lemma_skip_non_crossing(side, price, trader, taker_hash, 0, remaining, opp, led, k);
}

/// A matching pass keeps the opposite side price-ordered with positive
/// amounts: entries only shrink without reaching zero, or leave.
pub proof fn lemma_match_preserves_book(
    side: OrderSide,
    price: u128,
    trader: Seq<u8>,
    taker_hash: Hash32,
    i: int,
    remaining: u128,
    opp: Seq<OrderEntry>,
    led: Seq<Account>,
    fills: Seq<Fill>,
)
    requires
        side_sorted(opposite_of(side), opp),
        all_positive(opp),
        match_from(side, price, trader, taker_hash, i, remaining, opp, led, fills) is Ok,
    ensures
        ({
            let (_, opp2, _, _) = match_from(
                side,
                price,
                trader,
                taker_hash,
                i,
                remaining,
                opp,
                led,
                fills,
            ).unwrap();
            side_sorted(opposite_of(side), opp2) && all_positive(opp2)
        }),
    decreases opp.len() - i,
{
    let os = opposite_of(side);
    if !(i < 0 || i >= opp.len() || remaining == 0) {
        let e = opp[i];
        if crosses(side, price, e.price) && e.trader_address@ != trader {
            let f = if remaining < e.amount {
                remaining
            } else {
                e.amount
            };
            let bidder = if side == OrderSide::Bid {
                trader
            } else {
                e.trader_address@
            };
            let asker = if side == OrderSide::Bid {
                e.trader_address@
            } else {
                trader
            };
            let led2 = settle_spec(led, bidder, asker, f, e.price).unwrap();
            let fill = Fill {
                maker_hash: e.eip712_hash,
                taker_hash: taker_hash,
                fill_amount: f,
                price: e.price,
            };
            let fills2 = fills.push(fill);
            let rem2 = (remaining - f) as u128;
            if f == e.amount {
                let opp2 = opp.remove(i);
                assert(side_sorted(os, opp2)) by {
                    assert forall|a: int, b: int|
                        0 <= a < b < opp2.len() implies better_or_equal(
                        os,
                        opp2[a].price,
                        opp2[b].price,
                    ) by {
                        let a0 = if a < i {
                            a
                        } else {
                            a + 1
                        };
                        let b0 = if b < i {
                            b
                        } else {
                            b + 1
                        };
                        assert(opp2[a] == opp[a0] && opp2[b] == opp[b0]);
                    }
                }
                assert(all_positive(opp2)) by {
                    assert forall|a: int| 0 <= a < opp2.len() implies (#[trigger] opp2[a]).amount
                        > 0 by {
                        let a0 = if a < i {
                            a
                        } else {
                            a + 1
                        };
                        assert(opp2[a] == opp[a0]);
                    }
                }
                lemma_match_preserves_book(
                    side,
                    price,
                    trader,
                    taker_hash,
                    i,
                    rem2,
                    opp2,
                    led2,
                    fills2,
                );
            } else {
                let e2 = OrderEntry {
                    amount: (e.amount - f) as u128,
                    price: e.price,
                    trader_address: e.trader_address,
                    eip712_hash: e.eip712_hash,
                };
                let opp2 = opp.update(i, e2);
                assert(side_sorted(os, opp2)) by {
                    assert forall|a: int, b: int|
                        0 <= a < b < opp2.len() implies better_or_equal(
                        os,
                        opp2[a].price,
                        opp2[b].price,
                    ) by {
                        assert(opp2[a].price == opp[a].price && opp2[b].price == opp[b].price);
                    }
                }
                assert(all_positive(opp2)) by {
                    assert forall|a: int| 0 <= a < opp2.len() implies (#[trigger] opp2[a]).amount
                        > 0 by {
                        if a != i {
                            assert(opp2[a] == opp[a]);
                        }
                    }
                }
                lemma_match_preserves_book(
                    side,
                    price,
                    trader,
                    taker_hash,
                    i + 1,
                    rem2,
                    opp2,
                    led2,
                    fills2,
                );
            }
        } else if !crosses(side, price, e.price) {
            lemma_match_preserves_book(
                side,
                price,
                trader,
                taker_hash,
                i + 1,
                remaining,
                opp,
                led,
                fills,
            );
        }
    }
}

/// Reconciling the order's own side keeps it price-ordered with
/// positive amounts, as long as what remains is positive only when kept.
pub proof fn lemma_reconcile_preserves_book(
    side: OrderSide,
    same: Seq<OrderEntry>,
    taker_hash: Hash32,
    remaining: u128,
)
    requires
        side_sorted(side, same),
        all_positive(same),
    ensures
        side_sorted(side, reconcile_same(same, taker_hash, remaining)),
        remaining > 0 ==> all_positive(reconcile_same(same, taker_hash, remaining)),
        remaining == 0 ==> all_positive(reconcile_same(same, taker_hash, remaining)),
{
    lemma_find_entry(same, taker_hash@);
    match find_entry(same, taker_hash@) {
        None => {},
        Some(i) => {
            if remaining > 0 {
                let e2 = OrderEntry {
                    amount: remaining,
                    price: same[i].price,
                    trader_address: same[i].trader_address,
                    eip712_hash: same[i].eip712_hash,
                };
                let s2 = same.update(i, e2);
                assert forall|a: int, b: int|
                    0 <= a < b < s2.len() implies better_or_equal(side, s2[a].price, s2[b].price)
                    by {
                    assert(s2[a].price == same[a].price && s2[b].price == same[b].price);
                }
                assert forall|a: int| 0 <= a < s2.len() implies (#[trigger] s2[a]).amount > 0 by {
                    if a != i {
                        assert(s2[a] == same[a]);
                    }
                }
            } else {
                let s2 = same.remove(i);
                assert forall|a: int, b: int|
                    0 <= a < b < s2.len() implies better_or_equal(side, s2[a].price, s2[b].price)
                    by {
                    let a0 = if a < i {
                        a
                    } else {
                        a + 1
                    };
                    let b0 = if b < i {
                        b
                    } else {
                        b + 1
                    };
                    assert(s2[a] == same[a0] && s2[b] == same[b0]);
                }
                assert forall|a: int| 0 <= a < s2.len() implies (#[trigger] s2[a]).amount > 0 by {
                    let a0 = if a < i {
                        a
                    } else {
                        a + 1
                    };
                    assert(s2[a] == same[a0]);
                }
            }
        },
    }
}

/// The book invariant survives a whole submit: whatever the outcome,
/// both sides of what `submit_spec` returns are price-ordered with
/// positive amounts.
pub proof fn lemma_submit_preserves_book(
    order: Order,
    taker_hash: Hash32,
    asks: Seq<OrderEntry>,
    bids: Seq<OrderEntry>,
    led: Seq<Account>,
)
    requires
        side_sorted(OrderSide::Ask, asks),
        side_sorted(OrderSide::Bid, bids),
        all_positive(asks),
        all_positive(bids),
        submit_spec(order, taker_hash, asks, bids, led) is Ok,
    ensures
        ({
            let (_, asks2, bids2, _) = submit_spec(order, taker_hash, asks, bids, led).unwrap();
            side_sorted(OrderSide::Ask, asks2) && side_sorted(OrderSide::Bid, bids2)
                && all_positive(asks2) && all_positive(bids2)
        }),
{
    let entry = OrderEntry {
        amount: order.amount,
        price: order.price,
        trader_address: order.trader_address,
        eip712_hash: taker_hash,
    };
    let same0 = if order.side == OrderSide::Bid {
        bids
    } else {
        asks
    };
    let opp0 = if order.side == OrderSide::Bid {
        asks
    } else {
        bids
    };
    let own_side = order.side;
    let p = insertion_point(own_side, same0, order.price);
    lemma_insertion_point(own_side, same0, order.price);
    let same1 = same0.insert(p, entry);
    lemma_insert_sorted(own_side, same0, entry, p);
    assert(all_positive(same1)) by {
        assert forall|a: int| 0 <= a < same1.len() implies (#[trigger] same1[a]).amount > 0 by {
            if a < p {
                assert(same1[a] == same0[a]);
            } else if a > p {
                assert(same1[a] == same0[a - 1]);
            } else {
                assert(same1[a] == entry);
            }
        }
    }
    let mf = match_from(
        order.side,
        order.price,
        order.trader_address@,
        taker_hash,
        0,
        order.amount,
        opp0,
        led,
        Seq::<Fill>::empty(),
    );
    lemma_match_preserves_book(
        order.side,
        order.price,
        order.trader_address@,
        taker_hash,
        0,
        order.amount,
        opp0,
        led,
        Seq::<Fill>::empty(),
    );
    let (_, opp2, _, rem) = mf.unwrap();
    lemma_reconcile_preserves_book(own_side, same1, taker_hash, rem);
}


/// Price-time priority, second half, with the taker's limit: every fill
/// of one pass is priced within the incoming order's limit, and the
/// fills come out in book order — each later fill at a price no better
/// than any earlier one.
pub proof fn lemma_fills_ordered_and_within_limit(
    side: OrderSide,
    price: u128,
    trader: Seq<u8>,
    taker_hash: Hash32,
    i: int,
    remaining: u128,
    opp: Seq<OrderEntry>,
    led: Seq<Account>,
    fills: Seq<Fill>,
)
    requires
        side_sorted(opposite_of(side), opp),
        match_from(side, price, trader, taker_hash, i, remaining, opp, led, fills) is Ok,
    ensures
        ({
            let (rf, _, _, _) = match_from(
                side,
                price,
                trader,
                taker_hash,
                i,
                remaining,
                opp,
                led,
                fills,
            ).unwrap();
            &&& forall|a: int|
                fills.len() <= a < rf.len() ==> crosses(side, price, (#[trigger] rf[a]).price)
            &&& forall|a: int, b: int|
                fills.len() <= a < b < rf.len() ==> better_or_equal(
                    opposite_of(side),
                    rf[a].price,
                    rf[b].price,
                )
            &&& forall|a: int|
                fills.len() <= a < rf.len() && 0 <= i < opp.len() ==> better_or_equal(
                    opposite_of(side),
                    opp[i].price,
                    (#[trigger] rf[a]).price,
                )
        }),
    decreases opp.len() - i,
{
    let os = opposite_of(side);
    if !(i < 0 || i >= opp.len() || remaining == 0) {
        let e = opp[i];
        if crosses(side, price, e.price) && e.trader_address@ != trader {
            let f = if remaining < e.amount {
                remaining
            } else {
                e.amount
            };
            let bidder = if side == OrderSide::Bid {
                trader
            } else {
                e.trader_address@
            };
            let asker = if side == OrderSide::Bid {
                e.trader_address@
            } else {
                trader
            };
            let led2 = settle_spec(led, bidder, asker, f, e.price).unwrap();
            let fill = Fill {
                maker_hash: e.eip712_hash,
                taker_hash: taker_hash,
                fill_amount: f,
                price: e.price,
            };
            let fills2 = fills.push(fill);
            let rem2 = (remaining - f) as u128;
            let i2 = if f == e.amount {
                i
            } else {
                i + 1
            };
            let opp2 = if f == e.amount {
                opp.remove(i)
            } else {
                opp.update(
                    i,
                    OrderEntry {
                        amount: (e.amount - f) as u128,
                        price: e.price,
                        trader_address: e.trader_address,
                        eip712_hash: e.eip712_hash,
                    },
                )
            };
            assert(side_sorted(os, opp2)) by {
                assert forall|a: int, b: int|
                    0 <= a < b < opp2.len() implies better_or_equal(
                    os,
                    opp2[a].price,
                    opp2[b].price,
                ) by {
                    if f == e.amount {
                        let a0 = if a < i {
                            a
                        } else {
                            a + 1
                        };
                        let b0 = if b < i {
                            b
                        } else {
                            b + 1
                        };
                        assert(opp2[a] == opp[a0] && opp2[b] == opp[b0]);
                    } else {
                        assert(opp2[a].price == opp[a].price && opp2[b].price == opp[b].price);
                    }
                }
            }
            assert(match_from(side, price, trader, taker_hash, i, remaining, opp, led, fills)
                == match_from(side, price, trader, taker_hash, i2, rem2, opp2, led2, fills2));
            lemma_fills_ordered_and_within_limit(
                side,
                price,
                trader,
                taker_hash,
                i2,
                rem2,
                opp2,
                led2,
                fills2,
            );
            lemma_match_fills_prefix(side, price, trader, taker_hash, i2, rem2, opp2, led2, fills2);
            let (rf, _, _, _) = match_from(
                side,
                price,
                trader,
                taker_hash,
                i2,
                rem2,
                opp2,
                led2,
                fills2,
            ).unwrap();
            assert(rf.len() >= fills2.len() && rf[fills.len() as int] == fills2[fills.len() as int]);
            assert(rf[fills.len() as int] == fill);
            if i2 >= opp2.len() || rem2 == 0 {
                assert(rf == fills2);
            }
            assert forall|a: int|
                fills.len() <= a < rf.len() && 0 <= i < opp.len() implies better_or_equal(
                os,
                opp[i].price,
                (#[trigger] rf[a]).price,
            ) by {
                if a > fills.len() && 0 <= i2 < opp2.len() {
                    assert(better_or_equal(os, opp2[i2].price, rf[a].price));
                    if f == e.amount {
                        assert(opp2[i2] == opp[i2 + 1]);
                        assert(better_or_equal(os, opp[i].price, opp[i2 + 1].price));
                    } else {
                        assert(opp2[i2].price == opp[i2].price);
                        assert(better_or_equal(os, opp[i].price, opp[i2].price));
                    }
                }
            }
            assert forall|a: int, b: int|
                fills.len() <= a < b < rf.len() implies better_or_equal(
                os,
                rf[a].price,
                rf[b].price,
            ) by {
                if a == fills.len() {
                    assert(rf[a] == fill);
                    if 0 <= i2 < opp2.len() {
                        assert(better_or_equal(os, opp2[i2].price, rf[b].price));
                        if f == e.amount {
                            assert(opp2[i2] == opp[i2 + 1]);
                        } else {
                            assert(opp2[i2].price == opp[i2].price);
                        }
                    }
                }
            }
        } else if !crosses(side, price, e.price) {
            assert(match_from(side, price, trader, taker_hash, i, remaining, opp, led, fills)
                == match_from(side, price, trader, taker_hash, i + 1, remaining, opp, led, fills));
            lemma_fills_ordered_and_within_limit(
                side,
                price,
                trader,
                taker_hash,
                i + 1,
                remaining,
                opp,
                led,
                fills,
            );
            let (rf, _, _, _) = match_from(
                side,
                price,
                trader,
                taker_hash,
                i + 1,
                remaining,
                opp,
                led,
                fills,
            ).unwrap();
            assert forall|a: int|
                fills.len() <= a < rf.len() && 0 <= i < opp.len() implies better_or_equal(
                os,
                opp[i].price,
                (#[trigger] rf[a]).price,
            ) by {
                if i + 1 < opp.len() {
                    assert(better_or_equal(os, opp[i + 1].price, rf[a].price));
                    assert(better_or_equal(os, opp[i].price, opp[i + 1].price));
                }
            }
        }
    }
}

} // verus!
