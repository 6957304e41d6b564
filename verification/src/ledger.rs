//! The balance ledger the matching engine settles against: one record
//! per trader, a quote-asset balance (`usd_balance`) and a base-asset
//! balance (`ddx_balance`), both non-negative by type. A fill moves
//! value between the two counterparties and never creates or destroys
//! any.

use vstd::prelude::*;

verus! {

use crate::types::{Account, Address};

/// The balance records, looked up by trader address; the first record
/// for an address is the one that counts.
#[derive(Clone, Debug)]
pub struct Ledger {
    pub accounts: Vec<Account>,
}

/// The first record for `addr`.
pub open spec fn find_account(led: Seq<Account>, addr: Seq<u8>) -> Option<int>
    decreases led.len(),
{
    if led.len() == 0 {
        None
    } else if led[0].trader_address@ == addr {
        Some(0int)
    } else {
        match find_account(led.drop_first(), addr) {
            Some(i) => Some(i + 1),
            None => None,
        }
    }
}

/// What `find_account` means pointwise.
pub proof fn lemma_find_account(led: Seq<Account>, addr: Seq<u8>)
    ensures
        match find_account(led, addr) {
            Some(i) => 0 <= i < led.len() && led[i].trader_address@ == addr && forall|j: int|
                0 <= j < i ==> (#[trigger] led[j]).trader_address@ != addr,
            None => forall|j: int|
                0 <= j < led.len() ==> (#[trigger] led[j]).trader_address@ != addr,
        },
    decreases led.len(),
{
    if led.len() > 0 && led[0].trader_address@ != addr {
        let t = led.drop_first();
        lemma_find_account(t, addr);
        assert(forall|j: int| 0 <= j < t.len() ==> t[j] == #[trigger] led[j + 1]);
        match find_account(t, addr) {
            Some(i) => {
                assert(led[i + 1] == t[i]);
                assert forall|j: int| 0 <= j < i + 1 implies (#[trigger] led[j]).trader_address@
                    != addr by {
                    if j > 0 {
                        assert(led[j] == t[j - 1]);
                    }
                }
            },
            None => {
                assert forall|j: int|
                    0 <= j < led.len() implies (#[trigger] led[j]).trader_address@ != addr by {
                    if j > 0 {
                        assert(led[j] == t[j - 1]);
                    }
                }
            },
        }
    }
}

/// The converse: the pointwise description pins `find_account` down.
pub proof fn lemma_find_account_at(led: Seq<Account>, addr: Seq<u8>, i: int)
    requires
        0 <= i < led.len(),
        led[i].trader_address@ == addr,
        forall|j: int| 0 <= j < i ==> (#[trigger] led[j]).trader_address@ != addr,
    ensures
        find_account(led, addr) == Some(i),
{
    lemma_find_account(led, addr);
    match find_account(led, addr) {
        Some(k) => {
            if k < i {
                assert(led[k].trader_address@ != addr);
            }
            if k > i {
                assert(led[i].trader_address@ != addr);
            }
        },
        None => {
            assert(led[i].trader_address@ != addr);
        },
    }
}

/// Settling one fill of `amount` at `price` between the two parties:
/// the bidder pays `amount * price` quote and receives `amount` base,
/// the asker the mirror image. `None` when the trade cannot settle: a
/// missing record, the two parties are one trader, a balance that would
/// go negative, or one that would leave the representable range.
pub open spec fn settle_spec(
    led: Seq<Account>,
    bidder: Seq<u8>,
    asker: Seq<u8>,
    amount: u128,
    price: u128,
) -> Option<Seq<Account>> {
    let cost = amount * price;
    match (find_account(led, bidder), find_account(led, asker)) {
        (Some(bi), Some(ai)) => if bi == ai {
            None
        } else if cost > u128::MAX {
            None
        } else if led[bi].usd_balance < cost || led[ai].ddx_balance < amount {
            None
        } else if led[bi].ddx_balance + amount > u128::MAX || led[ai].usd_balance + cost
            > u128::MAX {
            None
        } else {
            Some(
                led.update(
                    bi,
                    Account {
                        trader_address: led[bi].trader_address,
                        ddx_balance: (led[bi].ddx_balance + amount) as u128,
                        usd_balance: (led[bi].usd_balance - cost) as u128,
                    },
                ).update(
                    ai,
                    Account {
                        trader_address: led[ai].trader_address,
                        ddx_balance: (led[ai].ddx_balance - amount) as u128,
                        usd_balance: (led[ai].usd_balance + cost) as u128,
                    },
                ),
            )
        },
        _ => None,
    }
}

/// Settlement conserves value: across the two parties, the quote total
/// and the base total both stay exactly what they were; only the split
/// between the parties moves.
pub proof fn lemma_settlement_conserves(
    led: Seq<Account>,
    bidder: Seq<u8>,
    asker: Seq<u8>,
    amount: u128,
    price: u128,
)
    requires
        settle_spec(led, bidder, asker, amount, price) is Some,
    ensures
        ({
            let led2 = settle_spec(led, bidder, asker, amount, price).unwrap();
            let bi = find_account(led, bidder).unwrap();
            let ai = find_account(led, asker).unwrap();
            &&& led2[bi].usd_balance + led2[ai].usd_balance == led[bi].usd_balance
                + led[ai].usd_balance
            &&& led2[bi].ddx_balance + led2[ai].ddx_balance == led[bi].ddx_balance
                + led[ai].ddx_balance
            &&& led2.len() == led.len()
            &&& forall|k: int|
                0 <= k < led.len() && k != bi && k != ai ==> led2[k] == #[trigger] led[k]
        }),
{
    lemma_find_account(led, bidder);
    lemma_find_account(led, asker);
}

impl Ledger {
    /// An empty ledger.
    pub fn new() -> (r: Ledger)
        ensures
            r.accounts@ == Seq::<Account>::empty(),
    {
        Ledger { accounts: Vec::new() }
    }

    /// The first record for `addr`, if any: the Balance Oracle's read.
    pub fn get(&self, addr: &Address) -> (r: Option<Account>)
        ensures
            r == (match find_account(self.accounts@, addr@) {
                Some(i) => Some(self.accounts@[i]),
                None => None::<Account>,
            }),
    {
        proof {
            lemma_find_account(self.accounts@, addr@);
        }
        let len = self.accounts.len();
        let mut i: usize = 0;
        while i < len
            invariant
                0 <= i <= len,
                len == self.accounts@.len(),
                forall|j: int|
                    0 <= j < i ==> (#[trigger] self.accounts@[j]).trader_address@ != addr@,
            decreases len - i,
        {
            if self.accounts[i].trader_address.same_as(addr) {
                proof {
                    lemma_find_account_at(self.accounts@, addr@, i as int);
                }
                return Some(self.accounts[i]);
            }
            i += 1;
        }
        proof {
            if let Some(k) = find_account(self.accounts@, addr@) {
                assert(self.accounts@[k].trader_address@ != addr@);
            }
        }
        None
    }

    /// Adds a record; the Balance Oracle's account creation. Refused
    /// when the address already has one.
    pub fn add_account(&mut self, account: Account) -> (ok: bool)
        ensures
            ok == (find_account(old(self).accounts@, account.trader_address@) is None),
            ok ==> final(self).accounts@ == old(self).accounts@.push(account),
            !ok ==> final(self).accounts@ == old(self).accounts@,
    {
        proof {
            lemma_find_account(self.accounts@, account.trader_address@);
        }
        match self.get(&account.trader_address) {
            Some(_) => false,
            None => {
                self.accounts.push(account);
                true
            },
        }
    }

    /// Finds the index of the first record for `addr`.
    fn index_of(&self, addr: &Address) -> (r: Option<usize>)
        ensures
            r == (match find_account(self.accounts@, addr@) {
                Some(i) => Some(i as usize),
                None => None::<usize>,
            }),
            r is Some ==> find_account(self.accounts@, addr@) == Some(r.unwrap() as int),
    {
        proof {
            lemma_find_account(self.accounts@, addr@);
        }
        let len = self.accounts.len();
        let mut i: usize = 0;
        while i < len
            invariant
                0 <= i <= len,
                len == self.accounts@.len(),
                forall|j: int|
                    0 <= j < i ==> (#[trigger] self.accounts@[j]).trader_address@ != addr@,
            decreases len - i,
        {
            if self.accounts[i].trader_address.same_as(addr) {
                proof {
                    lemma_find_account_at(self.accounts@, addr@, i as int);
                }
                return Some(i);
            }
            i += 1;
        }
        proof {
            if let Some(k) = find_account(self.accounts@, addr@) {
                assert(self.accounts@[k].trader_address@ != addr@);
            }
        }
        None
    }

    /// Settles one fill between the bidder and the asker, exactly as
    /// `settle_spec` says; `false` — with nothing changed — exactly when
    /// the settlement cannot go through.
    pub fn settle_fill(
        &mut self,
        bidder: &Address,
        asker: &Address,
        amount: u128,
        price: u128,
    ) -> (ok: bool)
        ensures
            ok == (settle_spec(old(self).accounts@, bidder@, asker@, amount, price) is Some),
            ok ==> final(self).accounts@ == settle_spec(
                old(self).accounts@,
                bidder@,
                asker@,
                amount,
                price,
            ).unwrap(),
            !ok ==> final(self).accounts@ == old(self).accounts@,
    {
        let bi_opt = self.index_of(bidder);
        let ai_opt = self.index_of(asker);
        let (bi, ai) = match (bi_opt, ai_opt) {
            (Some(bi), Some(ai)) => (bi, ai),
            _ => {
                return false;
            },
        };
        if bi == ai {
            return false;
        }
        proof {
            lemma_find_account(self.accounts@, bidder@);
            lemma_find_account(self.accounts@, asker@);
        }
        let cost = match amount.checked_mul(price) {
            Some(c) => c,
            None => {
                proof {
                    assert(amount * price > u128::MAX);
                }
                return false;
            },
        };
        let b_acct = self.accounts[bi];
        let a_acct = self.accounts[ai];
        if b_acct.usd_balance < cost || a_acct.ddx_balance < amount {
            return false;
        }
        if b_acct.ddx_balance > u128::MAX - amount || a_acct.usd_balance > u128::MAX - cost {
            return false;
        }
        let new_b = Account {
            trader_address: b_acct.trader_address,
            ddx_balance: b_acct.ddx_balance + amount,
            usd_balance: b_acct.usd_balance - cost,
        };
        let new_a = Account {
            trader_address: a_acct.trader_address,
            ddx_balance: a_acct.ddx_balance - amount,
            usd_balance: a_acct.usd_balance + cost,
        };
        self.accounts.set(bi, new_b);
        self.accounts.set(ai, new_a);
        proof {
            assert(self.accounts@ =~= settle_spec(
                old(self).accounts@,
                bidder@,
                asker@,
                amount,
                price,
            ).unwrap());
        }
        true
    }
}

} // verus!
