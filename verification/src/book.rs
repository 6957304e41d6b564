//! The resting book: two price-ordered sides, and the store operations
//! the core needs on them — ordered insertion, point lookup and removal
//! by content hash, and the top-of-book slice.

use vstd::prelude::*;

verus! {

use crate::types::{Hash32, L2OrderBook, OrderEntry, OrderSide};

/// `p1` is at least as good as `p2` from the viewpoint of a resting
/// order on `side`: higher for bids, lower for asks.
pub open spec fn better_or_equal(side: OrderSide, p1: u128, p2: u128) -> bool {
    match side {
        OrderSide::Bid => p1 >= p2,
        OrderSide::Ask => p1 <= p2,
    }
}

/// One side of the book in price order, best first; ties keep arrival
/// order.
pub open spec fn side_sorted(side: OrderSide, s: Seq<OrderEntry>) -> bool {
    forall|i: int, j: int|
        0 <= i < j < s.len() ==> better_or_equal(side, s[i].price, s[j].price)
}

/// Every resting entry still has something left to trade.
pub open spec fn all_positive(s: Seq<OrderEntry>) -> bool {
    forall|i: int| 0 <= i < s.len() ==> (#[trigger] s[i]).amount > 0
}

/// The book invariant: both sides price-ordered best first, no entry
/// with a spent amount.
pub open spec fn book_wf(b: L2OrderBook) -> bool {
    &&& side_sorted(OrderSide::Bid, b.bids@)
    &&& side_sorted(OrderSide::Ask, b.asks@)
    &&& all_positive(b.bids@)
    &&& all_positive(b.asks@)
}

impl L2OrderBook {
    /// The empty book; what the store starts from when nothing was
    /// persisted yet.
    pub fn new() -> (r: L2OrderBook)
        ensures
            r.bids@ == Seq::<OrderEntry>::empty(),
            r.asks@ == Seq::<OrderEntry>::empty(),
            book_wf(r),
    {
        L2OrderBook { bids: Vec::new(), asks: Vec::new() }
    }
}

/// Where a new entry at `price` goes on `side`: after every resting
/// entry at least as good, before the first strictly worse one.
pub open spec fn insertion_point(side: OrderSide, s: Seq<OrderEntry>, price: u128) -> int
    decreases s.len(),
{
    if s.len() == 0 {
        0
    } else if !better_or_equal(side, s[0].price, price) {
        0
    } else {
        1 + insertion_point(side, s.drop_first(), price)
    }
}

/// `insertion_point` is the position its pointwise description names,
/// and the only one.
pub proof fn lemma_insertion_point(side: OrderSide, s: Seq<OrderEntry>, price: u128)
    ensures
        is_insertion_point(side, s, price, insertion_point(side, s, price)),
    decreases s.len(),
{
    if s.len() > 0 && better_or_equal(side, s[0].price, price) {
        let t = s.drop_first();
        lemma_insertion_point(side, t, price);
        assert(forall|j: int| 0 <= j < t.len() ==> t[j] == #[trigger] s[j + 1]);
        let p = insertion_point(side, t, price);
        assert forall|i: int| 0 <= i < p + 1 implies better_or_equal(
            side,
            s[i].price,
            price,
        ) by {
            if i > 0 {
                assert(s[i] == t[i - 1]);
            }
        }
    }
}

/// Any two positions fitting the pointwise description coincide.
pub proof fn lemma_insertion_point_unique(
    side: OrderSide,
    s: Seq<OrderEntry>,
    price: u128,
    p: int,
)
    requires
        is_insertion_point(side, s, price, p),
    ensures
        p == insertion_point(side, s, price),
{
    lemma_insertion_point(side, s, price);
    let q = insertion_point(side, s, price);
    if p < q {
        assert(better_or_equal(side, s[p].price, price));
    }
    if q < p {
        assert(better_or_equal(side, s[q].price, price));
    }
}

/// `p` is where a new entry at `price` goes on `side`: after every
/// resting entry at least as good, before the first strictly worse one.
pub open spec fn is_insertion_point(
    side: OrderSide,
    s: Seq<OrderEntry>,
    price: u128,
    p: int,
) -> bool {
    &&& 0 <= p <= s.len()
    &&& forall|i: int| 0 <= i < p ==> better_or_equal(side, s[i].price, price)
    &&& (p < s.len() ==> !better_or_equal(side, s[p].price, price))
}

/// Inserting at the insertion point keeps the side price-ordered.
pub proof fn lemma_insert_sorted(side: OrderSide, s: Seq<OrderEntry>, e: OrderEntry, p: int)
    requires
        side_sorted(side, s),
        is_insertion_point(side, s, e.price, p),
    ensures
        side_sorted(side, s.insert(p, e)),
{
    let t = s.insert(p, e);
    assert forall|i: int, j: int|
        0 <= i < j < t.len() implies better_or_equal(side, t[i].price, t[j].price) by {
        if i < p && j > p {
            assert(t[i] == s[i] && t[j] == s[j - 1]);
            if p < s.len() {
                assert(better_or_equal(side, s[i].price, e.price));
            }
            if j - 1 >= p {
                if i < j - 1 {
                    assert(better_or_equal(side, s[i].price, s[j - 1].price));
                }
            }
        } else if i == p {
            assert(t[i] == e && t[j] == s[j - 1]);
            if p < s.len() {
                assert(!better_or_equal(side, s[p].price, e.price));
                if j - 1 > p {
                    assert(better_or_equal(side, s[p].price, s[j - 1].price));
                }
            }
        } else if j == p {
            assert(t[i] == s[i] && t[j] == e);
        } else if j < p {
            assert(t[i] == s[i] && t[j] == s[j]);
        } else {
            assert(t[i] == s[i - 1] && t[j] == s[j - 1]);
        }
    }
}

/// Finds the insertion point for a new entry at `price` on `side`.
fn insertion_pos(entries: &Vec<OrderEntry>, price: u128, side: OrderSide) -> (p: usize)
    ensures
        is_insertion_point(side, entries@, price, p as int),
{
    let len = entries.len();
    let mut p: usize = 0;
    while p < len
        invariant
            0 <= p <= len,
            len == entries@.len(),
            forall|i: int| 0 <= i < p ==> better_or_equal(side, entries@[i].price, price),
        decreases len - p,
    {
        let worse = match side {
            OrderSide::Bid => entries[p].price < price,
            OrderSide::Ask => entries[p].price > price,
        };
        if worse {
            return p;
        }
        p += 1;
    }
    p
}

/// Inserts `entry` into its side at the position that preserves price
/// order, behind every entry at an equally good price: time priority.
/// Returns the position used.
pub fn insert_entry(entries: &mut Vec<OrderEntry>, entry: OrderEntry, side: OrderSide) -> (p:
    usize)
    ensures
        is_insertion_point(side, old(entries)@, entry.price, p as int),
        p as int == insertion_point(side, old(entries)@, entry.price),
        final(entries)@ == old(entries)@.insert(p as int, entry),
{
    let p = insertion_pos(entries, entry.price, side);
    proof {
        lemma_insertion_point_unique(side, entries@, entry.price, p as int);
    }
    entries.insert(p, entry);
    p
}

/// The first entry carrying hash `h`, scanning from the front.
pub open spec fn find_entry(s: Seq<OrderEntry>, h: Seq<u8>) -> Option<int>
    decreases s.len(),
{
    if s.len() == 0 {
        None
    } else if s[0].eip712_hash@ == h {
        Some(0int)
    } else {
        match find_entry(s.drop_first(), h) {
            Some(i) => Some(i + 1),
            None => None,
        }
    }
}

/// What `find_entry` means pointwise: `None` exactly when no entry
/// carries the hash; `Some(i)` exactly at the first carrier.
pub proof fn lemma_find_entry(s: Seq<OrderEntry>, h: Seq<u8>)
    ensures
        match find_entry(s, h) {
            Some(i) => 0 <= i < s.len() && s[i].eip712_hash@ == h && forall|j: int|
                0 <= j < i ==> (#[trigger] s[j]).eip712_hash@ != h,
            None => forall|j: int| 0 <= j < s.len() ==> (#[trigger] s[j]).eip712_hash@ != h,
        },
    decreases s.len(),
{
    if s.len() > 0 && s[0].eip712_hash@ != h {
        lemma_find_entry(s.drop_first(), h);
        let t = s.drop_first();
        assert(forall|j: int| 0 <= j < t.len() ==> t[j] == #[trigger] s[j + 1]);
        match find_entry(t, h) {
            Some(i) => {
                assert(s[i + 1] == t[i]);
                assert forall|j: int| 0 <= j < i + 1 implies (#[trigger] s[j]).eip712_hash@ != h
                    by {
                    if j > 0 {
                        assert(s[j] == t[j - 1]);
                    }
                }
            },
            None => {
                assert forall|j: int| 0 <= j < s.len() implies (#[trigger] s[j]).eip712_hash@
                    != h by {
                    if j > 0 {
                        assert(s[j] == t[j - 1]);
                    }
                }
            },
        }
    }
}

/// The converse: the pointwise description pins `find_entry` down.
pub proof fn lemma_find_entry_at(s: Seq<OrderEntry>, h: Seq<u8>, i: int)
    requires
        0 <= i < s.len(),
        s[i].eip712_hash@ == h,
        forall|j: int| 0 <= j < i ==> (#[trigger] s[j]).eip712_hash@ != h,
    ensures
        find_entry(s, h) == Some(i),
{
    lemma_find_entry(s, h);
    match find_entry(s, h) {
        Some(k) => {
            if k < i {
                assert(s[k].eip712_hash@ != h);
            }
            if k > i {
                assert(s[i].eip712_hash@ != h);
            }
        },
        None => {
            assert(s[i].eip712_hash@ != h);
        },
    }
}

/// Scans one side for the first entry with hash `h`.
pub(crate) fn find_in_side(entries: &Vec<OrderEntry>, h: &Hash32) -> (r: Option<usize>)
    ensures
        match r {
            Some(i) => find_entry(entries@, h@) == Some(i as int),
            None => find_entry(entries@, h@) == None::<int>,
        },
{
    let len = entries.len();
    let mut i: usize = 0;
    while i < len
        invariant
            0 <= i <= len,
            len == entries@.len(),
            forall|j: int| 0 <= j < i ==> (#[trigger] entries@[j]).eip712_hash@ != h@,
        decreases len - i,
    {
        if entries[i].eip712_hash.same_as(h) {
            proof {
                lemma_find_entry_at(entries@, h@, i as int);
            }
            return Some(i);
        }
        i += 1;
    }
    proof {
        lemma_find_entry(entries@, h@);
        if let Some(k) = find_entry(entries@, h@) {
            assert(entries@[k].eip712_hash@ != h@);
        }
    }
    None
}

/// Point lookup by identity: the asks are scanned first, then the bids;
/// `None` exactly when no entry on either side carries the hash.
pub fn find_by_hash(book: &L2OrderBook, h: &Hash32) -> (r: Option<OrderEntry>)
    ensures
        r == (match find_entry(book.asks@, h@) {
            Some(i) => Some(book.asks@[i]),
            None => match find_entry(book.bids@, h@) {
                Some(j) => Some(book.bids@[j]),
                None => None::<OrderEntry>,
            },
        }),
{
    proof {
        lemma_find_entry(book.asks@, h@);
        lemma_find_entry(book.bids@, h@);
    }
    match find_in_side(&book.asks, h) {
        Some(i) => Some(book.asks[i]),
        None => match find_in_side(&book.bids, h) {
            Some(j) => Some(book.bids[j]),
            None => None,
        },
    }
}

/// `s` with every entry carrying hash `h` removed, order kept.
pub open spec fn without_hash(s: Seq<OrderEntry>, h: Seq<u8>) -> Seq<OrderEntry>
    decreases s.len(),
{
    if s.len() == 0 {
        Seq::<OrderEntry>::empty()
    } else if s.last().eip712_hash@ == h {
        without_hash(s.drop_last(), h)
    } else {
        without_hash(s.drop_last(), h).push(s.last())
    }
}

/// Removal keeps any pointwise property the side had.
pub proof fn lemma_without_hash_pointwise(s: Seq<OrderEntry>, h: Seq<u8>, k: int)
    requires
        0 <= k < without_hash(s, h).len(),
    ensures
        exists|j: int|
            0 <= j < s.len() && #[trigger] s[j] == without_hash(s, h)[k],
    decreases s.len(),
{
    if s.len() > 0 {
        let t = s.drop_last();
        if s.last().eip712_hash@ == h {
            lemma_without_hash_pointwise(t, h, k);
            let j = choose|j: int| 0 <= j < t.len() && #[trigger] t[j] == without_hash(t, h)[k];
            assert(s[j] == t[j]);
        } else {
            if k < without_hash(t, h).len() {
                lemma_without_hash_pointwise(t, h, k);
                let j = choose|j: int|
                    0 <= j < t.len() && #[trigger] t[j] == without_hash(t, h)[k];
                assert(s[j] == t[j]);
            } else {
                assert(without_hash(s, h)[k] == s.last());
                assert(s[s.len() - 1] == s.last());
            }
        }
    }
}

/// Removing by hash keeps the side price-ordered and its amounts
/// positive.
pub proof fn lemma_without_hash_wf(side: OrderSide, s: Seq<OrderEntry>, h: Seq<u8>)
    requires
        side_sorted(side, s),
        all_positive(s),
    ensures
        side_sorted(side, without_hash(s, h)),
        all_positive(without_hash(s, h)),
    decreases s.len(),
{
    if s.len() > 0 {
        let t = s.drop_last();
        assert(forall|i: int| 0 <= i < t.len() ==> t[i] == #[trigger] s[i]);
        lemma_without_hash_wf(side, t, h);
        let w = without_hash(s, h);
        if s.last().eip712_hash@ != h {
            let wt = without_hash(t, h);
            assert(w == wt.push(s.last()));
            assert forall|i: int, j: int|
                0 <= i < j < w.len() implies better_or_equal(side, w[i].price, w[j].price) by {
                if j < w.len() - 1 {
                    assert(w[i] == wt[i] && w[j] == wt[j]);
                } else {
                    assert(w[j] == s.last());
                    assert(w[i] == wt[i]);
                    lemma_without_hash_pointwise(t, h, i);
                    let k = choose|k: int| 0 <= k < t.len() && #[trigger] t[k] == wt[i];
                    assert(better_or_equal(side, s[k].price, s[s.len() - 1].price));
                }
            }
            assert forall|i: int| 0 <= i < w.len() implies (#[trigger] w[i]).amount > 0 by {
                if i < w.len() - 1 {
                    assert(w[i] == wt[i]);
                } else {
                    assert(w[i] == s.last());
                    assert(s[s.len() - 1].amount > 0);
                }
            }
        }
    }
}

/// Removes every entry with hash `h` from one side.
fn remove_in_side(entries: &mut Vec<OrderEntry>, h: &Hash32)
    ensures
        final(entries)@ == without_hash(old(entries)@, h@),
{
    let ghost orig = entries@;
    let len = entries.len();
    let mut out: Vec<OrderEntry> = Vec::new();
    let mut i: usize = 0;
    while i < len
        invariant
            0 <= i <= len,
            len == orig.len(),
            entries@ == orig,
            out@ == without_hash(orig.take(i as int), h@),
        decreases len - i,
    {
        let e = entries[i];
        proof {
            let t = orig.take(i as int + 1);
            assert(t.drop_last() =~= orig.take(i as int));
            assert(t.last() == orig[i as int]);
        }
        if !e.eip712_hash.same_as(h) {
            out.push(e);
        }
        i += 1;
    }
    proof {
        assert(orig.take(len as int) =~= orig);
    }
    *entries = out;
}

/// Removal by identity: every entry carrying `h` leaves whichever side
/// held it; the result says whether anything was removed.
pub fn delete_by_hash(book: &mut L2OrderBook, h: &Hash32) -> (removed: bool)
    ensures
        final(book).asks@ == without_hash(old(book).asks@, h@),
        final(book).bids@ == without_hash(old(book).bids@, h@),
        removed == (find_entry(old(book).asks@, h@) is Some || find_entry(old(book).bids@, h@)
            is Some),
        book_wf(*old(book)) ==> book_wf(*final(book)),
{
    let in_asks = find_in_side(&book.asks, h).is_some();
    let in_bids = find_in_side(&book.bids, h).is_some();
    remove_in_side(&mut book.asks, h);
    remove_in_side(&mut book.bids, h);
    proof {
        if book_wf(*old(book)) {
            lemma_without_hash_wf(OrderSide::Ask, old(book).asks@, h@);
            lemma_without_hash_wf(OrderSide::Bid, old(book).bids@, h@);
        }
    }
    in_asks || in_bids
}

/// The best `limit` entries of one side, best price first; the whole
/// side when it is shorter. Read-only top-of-book.
pub fn best_n(book: &L2OrderBook, side: OrderSide, limit: usize) -> (r: Vec<OrderEntry>)
    ensures
        r@ == (match side {
            OrderSide::Bid => if limit <= book.bids@.len() {
                book.bids@.take(limit as int)
            } else {
                book.bids@
            },
            OrderSide::Ask => if limit <= book.asks@.len() {
                book.asks@.take(limit as int)
            } else {
                book.asks@
            },
        }),
{
    let entries = match side {
        OrderSide::Bid => &book.bids,
        OrderSide::Ask => &book.asks,
    };
    let len = entries.len();
    let n = if limit <= len {
        limit
    } else {
        len
    };
    let mut out: Vec<OrderEntry> = Vec::new();
    let mut i: usize = 0;
    while i < n
        invariant
            0 <= i <= n,
            n <= len,
            len == entries@.len(),
            out@ == entries@.take(i as int),
        decreases n - i,
    {
        out.push(entries[i]);
        proof {
            assert(entries@.take(i as int + 1) =~= entries@.take(i as int).push(
                entries@[i as int],
            ));
        }
        i += 1;
    }
    proof {
        if limit > len {
            assert(entries@.take(len as int) =~= entries@);
        }
    }
    out
}

} // verus!
