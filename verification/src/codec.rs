//! The persisted form of the book: one JSON object with an `asks` array
//! and a `bids` array, each entry carrying its amount and price as
//! canonical decimal strings and its trader address and content hash as
//! canonical lowercase hex. The format is load-bearing — identity
//! lookups match these strings exactly — so the writer and the reader
//! are both specified exactly and proved inverse: the reader accepts
//! precisely the writer's output.

use vstd::prelude::*;

verus! {

use crate::types::{
    Address, Hash32, L2OrderBook, OrderEntry, lemma_address_unique, lemma_hash32_unique,
};
use crate::numfmt::{
    dec_str, hex_digit, hex_str, is_dec_digit, lemma_dec_str_canonical, lemma_hex_str_len,
    parse_dec, parse_hex, push_dec, push_hex,
};
use vstd::slice::slice_subrange;

/// `{"amount":"` — the opening of an entry.
pub open spec fn lit1() -> Seq<u8> {
    seq![123u8, 34, 97, 109, 111, 117, 110, 116, 34, 58, 34]
}

/// `","price":"`.
pub open spec fn lit2() -> Seq<u8> {
    seq![34u8, 44, 34, 112, 114, 105, 99, 101, 34, 58, 34]
}

/// `","trader_address":"0x`.
pub open spec fn lit3() -> Seq<u8> {
    seq![
        34u8,
        44,
        34,
        116,
        114,
        97,
        100,
        101,
        114,
        95,
        97,
        100,
        100,
        114,
        101,
        115,
        115,
        34,
        58,
        34,
        48,
        120,
    ]
}

/// `","eip712_hash":"0x`.
pub open spec fn lit4() -> Seq<u8> {
    seq![34u8, 44, 34, 101, 105, 112, 55, 49, 50, 95, 104, 97, 115, 104, 34, 58, 34, 48, 120]
}

/// `"}` — the close of an entry.
pub open spec fn lit5() -> Seq<u8> {
    seq![34u8, 125]
}

/// The serialized form of one entry:
/// `{"amount":"…","price":"…","trader_address":"0x…","eip712_hash":"0x…"}`.
pub open spec fn entry_json(e: OrderEntry) -> Seq<u8> {
    lit1() + dec_str(e.amount as nat) + lit2() + dec_str(e.price as nat) + lit3() + hex_str(
        e.trader_address@,
    ) + lit4() + hex_str(e.eip712_hash@) + lit5()
}

/// The serialized form of one side: entries in book order, separated by
/// commas.
pub open spec fn entries_json(s: Seq<OrderEntry>) -> Seq<u8>
    decreases s.len(),
{
    if s.len() == 0 {
        Seq::<u8>::empty()
    } else if s.len() == 1 {
        entry_json(s[0])
    } else {
        entry_json(s[0]) + seq![44u8] + entries_json(s.drop_first())
    }
}

/// `{"asks":[` — the opening of the book object.
pub open spec fn litb1() -> Seq<u8> {
    seq![123u8, 34, 97, 115, 107, 115, 34, 58, 91]
}

/// `,"bids":[` — between the two sides.
pub open spec fn litb2() -> Seq<u8> {
    seq![44u8, 34, 98, 105, 100, 115, 34, 58, 91]
}

/// The serialized form of the whole book:
/// `{"asks":[…],"bids":[…]}`.
pub open spec fn book_json(asks: Seq<OrderEntry>, bids: Seq<OrderEntry>) -> Seq<u8> {
    litb1() + entries_json(asks) + seq![93u8] + litb2() + entries_json(bids) + seq![93u8]
        + seq![125u8]
}

/// Growing one side by one entry appends a comma (when the side was
/// nonempty) and the entry's serialization.
proof fn lemma_entries_json_push(s: Seq<OrderEntry>, e: OrderEntry)
    ensures
        entries_json(s.push(e)) == if s.len() == 0 {
            entry_json(e)
        } else {
            entries_json(s) + seq![44u8] + entry_json(e)
        },
    decreases s.len(),
{
    let t = s.push(e);
    if s.len() == 0 {
        assert(t.len() == 1 && t[0] == e);
    } else if s.len() == 1 {
        assert(t[0] == s[0]);
        assert(t.drop_first() =~= seq![e]);
        assert(entries_json(t.drop_first()) == entry_json(e));
    } else {
        assert(t[0] == s[0]);
        assert(t.drop_first() =~= s.drop_first().push(e));
        lemma_entries_json_push(s.drop_first(), e);
        assert(entry_json(s[0]) + seq![44u8] + (entries_json(s.drop_first()) + seq![44u8]
            + entry_json(e)) =~= (entry_json(s[0]) + seq![44u8] + entries_json(s.drop_first()))
            + seq![44u8] + entry_json(e));
    }
}

/// Appends `bytes` to `out`.
fn push_lit(bytes: &[u8], out: &mut Vec<u8>)
    ensures
        final(out)@ == old(out)@ + bytes@,
{
    let len = bytes.len();
    let mut i: usize = 0;
    while i < len
        invariant
            0 <= i <= len,
            len == bytes@.len(),
            out@ == old(out)@ + bytes@.take(i as int),
        decreases len - i,
    {
        out.push(bytes[i]);
        proof {
            assert(old(out)@ + bytes@.take(i as int + 1) =~= (old(out)@ + bytes@.take(
                i as int,
            )).push(bytes@[i as int]));
        }
        i += 1;
    }
    proof {
        assert(bytes@.take(len as int) =~= bytes@);
    }
}

/// Appends one entry's serialization to `out`.
fn push_entry(e: &OrderEntry, out: &mut Vec<u8>)
    ensures
        final(out)@ == old(out)@ + entry_json(*e),
{
    let l1: [u8; 11] = [123, 34, 97, 109, 111, 117, 110, 116, 34, 58, 34];
    let l2: [u8; 11] = [34, 44, 34, 112, 114, 105, 99, 101, 34, 58, 34];
    let l3: [u8; 22] = [
        34,
        44,
        34,
        116,
        114,
        97,
        100,
        101,
        114,
        95,
        97,
        100,
        100,
        114,
        101,
        115,
        115,
        34,
        58,
        34,
        48,
        120,
    ];
    let l4: [u8; 19] = [
        34,
        44,
        34,
        101,
        105,
        112,
        55,
        49,
        50,
        95,
        104,
        97,
        115,
        104,
        34,
        58,
        34,
        48,
        120,
    ];
    let l5: [u8; 2] = [34, 125];
    push_lit(l1.as_slice(), out);
    push_dec(e.amount, out);
    push_lit(l2.as_slice(), out);
    push_dec(e.price, out);
    push_lit(l3.as_slice(), out);
    push_hex(e.trader_address.bytes.as_slice(), out);
    push_lit(l4.as_slice(), out);
    push_hex(e.eip712_hash.bytes.as_slice(), out);
    push_lit(l5.as_slice(), out);
    proof {
        assert(out@ =~= old(out)@ + entry_json(*e));
    }
}

/// Appends one side's serialization to `out`.
fn push_entries(entries: &Vec<OrderEntry>, out: &mut Vec<u8>)
    ensures
        final(out)@ == old(out)@ + entries_json(entries@),
{
    let len = entries.len();
    let mut i: usize = 0;
    while i < len
        invariant
            0 <= i <= len,
            len == entries@.len(),
            out@ == old(out)@ + entries_json(entries@.take(i as int)),
        decreases len - i,
    {
        if i > 0 {
            out.push(44);
        }
        push_entry(&entries[i], out);
        proof {
            let pre = entries@.take(i as int);
            assert(entries@.take(i as int + 1) =~= pre.push(entries@[i as int]));
            lemma_entries_json_push(pre, entries@[i as int]);
            assert(out@ =~= old(out)@ + entries_json(entries@.take(i as int + 1)));
        }
        i += 1;
    }
    proof {
        assert(entries@.take(len as int) =~= entries@);
    }
}

/// Writes the whole book in its canonical persisted form.
pub fn serialize_book(book: &L2OrderBook) -> (r: Vec<u8>)
    ensures
        r@ == book_json(book.asks@, book.bids@),
{
    let b1: [u8; 9] = [123, 34, 97, 115, 107, 115, 34, 58, 91];
    let b2: [u8; 9] = [44, 34, 98, 105, 100, 115, 34, 58, 91];
    let mut out: Vec<u8> = Vec::new();
    push_lit(b1.as_slice(), &mut out);
    push_entries(&book.asks, &mut out);
    out.push(93);
    push_lit(b2.as_slice(), &mut out);
    push_entries(&book.bids, &mut out);
    out.push(93);
    out.push(125);
    proof {
        assert(out@ =~= book_json(book.asks@, book.bids@));
    }
    out
}

/// A region that spells `a + b` spells `a` and then `b`.
proof fn lemma_subrange_concat(s: Seq<u8>, p: int, a: Seq<u8>, b: Seq<u8>)
    requires
        0 <= p,
        p + a.len() + b.len() <= s.len(),
        s.subrange(p, p + a.len() + b.len()) == a + b,
    ensures
        s.subrange(p, p + a.len()) == a,
        s.subrange(p + a.len(), p + a.len() + b.len()) == b,
{
    let w = s.subrange(p, p + a.len() + b.len());
    assert forall|k: int| 0 <= k < a.len() implies s.subrange(p, p + a.len())[k] == a[k] by {
        assert(w[k] == (a + b)[k]);
    }
    assert(s.subrange(p, p + a.len()) =~= a);
    assert forall|k: int|
        0 <= k < b.len() implies s.subrange(p + a.len(), p + a.len() + b.len())[k] == b[k] by {
        assert(w[a.len() + k] == (a + b)[a.len() + k]);
    }
    assert(s.subrange(p + a.len(), p + a.len() + b.len()) =~= b);
}

/// Two adjacent regions spell their concatenation.
proof fn lemma_subrange_join(s: Seq<u8>, p: int, m: int, q: int, a: Seq<u8>, b: Seq<u8>)
    requires
        0 <= p <= m <= q <= s.len(),
        s.subrange(p, m) == a,
        s.subrange(m, q) == b,
    ensures
        s.subrange(p, q) == a + b,
{
    assert(s.subrange(p, q) =~= a + b);
}

/// Distinct byte sequences of one length have distinct hex strings.
proof fn lemma_hex_str_injective(a: Seq<u8>, b: Seq<u8>)
    requires
        a.len() == b.len(),
        hex_str(a) == hex_str(b),
    ensures
        a == b,
    decreases a.len(),
{
    if a.len() > 0 {
        lemma_hex_str_len(a.drop_last());
        lemma_hex_str_len(b.drop_last());
        let ha = hex_str(a);
        let hb = hex_str(b);
        assert(ha.len() == 2 * a.len()) by {
            lemma_hex_str_len(a);
        }
        assert(ha[ha.len() - 2] == hex_digit(a.last() as nat / 16));
        assert(ha[ha.len() - 1] == hex_digit(a.last() as nat % 16));
        assert(hb[hb.len() - 2] == hex_digit(b.last() as nat / 16));
        assert(hb[hb.len() - 1] == hex_digit(b.last() as nat % 16));
        assert(a.last() as nat / 16 == b.last() as nat / 16 && a.last() as nat % 16 == b.last()
            as nat % 16);
        assert(a.last() == b.last()) by {
            assert(a.last() as nat / 16 * 16 + a.last() as nat % 16 == a.last() as nat)
                by (nonlinear_arith);
            assert(b.last() as nat / 16 * 16 + b.last() as nat % 16 == b.last() as nat)
                by (nonlinear_arith);
        }
        assert(hex_str(a.drop_last()) =~= hex_str(b.drop_last())) by {
            assert forall|k: int|
                0 <= k < hex_str(a.drop_last()).len() implies hex_str(a.drop_last())[k]
                == hex_str(b.drop_last())[k] by {
                assert(ha[k] == hex_str(a.drop_last())[k]);
                assert(hb[k] == hex_str(b.drop_last())[k]);
            }
        }
        lemma_hex_str_injective(a.drop_last(), b.drop_last());
        assert forall|k: int| 0 <= k < a.len() implies a[k] == b[k] by {
            if k < a.len() - 1 {
                assert(a[k] == a.drop_last()[k]);
                assert(b[k] == b.drop_last()[k]);
            } else {
                assert(a[k] == a.last() && b[k] == b.last());
            }
        }
        assert(a =~= b);
    } else {
        assert(a =~= b);
    }
}

/// Two decimal digit runs that start at one position and both end at a
/// non-digit are one run denoting one number.
proof fn lemma_dec_run_unique(s: Seq<u8>, p: int, j1: int, n1: u128, n2: u128)
    requires
        0 <= p <= j1 <= s.len(),
        s.subrange(p, j1) == dec_str(n1 as nat),
        j1 == s.len() || !is_dec_digit(s[j1]),
        p + dec_str(n2 as nat).len() <= s.len(),
        s.subrange(p, p + dec_str(n2 as nat).len()) == dec_str(n2 as nat),
        p + dec_str(n2 as nat).len() == s.len() || !is_dec_digit(
            s[p + dec_str(n2 as nat).len()],
        ),
    ensures
        n1 == n2,
        j1 == p + dec_str(n2 as nat).len(),
{
    lemma_dec_str_canonical(n1 as nat);
    lemma_dec_str_canonical(n2 as nat);
    let l1 = j1 - p;
    let l2 = dec_str(n2 as nat).len() as int;
    if l1 < l2 {
        assert(s[p + l1] == dec_str(n2 as nat)[l1]);
        assert(is_dec_digit(dec_str(n2 as nat)[l1]));
    }
    if l2 < l1 {
        assert(s[p + l2] == dec_str(n1 as nat)[l2]);
        assert(is_dec_digit(dec_str(n1 as nat)[l2]));
    }
    assert(l1 == l2);
    assert(dec_str(n1 as nat) =~= dec_str(n2 as nat));
}

/// Advances past `lit` when the input spells it at `pos`, and says so
/// exactly.
fn expect_lit(s: &[u8], pos: usize, lit: &[u8]) -> (r: Option<usize>)
    requires
        pos <= s@.len(),
    ensures
        match r {
            Some(j) => j as int == pos + lit@.len() && j <= s@.len() && s@.subrange(
                pos as int,
                j as int,
            ) == lit@,
            None => !(pos + lit@.len() <= s@.len() && s@.subrange(
                pos as int,
                pos + lit@.len(),
            ) == lit@),
        },
{
    let slen = s.len();
    let llen = lit.len();
    if slen - pos < llen {
        return None;
    }
    let mut i: usize = 0;
    while i < llen
        invariant
            0 <= i <= llen,
            llen == lit@.len(),
            slen == s@.len(),
            pos + llen <= slen,
            forall|k: int| 0 <= k < i ==> s@[pos + k] == lit@[k],
        decreases llen - i,
    {
        if s[pos + i] != lit[i] {
            proof {
                if s@.subrange(pos as int, pos + lit@.len()) == lit@ {
                    assert(s@.subrange(pos as int, pos + lit@.len())[i as int] == s@[pos + i]);
                }
            }
            return None;
        }
        i += 1;
    }
    proof {
        assert(s@.subrange(pos as int, pos + lit@.len()) =~= lit@);
    }
    Some(pos + llen)
}

/// Reads one maximal decimal digit run. `None` exactly when no `u128`'s
/// canonical decimal string stands at `pos` followed by a non-digit.
fn parse_dec_field(s: &[u8], pos: usize) -> (r: Option<(u128, usize)>)
    requires
        pos <= s@.len(),
    ensures
        match r {
            Some(p) => pos <= p.1 <= s@.len() && s@.subrange(pos as int, p.1 as int) == dec_str(
                p.0 as nat,
            ) && (p.1 == s@.len() || !is_dec_digit(s@[p.1 as int])),
            None => forall|n: u128|
                !(pos + dec_str(n as nat).len() <= s@.len() && s@.subrange(
                    pos as int,
                    pos + dec_str(n as nat).len(),
                ) == dec_str(n as nat) && (pos + dec_str(n as nat).len() == s@.len()
                    || !is_dec_digit(s@[pos + dec_str(n as nat).len()]))),
        },
{
    let slen = s.len();
    let mut j: usize = pos;
    while j < slen && s[j] >= 48 && s[j] <= 57
        invariant
            pos <= j <= slen,
            slen == s@.len(),
            forall|k: int| pos <= k < j ==> is_dec_digit(#[trigger] s@[k]),
        decreases slen - j,
    {
        j += 1;
    }
    assert(j == slen || !is_dec_digit(s@[j as int]));
    if j == pos {
        proof {
            assert forall|n: u128|
                !(pos + dec_str(n as nat).len() <= s@.len() && s@.subrange(
                    pos as int,
                    pos + dec_str(n as nat).len(),
                ) == dec_str(n as nat) && (pos + dec_str(n as nat).len() == s@.len()
                    || !is_dec_digit(s@[pos + dec_str(n as nat).len()]))) by {
                lemma_dec_str_canonical(n as nat);
                if pos + dec_str(n as nat).len() <= s@.len() && s@.subrange(
                    pos as int,
                    pos + dec_str(n as nat).len(),
                ) == dec_str(n as nat) {
                    assert(s@[pos as int] == dec_str(n as nat)[0]);
                    assert(is_dec_digit(s@[pos as int]));
                }
            }
        }
        return None;
    }
    let run = slice_subrange(s, pos, j);
    match parse_dec(run) {
        Some(n) => {
            proof {
                lemma_dec_str_canonical(n as nat);
            }
            Some((n, j))
        },
        None => {
            proof {
                assert forall|n: u128|
                    !(pos + dec_str(n as nat).len() <= s@.len() && s@.subrange(
                        pos as int,
                        pos + dec_str(n as nat).len(),
                    ) == dec_str(n as nat) && (pos + dec_str(n as nat).len() == s@.len()
                        || !is_dec_digit(s@[pos + dec_str(n as nat).len()]))) by {
                    lemma_dec_str_canonical(n as nat);
                    let ll = dec_str(n as nat).len() as int;
                    if pos + ll <= s@.len() && s@.subrange(pos as int, pos + ll) == dec_str(
                        n as nat,
                    ) && (pos + ll == s@.len() || !is_dec_digit(s@[pos + ll])) {
                        if pos + ll < j {
                            assert(is_dec_digit(s@[pos + ll]));
                        }
                        if pos + ll > j {
                            assert(s@[j as int] == dec_str(n as nat)[j - pos]);
                            assert(is_dec_digit(s@[j as int]));
                        }
                        assert(pos + ll == j);
                        assert(run@ =~= dec_str(n as nat));
                    }
                }
            }
            None
        },
    }
}


/// The lengths of an entry's serialization, and its first byte.
proof fn lemma_entry_json_shape(e: OrderEntry)
    ensures
        entry_json(e).len() == 169 + dec_str(e.amount as nat).len() + dec_str(
            e.price as nat,
        ).len(),
        dec_str(e.amount as nat).len() >= 1,
        dec_str(e.price as nat).len() >= 1,
        entry_json(e)[0] == 123,
        hex_str(e.trader_address@).len() == 40,
        hex_str(e.eip712_hash@).len() == 64,
{
    lemma_dec_str_canonical(e.amount as nat);
    lemma_dec_str_canonical(e.price as nat);
    lemma_hex_str_len(e.trader_address@);
    lemma_hex_str_len(e.eip712_hash@);
    let x1 = lit1() + dec_str(e.amount as nat);
    assert(x1[0] == lit1()[0]);
    let x2 = x1 + lit2();
    assert(x2[0] == x1[0]);
    let x3 = x2 + dec_str(e.price as nat);
    assert(x3[0] == x2[0]);
    let x4 = x3 + lit3();
    assert(x4[0] == x3[0]);
    let x5 = x4 + hex_str(e.trader_address@);
    assert(x5[0] == x4[0]);
    let x6 = x5 + lit4();
    assert(x6[0] == x5[0]);
    let x7 = x6 + hex_str(e.eip712_hash@);
    assert(x7[0] == x6[0]);
    assert(entry_json(e) == x7 + lit5());
    assert(entry_json(e)[0] == x7[0]);
}

/// Where each piece of an entry's serialization stands when the whole
/// of it stands at `pos`.
proof fn lemma_entry_json_parts(s: Seq<u8>, pos: int, e: OrderEntry)
    requires
        0 <= pos,
        pos + entry_json(e).len() <= s.len(),
        s.subrange(pos, pos + entry_json(e).len()) == entry_json(e),
    ensures
        ({
            let al = dec_str(e.amount as nat).len() as int;
            let pl = dec_str(e.price as nat).len() as int;
            let o1 = pos + 11;
            let o2 = o1 + al;
            let o3 = o2 + 11;
            let o4 = o3 + pl;
            let o5 = o4 + 22;
            let o6 = o5 + 40;
            let o7 = o6 + 19;
            let o8 = o7 + 64;
            let o9 = o8 + 2;
            &&& o9 == pos + entry_json(e).len()
            &&& s.subrange(pos, o1) == lit1()
            &&& s.subrange(o1, o2) == dec_str(e.amount as nat)
            &&& s.subrange(o2, o3) == lit2()
            &&& s.subrange(o3, o4) == dec_str(e.price as nat)
            &&& s.subrange(o4, o5) == lit3()
            &&& s.subrange(o5, o6) == hex_str(e.trader_address@)
            &&& s.subrange(o6, o7) == lit4()
            &&& s.subrange(o7, o8) == hex_str(e.eip712_hash@)
            &&& s.subrange(o8, o9) == lit5()
            &&& s[o2] == 34
            &&& s[o4] == 34
        }),
{
    lemma_entry_json_shape(e);
    let d1 = dec_str(e.amount as nat);
    let d2 = dec_str(e.price as nat);
    let h1 = hex_str(e.trader_address@);
    let h2 = hex_str(e.eip712_hash@);
    let x1 = lit1() + d1;
    let x2 = x1 + lit2();
    let x3 = x2 + d2;
    let x4 = x3 + lit3();
    let x5 = x4 + h1;
    let x6 = x5 + lit4();
    let x7 = x6 + h2;
    assert(entry_json(e) == x7 + lit5());
    lemma_subrange_concat(s, pos, x7, lit5());
    lemma_subrange_concat(s, pos, x6, h2);
    lemma_subrange_concat(s, pos, x5, lit4());
    lemma_subrange_concat(s, pos, x4, h1);
    lemma_subrange_concat(s, pos, x3, lit3());
    lemma_subrange_concat(s, pos, x2, d2);
    lemma_subrange_concat(s, pos, x1, lit2());
    lemma_subrange_concat(s, pos, lit1(), d1);
    let al = d1.len() as int;
    let o2 = pos + 11 + al;
    assert(s[o2] == s.subrange(o2, o2 + 11)[0]);
    let pl = d2.len() as int;
    let o4 = pos + 11 + al + 11 + pl;
    assert(s[o4] == s.subrange(o4, o4 + 22)[0]);
}

/// Copies twenty parsed bytes into an address.
fn vec_to_address(v: &Vec<u8>) -> (r: Address)
    requires
        v@.len() == 20,
    ensures
        r@ == v@,
{
    let mut bytes = [0u8; 20];
    let mut i: usize = 0;
    while i < 20
        invariant
            i <= 20,
            v@.len() == 20,
            forall|j: int| 0 <= j < i ==> bytes@[j] == v@[j],
        decreases 20 - i,
    {
        bytes[i] = v[i];
        i += 1;
    }
    assert(bytes@ =~= v@);
    Address { bytes }
}

/// Copies thirty-two parsed bytes into a hash.
fn vec_to_hash32(v: &Vec<u8>) -> (r: Hash32)
    requires
        v@.len() == 32,
    ensures
        r@ == v@,
{
    let mut bytes = [0u8; 32];
    let mut i: usize = 0;
    while i < 32
        invariant
            i <= 32,
            v@.len() == 32,
            forall|j: int| 0 <= j < i ==> bytes@[j] == v@[j],
        decreases 32 - i,
    {
        bytes[i] = v[i];
        i += 1;
    }
    assert(bytes@ =~= v@);
    Hash32 { bytes }
}

/// Reads one entry. The reader accepts exactly the serializations that
/// `entry_json` writes: whenever one stands at `pos`, the entry it
/// spells — and nothing else — comes back.
fn parse_entry(s: &[u8], pos: usize) -> (r: Option<(OrderEntry, usize)>)
    requires
        pos <= s@.len(),
    ensures
        match r {
            Some(p) => pos < p.1 <= s@.len() && s@.subrange(pos as int, p.1 as int)
                == entry_json(p.0),
            None => true,
        },
        forall|e: OrderEntry| #![trigger entry_json(e)]
            (pos + entry_json(e).len() <= s@.len() && s@.subrange(
                pos as int,
                pos + entry_json(e).len(),
            ) == entry_json(e)) ==> (r is Some && r.unwrap().0 == e && r.unwrap().1 as int == pos
                + entry_json(e).len()),
{
    let l1: [u8; 11] = [123, 34, 97, 109, 111, 117, 110, 116, 34, 58, 34];
    let l2: [u8; 11] = [34, 44, 34, 112, 114, 105, 99, 101, 34, 58, 34];
    let l3: [u8; 22] = [
        34,
        44,
        34,
        116,
        114,
        97,
        100,
        101,
        114,
        95,
        97,
        100,
        100,
        114,
        101,
        115,
        115,
        34,
        58,
        34,
        48,
        120,
    ];
    let l4: [u8; 19] = [
        34,
        44,
        34,
        101,
        105,
        112,
        55,
        49,
        50,
        95,
        104,
        97,
        115,
        104,
        34,
        58,
        34,
        48,
        120,
    ];
    let l5: [u8; 2] = [34, 125];
    proof {
        assert(l1@ =~= lit1());
        assert(l2@ =~= lit2());
        assert(l3@ =~= lit3());
        assert(l4@ =~= lit4());
        assert(l5@ =~= lit5());
    }
    let j1 = match expect_lit(s, pos, l1.as_slice()) {
        Some(j) => j,
        None => {
            proof {
                assert forall|e: OrderEntry|
                    !(pos + entry_json(e).len() <= s@.len() && s@.subrange(
                        pos as int,
                        pos + entry_json(e).len(),
                    ) == entry_json(e)) by {
                    if pos + entry_json(e).len() <= s@.len() && s@.subrange(
                        pos as int,
                        pos + entry_json(e).len(),
                    ) == entry_json(e) {
                        lemma_entry_json_parts(s@, pos as int, e);
                    }
                }
            }
            return None;
        },
    };
    let (amount, j2) = match parse_dec_field(s, j1) {
        Some(p) => p,
        None => {
            proof {
                assert forall|e: OrderEntry|
                    !(pos + entry_json(e).len() <= s@.len() && s@.subrange(
                        pos as int,
                        pos + entry_json(e).len(),
                    ) == entry_json(e)) by {
                    if pos + entry_json(e).len() <= s@.len() && s@.subrange(
                        pos as int,
                        pos + entry_json(e).len(),
                    ) == entry_json(e) {
                        lemma_entry_json_parts(s@, pos as int, e);
                        assert(!is_dec_digit(34u8));
                    }
                }
            }
            return None;
        },
    };
    let j3 = match expect_lit(s, j2, l2.as_slice()) {
        Some(j) => j,
        None => {
            proof {
                assert forall|e: OrderEntry|
                    !(pos + entry_json(e).len() <= s@.len() && s@.subrange(
                        pos as int,
                        pos + entry_json(e).len(),
                    ) == entry_json(e)) by {
                    if pos + entry_json(e).len() <= s@.len() && s@.subrange(
                        pos as int,
                        pos + entry_json(e).len(),
                    ) == entry_json(e) {
                        lemma_entry_json_parts(s@, pos as int, e);
                        assert(!is_dec_digit(34u8));
                        lemma_dec_run_unique(s@, j1 as int, j2 as int, amount, e.amount);
                    }
                }
            }
            return None;
        },
    };
    let (price, j4) = match parse_dec_field(s, j3) {
        Some(p) => p,
        None => {
            proof {
                assert forall|e: OrderEntry|
                    !(pos + entry_json(e).len() <= s@.len() && s@.subrange(
                        pos as int,
                        pos + entry_json(e).len(),
                    ) == entry_json(e)) by {
                    if pos + entry_json(e).len() <= s@.len() && s@.subrange(
                        pos as int,
                        pos + entry_json(e).len(),
                    ) == entry_json(e) {
                        lemma_entry_json_parts(s@, pos as int, e);
                        assert(!is_dec_digit(34u8));
                        lemma_dec_run_unique(s@, j1 as int, j2 as int, amount, e.amount);
                    }
                }
            }
            return None;
        },
    };
    let j5 = match expect_lit(s, j4, l3.as_slice()) {
        Some(j) => j,
        None => {
            proof {
                assert forall|e: OrderEntry|
                    !(pos + entry_json(e).len() <= s@.len() && s@.subrange(
                        pos as int,
                        pos + entry_json(e).len(),
                    ) == entry_json(e)) by {
                    if pos + entry_json(e).len() <= s@.len() && s@.subrange(
                        pos as int,
                        pos + entry_json(e).len(),
                    ) == entry_json(e) {
                        lemma_entry_json_parts(s@, pos as int, e);
                        assert(!is_dec_digit(34u8));
                        lemma_dec_run_unique(s@, j1 as int, j2 as int, amount, e.amount);
                        lemma_dec_run_unique(s@, j3 as int, j4 as int, price, e.price);
                    }
                }
            }
            return None;
        },
    };
    if s.len() - j5 < 40 {
        proof {
            assert forall|e: OrderEntry|
                !(pos + entry_json(e).len() <= s@.len() && s@.subrange(
                    pos as int,
                    pos + entry_json(e).len(),
                ) == entry_json(e)) by {
                if pos + entry_json(e).len() <= s@.len() && s@.subrange(
                    pos as int,
                    pos + entry_json(e).len(),
                ) == entry_json(e) {
                    lemma_entry_json_parts(s@, pos as int, e);
                    assert(!is_dec_digit(34u8));
                    lemma_dec_run_unique(s@, j1 as int, j2 as int, amount, e.amount);
                    lemma_dec_run_unique(s@, j3 as int, j4 as int, price, e.price);
                }
            }
        }
        return None;
    }
    let trader_v = match parse_hex(s, j5, 20) {
        Some(v) => v,
        None => {
            proof {
                assert forall|e: OrderEntry|
                    !(pos + entry_json(e).len() <= s@.len() && s@.subrange(
                        pos as int,
                        pos + entry_json(e).len(),
                    ) == entry_json(e)) by {
                    if pos + entry_json(e).len() <= s@.len() && s@.subrange(
                        pos as int,
                        pos + entry_json(e).len(),
                    ) == entry_json(e) {
                        lemma_entry_json_parts(s@, pos as int, e);
                        assert(!is_dec_digit(34u8));
                        lemma_dec_run_unique(s@, j1 as int, j2 as int, amount, e.amount);
                        lemma_dec_run_unique(s@, j3 as int, j4 as int, price, e.price);
                        assert(e.trader_address@.len() == 20);
                    }
                }
            }
            return None;
        },
    };
    let j6 = j5 + 40;
    let j7 = match expect_lit(s, j6, l4.as_slice()) {
        Some(j) => j,
        None => {
            proof {
                assert forall|e: OrderEntry|
                    !(pos + entry_json(e).len() <= s@.len() && s@.subrange(
                        pos as int,
                        pos + entry_json(e).len(),
                    ) == entry_json(e)) by {
                    if pos + entry_json(e).len() <= s@.len() && s@.subrange(
                        pos as int,
                        pos + entry_json(e).len(),
                    ) == entry_json(e) {
                        lemma_entry_json_parts(s@, pos as int, e);
                        assert(!is_dec_digit(34u8));
                        lemma_dec_run_unique(s@, j1 as int, j2 as int, amount, e.amount);
                        lemma_dec_run_unique(s@, j3 as int, j4 as int, price, e.price);
                    }
                }
            }
            return None;
        },
    };
    if s.len() - j7 < 64 {
        proof {
            assert forall|e: OrderEntry|
                !(pos + entry_json(e).len() <= s@.len() && s@.subrange(
                    pos as int,
                    pos + entry_json(e).len(),
                ) == entry_json(e)) by {
                if pos + entry_json(e).len() <= s@.len() && s@.subrange(
                    pos as int,
                    pos + entry_json(e).len(),
                ) == entry_json(e) {
                    lemma_entry_json_parts(s@, pos as int, e);
                    assert(!is_dec_digit(34u8));
                    lemma_dec_run_unique(s@, j1 as int, j2 as int, amount, e.amount);
                    lemma_dec_run_unique(s@, j3 as int, j4 as int, price, e.price);
                }
            }
        }
        return None;
    }
    let hash_v = match parse_hex(s, j7, 32) {
        Some(v) => v,
        None => {
            proof {
                assert forall|e: OrderEntry|
                    !(pos + entry_json(e).len() <= s@.len() && s@.subrange(
                        pos as int,
                        pos + entry_json(e).len(),
                    ) == entry_json(e)) by {
                    if pos + entry_json(e).len() <= s@.len() && s@.subrange(
                        pos as int,
                        pos + entry_json(e).len(),
                    ) == entry_json(e) {
                        lemma_entry_json_parts(s@, pos as int, e);
                        assert(!is_dec_digit(34u8));
                        lemma_dec_run_unique(s@, j1 as int, j2 as int, amount, e.amount);
                        lemma_dec_run_unique(s@, j3 as int, j4 as int, price, e.price);
                        assert(e.eip712_hash@.len() == 32);
                    }
                }
            }
            return None;
        },
    };
    let j8 = j7 + 64;
    let j9 = match expect_lit(s, j8, l5.as_slice()) {
        Some(j) => j,
        None => {
            proof {
                assert forall|e: OrderEntry|
                    !(pos + entry_json(e).len() <= s@.len() && s@.subrange(
                        pos as int,
                        pos + entry_json(e).len(),
                    ) == entry_json(e)) by {
                    if pos + entry_json(e).len() <= s@.len() && s@.subrange(
                        pos as int,
                        pos + entry_json(e).len(),
                    ) == entry_json(e) {
                        lemma_entry_json_parts(s@, pos as int, e);
                        assert(!is_dec_digit(34u8));
                        lemma_dec_run_unique(s@, j1 as int, j2 as int, amount, e.amount);
                        lemma_dec_run_unique(s@, j3 as int, j4 as int, price, e.price);
                    }
                }
            }
            return None;
        },
    };
    let trader_address = vec_to_address(&trader_v);
    let eip712_hash = vec_to_hash32(&hash_v);
    let entry = OrderEntry { amount, price, trader_address, eip712_hash };
    proof {
        // The pieces read join back into exactly `entry_json(entry)`.
        lemma_dec_str_canonical(amount as nat);
        lemma_dec_str_canonical(price as nat);
        lemma_hex_str_len(trader_v@);
        lemma_hex_str_len(hash_v@);
        let sv = s@;
        lemma_subrange_join(sv, pos as int, j1 as int, j2 as int, lit1(), dec_str(amount as nat));
        lemma_subrange_join(
            sv,
            pos as int,
            j2 as int,
            j3 as int,
            lit1() + dec_str(amount as nat),
            lit2(),
        );
        lemma_subrange_join(
            sv,
            pos as int,
            j3 as int,
            j4 as int,
            lit1() + dec_str(amount as nat) + lit2(),
            dec_str(price as nat),
        );
        lemma_subrange_join(
            sv,
            pos as int,
            j4 as int,
            j5 as int,
            lit1() + dec_str(amount as nat) + lit2() + dec_str(price as nat),
            lit3(),
        );
        lemma_subrange_join(
            sv,
            pos as int,
            j5 as int,
            j6 as int,
            lit1() + dec_str(amount as nat) + lit2() + dec_str(price as nat) + lit3(),
            hex_str(trader_v@),
        );
        lemma_subrange_join(
            sv,
            pos as int,
            j6 as int,
            j7 as int,
            lit1() + dec_str(amount as nat) + lit2() + dec_str(price as nat) + lit3() + hex_str(
                trader_v@,
            ),
            lit4(),
        );
        lemma_subrange_join(
            sv,
            pos as int,
            j7 as int,
            j8 as int,
            lit1() + dec_str(amount as nat) + lit2() + dec_str(price as nat) + lit3() + hex_str(
                trader_v@,
            ) + lit4(),
            hex_str(hash_v@),
        );
        lemma_subrange_join(
            sv,
            pos as int,
            j8 as int,
            j9 as int,
            lit1() + dec_str(amount as nat) + lit2() + dec_str(price as nat) + lit3() + hex_str(
                trader_v@,
            ) + lit4() + hex_str(hash_v@),
            lit5(),
        );
        assert(sv.subrange(pos as int, j9 as int) == entry_json(entry));
        // And the entry read is the only one whose serialization stands
        // at `pos`.
        assert forall|e: OrderEntry|
            (pos + entry_json(e).len() <= s@.len() && s@.subrange(
                pos as int,
                pos + entry_json(e).len(),
            ) == entry_json(e)) implies (entry == e && j9 as int == pos + entry_json(e).len())
            by {
            lemma_entry_json_parts(s@, pos as int, e);
            assert(!is_dec_digit(34u8));
            lemma_dec_run_unique(s@, j1 as int, j2 as int, amount, e.amount);
            lemma_dec_run_unique(s@, j3 as int, j4 as int, price, e.price);
            assert(hex_str(trader_v@) == hex_str(e.trader_address@));
            lemma_hex_str_injective(trader_v@, e.trader_address@);
            lemma_address_unique(trader_address, e.trader_address);
            assert(hex_str(hash_v@) == hex_str(e.eip712_hash@));
            lemma_hex_str_injective(hash_v@, e.eip712_hash@);
            lemma_hash32_unique(eip712_hash, e.eip712_hash);
            assert(entry =~= e);
        }
    }
    Some((entry, j9))
}


/// One side's serialization followed by `]` stands at `pos`.
pub open spec fn entries_at(s: Seq<u8>, pos: int, vv: Seq<OrderEntry>) -> bool {
    &&& 0 <= pos
    &&& pos + entries_json(vv).len() + 1 <= s.len()
    &&& s.subrange(pos, pos + entries_json(vv).len() + 1) == entries_json(vv) + seq![93u8]
}

/// What a nonempty side at `pos` spells first: its head entry, then a
/// comma and the rest, or the closing bracket.
proof fn lemma_entries_json_parts(s: Seq<u8>, pos: int, vv: Seq<OrderEntry>)
    requires
        entries_at(s, pos, vv),
        vv.len() > 0,
    ensures
        pos + entry_json(vv[0]).len() <= s.len(),
        s.subrange(pos, pos + entry_json(vv[0]).len()) == entry_json(vv[0]),
        ({
            let j = pos + entry_json(vv[0]).len() as int;
            if vv.len() == 1 {
                s[j] == 93 && j + 1 == pos + entries_json(vv).len() + 1
            } else {
                s[j] == 44 && entries_at(s, j + 1, vv.drop_first())
                    && entries_json(vv).len() == entry_json(vv[0]).len() + 1 + entries_json(
                    vv.drop_first(),
                ).len()
            }
        }),
{
    let ej = entry_json(vv[0]);
    if vv.len() == 1 {
        assert(entries_json(vv) == ej);
        lemma_subrange_concat(s, pos, ej, seq![93u8]);
        let j = pos + ej.len() as int;
        assert(s[j] == s.subrange(j, j + 1)[0]);
    } else {
        let rest = entries_json(vv.drop_first());
        assert(entries_json(vv) == ej + seq![44u8] + rest);
        lemma_subrange_concat(s, pos, ej + seq![44u8] + rest, seq![93u8]);
        lemma_subrange_concat(s, pos, ej + seq![44u8], rest);
        lemma_subrange_concat(s, pos, ej, seq![44u8]);
        let j = pos + ej.len() as int;
        assert(s[j] == s.subrange(j, j + 1)[0]);
        let m = j + 1 + rest.len() as int;
        lemma_subrange_join(
            s,
            j + 1,
            m,
            m + 1,
            rest,
            seq![93u8],
        );
    }
}

/// Reads one side up to and through its closing `]`. The reader
/// accepts exactly the side serializations the writer produces, and for
/// each returns exactly the entries it spells.
#[verifier::rlimit(100)]
fn parse_entries(s: &[u8], pos: usize) -> (r: Option<(Vec<OrderEntry>, usize)>)
    requires
        pos <= s@.len(),
    ensures
        match r {
            Some(p) => pos < p.1 <= s@.len() && s@.subrange(pos as int, p.1 as int)
                == entries_json(p.0@) + seq![93u8],
            None => true,
        },
        forall|vv: Seq<OrderEntry>| #![trigger entries_json(vv)]
            entries_at(s@, pos as int, vv) ==> (r is Some && r.unwrap().0@ == vv && r.unwrap().1
                as int == pos + entries_json(vv).len() + 1),
    decreases s@.len() - pos,
{
    let rb: [u8; 1] = [93];
    let cm: [u8; 1] = [44];
    proof {
        assert(rb@ =~= seq![93u8]);
        assert(cm@ =~= seq![44u8]);
    }
    if let Some(jr) = expect_lit(s, pos, rb.as_slice()) {
        let v: Vec<OrderEntry> = Vec::new();
        proof {
            assert(entries_json(v@) + seq![93u8] =~= seq![93u8]);
            assert forall|vv: Seq<OrderEntry>|
                entries_at(s@, pos as int, vv) implies (v@ == vv && jr as int == pos
                + entries_json(vv).len() + 1) by {
                if vv.len() > 0 {
                    lemma_entries_json_parts(s@, pos as int, vv);
                    lemma_entry_json_shape(vv[0]);
                    assert(s@[pos as int] == entry_json(vv[0])[0]);
                    assert(s@[pos as int] == 93);
                } else {
                    assert(entries_json(vv) + seq![93u8] =~= seq![93u8]);
                    assert(v@ =~= vv);
                }
            }
        }
        return Some((v, jr));
    }
    let (e0, j) = match parse_entry(s, pos) {
        Some(p) => p,
        None => {
            proof {
                assert forall|vv: Seq<OrderEntry>| !entries_at(s@, pos as int, vv) by {
                    if entries_at(s@, pos as int, vv) {
                        if vv.len() == 0 {
                            assert(entries_json(vv) + seq![93u8] =~= seq![93u8]);
                            assert(s@.subrange(pos as int, pos as int + 1) =~= rb@);
                        } else {
                            lemma_entries_json_parts(s@, pos as int, vv);
                        }
                    }
                }
            }
            return None;
        },
    };
    if let Some(jc) = expect_lit(s, j, cm.as_slice()) {
        match parse_entries(s, jc) {
            Some((mut rest, j2)) => {
                if rest.len() == 0 {
                    proof {
                        assert forall|vv: Seq<OrderEntry>| !entries_at(s@, pos as int, vv) by {
                            if entries_at(s@, pos as int, vv) {
                                if vv.len() == 0 {
                                    assert(entries_json(vv) + seq![93u8] =~= seq![93u8]);
                                    lemma_entry_json_shape(e0);
                                    assert(s@[pos as int] == s@.subrange(
                                        pos as int,
                                        j as int,
                                    )[0]);
                                    assert(s@[pos as int] == s@.subrange(
                                        pos as int,
                                        pos as int + 1,
                                    )[0]);
                                } else {
                                    lemma_entries_json_parts(s@, pos as int, vv);
                                    if vv.len() == 1 {
                                        assert(s@[j as int] == 93);
                                        assert(s@.subrange(j as int, jc as int) == cm@);
                                        assert(s@[j as int] == 44);
                                    } else {
                                        assert(entries_at(s@, jc as int, vv.drop_first()));
                                    }
                                }
                            }
                        }
                    }
                    return None;
                }
                let ghost rest_pre = rest@;
                rest.insert(0, e0);
                proof {
                    let v = rest@;
                    assert(v == rest_pre.insert(0, e0));
                    assert(v[0] == e0);
                    assert(v.drop_first() =~= rest_pre);
                    assert(v.len() >= 2);
                    assert(entries_json(v) == entry_json(e0) + seq![44u8] + entries_json(
                        rest_pre,
                    ));
                    lemma_subrange_join(
                        s@,
                        pos as int,
                        j as int,
                        jc as int,
                        entry_json(e0),
                        seq![44u8],
                    );
                    lemma_subrange_join(
                        s@,
                        pos as int,
                        jc as int,
                        j2 as int,
                        entry_json(e0) + seq![44u8],
                        entries_json(rest_pre) + seq![93u8],
                    );
                    assert((entry_json(e0) + seq![44u8]) + (entries_json(rest_pre) + seq![93u8])
                        =~= entries_json(v) + seq![93u8]);
                    assert forall|vv: Seq<OrderEntry>|
                        entries_at(s@, pos as int, vv) implies (v == vv && j2 as int == pos
                        + entries_json(vv).len() + 1) by {
                        if vv.len() == 0 {
                            assert(entries_json(vv) + seq![93u8] =~= seq![93u8]);
                            lemma_entry_json_shape(e0);
                            assert(s@[pos as int] == s@.subrange(pos as int, j as int)[0]);
                            assert(s@[pos as int] == s@.subrange(pos as int, pos as int + 1)[0]);
                        } else {
                            lemma_entries_json_parts(s@, pos as int, vv);
                            if vv.len() == 1 {
                                assert(s@[j as int] == 93);
                                assert(s@.subrange(j as int, jc as int) == cm@);
                                assert(s@[j as int] == s@.subrange(j as int, jc as int)[0]);
                            } else {
                                assert(entries_at(s@, jc as int, vv.drop_first()));
                                assert(rest_pre == vv.drop_first());
                                assert(v =~= vv);
                            }
                        }
                    }
                }
                Some((rest, j2))
            },
            None => {
                proof {
                    assert forall|vv: Seq<OrderEntry>| !entries_at(s@, pos as int, vv) by {
                        if entries_at(s@, pos as int, vv) {
                            if vv.len() == 0 {
                                assert(entries_json(vv) + seq![93u8] =~= seq![93u8]);
                                lemma_entry_json_shape(e0);
                                assert(s@[pos as int] == s@.subrange(pos as int, j as int)[0]);
                                assert(s@[pos as int] == s@.subrange(
                                    pos as int,
                                    pos as int + 1,
                                )[0]);
                            } else {
                                lemma_entries_json_parts(s@, pos as int, vv);
                                if vv.len() == 1 {
                                    assert(s@[j as int] == 93);
                                    assert(s@.subrange(j as int, jc as int) == cm@);
                                    assert(s@[j as int] == 44);
                                } else {
                                    assert(entries_at(s@, jc as int, vv.drop_first()));
                                }
                            }
                        }
                    }
                }
                None
            },
        }
    } else if let Some(j9) = expect_lit(s, j, rb.as_slice()) {
        let mut v: Vec<OrderEntry> = Vec::new();
        v.push(e0);
        proof {
            assert(v@ =~= seq![e0]);
            assert(entries_json(v@) == entry_json(e0));
            lemma_subrange_join(
                s@,
                pos as int,
                j as int,
                j9 as int,
                entry_json(e0),
                seq![93u8],
            );
            assert forall|vv: Seq<OrderEntry>|
                entries_at(s@, pos as int, vv) implies (v@ == vv && j9 as int == pos
                + entries_json(vv).len() + 1) by {
                if vv.len() == 0 {
                    assert(entries_json(vv) + seq![93u8] =~= seq![93u8]);
                    lemma_entry_json_shape(e0);
                    assert(s@[pos as int] == s@.subrange(pos as int, j as int)[0]);
                    assert(s@[pos as int] == s@.subrange(pos as int, pos as int + 1)[0]);
                } else {
                    lemma_entries_json_parts(s@, pos as int, vv);
                    if vv.len() > 1 {
                        assert(s@[j as int] == 44);
                        assert(s@.subrange(j as int, j9 as int) == rb@);
                        assert(s@[j as int] == 93);
                    } else {
                        assert(v@ =~= vv);
                    }
                }
            }
        }
        Some((v, j9))
    } else {
        proof {
            assert forall|vv: Seq<OrderEntry>| !entries_at(s@, pos as int, vv) by {
                if entries_at(s@, pos as int, vv) {
                    if vv.len() == 0 {
                        assert(entries_json(vv) + seq![93u8] =~= seq![93u8]);
                        lemma_entry_json_shape(e0);
                        assert(s@[pos as int] == s@.subrange(pos as int, j as int)[0]);
                        assert(s@[pos as int] == s@.subrange(pos as int, pos as int + 1)[0]);
                    } else {
                        lemma_entries_json_parts(s@, pos as int, vv);
                        if vv.len() == 1 {
                            assert(s@[j as int] == 93);
                            assert(s@.subrange(j as int, j as int + 1) =~= rb@);
                        } else {
                            assert(s@[j as int] == 44);
                            assert(s@.subrange(j as int, j as int + 1) =~= cm@);
                        }
                    }
                }
            }
        }
        None
    }
}


/// Where each piece of the book's serialization stands.
proof fn lemma_book_json_parts(s: Seq<u8>, aa: Seq<OrderEntry>, bb: Seq<OrderEntry>)
    requires
        s == book_json(aa, bb),
    ensures
        ({
            let m1 = 9 + entries_json(aa).len() as int;
            let m2 = m1 + 1;
            let m3 = m2 + 9;
            let m4 = m3 + entries_json(bb).len() as int;
            let m5 = m4 + 1;
            &&& s.len() == m5 + 1
            &&& s.subrange(0, 9) == litb1()
            &&& entries_at(s, 9, aa)
            &&& s.subrange(m2, m3) == litb2()
            &&& entries_at(s, m3, bb)
            &&& s.subrange(m5, m5 + 1) == seq![125u8]
        }),
{
    let x1 = litb1() + entries_json(aa);
    let x2 = x1 + seq![93u8];
    let x3 = x2 + litb2();
    let x4 = x3 + entries_json(bb);
    let x5 = x4 + seq![93u8];
    assert(book_json(aa, bb) == x5 + seq![125u8]);
    assert(s.subrange(0, s.len() as int) =~= s);
    lemma_subrange_concat(s, 0, x5, seq![125u8]);
    lemma_subrange_concat(s, 0, x4, seq![93u8]);
    lemma_subrange_concat(s, 0, x3, entries_json(bb));
    lemma_subrange_concat(s, 0, x2, litb2());
    lemma_subrange_concat(s, 0, x1, seq![93u8]);
    lemma_subrange_concat(s, 0, litb1(), entries_json(aa));
    let m1 = 9 + entries_json(aa).len() as int;
    lemma_subrange_join(s, 9, m1, m1 + 1, entries_json(aa), seq![93u8]);
    let m3 = m1 + 10;
    let m4 = m3 + entries_json(bb).len() as int;
    lemma_subrange_join(s, m3, m4, m4 + 1, entries_json(bb), seq![93u8]);
}

/// Reads a whole persisted book. Together with `serialize_book` this is
/// the round trip: the reader returns a book exactly when the entire
/// input is that book's serialization, and then returns the book the
/// writer serialized, entry for entry.
#[verifier::rlimit(50)]
pub fn parse_book(s: &[u8]) -> (r: Option<L2OrderBook>)
    ensures
        match r {
            Some(b) => s@ == book_json(b.asks@, b.bids@),
            None => true,
        },
        forall|aa: Seq<OrderEntry>, bb: Seq<OrderEntry>| #![trigger book_json(aa, bb)]
            s@ == book_json(aa, bb) ==> (r is Some && r.unwrap().asks@ == aa && r.unwrap().bids@
                == bb),
{
    let b1: [u8; 9] = [123, 34, 97, 115, 107, 115, 34, 58, 91];
    let b2: [u8; 9] = [44, 34, 98, 105, 100, 115, 34, 58, 91];
    let rc: [u8; 1] = [125];
    proof {
        assert(b1@ =~= litb1());
        assert(b2@ =~= litb2());
        assert(rc@ =~= seq![125u8]);
    }
    let j0 = match expect_lit(s, 0, b1.as_slice()) {
        Some(j) => j,
        None => {
            proof {
                assert forall|aa: Seq<OrderEntry>, bb: Seq<OrderEntry>|
                    s@ != book_json(aa, bb) by {
                    if s@ == book_json(aa, bb) {
                        lemma_book_json_parts(s@, aa, bb);
                    }
                }
            }
            return None;
        },
    };
    let (asks, j1) = match parse_entries(s, j0) {
        Some(p) => p,
        None => {
            proof {
                assert forall|aa: Seq<OrderEntry>, bb: Seq<OrderEntry>|
                    s@ != book_json(aa, bb) by {
                    if s@ == book_json(aa, bb) {
                        lemma_book_json_parts(s@, aa, bb);
                    }
                }
            }
            return None;
        },
    };
    let j2 = match expect_lit(s, j1, b2.as_slice()) {
        Some(j) => j,
        None => {
            proof {
                assert forall|aa: Seq<OrderEntry>, bb: Seq<OrderEntry>|
                    s@ != book_json(aa, bb) by {
                    if s@ == book_json(aa, bb) {
                        lemma_book_json_parts(s@, aa, bb);
                    }
                }
            }
            return None;
        },
    };
    let (bids, j3) = match parse_entries(s, j2) {
        Some(p) => p,
        None => {
            proof {
                assert forall|aa: Seq<OrderEntry>, bb: Seq<OrderEntry>|
                    s@ != book_json(aa, bb) by {
                    if s@ == book_json(aa, bb) {
                        lemma_book_json_parts(s@, aa, bb);
                    }
                }
            }
            return None;
        },
    };
    let j4 = match expect_lit(s, j3, rc.as_slice()) {
        Some(j) => j,
        None => {
            proof {
                assert forall|aa: Seq<OrderEntry>, bb: Seq<OrderEntry>|
                    s@ != book_json(aa, bb) by {
                    if s@ == book_json(aa, bb) {
                        lemma_book_json_parts(s@, aa, bb);
                    }
                }
            }
            return None;
        },
    };
    if j4 != s.len() {
        proof {
            assert forall|aa: Seq<OrderEntry>, bb: Seq<OrderEntry>|
                s@ != book_json(aa, bb) by {
                if s@ == book_json(aa, bb) {
                    lemma_book_json_parts(s@, aa, bb);
                }
            }
        }
        return None;
    }
    let book = L2OrderBook { asks, bids };
    proof {
        lemma_subrange_join(s@, 0, j0 as int, j1 as int, litb1(), entries_json(book.asks@)
            + seq![93u8]);
        lemma_subrange_join(
            s@,
            0,
            j1 as int,
            j2 as int,
            litb1() + (entries_json(book.asks@) + seq![93u8]),
            litb2(),
        );
        lemma_subrange_join(
            s@,
            0,
            j2 as int,
            j3 as int,
            litb1() + (entries_json(book.asks@) + seq![93u8]) + litb2(),
            entries_json(book.bids@) + seq![93u8],
        );
        lemma_subrange_join(
            s@,
            0,
            j3 as int,
            j4 as int,
            litb1() + (entries_json(book.asks@) + seq![93u8]) + litb2() + (entries_json(
                book.bids@,
            ) + seq![93u8]),
            seq![125u8],
        );
        assert(s@.subrange(0, s@.len() as int) =~= s@);
        assert(s@ =~= book_json(book.asks@, book.bids@));
        assert forall|aa: Seq<OrderEntry>, bb: Seq<OrderEntry>|
            s@ == book_json(aa, bb) implies (book.asks@ == aa && book.bids@ == bb) by {
            lemma_book_json_parts(s@, aa, bb);
        }
    }
    Some(book)
}


/// Two entries whose serializations stand at one position are one
/// entry: the serialized form carries the entry faithfully.
proof fn lemma_entry_json_at_unique(s: Seq<u8>, pos: int, e1: OrderEntry, e2: OrderEntry)
    requires
        0 <= pos,
        pos + entry_json(e1).len() <= s.len(),
        s.subrange(pos, pos + entry_json(e1).len()) == entry_json(e1),
        pos + entry_json(e2).len() <= s.len(),
        s.subrange(pos, pos + entry_json(e2).len()) == entry_json(e2),
    ensures
        e1 == e2,
{
    lemma_entry_json_parts(s, pos, e1);
    lemma_entry_json_parts(s, pos, e2);
    assert(!is_dec_digit(34u8));
    let al1 = dec_str(e1.amount as nat).len() as int;
    lemma_dec_run_unique(s, pos + 11, pos + 11 + al1, e1.amount, e2.amount);
    let o2 = pos + 11 + al1;
    let pl1 = dec_str(e1.price as nat).len() as int;
    lemma_dec_run_unique(s, o2 + 11, o2 + 11 + pl1, e1.price, e2.price);
    let o5 = o2 + 11 + pl1 + 22;
    assert(s.subrange(o5, o5 + 40) == hex_str(e1.trader_address@));
    assert(s.subrange(o5, o5 + 40) == hex_str(e2.trader_address@));
    lemma_hex_str_injective(e1.trader_address@, e2.trader_address@);
    lemma_address_unique(e1.trader_address, e2.trader_address);
    let o7 = o5 + 40 + 19;
    assert(s.subrange(o7, o7 + 64) == hex_str(e1.eip712_hash@));
    assert(s.subrange(o7, o7 + 64) == hex_str(e2.eip712_hash@));
    lemma_hex_str_injective(e1.eip712_hash@, e2.eip712_hash@);
    lemma_hash32_unique(e1.eip712_hash, e2.eip712_hash);
    assert(e1 =~= e2);
}

/// Two entry lists whose serializations (with the closing bracket)
/// stand at one position are one list.
proof fn lemma_entries_at_unique(s: Seq<u8>, pos: int, v1: Seq<OrderEntry>, v2: Seq<OrderEntry>)
    requires
        entries_at(s, pos, v1),
        entries_at(s, pos, v2),
    ensures
        v1 == v2,
    decreases v1.len(),
{
    if v1.len() == 0 && v2.len() == 0 {
        assert(v1 =~= v2);
    } else if v1.len() == 0 {
        lemma_entries_json_parts(s, pos, v2);
        lemma_entry_json_shape(v2[0]);
        assert(s[pos] == s.subrange(pos, pos + entry_json(v2[0]).len() as int)[0]);
        assert(entries_json(v1) + seq![93u8] =~= seq![93u8]);
        assert(s[pos] == s.subrange(pos, pos + 1)[0]);
    } else if v2.len() == 0 {
        lemma_entries_json_parts(s, pos, v1);
        lemma_entry_json_shape(v1[0]);
        assert(s[pos] == s.subrange(pos, pos + entry_json(v1[0]).len() as int)[0]);
        assert(entries_json(v2) + seq![93u8] =~= seq![93u8]);
        assert(s[pos] == s.subrange(pos, pos + 1)[0]);
    } else {
        lemma_entries_json_parts(s, pos, v1);
        lemma_entries_json_parts(s, pos, v2);
        lemma_entry_json_at_unique(s, pos, v1[0], v2[0]);
        let j = pos + entry_json(v1[0]).len() as int;
        if v1.len() == 1 && v2.len() == 1 {
            assert(v1 =~= seq![v1[0]]);
            assert(v2 =~= seq![v2[0]]);
        } else if v1.len() == 1 {
            assert(s[j] == 93 && s[j] == 44);
        } else if v2.len() == 1 {
            assert(s[j] == 93 && s[j] == 44);
        } else {
            lemma_entries_at_unique(s, j + 1, v1.drop_first(), v2.drop_first());
            assert forall|k: int| 0 <= k < v1.len() implies v1[k] == v2[k] by {
                if k > 0 {
                    assert(v1.drop_first()[k - 1] == v2.drop_first()[k - 1]);
                    assert(v1[k] == v1.drop_first()[k - 1]);
                    assert(v2[k] == v2.drop_first()[k - 1]);
                }
            }
            assert(v1 =~= v2);
        }
    }
}

/// The persisted form carries the book faithfully: equal serializations
/// come only from equal books. Together with the writer's and reader's
/// contracts, identity lookup gives the same answer before a save and
/// after the reload.
pub proof fn lemma_book_json_injective(
    a1: Seq<OrderEntry>,
    b1: Seq<OrderEntry>,
    a2: Seq<OrderEntry>,
    b2: Seq<OrderEntry>,
)
    requires
        book_json(a1, b1) == book_json(a2, b2),
    ensures
        a1 == a2,
        b1 == b2,
{
    let s = book_json(a1, b1);
    lemma_book_json_parts(s, a1, b1);
    lemma_book_json_parts(s, a2, b2);
    lemma_entries_at_unique(s, 9, a1, a2);
    let m3 = 9 + entries_json(a1).len() as int + 10;
    lemma_entries_at_unique(s, m3, b1, b2);
}

} // verus!
