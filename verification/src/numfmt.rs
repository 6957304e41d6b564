//! Canonical textual forms of the numbers the book persists: decimal
//! digit strings for amounts and prices, lowercase hex for addresses and
//! hashes. The canonical forms are load-bearing: identity lookup works by
//! exact equality of these strings, so each direction is specified
//! exactly and the two directions are proved inverse.

use vstd::prelude::*;

verus! {

/// ASCII digit for one decimal place.
pub open spec fn dec_digit(d: nat) -> u8 {
    (48 + d) as u8
}

/// The canonical decimal string of `n`: no sign, no leading zero.
pub open spec fn dec_str(n: nat) -> Seq<u8>
    decreases n,
{
    if n < 10 {
        seq![dec_digit(n)]
    } else {
        dec_str(n / 10).push(dec_digit(n % 10))
    }
}

pub open spec fn is_dec_digit(b: u8) -> bool {
    48 <= b <= 57
}

pub open spec fn all_dec_digits(s: Seq<u8>) -> bool {
    forall|i: int| 0 <= i < s.len() ==> is_dec_digit(#[trigger] s[i])
}

/// The shape of a canonical decimal string: nonempty, digits only, and
/// no leading zero unless the string is exactly "0".
pub open spec fn is_canonical_dec(s: Seq<u8>) -> bool {
    &&& s.len() > 0
    &&& all_dec_digits(s)
    &&& (s.len() > 1 ==> s[0] != 48)
}

/// The number a digit string denotes.
pub open spec fn dec_val(s: Seq<u8>) -> nat
    decreases s.len(),
{
    if s.len() == 0 {
        0
    } else {
        (dec_val(s.drop_last()) * 10 + (s.last() - 48)) as nat
    }
}

pub proof fn lemma_dec_str_canonical(n: nat)
    ensures
        is_canonical_dec(dec_str(n)),
        dec_val(dec_str(n)) == n,
        dec_str(n)[0] != 48 || n < 10,
    decreases n,
{
    if n < 10 {
        assert(dec_str(n) =~= seq![dec_digit(n)]);
        assert(dec_str(n).drop_last() =~= Seq::<u8>::empty());
        assert(dec_str(n).last() == dec_digit(n));
        assert(dec_digit(n) == 48 + n);
        let s0 = dec_str(n);
        assert(dec_val(s0) == (dec_val(s0.drop_last()) * 10 + (s0.last() - 48)) as nat);
        assert(dec_val(s0.drop_last()) == 0);
        assert(dec_val(s0) == n);
    } else {
        lemma_dec_str_canonical(n / 10);
        let s = dec_str(n);
        assert(s == dec_str(n / 10).push(dec_digit(n % 10)));
        assert(s.drop_last() =~= dec_str(n / 10));
        assert(s.last() == dec_digit(n % 10));
        assert(dec_val(s) == (n / 10) * 10 + n % 10);
        assert((n / 10) * 10 + n % 10 == n) by (nonlinear_arith);
        assert(s[0] == dec_str(n / 10)[0]);
        assert(forall|i: int| 0 <= i < s.len() ==> is_dec_digit(#[trigger] s[i])) by {
            assert(forall|i: int|
                0 <= i < s.len() - 1 ==> s[i] == #[trigger] dec_str(n / 10)[i]);
        }
    }
}

/// A canonical digit string is the decimal string of its own value:
/// formatting and reading back are inverse on canonical strings.
pub proof fn lemma_canonical_dec_inverse(s: Seq<u8>)
    requires
        is_canonical_dec(s),
    ensures
        dec_str(dec_val(s)) == s,
    decreases s.len(),
{
    if s.len() == 1 {
        assert(dec_val(s) == dec_val(s.drop_last()) * 10 + (s.last() - 48));
        assert(s.drop_last() =~= Seq::<u8>::empty());
        assert(dec_val(s) == (s[0] - 48) as nat);
        assert(dec_str(dec_val(s)) =~= seq![dec_digit((s[0] - 48) as nat)]);
        assert(dec_str(dec_val(s)) =~= s);
    } else {
        let t = s.drop_last();
        assert(forall|i: int| 0 <= i < t.len() ==> t[i] == #[trigger] s[i]);
        assert(is_canonical_dec(t));
        lemma_canonical_dec_inverse(t);
        let n = dec_val(s);
        let d = (s.last() - 48) as nat;
        assert(n == dec_val(t) * 10 + d);
        assert(dec_val(t) >= 1) by {
            if dec_val(t) == 0 {
                lemma_dec_val_zero(t);
            }
        }
        assert(n / 10 == dec_val(t) && n % 10 == d) by (nonlinear_arith)
            requires
                n == dec_val(t) * 10 + d,
                d < 10,
        ;
        assert(n >= 10) by (nonlinear_arith)
            requires
                n == dec_val(t) * 10 + d,
                dec_val(t) >= 1,
        ;
        assert(dec_str(n) == dec_str(dec_val(t)).push(dec_digit(d)));
        assert(dec_str(n) =~= s);
    }
}

/// A nonempty digit string with no leading zero has a nonzero value.
proof fn lemma_dec_val_zero(s: Seq<u8>)
    requires
        s.len() > 0,
        all_dec_digits(s),
        s[0] != 48,
    ensures
        dec_val(s) >= 1,
    decreases s.len(),
{
    if s.len() == 1 {
        assert(s.drop_last() =~= Seq::<u8>::empty());
    } else {
        let t = s.drop_last();
        assert(forall|i: int| 0 <= i < t.len() ==> t[i] == #[trigger] s[i]);
        lemma_dec_val_zero(t);
        assert(dec_val(s) == dec_val(t) * 10 + (s.last() - 48));
        assert(dec_val(t) * 10 >= 10) by (nonlinear_arith)
            requires
                dec_val(t) >= 1,
        ;
    }
}

/// Once a digit prefix already denotes at least 6, whatever bytes follow
/// can only grow the denoted value.
proof fn lemma_dec_val_prefix(s: Seq<u8>, i: int)
    requires
        0 <= i <= s.len(),
        dec_val(s.take(i)) >= 6,
    ensures
        dec_val(s.take(i)) <= dec_val(s),
    decreases s.len() - i,
{
    if i < s.len() {
        let x = dec_val(s.take(i));
        let t = s.take(i + 1);
        assert(t.drop_last() =~= s.take(i));
        let e = t.last() - 48;
        assert(e >= -48);
        assert(dec_val(t) == (x * 10 + e) as nat);
        assert(x * 10 + e >= x) by (nonlinear_arith)
            requires
                x >= 6,
                e >= -48,
        ;
        assert(dec_val(t) >= x);
        lemma_dec_val_prefix(s, i + 1);
        assert(s.take(s.len() as int) =~= s);
    } else {
        assert(s.take(i) =~= s);
    }
}

/// Appends the canonical decimal string of `n` to `out`.
pub fn push_dec(n: u128, out: &mut Vec<u8>)
    ensures
        final(out)@ == old(out)@ + dec_str(n as nat),
    decreases n,
{
    if n < 10 {
        out.push(48 + n as u8);
        assert(out@ =~= old(out)@ + dec_str(n as nat));
    } else {
        push_dec(n / 10, out);
        out.push(48 + (n % 10) as u8);
        assert(out@ =~= old(out)@ + dec_str(n as nat));
    }
}

/// Reads a canonical decimal string back into a number. Returns `None`
/// exactly when the input is not `dec_str(n)` for any `n: u128`: a
/// malformed shape, or a value past the range of `u128`.
pub fn parse_dec(s: &[u8]) -> (r: Option<u128>)
    ensures
        match r {
            Some(n) => s@ == dec_str(n as nat),
            None => forall|n: u128| s@ != dec_str(n as nat),
        },
{
    let len = s.len();
    if len == 0 {
        assert forall|n: u128| s@ != dec_str(n as nat) by {
            lemma_dec_str_canonical(n as nat);
        }
        return None;
    }
    if len > 1 && s[0] == 48 {
        assert forall|n: u128| s@ != dec_str(n as nat) by {
            lemma_dec_str_canonical(n as nat);
        }
        return None;
    }
    let mut acc: u128 = 0;
    let mut i: usize = 0;
    while i < len
        invariant
            0 <= i <= len,
            len == s@.len(),
            len > 0,
            len > 1 ==> s@[0] != 48,
            all_dec_digits(s@.take(i as int)),
            acc as nat == dec_val(s@.take(i as int)),
        decreases len - i,
    {
        let b = s[i];
        if b < 48 || b > 57 {
            assert(!is_dec_digit(s@[i as int]));
            assert forall|n: u128| s@ != dec_str(n as nat) by {
                lemma_dec_str_canonical(n as nat);
            }
            return None;
        }
        let d = (b - 48) as u128;
        // acc * 10 + d must stay within u128.
        if acc > (u128::MAX - d) / 10 {
            proof {
                let t = s@.take(i as int + 1);
                assert(t.drop_last() =~= s@.take(i as int));
                assert(dec_val(t) == acc as nat * 10 + d as nat);
                assert(acc as nat * 10 + d as nat > u128::MAX as nat) by (nonlinear_arith)
                    requires
                        acc as nat > ((u128::MAX - d) / 10) as nat,
                        d < 10,
                ;
                lemma_dec_val_prefix(s@, i as int + 1);
                assert(dec_val(s@) > u128::MAX as nat);
                assert forall|n: u128| s@ != dec_str(n as nat) by {
                    lemma_dec_str_canonical(n as nat);
                }
            }
            return None;
        }
        proof {
            assert(acc * 10 + d <= u128::MAX) by (nonlinear_arith)
                requires
                    acc <= (u128::MAX - d) / 10,
                    d < 10,
            ;
        }
        acc = acc * 10 + d;
        proof {
            let t = s@.take(i as int + 1);
            assert(t.drop_last() =~= s@.take(i as int));
            assert(t.last() == b);
        }
        i += 1;
    }
    proof {
        assert(s@.take(len as int) =~= s@);
        assert(is_canonical_dec(s@));
        lemma_canonical_dec_inverse(s@);
    }
    Some(acc)
}

/// Lowercase hex digit for one nibble.
pub open spec fn hex_digit(d: nat) -> u8 {
    if d < 10 {
        (48 + d) as u8
    } else {
        (87 + d) as u8
    }
}

/// The canonical lowercase hex string of a byte sequence, two digits per
/// byte, high nibble first.
pub open spec fn hex_str(bs: Seq<u8>) -> Seq<u8>
    decreases bs.len(),
{
    if bs.len() == 0 {
        Seq::<u8>::empty()
    } else {
        hex_str(bs.drop_last()).push(hex_digit(bs.last() as nat / 16)).push(
            hex_digit(bs.last() as nat % 16),
        )
    }
}

pub open spec fn is_hex_digit(b: u8) -> bool {
    (48 <= b <= 57) || (97 <= b <= 102)
}

pub open spec fn hex_val(b: u8) -> nat {
    if b <= 57 {
        (b - 48) as nat
    } else {
        (b - 87) as nat
    }
}

pub proof fn lemma_hex_str_len(bs: Seq<u8>)
    ensures
        hex_str(bs).len() == 2 * bs.len(),
        forall|i: int| 0 <= i < hex_str(bs).len() ==> is_hex_digit(#[trigger] hex_str(bs)[i]),
    decreases bs.len(),
{
    if bs.len() > 0 {
        lemma_hex_str_len(bs.drop_last());
    }
}

/// Appends the lowercase hex string of `bs` to `out`.
pub fn push_hex(bs: &[u8], out: &mut Vec<u8>)
    ensures
        final(out)@ == old(out)@ + hex_str(bs@),
{
    let len = bs.len();
    let mut i: usize = 0;
    while i < len
        invariant
            0 <= i <= len,
            len == bs@.len(),
            out@ == old(out)@ + hex_str(bs@.take(i as int)),
        decreases len - i,
    {
        let b = bs[i];
        let hi = b / 16;
        let lo = b % 16;
        out.push(if hi < 10 { 48 + hi } else { 87 + hi });
        out.push(if lo < 10 { 48 + lo } else { 87 + lo });
        proof {
            let t = bs@.take(i as int + 1);
            assert(t.drop_last() =~= bs@.take(i as int));
            assert(t.last() == b);
            assert(out@ =~= old(out)@ + hex_str(t));
        }
        i += 1;
    }
    proof {
        assert(bs@.take(len as int) =~= bs@);
    }
}

/// Two hex digits denote one byte; `hex_str` is inverse to reading the
/// digit pairs back.
proof fn lemma_hex_byte_inverse(b: u8)
    ensures
        is_hex_digit(hex_digit(b as nat / 16)),
        is_hex_digit(hex_digit(b as nat % 16)),
        hex_val(hex_digit(b as nat / 16)) == b as nat / 16,
        hex_val(hex_digit(b as nat % 16)) == b as nat % 16,
        hex_val(hex_digit(b as nat / 16)) * 16 + hex_val(hex_digit(b as nat % 16)) == b as nat,
{
    assert(b as nat / 16 * 16 + b as nat % 16 == b as nat) by (nonlinear_arith);
}

/// Reads `n` bytes of lowercase hex starting at `pos`. Returns `None`
/// exactly when the `2 * n` characters there are not the canonical hex
/// string of any byte sequence.
pub fn parse_hex(s: &[u8], pos: usize, n: usize) -> (r: Option<Vec<u8>>)
    requires
        pos + 2 * n <= s@.len(),
    ensures
        match r {
            Some(v) => v@.len() == n && s@.subrange(pos as int, pos as int + 2 * n)
                == hex_str(v@),
            None => forall|bs: Seq<u8>|
                bs.len() == n ==> s@.subrange(pos as int, pos as int + 2 * n) != hex_str(bs),
        },
{
    let ghost region = s@.subrange(pos as int, pos as int + 2 * n);
    let slen = s.len();
    let mut v: Vec<u8> = Vec::new();
    let mut i: usize = 0;
    while i < n
        invariant
            0 <= i <= n,
            pos + 2 * n <= slen,
            slen == s@.len(),
            region == s@.subrange(pos as int, pos as int + 2 * n),
            v@.len() == i,
            region.take(2 * i as int) == hex_str(v@),
        decreases n - i,
    {
        assert(pos + 2 * i + 1 < pos + 2 * n);
        let c1 = s[pos + 2 * i];
        let c2 = s[pos + 2 * i + 1];
        assert(region[2 * i as int] == c1 && region[2 * i as int + 1] == c2);
        let h1: u8 = if 48 <= c1 && c1 <= 57 {
            c1 - 48
        } else if 97 <= c1 && c1 <= 102 {
            c1 - 87
        } else {
            proof {
                lemma_hex_not_digit(region, 2 * i as int, c1);
            }
            return None;
        };
        let h2: u8 = if 48 <= c2 && c2 <= 57 {
            c2 - 48
        } else if 97 <= c2 && c2 <= 102 {
            c2 - 87
        } else {
            proof {
                lemma_hex_not_digit(region, 2 * i as int + 1, c2);
            }
            return None;
        };
        let b = h1 * 16 + h2;
        let ghost pre = v@;
        v.push(b);
        proof {
            let t = v@;
            assert(t == pre.push(b));
            assert(t.drop_last() =~= pre);
            assert(t.last() == b);
            lemma_hex_byte_inverse(b);
            assert(hex_digit(b as nat / 16) == c1 && hex_digit(b as nat % 16) == c2) by {
                assert(b as nat / 16 == h1 as nat && b as nat % 16 == h2 as nat)
                    by (nonlinear_arith)
                    requires
                        b == h1 * 16 + h2,
                        h1 < 16,
                        h2 < 16,
                ;
            }
            assert(region.take(2 * i as int + 2) =~= hex_str(t));
        }
        i += 1;
    }
    proof {
        assert(region.take(2 * n as int) =~= region);
    }
    Some(v)
}

/// If position `j` of a region holds a non-hex character, the region is
/// the hex string of no byte sequence of the matching length.
proof fn lemma_hex_not_digit(region: Seq<u8>, j: int, c: u8)
    requires
        0 <= j < region.len(),
        region[j] == c,
        !is_hex_digit(c),
    ensures
        forall|bs: Seq<u8>| 2 * bs.len() == region.len() ==> region != hex_str(bs),
{
    assert forall|bs: Seq<u8>| 2 * bs.len() == region.len() implies region != hex_str(bs) by {
        lemma_hex_str_len(bs);
    }
}

} // verus!
