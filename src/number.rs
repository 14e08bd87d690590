//! Decimal and hexadecimal text of integers, as they appear on the wire.
use vstd::prelude::*;

verus! {

/// ASCII `0` to `9`.
pub open spec fn is_digit(c: u8) -> bool {
    48 <= c && c <= 57
}

pub open spec fn digit_char(n: nat) -> u8 {
    (n + 48) as u8
}

/// The decimal digits of `n`, most significant first, with no leading zero.
pub open spec fn dec_nat(n: nat) -> Seq<u8>
    decreases n,
{
    if n < 10 {
        seq![digit_char(n)]
    } else {
        dec_nat(n / 10).push(digit_char(n % 10))
    }
}

/// The decimal text of an integer: a minus sign before the digits of a negative one.
pub open spec fn dec_int(i: int) -> Seq<u8> {
    if i < 0 {
        seq![45u8] + dec_nat((-i) as nat)
    } else {
        dec_nat(i as nat)
    }
}

/// The number that a run of decimal digits denotes.
pub open spec fn digits_value(d: Seq<u8>) -> nat
    decreases d.len(),
{
    if d.len() == 0 {
        0
    } else {
        digits_value(d.drop_last()) * 10 + (d.last() - 48) as nat
    }
}

pub open spec fn all_digits(d: Seq<u8>) -> bool {
    forall|i: int| 0 <= i < d.len() ==> is_digit(#[trigger] d[i])
}

/// A non-empty run of digits without a leading zero (but for `0` itself).
pub open spec fn canonical_digits(d: Seq<u8>) -> bool {
    d.len() >= 1 && all_digits(d) && (d.len() > 1 ==> d[0] != 48)
}

/// `s` holds `t` at offset `pos`.
pub open spec fn holds_at(s: Seq<u8>, pos: int, t: Seq<u8>) -> bool {
    0 <= pos && pos + t.len() <= s.len() && s.subrange(pos, pos + t.len()) == t
}

/// Offset `pos` of `s` is its end or holds a byte that is no digit.
pub open spec fn digits_end_at(s: Seq<u8>, pos: int) -> bool {
    pos == s.len() || (0 <= pos < s.len() && !is_digit(s[pos]))
}

pub proof fn lemma_dec_nat(n: nat)
    ensures
        canonical_digits(dec_nat(n)),
        digits_value(dec_nat(n)) == n,
        n >= 1 ==> dec_nat(n)[0] != 48,
    decreases n,
{
    if n >= 10 {
        lemma_dec_nat(n / 10);
        let d = dec_nat(n);
        assert(d.drop_last() == dec_nat(n / 10));
        assert(d[0] == dec_nat(n / 10)[0]);
        assert forall|i: int| 0 <= i < d.len() implies is_digit(#[trigger] d[i]) by {
            if i < d.len() - 1 {
                assert(d[i] == dec_nat(n / 10)[i]);
            }
        }
        assert((n / 10) * 10 + n % 10 == n) by (nonlinear_arith);
        assert(d.last() == digit_char(n % 10));
        assert(digits_value(d) == digits_value(dec_nat(n / 10)) * 10 + n % 10);
    } else {
        assert(dec_nat(n).drop_last() =~= Seq::<u8>::empty());
        assert(digits_value(dec_nat(n).drop_last()) == 0);
    }
}

pub proof fn lemma_digits_value_bound(d: Seq<u8>, k: int)
    requires
        all_digits(d),
        0 <= k <= d.len(),
    ensures
        digits_value(d.subrange(0, k)) <= digits_value(d),
    decreases d.len(),
{
    if k < d.len() {
        let e = d.drop_last();
        assert(all_digits(e)) by {
            assert forall|i: int| 0 <= i < e.len() implies is_digit(#[trigger] e[i]) by {
                assert(e[i] == d[i]);
            }
        }
        lemma_digits_value_bound(e, k);
        assert(e.subrange(0, k) == d.subrange(0, k));
    } else {
        assert(d.subrange(0, k) == d);
    }
}

pub proof fn lemma_digits_value_positive(d: Seq<u8>)
    requires
        all_digits(d),
        d.len() >= 1,
        d[0] != 48,
    ensures
        digits_value(d) >= 1,
    decreases d.len(),
{
    if d.len() > 1 {
        let e = d.drop_last();
        assert(e[0] == d[0]);
        assert(all_digits(e)) by {
            assert forall|i: int| 0 <= i < e.len() implies is_digit(#[trigger] e[i]) by {
                assert(e[i] == d[i]);
            }
        }
        lemma_digits_value_positive(e);
    } else {
        assert(d.drop_last().len() == 0);
    }
}

pub proof fn lemma_canonical_digits(d: Seq<u8>)
    requires
        canonical_digits(d),
    ensures
        dec_nat(digits_value(d)) == d,
    decreases d.len(),
{
    let v = digits_value(d);
    if d.len() == 1 {
        assert(d.drop_last() =~= Seq::<u8>::empty());
        assert(digits_value(d.drop_last()) == 0);
        assert(is_digit(d[0]));
        assert(dec_nat(v) =~= d);
    } else {
        let e = d.drop_last();
        assert(e[0] == d[0]);
        assert(all_digits(e)) by {
            assert forall|i: int| 0 <= i < e.len() implies is_digit(#[trigger] e[i]) by {
                assert(e[i] == d[i]);
            }
        }
        lemma_canonical_digits(e);
        lemma_digits_value_positive(e);
        let w = digits_value(e);
        let c = (d.last() - 48) as nat;
        assert(is_digit(d[d.len() - 1]));
        assert(v == w * 10 + c);
        assert(v / 10 == w && v % 10 == c) by (nonlinear_arith)
            requires
                v == w * 10 + c,
                c < 10,
        ;
        assert(dec_nat(v) =~= d);
    }
}

/// Appends the decimal digits of `n`.
pub fn write_nat(out: &mut Vec<u8>, n: u64)
    ensures
        final(out)@ == old(out)@ + dec_nat(n as nat),
    decreases n,
{
    if n >= 10 {
        write_nat(out, n / 10);
    }
    out.push((n % 10) as u8 + 48);
    proof {
        if n >= 10 {
            assert(final(out)@ =~= old(out)@ + dec_nat(n as nat));
        } else {
            assert(final(out)@ =~= old(out)@ + dec_nat(n as nat));
        }
    }
}

/// Appends the decimal text of `i`.
pub fn write_int(out: &mut Vec<u8>, i: i32)
    ensures
        final(out)@ == old(out)@ + dec_int(i as int),
{
    if i < 0 {
        out.push(45u8);
        let m: u64 = (-(i as i64)) as u64;
        write_nat(out, m);
        assert(final(out)@ =~= old(out)@ + dec_int(i as int));
    } else {
        write_nat(out, i as u64);
    }
}

/// Reads the run of digits that starts at `pos`. It yields the number and the offset after
/// the run where the run is non-empty, carries no leading zero and denotes at most `limit`.
pub fn scan_nat(s: &[u8], pos: usize, limit: u64) -> (r: Option<(u64, usize)>)
    requires
        pos <= s@.len(),
    ensures
        r matches Some((v, end)) ==> {
            &&& pos < end <= s@.len()
            &&& v <= limit
            &&& s@.subrange(pos as int, end as int) == dec_nat(v as nat)
            &&& digits_end_at(s@, end as int)
        },
        forall|n: nat|
            n <= limit && holds_at(s@, pos as int, #[trigger] dec_nat(n)) && digits_end_at(
                s@,
                pos + dec_nat(n).len(),
            ) ==> r == Some((n as u64, (pos + dec_nat(n).len()) as usize)),
{
    let mut q: usize = pos;
    while q < s.len() && s[q] >= 48 && s[q] <= 57
        invariant
            pos <= q <= s@.len(),
            forall|i: int| pos <= i < q ==> is_digit(#[trigger] s@[i]),
        decreases s@.len() - q,
    {
        q = q + 1;
    }
    let ghost d = s@.subrange(pos as int, q as int);
    assert(all_digits(d)) by {
        assert forall|i: int| 0 <= i < d.len() implies is_digit(#[trigger] d[i]) by {
            assert(d[i] == s@[pos + i]);
        }
    }
    proof {
        assert forall|n: nat|
            n <= limit && holds_at(s@, pos as int, #[trigger] dec_nat(n)) && digits_end_at(
                s@,
                pos + dec_nat(n).len(),
            ) implies dec_nat(n) == d && digits_value(d) == n && canonical_digits(d) by {
            lemma_dec_nat(n);
            let e = dec_nat(n);
            let m = pos + e.len();
            assert forall|i: int| pos <= i < m implies is_digit(s@[i]) by {
                assert(s@[i] == e[i - pos]);
            }
            if q < m {
                assert(is_digit(s@[q as int]));
            }
            if m < q {
                assert(is_digit(s@[m]));
            }
            assert(d =~= e);
        }
    }
    if q == pos || (q - pos > 1 && s[pos] == 48) {
        return None;
    }
    let mut v: u128 = 0;
    let mut i: usize = pos;
    while i < q
        invariant
            pos <= i <= q <= s@.len(),
            d == s@.subrange(pos as int, q as int),
            all_digits(d),
            v == digits_value(d.subrange(0, i - pos)),
            v <= limit,
            forall|n: nat|
                n <= limit && holds_at(s@, pos as int, #[trigger] dec_nat(n)) && digits_end_at(
                    s@,
                    pos + dec_nat(n).len(),
                ) ==> digits_value(d) == n,
        decreases q - i,
    {
        let c = s[i];
        proof {
            assert(d[i - pos] == c);
            let p = d.subrange(0, i - pos + 1);
            assert(p.drop_last() =~= d.subrange(0, i - pos));
            assert(p.last() == c);
            assert(digits_value(p) == v * 10 + (c - 48));
        }
        v = v * 10 + (c - 48) as u128;
        i = i + 1;
        if v > limit as u128 {
            proof {
                lemma_digits_value_bound(d, i - pos);
                assert(v == digits_value(d.subrange(0, i - pos)));
                assert(digits_value(d) > limit);
            }
            return None;
        }
    }
    proof {
        assert(d.subrange(0, q - pos) =~= d);
        lemma_canonical_digits(d);
    }
    Some((v as u64, q))
}

/// The lower-case hexadecimal digit for `n < 16`.
pub open spec fn hex_char(n: nat) -> u8 {
    if n < 10 {
        (n + 48) as u8
    } else {
        (n + 87) as u8
    }
}

/// The last `k` hexadecimal digits of `n`, most significant first, lower case.
pub open spec fn hex_digits(n: nat, k: nat) -> Seq<u8>
    decreases k,
{
    if k == 0 {
        Seq::empty()
    } else {
        hex_digits(n / 16, (k - 1) as nat).push(hex_char(n % 16))
    }
}

/// What a hexadecimal digit stands for, in either case.
pub open spec fn hex_digit_value(c: u8) -> nat {
    if 48 <= c <= 57 {
        (c - 48) as nat
    } else if 97 <= c <= 102 {
        (c - 87) as nat
    } else if 65 <= c <= 70 {
        (c - 55) as nat
    } else {
        0
    }
}

pub open spec fn is_hex_digit(c: u8) -> bool {
    (48 <= c <= 57) || (97 <= c <= 102) || (65 <= c <= 70)
}

/// The number that a run of hexadecimal digits denotes.
pub open spec fn hex_value(d: Seq<u8>) -> nat
    decreases d.len(),
{
    if d.len() == 0 {
        0
    } else {
        hex_value(d.drop_last()) * 16 + hex_digit_value(d.last())
    }
}

pub open spec fn pow16(k: nat) -> nat
    decreases k,
{
    if k == 0 {
        1
    } else {
        16 * pow16((k - 1) as nat)
    }
}

pub proof fn lemma_hex_digits(n: nat, k: nat)
    requires
        n < pow16(k),
    ensures
        hex_value(hex_digits(n, k)) == n,
        hex_digits(n, k).len() == k,
        forall|i: int| 0 <= i < k ==> is_hex_digit(#[trigger] hex_digits(n, k)[i]),
    decreases k,
{
    if k > 0 {
        let p = pow16((k - 1) as nat);
        assert(n / 16 < p && n == (n / 16) * 16 + n % 16) by (nonlinear_arith)
            requires
                n < 16 * p,
        ;
        lemma_hex_digits(n / 16, (k - 1) as nat);
        let h = hex_digits(n, k);
        assert(h.drop_last() == hex_digits(n / 16, (k - 1) as nat));
        assert forall|i: int| 0 <= i < k implies is_hex_digit(#[trigger] h[i]) by {
            if i < k - 1 {
                assert(h[i] == hex_digits(n / 16, (k - 1) as nat)[i]);
            }
        }
    }
}

/// Appends the last `k` hexadecimal digits of `n`, lower case.
pub fn write_hex(out: &mut Vec<u8>, n: u64, k: u32)
    ensures
        final(out)@ == old(out)@ + hex_digits(n as nat, k as nat),
    decreases k,
{
    if k > 0 {
        write_hex(out, n / 16, k - 1);
        let d: u8 = (n % 16) as u8;
        if d < 10 {
            out.push(d + 48);
        } else {
            out.push(d + 87);
        }
        assert(final(out)@ =~= old(out)@ + hex_digits(n as nat, k as nat));
    } else {
        assert(final(out)@ =~= old(out)@ + hex_digits(n as nat, k as nat));
    }
}

/// Reads `b` as a hexadecimal number: `None` where a byte is no hexadecimal digit.
pub fn read_hex(b: &[u8]) -> (r: Option<u64>)
    requires
        b@.len() <= 8,
    ensures
        r is Some <==> (forall|i: int| 0 <= i < b@.len() ==> is_hex_digit(#[trigger] b@[i])),
        r matches Some(v) ==> v == hex_value(b@) && v < 0x1_0000_0000,
{
    let mut v: u64 = 0;
    let mut i: usize = 0;
    while i < b.len()
        invariant
            i <= b@.len() <= 8,
            v == hex_value(b@.subrange(0, i as int)),
            v < pow16(i as nat),
            forall|j: int| 0 <= j < i ==> is_hex_digit(#[trigger] b@[j]),
        decreases b@.len() - i,
    {
        let c = b[i];
        let x: u64 = if 48 <= c && c <= 57 {
            (c - 48) as u64
        } else if 97 <= c && c <= 102 {
            (c - 87) as u64
        } else if 65 <= c && c <= 70 {
            (c - 55) as u64
        } else {
            return None;
        };
        proof {
            let p = b@.subrange(0, i + 1);
            assert(p.drop_last() =~= b@.subrange(0, i as int));
            assert(p.last() == c);
            lemma_pow16_8();
            lemma_pow16_mono(i as nat, 7);
            let w = v as nat;
            let q = pow16(i as nat);
            assert(w * 16 + x < 16 * q) by (nonlinear_arith)
                requires
                    w < q,
                    x < 16,
            ;
        }
        v = v * 16 + x;
        i = i + 1;
    }
    assert(b@.subrange(0, i as int) =~= b@);
    proof {
        lemma_pow16_8();
        lemma_pow16_mono(i as nat, 8);
    }
    Some(v)
}

pub proof fn lemma_pow16_8()
    ensures
        pow16(8) == 0x1_0000_0000,
{
    assert(pow16(0) == 1);
    assert(pow16(1) == 16);
    assert(pow16(2) == 256);
    assert(pow16(3) == 4096);
    assert(pow16(4) == 65536);
    assert(pow16(5) == 1048576);
    assert(pow16(6) == 16777216);
    assert(pow16(7) == 268435456);
}

proof fn lemma_pow16_mono(a: nat, b: nat)
    requires
        a <= b,
    ensures
        pow16(a) <= pow16(b),
    decreases b,
{
    if a < b {
        lemma_pow16_mono(a, (b - 1) as nat);
    }
}

} // verus!
