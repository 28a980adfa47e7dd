//! Decimal and hexadecimal numerals, as used by `Content-Length` and by
//! chunk-size lines.

use vstd::prelude::*;

verus! {

/// The value of an ASCII digit (`0-9`, `a-f`, `A-F`); 99 for any other byte.
pub open spec fn digit_val(b: u8) -> int {
    if 48 <= b <= 57 {
        b - 48
    } else if 97 <= b <= 102 {
        b - 87
    } else if 65 <= b <= 70 {
        b - 55
    } else {
        99
    }
}

/// A non-empty run of digits of the given base.
pub open spec fn is_numeral(s: Seq<u8>, base: int) -> bool {
    s.len() > 0 && forall|i: int| 0 <= i < s.len() ==> digit_val(#[trigger] s[i]) < base
}

/// The number that the digits of `s` stand for in the given base.
pub open spec fn numeral_value(s: Seq<u8>, base: int) -> int
    decreases s.len(),
{
    if s.len() == 0 {
        0
    } else {
        numeral_value(s.drop_last(), base) * base + digit_val(s.last())
    }
}

/// The value of `s` where it is a numeral whose value fits in a `usize`.
pub open spec fn numeral_of(s: Seq<u8>, base: int) -> Option<int> {
    if is_numeral(s, base) && numeral_value(s, base) <= usize::MAX {
        Some(numeral_value(s, base))
    } else {
        None
    }
}

pub proof fn lemma_numeral_nonneg(s: Seq<u8>, base: int)
    requires
        2 <= base <= 16,
        forall|j: int| 0 <= j < s.len() ==> digit_val(#[trigger] s[j]) < base,
    ensures
        numeral_value(s, base) >= 0,
    decreases s.len(),
{
    if s.len() > 0 {
        lemma_numeral_nonneg(s.drop_last(), base);
        let p = numeral_value(s.drop_last(), base);
        assert(p * base >= 0) by (nonlinear_arith)
            requires
                p >= 0,
                base >= 2,
        ;
    }
}

proof fn lemma_numeral_prefix_le(s: Seq<u8>, base: int, i: int, k: int)
    requires
        2 <= base <= 16,
        0 <= i <= k <= s.len(),
        forall|j: int| 0 <= j < k ==> digit_val(#[trigger] s[j]) < base,
    ensures
        numeral_value(s.subrange(0, i), base) <= numeral_value(s.subrange(0, k), base),
    decreases k - i,
{
    if i < k {
        lemma_numeral_prefix_le(s, base, i, k - 1);
        assert(s.subrange(0, k).drop_last() =~= s.subrange(0, k - 1));
        lemma_numeral_nonneg(s.subrange(0, k - 1), base);
        let p = numeral_value(s.subrange(0, k - 1), base);
        let d = digit_val(s[k - 1]);
        assert(p <= p * base + d) by (nonlinear_arith)
            requires
                p >= 0,
                base >= 2,
                d >= 0,
        ;
    }
}

/// Reads `s` as a numeral of base 10 or 16.
pub fn parse_numeral(s: &[u8], base: u8) -> (r: Option<usize>)
    requires
        base == 10 || base == 16,
    ensures
        match r {
            Some(n) => numeral_of(s@, base as int) == Some(n as int),
            None => numeral_of(s@, base as int) is None,
        },
{
    let n = s.len();
    if n == 0 {
        return None;
    }
    let mut v: usize = 0;
    let mut i: usize = 0;
    while i < n
        invariant
            n == s@.len(),
            base == 10 || base == 16,
            i <= n,
            forall|j: int| 0 <= j < i ==> digit_val(#[trigger] s@[j]) < base,
            v == numeral_value(s@.subrange(0, i as int), base as int),
        decreases n - i,
    {
        let c = s[i];
        let d: u8 = if 48u8 <= c && c <= 57u8 {
            c - 48
        } else if 97u8 <= c && c <= 102u8 {
            c - 87
        } else if 65u8 <= c && c <= 70u8 {
            c - 55
        } else {
            99
        };
        if d >= base {
            return None;
        }
        assert(s@.subrange(0, i + 1).drop_last() =~= s@.subrange(0, i as int));
        if v > (usize::MAX - d as usize) / (base as usize) {
            proof {
                let b = base as int;
                let dd = d as int;
                assert(v * b + dd > usize::MAX) by (nonlinear_arith)
                    requires
                        v > (usize::MAX - dd) / b,
                        b > 0,
                        dd >= 0,
                ;
                if is_numeral(s@, base as int) {
                    lemma_numeral_prefix_le(s@, base as int, i + 1, n as int);
                    assert(s@.subrange(0, n as int) =~= s@);
                }
            }
            return None;
        }
        proof {
            let b = base as int;
            let dd = d as int;
            assert(v * b + dd <= usize::MAX) by (nonlinear_arith)
                requires
                    v <= (usize::MAX - dd) / b,
                    b > 0,
                    dd >= 0,
            ;
        }
        v = v * (base as usize) + d as usize;
        i = i + 1;
    }
    assert(s@.subrange(0, n as int) =~= s@);
    Some(v)
}

/// The ASCII digit for `d` (lower case beyond 9).
pub open spec fn digit_char(d: int) -> u8 {
    if d < 10 {
        (48 + d) as u8
    } else {
        (87 + d) as u8
    }
}

/// The digits of `n` in the given base, most significant first, no leading zero.
pub open spec fn numeral_text(n: nat, base: nat) -> Seq<u8>
    decreases n,
    via numeral_text_decreases
{
    if base < 2 || n < base {
        seq![digit_char(n as int)]
    } else {
        numeral_text(n / base, base).push(digit_char((n % base) as int))
    }
}

#[via_fn]
proof fn numeral_text_decreases(n: nat, base: nat) {
    if !(base < 2 || n < base) {
        assert(n / base < n) by (nonlinear_arith)
            requires
                n >= base,
                base >= 2,
        ;
    }
}

/// Appends the digits of `n` in base 10 or 16 to `dst`.
pub fn push_numeral(dst: &mut Vec<u8>, n: usize, base: usize)
    requires
        base == 10 || base == 16,
    ensures
        final(dst)@ == old(dst)@ + numeral_text(n as nat, base as nat),
    decreases n,
{
    if n >= base {
        assert(n / base < n) by (nonlinear_arith)
            requires
                n >= base,
                base >= 2,
        ;
        push_numeral(dst, n / base, base);
    }
    let d = n % base;
    let c: u8 = if d < 10 {
        48 + d as u8
    } else {
        87 + d as u8
    };
    dst.push(c);
    proof {
        if n >= base {
            assert(final(dst)@ =~= old(dst)@ + numeral_text(n as nat, base as nat));
        } else {
            assert(d == n);
            assert(final(dst)@ =~= old(dst)@ + numeral_text(n as nat, base as nat));
        }
    }
}

proof fn lemma_digit_char(d: int)
    requires
        0 <= d < 16,
    ensures
        digit_val(digit_char(d)) == d,
{
}

/// Reading back the digits that [`numeral_text`] writes gives the number.
pub proof fn lemma_numeral_text_value(n: nat, base: nat)
    requires
        base == 10 || base == 16,
    ensures
        is_numeral(numeral_text(n, base), base as int),
        numeral_value(numeral_text(n, base), base as int) == n,
    decreases n,
{
    let t = numeral_text(n, base);
    if n < base {
        lemma_digit_char(n as int);
        assert(t.drop_last() =~= Seq::<u8>::empty());
        assert(numeral_value(t.drop_last(), base as int) == 0);
        assert(numeral_value(t, base as int) == 0 * base + n);
    } else {
        assert(n / base < n && n % base < base) by (nonlinear_arith)
            requires
                n >= base,
                base >= 2,
        ;
        lemma_digit_char((n % base) as int);
        assert(n == (n / base) * base + n % base) by (nonlinear_arith)
            requires
                base >= 2,
        ;
        lemma_numeral_text_value(n / base, base);
        let p = numeral_text(n / base, base);
        assert(t.drop_last() =~= p);
        assert forall|i: int| 0 <= i < t.len() implies digit_val(#[trigger] t[i]) < base by {
            if i < p.len() {
                assert(t[i] == p[i]);
            }
        }
        assert(t.last() == digit_char((n % base) as int));
        let q = numeral_value(p, base as int);
        assert(q == n / base);
        assert(numeral_value(t, base as int) == q * base + (n % base));
    }
}

} // verus!
