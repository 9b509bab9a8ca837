//! Unsigned numbers as ASCII digits: the decimal of `Content-Length` and the
//! hexadecimal of a chunk-size line.

use vstd::prelude::*;

verus! {

/// The value of one digit in the given radix (10 or 16), if it is one.
pub open spec fn digit_value(b: u8, radix: nat) -> Option<nat> {
    if 48 <= b <= 57 {
        Some((b - 48) as nat)
    } else if radix == 16 && 97 <= b <= 102 {
        Some((b - 87) as nat)
    } else if radix == 16 && 65 <= b <= 70 {
        Some((b - 55) as nat)
    } else {
        None
    }
}

/// Every byte of `s` is a digit of the radix.
pub open spec fn all_digits(s: Seq<u8>, radix: nat) -> bool {
    forall|i: int| 0 <= i < s.len() ==> (#[trigger] digit_value(s[i], radix)) is Some
}

/// The number that a run of digits writes, most significant digit first.
pub open spec fn digits_value(s: Seq<u8>, radix: nat) -> nat
    decreases s.len(),
{
    if s.len() == 0 {
        0
    } else {
        digits_value(s.drop_last(), radix) * radix + digit_value(s.last(), radix).unwrap_or(0)
    }
}

/// The digits that follow an optional leading `+`.
pub open spec fn unsigned_body(s: Seq<u8>) -> Seq<u8> {
    if s.len() > 0 && s[0] == 43 {
        s.skip(1)
    } else {
        s
    }
}

/// The number that `s` writes: an optional `+`, then one or more digits, the
/// value fitting a `usize`. Anything else writes no number.
pub open spec fn parse_number(s: Seq<u8>, radix: nat) -> Option<usize> {
    let body = unsigned_body(s);
    if body.len() > 0 && all_digits(body, radix) && digits_value(body, radix) <= usize::MAX {
        Some(digits_value(body, radix) as usize)
    } else {
        None
    }
}

/// The upper-case digit that writes `d`.
pub open spec fn digit_char(d: nat) -> u8 {
    if d < 10 {
        (48 + d) as u8
    } else {
        (55 + d) as u8
    }
}

/// The shortest run of digits that writes `n`; zero is the single digit `0`.
pub open spec fn format_number(n: nat, radix: nat) -> Seq<u8>
    recommends
        radix == 10 || radix == 16,
    decreases n,
    via format_number_decreases
{
    if radix < 2 || n < radix {
        seq![digit_char(n)]
    } else {
        format_number(n / radix, radix).push(digit_char(n % radix))
    }
}

#[via_fn]
proof fn format_number_decreases(n: nat, radix: nat) {
    if !(radix < 2 || n < radix) {
        lemma_quotient_smaller(n, radix);
    }
}

/// Dividing a positive number by two or more makes it smaller.
pub proof fn lemma_quotient_smaller(n: nat, radix: nat)
    requires
        radix >= 2,
        n >= 1,
    ensures
        n / radix < n,
{
    assert(n / radix < n) by (nonlinear_arith)
        requires
            radix >= 2,
            n >= 1,
    ;
}

/// The value of a run of digits never shrinks when digits are added behind.
pub proof fn lemma_digits_value_prefix(s: Seq<u8>, k: int, radix: nat)
    requires
        0 <= k <= s.len(),
        radix >= 1,
    ensures
        digits_value(s.take(k), radix) <= digits_value(s, radix),
    decreases s.len() - k,
{
    if k == s.len() {
        assert(s.take(k) =~= s);
    } else {
        lemma_digits_value_prefix(s.drop_last(), k, radix);
        assert(s.drop_last().take(k) =~= s.take(k));
        let v = digits_value(s.drop_last(), radix);
        assert(v <= v * radix) by (nonlinear_arith)
            requires
                radix >= 1,
                v >= 0,
        ;
    }
}

/// Formatting writes digits only, at least one, and they write the number
/// back.
pub proof fn lemma_format_number(n: nat, radix: nat)
    requires
        radix == 10 || radix == 16,
    ensures
        format_number(n, radix).len() > 0,
        all_digits(format_number(n, radix), radix),
        digits_value(format_number(n, radix), radix) == n,
        format_number(n, radix)[0] != 43,
        forall|i: int|
            0 <= i < format_number(n, radix).len() ==> format_number(n, radix)[i] != 13
                && format_number(n, radix)[i] != 10,
    decreases n,
{
    let f = format_number(n, radix);
    if n < radix {
        assert(f =~= seq![digit_char(n)]);
        assert(f.drop_last() =~= Seq::<u8>::empty());
        assert(digit_value(digit_char(n), radix) == Some(n));
        assert(digits_value(f.drop_last(), radix) == 0);
        assert(digits_value(f, radix) == 0 * radix + n);
    } else {
        let q = n / radix;
        let r = n % radix;
        lemma_format_number(q, radix);
        let fq = format_number(q, radix);
        assert(f == fq.push(digit_char(r)));
        assert(f.drop_last() =~= fq);
        assert(f.last() == digit_char(r));
        assert(digit_value(digit_char(r), radix) == Some(r));
        assert(q * radix + r == n) by (nonlinear_arith)
            requires
                q == n / radix,
                r == n % radix,
                radix > 0,
        ;
        assert forall|i: int| 0 <= i < f.len() implies (#[trigger] digit_value(f[i], radix)) is Some by {
            if i < fq.len() {
                assert(f[i] == fq[i]);
            }
        }
        assert(f[0] == fq[0]);
        assert forall|i: int| 0 <= i < f.len() implies f[i] != 13 && f[i] != 10 by {
            if i < fq.len() {
                assert(f[i] == fq[i]);
            }
        }
    }
}

/// A number that fits a `usize` is read back from its formatted digits.
pub proof fn lemma_parse_format(n: nat, radix: nat)
    requires
        radix == 10 || radix == 16,
        n <= usize::MAX,
    ensures
        parse_number(format_number(n, radix), radix) == Some(n as usize),
{
    lemma_format_number(n, radix);
    let f = format_number(n, radix);
    assert(unsigned_body(f) == f);
}

/// The value of one digit, for a radix of 10 or 16.
pub fn digit_of(b: u8, radix: usize) -> (d: Option<usize>)
    requires
        radix == 10 || radix == 16,
    ensures
        match d {
            Some(v) => digit_value(b, radix as nat) == Some(v as nat) && v < radix,
            None => digit_value(b, radix as nat) is None,
        },
{
    if 48 <= b && b <= 57 {
        Some((b - 48) as usize)
    } else if radix == 16 && 97 <= b && b <= 102 {
        Some((b - 87) as usize)
    } else if radix == 16 && 65 <= b && b <= 70 {
        Some((b - 55) as usize)
    } else {
        None
    }
}

/// Reads the number that `s` writes in the given radix.
pub fn parse_unsigned(s: &[u8], radix: usize) -> (out: Option<usize>)
    requires
        radix == 10 || radix == 16,
    ensures
        out == parse_number(s@, radix as nat),
{
    let start: usize = if s.len() > 0 && s[0] == 43 { 1 } else { 0 };
    let ghost body = unsigned_body(s@);
    assert(body =~= s@.skip(start as int));
    if start == s.len() {
        return None;
    }
    let mut acc: usize = 0;
    let mut i: usize = start;
    while i < s.len()
        invariant
            radix == 10 || radix == 16,
            start <= i <= s.len(),
            body == s@.skip(start as int),
            body == unsigned_body(s@),
            body.len() > 0,
            all_digits(body.take(i - start), radix as nat),
            acc == digits_value(body.take(i - start), radix as nat),
        decreases s.len() - i,
    {
        let ghost prefix = body.take(i - start);
        let ghost longer = body.take(i - start + 1);
        assert(longer.drop_last() =~= prefix);
        assert(longer.last() == s@[i as int]);
        match digit_of(s[i], radix) {
            None => {
                assert(body[i - start] == s@[i as int]);
                assert(!all_digits(body, radix as nat));
                return None;
            },
            Some(d) => {
                if acc > (usize::MAX - d) / radix {
                    proof {
                        assert(acc * radix + d > usize::MAX) by (nonlinear_arith)
                            requires
                                acc > (usize::MAX - d) / (radix as int),
                                radix > 0,
                                d <= usize::MAX,
                        ;
                        assert(digits_value(longer, radix as nat) == acc * radix + d);
                        lemma_digits_value_prefix(body, i - start + 1, radix as nat);
                    }
                    return None;
                }
                assert(acc * radix + d <= usize::MAX) by (nonlinear_arith)
                    requires
                        acc <= (usize::MAX - d) / (radix as int),
                        radix > 0,
                        d <= usize::MAX,
                ;
                acc = acc * radix + d;
                assert forall|j: int| 0 <= j < longer.len() implies (#[trigger] digit_value(
                    longer[j],
                    radix as nat,
                )) is Some by {
                    if j < prefix.len() {
                        assert(longer[j] == prefix[j]);
                    }
                }
                i = i + 1;
            },
        }
    }
    assert(body.take(i - start) =~= body);
    Some(acc)
}

/// Appends to `buf` the digits that write `n` in the given radix.
pub fn write_unsigned(buf: &mut Vec<u8>, n: usize, radix: usize)
    requires
        radix == 10 || radix == 16,
    ensures
        final(buf)@ == old(buf)@ + format_number(n as nat, radix as nat),
    decreases n,
{
    if n >= radix {
        proof {
            lemma_quotient_smaller(n as nat, radix as nat);
        }
        write_unsigned(buf, n / radix, radix);
    }
    let d: usize = n % radix;
    let c: u8 = if d < 10 { (48 + d) as u8 } else { (55 + d) as u8 };
    buf.push(c);
    assert(final(buf)@ =~= old(buf)@ + format_number(n as nat, radix as nat));
}

} // verus!
