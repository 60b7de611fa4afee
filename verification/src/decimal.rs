//! Unsigned decimal numbers in text, written and read as `u64`'s
//! `Display` and `FromStr` do.

use vstd::prelude::*;

verus! {

/// An ASCII digit.
pub open spec fn is_digit(b: u8) -> bool {
    48 <= b <= 57
}

/// Every byte is an ASCII digit.
pub open spec fn all_digits(d: Seq<u8>) -> bool {
    forall|i: int| 0 <= i < d.len() ==> is_digit(#[trigger] d[i])
}

/// The number that a string of decimal digits denotes.
pub open spec fn digits_value(d: Seq<u8>) -> nat
    decreases d.len(),
{
    if d.len() == 0 {
        0
    } else {
        digits_value(d.drop_last()) * 10 + (d.last() - 48) as nat
    }
}

/// The digits of `s` once one leading `+` is dropped.
pub open spec fn unsigned_digits(s: Seq<u8>) -> Seq<u8> {
    if s.len() > 0 && s[0] == 43u8 {
        s.drop_first()
    } else {
        s
    }
}

/// The value of `s` read as an unsigned decimal number: an optional `+`
/// followed by one or more ASCII digits; `None` for anything else.
pub open spec fn unsigned_value(s: Seq<u8>) -> Option<nat> {
    let d = unsigned_digits(s);
    if d.len() > 0 && all_digits(d) {
        Some(digits_value(d))
    } else {
        None
    }
}

/// The result of parsing `s` into an unsigned type whose largest value
/// is `max`: the value where `s` is a number no greater than `max`.
pub open spec fn parse_unsigned_spec(s: Seq<u8>, max: nat) -> Option<nat> {
    match unsigned_value(s) {
        Some(v) => if v <= max {
            Some(v)
        } else {
            None
        },
        None => None,
    }
}

proof fn lemma_digits_value_push(d: Seq<u8>, b: u8)
    ensures
        digits_value(d.push(b)) == digits_value(d) * 10 + (b - 48) as nat,
{
    assert(d.push(b).drop_last() =~= d);
}

proof fn lemma_prefix_value(p: Seq<u8>, d: Seq<u8>)
    requires
        p.len() <= d.len(),
        p == d.take(p.len() as int),
        all_digits(d),
    ensures
        digits_value(p) <= digits_value(d),
    decreases d.len(),
{
    if d.len() == p.len() {
        assert(p =~= d);
    } else {
        let e = d.drop_last();
        assert(p =~= e.take(p.len() as int));
        assert(all_digits(e)) by {
            assert forall|i: int| 0 <= i < e.len() implies is_digit(#[trigger] e[i]) by {
                assert(e[i] == d[i]);
            }
        }
        lemma_prefix_value(p, e);
    }
}

/// Parses `s` as an unsigned decimal number no greater than `max`, as
/// `str::parse` does for an unsigned type whose largest value is `max`.
pub fn parse_unsigned(s: &Vec<u8>, max: u64) -> (r: Option<u64>)
    ensures
        match r {
            Some(v) => parse_unsigned_spec(s@, max as nat) == Some(v as nat),
            None => parse_unsigned_spec(s@, max as nat) is None,
        },
{
    let n = s.len();
    let mut start: usize = 0;
    if n > 0 && s[0] == 43u8 {
        start = 1;
    }
    let ghost d = unsigned_digits(s@);
    assert(d =~= s@.subrange(start as int, n as int));
    if start == n {
        return None;
    }
    let mut acc: u64 = 0;
    let mut k: usize = start;
    while k < n
        invariant
            start <= k <= n,
            n == s@.len(),
            d == s@.subrange(start as int, n as int),
            d == unsigned_digits(s@),
            d.len() > 0,
            acc <= max,
            all_digits(s@.subrange(start as int, k as int)),
            acc as nat == digits_value(s@.subrange(start as int, k as int)),
        decreases n - k,
    {
        let b = s[k];
        let ghost pre = s@.subrange(start as int, k as int);
        assert(s@.subrange(start as int, k + 1) =~= pre.push(b));
        proof {
            lemma_digits_value_push(pre, b);
        }
        if b < 48u8 || b > 57u8 {
            assert(d[k - start] == b);
            assert(!is_digit(d[k - start]));
            assert(!all_digits(d));
            assert(unsigned_value(s@) is None);
            return None;
        }
        let digit: u64 = (b - 48u8) as u64;
        if digit > max || acc > (max - digit) / 10 {
            proof {
                if digit <= max {
                    assert(acc * 10 + digit > max) by (nonlinear_arith)
                        requires
                            acc > (max - digit) / 10,
                            digit <= max,
                    ;
                }
                let p = s@.subrange(start as int, k + 1);
                assert(digits_value(p) > max);
                if all_digits(d) {
                    assert(p =~= d.take(p.len() as int));
                    lemma_prefix_value(p, d);
                    assert(unsigned_value(s@) == Some(digits_value(d)));
                }
            }
            return None;
        }
        proof {
            assert(acc * 10 + digit <= max) by (nonlinear_arith)
                requires
                    acc <= (max - digit) / 10,
                    digit <= max,
            ;
        }
        acc = acc * 10 + digit;
        k = k + 1;
    }
    Some(acc)
}

/// The decimal digits of `n`, most significant first, without leading
/// zeros: what `Display` writes for an unsigned integer.
pub open spec fn decimal_spec(n: nat) -> Seq<u8>
    decreases n,
{
    if n < 10 {
        seq![(48 + n) as u8]
    } else {
        decimal_spec(n / 10).push((48 + n % 10) as u8)
    }
}

/// The decimal text of `n` is one or more digits whose value is `n`.
pub proof fn lemma_decimal_digits(n: nat)
    ensures
        decimal_spec(n).len() >= 1,
        all_digits(decimal_spec(n)),
        digits_value(decimal_spec(n)) == n,
    decreases n,
{
    if n >= 10 {
        lemma_decimal_digits(n / 10);
        let d = decimal_spec(n / 10);
        lemma_digits_value_push(d, (48 + n % 10) as u8);
        assert(n == (n / 10) * 10 + n % 10);
        assert forall|i: int| 0 <= i < decimal_spec(n).len() implies is_digit(
            #[trigger] decimal_spec(n)[i],
        ) by {
            if i < d.len() {
                assert(decimal_spec(n)[i] == d[i]);
            }
        }
    } else {
        lemma_digits_value_push(Seq::empty(), (48 + n) as u8);
        assert(Seq::<u8>::empty().push((48 + n) as u8) =~= decimal_spec(n));
    }
}

/// Writing a number in decimal and reading it back gives the number.
pub proof fn lemma_decimal_round_trip(n: nat, max: nat)
    requires
        n <= max,
    ensures
        parse_unsigned_spec(decimal_spec(n), max) == Some(n),
{
    lemma_decimal_digits(n);
    assert(decimal_spec(n)[0] != 43u8) by {
        assert(is_digit(decimal_spec(n)[0]));
    }
    assert(unsigned_digits(decimal_spec(n)) == decimal_spec(n));
}

/// Writes `n` in decimal, as `n.to_string()` does.
pub fn format_decimal(n: u64) -> (r: Vec<u8>)
    ensures
        r@ == decimal_spec(n as nat),
    decreases n,
{
    if n < 10 {
        let mut r: Vec<u8> = Vec::new();
        r.push(48u8 + (n as u8));
        assert(r@ =~= decimal_spec(n as nat));
        r
    } else {
        let mut r = format_decimal(n / 10);
        r.push(48u8 + ((n % 10) as u8));
        r
    }
}

} // verus!
