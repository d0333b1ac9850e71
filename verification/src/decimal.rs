//! Decimal integers written in ASCII, read the way `u64::from_str` reads them.

use vstd::prelude::*;
use vstd::string::*;

verus! {

/// True for the ASCII digits `0` to `9`.
pub open spec fn is_digit(b: u8) -> bool {
    48 <= b <= 57
}

/// The value of a run of ASCII digits, most significant first.
pub open spec fn digits_value(d: Seq<u8>) -> nat
    decreases d.len(),
{
    if d.len() == 0 {
        0
    } else {
        (digits_value(d.drop_last()) * 10 + (d.last() - 48)) as nat
    }
}

/// Every byte of `d` is an ASCII digit.
pub open spec fn all_digits(d: Seq<u8>) -> bool {
    forall|i: int| 0 <= i < d.len() ==> is_digit(#[trigger] d[i])
}

/// What `u64::from_str` gives for the bytes `p`: an optional leading `+`,
/// then one or more ASCII digits whose value fits in a `u64`.
pub open spec fn spec_parse_u64(p: Seq<u8>) -> Option<u64> {
    let d = if p.len() > 0 && p[0] == 43 { p.drop_first() } else { p };
    if p.len() > 0 && d.len() > 0 && all_digits(d) && digits_value(d) <= u64::MAX {
        Some(digits_value(d) as u64)
    } else {
        None
    }
}

/// A longer run of digits never has a smaller value than its prefix.
proof fn lemma_digits_value_prefix(d: Seq<u8>, k: int)
    requires
        0 <= k <= d.len(),
        all_digits(d),
    ensures
        digits_value(d.subrange(0, k)) <= digits_value(d),
    decreases d.len() - k,
{
    if k < d.len() {
        lemma_digits_value_prefix(d, k + 1);
        let p = d.subrange(0, k + 1);
        assert(p.drop_last() =~= d.subrange(0, k));
        assert(is_digit(d[k]));
    } else {
        assert(d.subrange(0, k) =~= d);
    }
}

/// Reads a decimal `u64` from `p` as `u64::from_str` does, or gives `None`
/// where `u64::from_str` reports an error.
pub fn parse_u64(p: &[u8]) -> (r: Option<u64>)
    ensures
        r == spec_parse_u64(p@),
{
    let n = p.len();
    if n == 0 {
        return None;
    }
    let start: usize = if p[0] == 43 { 1 } else { 0 };
    let ghost d = if p@[0] == 43 { p@.drop_first() } else { p@ };
    assert(d =~= p@.subrange(start as int, n as int));
    if start == n {
        return None;
    }
    let mut acc: u64 = 0;
    let mut i: usize = start;
    while i < n
        invariant
            start <= i <= n,
            n == p@.len(),
            start < n,
            d == (if p@.len() > 0 && p@[0] == 43 { p@.drop_first() } else { p@ }),
            d =~= p@.subrange(start as int, n as int),
            all_digits(d.subrange(0, i - start)),
            acc as nat == digits_value(d.subrange(0, i - start)),
        decreases n - i,
    {
        let c = p[i];
        let ghost k = i - start;
        assert(d.subrange(0, k + 1).drop_last() =~= d.subrange(0, k));
        assert(d[k] == c);
        if c < 48 || c > 57 {
            assert(!all_digits(d)) by {
                assert(!is_digit(d[k]));
            }
            return None;
        }
        let v: u64 = (c - 48) as u64;
        if acc > (u64::MAX - v) / 10 {
            proof {
                assert(acc * 10 + v > u64::MAX) by (nonlinear_arith)
                    requires
                        acc > (u64::MAX - v) / 10,
                        v <= 9,
                ;
                if all_digits(d) {
                    lemma_digits_value_prefix(d, k + 1);
                }
            }
            return None;
        }
        assert(acc * 10 + v <= u64::MAX) by (nonlinear_arith)
            requires
                acc <= (u64::MAX - v) / 10,
                v <= 9,
        ;
        acc = acc * 10 + v;
        i = i + 1;
        assert(all_digits(d.subrange(0, i - start))) by {
            assert forall|j: int| 0 <= j < i - start implies is_digit(
                #[trigger] d.subrange(0, i - start)[j],
            ) by {
                if j < k {
                    assert(d.subrange(0, i - start)[j] == d.subrange(0, k)[j]);
                }
            }
        }
    }
    assert(d.subrange(0, n - start) =~= d);
    Some(acc)
}

/// The decimal digits of `n`, most significant first, without leading zeros.
pub open spec fn decimal_bytes(n: nat) -> Seq<u8>
    decreases n,
{
    if n < 10 {
        seq![(48 + n) as u8]
    } else {
        decimal_bytes(n / 10).push((48 + n % 10) as u8)
    }
}

/// The characters of ASCII bytes.
pub open spec fn ascii_text(b: Seq<u8>) -> Seq<char> {
    b.map_values(|c: u8| c as char)
}

/// The decimal digits of `n` are digits, and their value is `n`.
pub proof fn lemma_decimal_value(n: nat)
    ensures
        all_digits(decimal_bytes(n)),
        digits_value(decimal_bytes(n)) == n,
        decimal_bytes(n).len() > 0,
    decreases n,
{
    if n >= 10 {
        lemma_decimal_value(n / 10);
        let d = decimal_bytes(n);
        assert(d.drop_last() =~= decimal_bytes(n / 10));
        assert(n == (n / 10) * 10 + n % 10) by (nonlinear_arith);
        assert(d.last() - 48 == n % 10);
        assert(digits_value(d) == digits_value(decimal_bytes(n / 10)) * 10 + n % 10);
        assert forall|i: int| 0 <= i < d.len() implies is_digit(#[trigger] d[i]) by {
            if i < d.len() - 1 {
                assert(d[i] == decimal_bytes(n / 10)[i]);
            }
        }
    } else {
        let d = decimal_bytes(n);
        assert(d.drop_last() =~= seq![]);
        assert(digits_value(d.drop_last()) == 0);
        assert(digits_value(d) == n);
    }
}

/// Reading back the decimal digits of a number gives the number: what
/// `to_string` writes, `u64::from_str` reads.
pub proof fn lemma_parse_decimal(n: u64)
    ensures
        spec_parse_u64(decimal_bytes(n as nat)) == Some(n),
{
    lemma_decimal_value(n as nat);
    let d = decimal_bytes(n as nat);
    assert(is_digit(d[0]));
}

/// The one-character string of the digit `d`.
fn digit_str(d: u64) -> (r: &'static str)
    requires
        d < 10,
    ensures
        r@ == seq![((48 + d) as u8) as char],
{
    proof {
        reveal_strlit("0");
        reveal_strlit("1");
        reveal_strlit("2");
        reveal_strlit("3");
        reveal_strlit("4");
        reveal_strlit("5");
        reveal_strlit("6");
        reveal_strlit("7");
        reveal_strlit("8");
        reveal_strlit("9");
    }
    match d {
        0 => "0",
        1 => "1",
        2 => "2",
        3 => "3",
        4 => "4",
        5 => "5",
        6 => "6",
        7 => "7",
        8 => "8",
        _ => "9",
    }
}

/// Appends the decimal digits of `n` to `s`, as `n.to_string()` writes them.
pub fn push_decimal(s: &mut String, n: u64)
    ensures
        final(s)@ == old(s)@ + ascii_text(decimal_bytes(n as nat)),
    decreases n,
{
    if n >= 10 {
        push_decimal(s, n / 10);
    }
    s.append(digit_str(n % 10));
    proof {
        if n >= 10 {
            assert(ascii_text(decimal_bytes(n as nat)) =~= ascii_text(decimal_bytes((n / 10) as nat))
                + seq![((48 + n % 10) as u8) as char]);
        } else {
            assert(ascii_text(decimal_bytes(n as nat)) =~= seq![((48 + n % 10) as u8) as char]);
        }
    }
}

} // verus!
