//! Lines of a build log stamped with the time since the build started:
//! `[h:m:s]text`.

use vstd::prelude::*;
use vstd::string::*;
use crate::decimal::{
    all_digits, decimal_bytes, digits_value, is_digit, lemma_decimal_value, parse_u64,
    spec_parse_u64,
};
use crate::text::{
    bytes_of, find_byte, find_from, lemma_cut_after_ascii, lemma_find_from, lemma_str_valid,
    spec_lines, split_lines, substr,
};

verus! {

/// Seconds in an hour and in a minute.
pub open spec fn stamp_seconds(h: u64, m: u64, s: u64) -> int {
    h * 3600 + m * 60 + s
}

/// The reading of one stamped line `b`: the offset at which its text begins
/// and the seconds of its stamp, or `None` where the line is not stamped.
///
/// A stamped line starts with `[`; up to the first `]`, the stamp holds at
/// least three fields separated by `:`, of which the first three are hours,
/// minutes and seconds as `u64::from_str` reads them (later fields are not
/// read); the total number of seconds must fit in a `u64`. The text is all
/// that follows the first `]`.
pub open spec fn spec_parse_line(b: Seq<u8>) -> Option<(int, u64)> {
    if b.len() == 0 || b[0] != 91 {
        None
    } else {
        let close = find_from(b, 93, 0);
        let c1 = find_from(b, 58, 1);
        let c2 = find_from(b, 58, c1 + 1);
        let c3 = find_from(b, 58, c2 + 1);
        let e3 = if c3 < close { c3 } else { close };
        if close >= b.len() || c2 >= close {
            None
        } else {
            match (
                spec_parse_u64(b.subrange(1, c1)),
                spec_parse_u64(b.subrange(c1 + 1, c2)),
                spec_parse_u64(b.subrange(c2 + 1, e3)),
            ) {
                (Some(h), Some(m), Some(s)) => if stamp_seconds(h, m, s) <= u64::MAX {
                    Some((close + 1, stamp_seconds(h, m, s) as u64))
                } else {
                    None
                },
                _ => None,
            }
        }
    }
}

/// A stamped line: one that `spec_parse_line` reads.
pub open spec fn is_stamped(b: Seq<u8>) -> bool {
    spec_parse_line(b) is Some
}

/// The text that follows the stamp of a stamped line.
pub open spec fn line_text(b: Seq<u8>) -> Seq<u8> {
    b.subrange(spec_parse_line(b).unwrap().0, b.len() as int)
}

/// The seconds that the stamp of a stamped line gives.
pub open spec fn line_secs(b: Seq<u8>) -> u64 {
    spec_parse_line(b).unwrap().1
}

/// Reads a stamped line into its text and the seconds of its stamp, or gives
/// `None` where the line is not stamped.
pub fn try_parse<'a>(s: &'a str) -> (r: Option<(&'a str, u64)>)
    ensures
        r is Some <==> is_stamped(s.spec_bytes()),
        r matches Some((text, secs)) ==> text.spec_bytes() == line_text(s.spec_bytes()) && secs
            == line_secs(s.spec_bytes()),
{
    let b = s.as_bytes();
    let ghost bs = s.spec_bytes();
    proof {
        lemma_str_valid(s);
    }
    let n = b.len();
    if n == 0 || b[0] != 91 {
        return None;
    }
    proof {
        lemma_find_from(bs, 93, 0);
        lemma_find_from(bs, 58, 1);
    }
    let close = find_byte(b, 93, 0, n);
    if close >= n {
        return None;
    }
    let c1 = find_byte(b, 58, 1, n);
    if c1 >= close {
        proof {
            if c1 < n {
                lemma_find_from(bs, 58, c1 + 1);
            }
        }
        return None;
    }
    let c2 = find_byte(b, 58, c1 + 1, n);
    if c2 >= close {
        return None;
    }
    let c3 = find_byte(b, 58, c2 + 1, n);
    let e3 = if c3 < close { c3 } else { close };
    let h = parse_u64(&b[1..c1]);
    let m = parse_u64(&b[c1 + 1..c2]);
    let sec = parse_u64(&b[c2 + 1..e3]);
    match (h, m, sec) {
        (Some(h), Some(m), Some(sec)) => {
            if h > 5124095576030431 {
                return None;
            }
            let hs = h * 3600;
            if m > (u64::MAX - hs) / 60 {
                assert(m * 60 > u64::MAX - hs) by (nonlinear_arith)
                    requires
                        m > (u64::MAX - hs) / 60,
                ;
                return None;
            }
            assert(m * 60 <= u64::MAX - hs) by (nonlinear_arith)
                requires
                    m <= (u64::MAX - hs) / 60,
                    hs <= u64::MAX,
            ;
            let hm = hs + m * 60;
            if sec > u64::MAX - hm {
                return None;
            }
            proof {
                lemma_cut_after_ascii(bs, close as int);
            }
            let text = substr(s, close + 1, n);
            Some((text, hm + sec))
        },
        _ => None,
    }
}

/// Reads a stamped line into its text and the seconds of its stamp.
pub fn parse<'a>(s: &'a str) -> (r: (&'a str, u64))
    requires
        is_stamped(s.spec_bytes()),
    ensures
        r.0.spec_bytes() == line_text(s.spec_bytes()),
        r.1 == line_secs(s.spec_bytes()),
{
    match try_parse(s) {
        Some(r) => r,
        None => {
            assert(false);
            ("", 0)
        },
    }
}

/// A log of which every line is stamped.
pub open spec fn all_stamped(b: Seq<u8>) -> bool {
    forall|i: int| 0 <= i < spec_lines(b).len() ==> is_stamped(#[trigger] spec_lines(b)[i])
}

/// Whether every line of the log `s` is stamped.
pub fn all_lines_stamped(s: &str) -> (r: bool)
    ensures
        r == all_stamped(s.spec_bytes()),
{
    let lines = split_lines(s);
    let ghost ls = spec_lines(s.spec_bytes());
    assert(bytes_of(lines@).len() == lines@.len());
    let mut i: usize = 0;
    while i < lines.len()
        invariant
            bytes_of(lines@) == ls,
            ls == spec_lines(s.spec_bytes()),
            i <= lines@.len(),
            forall|j: int| 0 <= j < i ==> is_stamped(#[trigger] ls[j]),
        decreases lines@.len() - i,
    {
        assert(bytes_of(lines@)[i as int] == lines@[i as int].spec_bytes());
        if try_parse(lines[i]).is_none() {
            return false;
        }
        i = i + 1;
    }
    true
}

/// Whether the log `s` has a last line and it is stamped.
pub fn last_line_stamped(s: &str) -> (r: bool)
    ensures
        r == (spec_lines(s.spec_bytes()).len() > 0 && is_stamped(spec_lines(s.spec_bytes()).last())),
{
    let lines = split_lines(s);
    assert(bytes_of(lines@).len() == lines@.len());
    let n = lines.len();
    if n == 0 {
        return false;
    }
    assert(bytes_of(lines@)[n - 1] == lines@[n - 1].spec_bytes());
    try_parse(lines[n - 1]).is_some()
}

/// The seconds of the stamp of the last line of a log: how long the build
/// had run when the log ended.
pub fn final_seconds(s: &str) -> (r: u64)
    requires
        spec_lines(s.spec_bytes()).len() > 0,
        is_stamped(spec_lines(s.spec_bytes()).last()),
    ensures
        r == line_secs(spec_lines(s.spec_bytes()).last()),
{
    let lines = split_lines(s);
    assert(bytes_of(lines@).len() == lines@.len());
    let n = lines.len();
    assert(bytes_of(lines@)[n - 1] == lines@[n - 1].spec_bytes());
    parse(lines[n - 1]).1
}

/// The line with the stamp `[h:m:s]`, the three numbers written in decimal,
/// followed by `text`.
pub open spec fn stamped_line(h: u64, m: u64, s: u64, text: Seq<u8>) -> Seq<u8> {
    seq![91u8] + decimal_bytes(h as nat) + seq![58u8] + decimal_bytes(m as nat) + seq![58u8]
        + decimal_bytes(s as nat) + seq![93u8] + text
}

/// `find_from` stops at the first `c` it meets.
proof fn lemma_find_at(b: Seq<u8>, c: u8, from: int, j: int)
    requires
        0 <= from <= j < b.len(),
        b[j] == c,
        forall|i: int| from <= i < j ==> b[i] != c,
    ensures
        find_from(b, c, from) == j,
{
    lemma_find_from(b, c, from);
}

/// The line `[dh:dm:ds]text` for runs of digits `dh`, `dm` and `ds`.
pub open spec fn digit_stamp_line(dh: Seq<u8>, dm: Seq<u8>, ds: Seq<u8>, text: Seq<u8>) -> Seq<u8> {
    seq![91u8] + dh + seq![58u8] + dm + seq![58u8] + ds + seq![93u8] + text
}

/// A run of digits whose value fits in a `u64` reads as that value.
proof fn lemma_parse_digits(d: Seq<u8>)
    requires
        d.len() > 0,
        all_digits(d),
        digits_value(d) <= u64::MAX,
    ensures
        spec_parse_u64(d) == Some(digits_value(d) as u64),
{
    assert(is_digit(d[0]));
}

/// A stamp whose three fields are runs of digits, with or without leading
/// zeros, reads back: the text is what follows it and the seconds are those
/// of the three values.
pub proof fn lemma_parse_digit_stamp(dh: Seq<u8>, dm: Seq<u8>, ds: Seq<u8>, text: Seq<u8>)
    requires
        dh.len() > 0 && all_digits(dh),
        dm.len() > 0 && all_digits(dm),
        ds.len() > 0 && all_digits(ds),
        digits_value(dh) * 3600 + digits_value(dm) * 60 + digits_value(ds) <= u64::MAX,
    ensures
        is_stamped(digit_stamp_line(dh, dm, ds, text)),
        line_text(digit_stamp_line(dh, dm, ds, text)) == text,
        line_secs(digit_stamp_line(dh, dm, ds, text)) == digits_value(dh) * 3600 + digits_value(dm)
            * 60 + digits_value(ds),
{
    lemma_parse_digits(dh);
    lemma_parse_digits(dm);
    lemma_parse_digits(ds);
    let b = digit_stamp_line(dh, dm, ds, text);
    let p1: int = 1 + dh.len() as int;
    let p2: int = p1 + 1 + dm.len();
    let close: int = p2 + 1 + ds.len();
    assert(forall|i: int| 1 <= i < p1 ==> b[i] == dh[i - 1]);
    assert(forall|i: int| p1 < i < p2 ==> b[i] == dm[i - p1 - 1]);
    assert(forall|i: int| p2 < i < close ==> b[i] == ds[i - p2 - 1]);
    assert forall|i: int| 0 <= i < close implies b[i] != 93 by {
        if 1 <= i < p1 {
            assert(is_digit(dh[i - 1]));
        } else if p1 < i < p2 {
            assert(is_digit(dm[i - p1 - 1]));
        } else if p2 < i < close {
            assert(is_digit(ds[i - p2 - 1]));
        }
    }
    assert forall|i: int| 1 <= i < p1 implies b[i] != 58 by {
        assert(is_digit(dh[i - 1]));
    }
    assert forall|i: int| p1 < i < p2 implies b[i] != 58 by {
        assert(is_digit(dm[i - p1 - 1]));
    }
    assert forall|i: int| p2 < i < close implies b[i] != 58 by {
        assert(is_digit(ds[i - p2 - 1]));
    }
    lemma_find_at(b, 93, 0, close);
    lemma_find_at(b, 58, 1, p1);
    lemma_find_at(b, 58, p1 + 1, p2);
    lemma_find_from(b, 58, p2 + 1);
    let c3 = find_from(b, 58, p2 + 1);
    if c3 < close {
        assert(b[c3] == 58);
    }
    assert(b.subrange(1, p1) =~= dh);
    assert(b.subrange(p1 + 1, p2) =~= dm);
    assert(b.subrange(p2 + 1, close) =~= ds);
    assert(b.subrange(close + 1, b.len() as int) =~= text);
}

/// A stamp written as `[h:m:s]` reads back: the text is what follows it and
/// the seconds are `h * 3600 + m * 60 + s`.
pub proof fn lemma_parse_stamped_line(h: u64, m: u64, s: u64, text: Seq<u8>)
    requires
        stamp_seconds(h, m, s) <= u64::MAX,
    ensures
        is_stamped(stamped_line(h, m, s, text)),
        line_text(stamped_line(h, m, s, text)) == text,
        line_secs(stamped_line(h, m, s, text)) == stamp_seconds(h, m, s),
{
    lemma_decimal_value(h as nat);
    lemma_decimal_value(m as nat);
    lemma_decimal_value(s as nat);
    lemma_parse_digit_stamp(
        decimal_bytes(h as nat),
        decimal_bytes(m as nat),
        decimal_bytes(s as nat),
        text,
    );
    assert(stamped_line(h, m, s, text) == digit_stamp_line(
        decimal_bytes(h as nat),
        decimal_bytes(m as nat),
        decimal_bytes(s as nat),
        text,
    ));
}

/// `n` written with at least two digits, as `format!("{:02}", n)` writes it.
pub open spec fn two_digits(n: nat) -> Seq<u8> {
    if n < 10 {
        seq![48u8] + decimal_bytes(n)
    } else {
        decimal_bytes(n)
    }
}

/// The digits of `two_digits(n)` have the value `n`.
proof fn lemma_two_digits(n: nat)
    ensures
        two_digits(n).len() > 0,
        all_digits(two_digits(n)),
        digits_value(two_digits(n)) == n,
{
    lemma_decimal_value(n);
    if n < 10 {
        let d = two_digits(n);
        assert(d.drop_last() =~= seq![48u8]);
        assert(seq![48u8].drop_last() =~= seq![]);
        assert(digits_value(seq![48u8].drop_last()) == 0);
        assert(digits_value(seq![48u8]) == 0);
        assert(d.last() == decimal_bytes(n).last());
        assert(decimal_bytes(n).drop_last() =~= seq![]);
        assert(digits_value(decimal_bytes(n).drop_last()) == 0);
        assert forall|i: int| 0 <= i < d.len() implies is_digit(#[trigger] d[i]) by {
            if i > 0 {
                assert(d[i] == decimal_bytes(n)[i - 1]);
            }
        }
    }
}

/// The line `[hh:mm:ss]text`, each field written with at least two digits.
pub open spec fn padded_line(h: u64, m: u64, s: u64, text: Seq<u8>) -> Seq<u8> {
    digit_stamp_line(two_digits(h as nat), two_digits(m as nat), two_digits(s as nat), text)
}

/// A stamp written `[hh:mm:ss]` with zero-padded fields reads back: the text
/// is what follows it, and the seconds split again into the hours, the
/// minutes below sixty and the seconds below sixty.
pub proof fn lemma_parse_padded_line(h: u64, m: u64, s: u64, text: Seq<u8>)
    requires
        m < 60,
        s < 60,
        stamp_seconds(h, m, s) <= u64::MAX,
    ensures
        is_stamped(padded_line(h, m, s, text)),
        line_text(padded_line(h, m, s, text)) == text,
        line_secs(padded_line(h, m, s, text)) == stamp_seconds(h, m, s),
        line_secs(padded_line(h, m, s, text)) / 3600 == h,
        line_secs(padded_line(h, m, s, text)) % 3600 / 60 == m,
        line_secs(padded_line(h, m, s, text)) % 60 == s,
{
    lemma_two_digits(h as nat);
    lemma_two_digits(m as nat);
    lemma_two_digits(s as nat);
    lemma_parse_digit_stamp(two_digits(h as nat), two_digits(m as nat), two_digits(s as nat), text);
    let t = line_secs(padded_line(h, m, s, text));
    assert(t == h * 3600 + m * 60 + s);
    assert(t / 3600 == h && t % 3600 / 60 == m && t % 60 == s) by (nonlinear_arith)
        requires
            t == h * 3600 + m * 60 + s,
            m < 60,
            s < 60,
    ;
}

/// The line `[t]x`: the stamp `t` in brackets, then the text `x`.
pub open spec fn bracketed(t: Seq<u8>, x: Seq<u8>) -> Seq<u8> {
    seq![91u8] + t + seq![93u8] + x
}

/// `find_from` on two sequences that agree before `n` stops at the same place
/// before `n`, or past it in both.
proof fn lemma_find_agree(b1: Seq<u8>, b2: Seq<u8>, c: u8, from: int, n: int)
    requires
        0 <= from <= n,
        n <= b1.len(),
        n <= b2.len(),
        forall|i: int| from <= i < n ==> b1[i] == b2[i],
    ensures
        (find_from(b1, c, from) < n) == (find_from(b2, c, from) < n),
        find_from(b1, c, from) < n ==> find_from(b1, c, from) == find_from(b2, c, from),
    decreases n - from,
{
    lemma_find_from(b1, c, from);
    lemma_find_from(b2, c, from);
    if from < n && b1[from] != c {
        lemma_find_agree(b1, b2, c, from + 1, n);
    }
}

/// The seconds of a line depend on its stamp alone, and its text is all that
/// follows the stamp, whatever that holds (`]` and `:` included): where `[t]x`
/// is stamped, so is `[t]y`, with the text `y` and the same seconds.
pub proof fn lemma_text_follows_stamp(t: Seq<u8>, x: Seq<u8>, y: Seq<u8>)
    requires
        forall|i: int| 0 <= i < t.len() ==> t[i] != 93,
        is_stamped(bracketed(t, x)),
    ensures
        line_text(bracketed(t, x)) == x,
        is_stamped(bracketed(t, y)),
        line_text(bracketed(t, y)) == y,
        line_secs(bracketed(t, y)) == line_secs(bracketed(t, x)),
{
    let b1 = bracketed(t, x);
    let b2 = bracketed(t, y);
    let close: int = 1 + t.len() as int;
    assert(forall|i: int| 1 <= i < close ==> b1[i] == t[i - 1] && b2[i] == t[i - 1]);
    assert(b1[0] == 91 && b2[0] == 91 && b1[close] == 93 && b2[close] == 93);
    lemma_find_at(b1, 93, 0, close);
    lemma_find_at(b2, 93, 0, close);
    lemma_find_agree(b1, b2, 58, 1, close);
    let c1 = find_from(b1, 58, 1);
    lemma_find_from(b1, 58, 1);
    if c1 < close {
        lemma_find_agree(b1, b2, 58, c1 + 1, close);
        let c2 = find_from(b1, 58, c1 + 1);
        lemma_find_from(b1, 58, c1 + 1);
        if c2 < close {
            lemma_find_agree(b1, b2, 58, c2 + 1, close);
            lemma_find_from(b1, 58, c2 + 1);
            lemma_find_from(b2, 58, c2 + 1);
            assert(b1.subrange(0, close) =~= b2.subrange(0, close));
            let c3 = find_from(b1, 58, c2 + 1);
            let e3 = if c3 < close { c3 } else { close };
            assert(b1.subrange(1, c1) =~= b2.subrange(1, c1));
            assert(b1.subrange(c1 + 1, c2) =~= b2.subrange(c1 + 1, c2));
            assert(b1.subrange(c2 + 1, e3) =~= b2.subrange(c2 + 1, e3));
        }
    } else {
        if c1 < b1.len() {
            lemma_find_from(b1, 58, c1 + 1);
        }
    }
    assert(b1.subrange(close + 1, b1.len() as int) =~= x);
    assert(b2.subrange(close + 1, b2.len() as int) =~= y);
}

} // verus!
