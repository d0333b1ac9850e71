//! Byte-level helpers on `str`: where a string may be cut, substrings by byte
//! offsets, searching for a byte or a substring, equality, and splitting into
//! lines as `str::lines` does.

use vstd::prelude::*;
use vstd::string::*;
use vstd::utf8::*;

verus! {

/// A byte offset at which a UTF-8 string may be cut: the end, or the start of
/// a byte that does not continue a character.
pub open spec fn is_cut(b: Seq<u8>, i: int) -> bool {
    0 <= i <= b.len() && (i == b.len() || !is_continuation_byte(b[i]))
}

/// ASCII bytes never continue a character.
pub open spec fn is_ascii_byte(c: u8) -> bool {
    c < 128
}

/// A cut that `is_cut` admits is a character boundary of valid UTF-8.
pub proof fn lemma_cut_is_boundary(b: Seq<u8>, i: int)
    requires
        valid_utf8(b),
        is_cut(b, i),
    ensures
        is_char_boundary(b, i),
{
    if i == b.len() {
        is_char_boundary_start_end_of_seq(b);
    } else {
        is_char_boundary_iff_not_is_continuation_byte(b, i);
    }
}

/// In valid UTF-8 the byte after an ASCII byte begins a character, so one may
/// cut right after any ASCII byte.
pub proof fn lemma_cut_after_ascii(b: Seq<u8>, p: int)
    requires
        valid_utf8(b),
        0 <= p < b.len(),
        is_ascii_byte(b[p]),
    ensures
        is_cut(b, p + 1),
{
    if p + 1 < b.len() {
        is_char_boundary_iff_not_is_continuation_byte(b, p);
        valid_utf8_split(b, p);
        let c = b.subrange(p, b.len() as int);
        assert(valid_utf8(c));
        let t = pop_first_scalar(c);
        assert(valid_utf8(t));
        assert(t =~= b.subrange(p + 1, b.len() as int));
        assert(is_char_boundary(t, 0));
        is_char_boundary_iff_not_is_continuation_byte(t, 0);
        assert(t[0] == b[p + 1]);
    }
}

/// The UTF-8 bytes of any `str` are valid.
pub proof fn lemma_str_valid(s: &str)
    ensures
        valid_utf8(s.spec_bytes()),
{
    encode_utf8_valid_utf8(s@);
}

/// The part of `s` between two byte offsets at which it may be cut.
pub fn substr<'a>(s: &'a str, from: usize, to: usize) -> (r: &'a str)
    requires
        from <= to,
        is_cut(s.spec_bytes(), from as int),
        is_cut(s.spec_bytes(), to as int),
    ensures
        r.spec_bytes() == s.spec_bytes().subrange(from as int, to as int),
{
    let ghost b = s.spec_bytes();
    proof {
        lemma_str_valid(s);
        lemma_cut_is_boundary(b, from as int);
    }
    let (_, rest) = s.split_at(from);
    proof {
        let rb = rest.spec_bytes();
        lemma_str_valid(rest);
        assert(rb =~= b.subrange(from as int, b.len() as int));
        if (to as int) < b.len() {
            assert(rb[to - from] == b[to as int]);
        }
        lemma_cut_is_boundary(rb, to - from);
    }
    let (mid, _) = rest.split_at(to - from);
    assert(mid.spec_bytes() =~= b.subrange(from as int, to as int));
    mid
}

/// The first offset at or after `from` that holds the byte `c`, or the length
/// of `b` where there is none.
pub open spec fn find_from(b: Seq<u8>, c: u8, from: int) -> int
    decreases b.len() - from,
{
    if from >= b.len() {
        b.len() as int
    } else if from >= 0 && b[from] == c {
        from
    } else {
        find_from(b, c, from + 1)
    }
}

/// What `find_from` gives: a position of `c` with none before it, or the end.
pub proof fn lemma_find_from(b: Seq<u8>, c: u8, from: int)
    requires
        0 <= from <= b.len(),
    ensures
        from <= find_from(b, c, from) <= b.len(),
        find_from(b, c, from) < b.len() ==> b[find_from(b, c, from)] == c,
        forall|j: int| from <= j < find_from(b, c, from) ==> b[j] != c,
    decreases b.len() - from,
{
    if from < b.len() && b[from] != c {
        lemma_find_from(b, c, from + 1);
    }
}

/// The first position at or after `from` in `b` before `end` that holds `c`,
/// or `end`.
pub fn find_byte(b: &[u8], c: u8, from: usize, end: usize) -> (r: usize)
    requires
        from <= end <= b@.len(),
    ensures
        from <= r <= end,
        r < end ==> b@[r as int] == c,
        forall|j: int| from <= j < r ==> b@[j] != c,
        r == (if find_from(b@, c, from as int) < end { find_from(b@, c, from as int) } else { end as int }),
{
    proof {
        lemma_find_from(b@, c, from as int);
    }
    let mut i = from;
    while i < end
        invariant
            from <= i <= end <= b@.len(),
            forall|j: int| from <= j < i ==> b@[j] != c,
        decreases end - i,
    {
        if b[i] == c {
            proof {
                lemma_find_from(b@, c, from as int);
                if find_from(b@, c, from as int) < i {
                    assert(b@[find_from(b@, c, from as int)] != c);
                }
            }
            return i;
        }
        i = i + 1;
    }
    proof {
        lemma_find_from(b@, c, from as int);
        if find_from(b@, c, from as int) < end {
            assert(b@[find_from(b@, c, from as int)] != c);
        }
    }
    i
}

/// A line without the carriage return that ends it, if there is one.
pub open spec fn strip_cr(l: Seq<u8>) -> Seq<u8> {
    if l.len() > 0 && l.last() == 13 {
        l.drop_last()
    } else {
        l
    }
}

/// The lines of `b` from offset `from` on, as `str::lines` yields them: a line
/// ends at `\n`, which is dropped together with a `\r` just before it; a last
/// line without `\n` is kept whole; nothing follows a final `\n`.
pub open spec fn lines_from(b: Seq<u8>, from: int) -> Seq<Seq<u8>>
    decreases b.len() - from,
{
    if from < 0 || from >= b.len() {
        seq![]
    } else {
        proof {
            lemma_find_from(b, 10, from);
        }
        let j = find_from(b, 10, from);
        if j < b.len() {
            seq![strip_cr(b.subrange(from, j))] + lines_from(b, j + 1)
        } else {
            seq![b.subrange(from, b.len() as int)]
        }
    }
}

/// The lines of `b`, as `str::lines` yields them.
pub open spec fn spec_lines(b: Seq<u8>) -> Seq<Seq<u8>> {
    lines_from(b, 0)
}

/// The UTF-8 bytes of each string of a sequence.
pub open spec fn bytes_of(v: Seq<&str>) -> Seq<Seq<u8>> {
    v.map_values(|x: &str| x.spec_bytes())
}

/// Splits `s` into its lines, as `str::lines` does.
pub fn split_lines<'a>(s: &'a str) -> (r: Vec<&'a str>)
    ensures
        bytes_of(r@) == spec_lines(s.spec_bytes()),
{
    let b = s.as_bytes();
    let ghost bs = b@;
    proof {
        lemma_str_valid(s);
    }
    let n = b.len();
    let mut r: Vec<&'a str> = Vec::new();
    let mut start: usize = 0;
    let mut i: usize = 0;
    while i < n
        invariant
            bs == s.spec_bytes(),
            b@ == bs,
            n == bs.len(),
            valid_utf8(bs),
            start <= i <= n,
            is_cut(bs, start as int),
            forall|j: int| start <= j < i ==> bs[j] != 10,
            bytes_of(r@) + lines_from(bs, start as int) == spec_lines(bs),
        decreases n - i,
    {
        if b[i] == 10 {
            proof {
                lemma_find_from(bs, 10, start as int);
                if find_from(bs, 10, start as int) < i {
                    assert(bs[find_from(bs, 10, start as int)] != 10);
                }
                assert(find_from(bs, 10, start as int) == i);
                lemma_cut_after_ascii(bs, i as int);
            }
            let end: usize = if i > start && b[i - 1] == 13 { i - 1 } else { i };
            let line = substr(s, start, end);
            proof {
                let whole = bs.subrange(start as int, i as int);
                if i > start && bs[i - 1] == 13 {
                    assert(whole.drop_last() =~= bs.subrange(start as int, end as int));
                } else {
                    assert(whole =~= bs.subrange(start as int, end as int));
                }
                assert(lines_from(bs, start as int) == seq![strip_cr(whole)] + lines_from(
                    bs,
                    i + 1,
                ));
                let old_r = r@;
                assert(bytes_of(old_r.push(line)) =~= bytes_of(old_r).push(line.spec_bytes()));
                assert(bytes_of(old_r.push(line)) + lines_from(bs, i + 1) =~= bytes_of(old_r)
                    + lines_from(bs, start as int));
            }
            r.push(line);
            start = i + 1;
        }
        i = i + 1;
    }
    if start < n {
        proof {
            lemma_find_from(bs, 10, start as int);
            if find_from(bs, 10, start as int) < n {
                assert(bs[find_from(bs, 10, start as int)] != 10);
            }
            assert(lines_from(bs, start as int) == seq![bs.subrange(start as int, n as int)]);
            assert(is_cut(bs, n as int));
        }
        let line = substr(s, start, n);
        proof {
            let old_r = r@;
            assert(bytes_of(old_r.push(line)) =~= bytes_of(old_r).push(line.spec_bytes()));
            assert(bytes_of(old_r.push(line)) =~= bytes_of(old_r) + lines_from(bs, start as int));
        }
        r.push(line);
    } else {
        assert(bytes_of(r@) + lines_from(bs, start as int) =~= bytes_of(r@));
    }
    r
}

/// Whether two strings are equal.
pub fn str_eq(a: &str, b: &str) -> (r: bool)
    ensures
        r == (a@ == b@),
{
    let r = bytes_eq(a.as_bytes(), b.as_bytes());
    proof {
        encode_utf8_decode_utf8(a@);
        encode_utf8_decode_utf8(b@);
    }
    r
}

/// Whether two byte strings are equal.
pub fn bytes_eq(x: &[u8], y: &[u8]) -> (r: bool)
    ensures
        r == (x@ == y@),
{
    if x.len() != y.len() {
        return false;
    }
    let mut i: usize = 0;
    while i < x.len()
        invariant
            i <= x@.len(),
            x@.len() == y@.len(),
            forall|j: int| 0 <= j < i ==> x@[j] == y@[j],
        decreases x.len() - i,
    {
        if x[i] != y[i] {
            return false;
        }
        i = i + 1;
    }
    assert(x@ =~= y@);
    true
}

/// `p` occurs in `line`, as `str::contains` finds it.
pub open spec fn contains_bytes(line: Seq<u8>, p: Seq<u8>) -> bool {
    exists|i: int| 0 <= i && i + p.len() <= line.len() && #[trigger] line.subrange(i, i + p.len()) == p
}

/// Whether `p` occurs in `line`.
pub fn contains(line: &[u8], p: &[u8]) -> (r: bool)
    ensures
        r == contains_bytes(line@, p@),
{
    if p.len() == 0 {
        assert(line@.subrange(0int, 0int + p@.len()) =~= p@);
        return true;
    }
    if p.len() > line.len() {
        return false;
    }
    let n = line.len();
    let last = n - p.len();
    let mut i: usize = 0;
    while i <= last
        invariant
            0 < p@.len() <= line@.len(),
            n == line@.len(),
            last == line@.len() - p@.len(),
            forall|k: int| 0 <= k < i ==> #[trigger] line@.subrange(k, k + p@.len()) != p@,
        decreases last + 1 - i,
    {
        let mut j: usize = 0;
        let mut same = true;
        while j < p.len()
            invariant
                i <= last,
                0 < p@.len() <= line@.len(),
                n == line@.len(),
                last == line@.len() - p@.len(),
                j <= p@.len(),
                same == forall|m: int| 0 <= m < j ==> line@[i + m] == p@[m],
            decreases p@.len() - j,
        {
            if line[i + j] != p[j] {
                same = false;
            }
            j = j + 1;
        }
        if same {
            assert(line@.subrange(i as int, i + p@.len()) =~= p@);
            return true;
        }
        assert(line@.subrange(i as int, i + p@.len()) != p@) by {
            let m = choose|m: int| 0 <= m < p@.len() && line@[i + m] != p@[m];
            assert(line@.subrange(i as int, i + p@.len())[m] == line@[i + m]);
        }
        i = i + 1;
    }
    proof {
        assert forall|k: int| 0 <= k && k + p@.len() <= line@.len() implies #[trigger] line@.subrange(
            k,
            k + p@.len(),
        ) != p@ by {}
    }
    false
}

} // verus!
