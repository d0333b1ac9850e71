//! The order of `(seconds, text)` pairs that sorting a `Vec<(Duration, &str)>`
//! gives: by seconds, then by the bytes of the text.

use vstd::prelude::*;
use vstd::string::*;

verus! {

/// `x` is not greater than `y` in byte order, comparing from offset `i` on,
/// the first bytes being equal.
pub open spec fn bytes_le_from(x: Seq<u8>, y: Seq<u8>, i: int) -> bool
    decreases x.len() - i,
{
    if i < 0 || i >= x.len() {
        true
    } else if i >= y.len() {
        false
    } else if x[i] != y[i] {
        x[i] < y[i]
    } else {
        bytes_le_from(x, y, i + 1)
    }
}

/// `x` is not greater than `y` in byte order (the order of `str`).
pub open spec fn bytes_le(x: Seq<u8>, y: Seq<u8>) -> bool {
    bytes_le_from(x, y, 0)
}

/// Byte order is total.
pub proof fn lemma_bytes_le_total(x: Seq<u8>, y: Seq<u8>, i: int)
    requires
        0 <= i,
    ensures
        bytes_le_from(x, y, i) || bytes_le_from(y, x, i),
    decreases x.len() - i,
{
    if i < x.len() && i < y.len() && x[i] == y[i] {
        lemma_bytes_le_total(x, y, i + 1);
    }
}

/// Byte order is transitive.
pub proof fn lemma_bytes_le_trans(x: Seq<u8>, y: Seq<u8>, z: Seq<u8>, i: int)
    requires
        0 <= i,
        bytes_le_from(x, y, i),
        bytes_le_from(y, z, i),
    ensures
        bytes_le_from(x, z, i),
    decreases x.len() - i,
{
    if i < x.len() && i < y.len() && i < z.len() && x[i] == y[i] && y[i] == z[i] {
        lemma_bytes_le_trans(x, y, z, i + 1);
    }
}

/// The order of `(seconds, text)` pairs: by seconds, then by text.
pub open spec fn entry_le(x: (u64, Seq<u8>), y: (u64, Seq<u8>)) -> bool {
    x.0 < y.0 || (x.0 == y.0 && bytes_le(x.1, y.1))
}

/// A sequence of pairs in ascending order.
pub open spec fn is_sorted(s: Seq<(u64, Seq<u8>)>) -> bool {
    forall|i: int, j: int| 0 <= i < j < s.len() ==> entry_le(s[i], s[j])
}

/// The pair order is total.
pub proof fn lemma_entry_le_total(x: (u64, Seq<u8>), y: (u64, Seq<u8>))
    ensures
        entry_le(x, y) || entry_le(y, x),
{
    lemma_bytes_le_total(x.1, y.1, 0);
}

/// The pair order is transitive.
pub proof fn lemma_entry_le_trans(x: (u64, Seq<u8>), y: (u64, Seq<u8>), z: (u64, Seq<u8>))
    requires
        entry_le(x, y),
        entry_le(y, z),
    ensures
        entry_le(x, z),
{
    if x.0 == y.0 && y.0 == z.0 {
        lemma_bytes_le_trans(x.1, y.1, z.1, 0);
    }
}

/// Compares two byte strings in byte order.
pub(crate) fn bytes_not_after(x: &[u8], y: &[u8]) -> (r: bool)
    ensures
        r == bytes_le(x@, y@),
{
    let mut i: usize = 0;
    while i < x.len()
        invariant
            i <= x@.len(),
            bytes_le(x@, y@) == bytes_le_from(x@, y@, i as int),
        decreases x.len() - i,
    {
        if i >= y.len() {
            return false;
        }
        if x[i] != y[i] {
            return x[i] < y[i];
        }
        i = i + 1;
    }
    true
}

/// The view of a pair of seconds and text.
pub open spec fn entry_view(e: (u64, &str)) -> (u64, Seq<u8>) {
    (e.0, e.1.spec_bytes())
}

/// The views of a sequence of pairs.
pub open spec fn entries_view(s: Seq<(u64, &str)>) -> Seq<(u64, Seq<u8>)> {
    s.map_values(|e: (u64, &str)| entry_view(e))
}

/// Whether `x` comes no later than `y` in the pair order.
pub(crate) fn entry_not_after(x: (u64, &str), y: (u64, &str)) -> (r: bool)
    ensures
        r == entry_le(entry_view(x), entry_view(y)),
{
    if x.0 != y.0 {
        x.0 < y.0
    } else {
        bytes_not_after(x.1.as_bytes(), y.1.as_bytes())
    }
}

/// Inserts `x` into the sorted `v` after every pair not greater than it.
pub(crate) fn insert_sorted<'a>(v: &mut Vec<(u64, &'a str)>, x: (u64, &'a str))
    requires
        is_sorted(entries_view(old(v)@)),
    ensures
        is_sorted(entries_view(final(v)@)),
        entries_view(final(v)@).to_multiset() == entries_view(old(v)@).to_multiset().insert(
            entry_view(x),
        ),
{
    let ghost old_v = entries_view(v@);
    let mut p: usize = 0;
    while p < v.len() && entry_not_after(v[p], x)
        invariant
            p <= v@.len(),
            old_v == entries_view(v@),
            forall|i: int| 0 <= i < p ==> entry_le(old_v[i], entry_view(x)),
        decreases v@.len() - p,
    {
        p = p + 1;
    }
    v.insert(p, x);
    proof {
        let nv = entries_view(v@);
        assert(nv =~= old_v.insert(p as int, entry_view(x)));
        vstd::seq_lib::to_multiset_insert(old_v, p as int, entry_view(x));
        if (p as int) < old_v.len() {
            lemma_entry_le_total(old_v[p as int], entry_view(x));
        }
        assert forall|i: int, j: int| 0 <= i < j < nv.len() implies entry_le(nv[i], nv[j]) by {
            if j < p {
            } else if j == p {
            } else if i == p {
                if j - 1 > p {
                    lemma_entry_le_trans(entry_view(x), old_v[p as int], old_v[j - 1]);
                }
            } else {
            }
        }
    }
}

} // verus!
