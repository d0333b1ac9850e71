//! How long the stretches of a build log between two statements took: each
//! stretch starts at the first line that holds its opening statement and ends
//! at the first later line that holds its closing statement.

use vstd::prelude::*;
use vstd::string::*;
use crate::decimal::{ascii_text, decimal_bytes, push_decimal};
use crate::logline::{all_stamped, is_stamped, line_secs, parse};
use crate::text::{bytes_of, contains, contains_bytes, spec_lines, split_lines};

verus! {

/// The opening and closing statements of each stretch.
pub open spec fn statements_view(pats: Seq<(&str, &str)>) -> Seq<(Seq<u8>, Seq<u8>)> {
    pats.map_values(|p: (&str, &str)| (p.0.spec_bytes(), p.1.spec_bytes()))
}

/// The marks of one stretch after the line `line` stamped `t`: the start is
/// set at the first line holding the opening statement, the end at the first
/// later line holding the closing one. A mark of zero is not set, so a line
/// stamped zero sets nothing.
pub open spec fn mark(m: (u64, u64), line: Seq<u8>, pat: (Seq<u8>, Seq<u8>), t: u64) -> (u64, u64) {
    if m.0 == 0 {
        if contains_bytes(line, pat.0) {
            (t, m.1)
        } else {
            m
        }
    } else if m.1 == 0 {
        if contains_bytes(line, pat.1) {
            (m.0, t)
        } else {
            m
        }
    } else {
        m
    }
}

/// The marks of every stretch after the lines `lines`.
pub open spec fn marks_after(lines: Seq<Seq<u8>>, pats: Seq<(Seq<u8>, Seq<u8>)>) -> Seq<(u64, u64)>
    decreases lines.len(),
{
    if lines.len() == 0 {
        Seq::new(pats.len(), |k: int| (0u64, 0u64))
    } else {
        let prev = marks_after(lines.drop_last(), pats);
        Seq::new(
            pats.len(),
            |k: int| mark(prev[k], lines.last(), pats[k], line_secs(lines.last())),
        )
    }
}

/// The stamp of the last of `lines`, zero where there are none.
pub open spec fn last_secs(lines: Seq<Seq<u8>>) -> u64 {
    if lines.len() == 0 {
        0
    } else {
        line_secs(lines.last())
    }
}

/// Marks, in every line of the log `contents`, where each stretch of `pats`
/// starts and ends, and gives the marks together with the stamp of the last
/// line.
pub fn mark_stretches(contents: &str, pats: &Vec<(&str, &str)>) -> (r: (Vec<(u64, u64)>, u64))
    requires
        all_stamped(contents.spec_bytes()),
    ensures
        r.0@ == marks_after(spec_lines(contents.spec_bytes()), statements_view(pats@)),
        r.1 == last_secs(spec_lines(contents.spec_bytes())),
{
    let lines = split_lines(contents);
    let ghost ls = spec_lines(contents.spec_bytes());
    let ghost pv = statements_view(pats@);
    proof {
        assert(bytes_of(lines@).len() == lines@.len());
    }
    let mut marks: Vec<(u64, u64)> = Vec::new();
    while marks.len() < pats.len()
        invariant
            marks@.len() <= pats@.len(),
            forall|k: int| 0 <= k < marks@.len() ==> marks@[k] == (0u64, 0u64),
        decreases pats@.len() - marks@.len(),
    {
        marks.push((0, 0));
    }
    proof {
        assert(marks@ =~= marks_after(ls.take(0), pv));
    }
    let mut last: u64 = 0;
    let mut i: usize = 0;
    while i < lines.len()
        invariant
            bytes_of(lines@) == ls,
            ls == spec_lines(contents.spec_bytes()),
            all_stamped(contents.spec_bytes()),
            pv == statements_view(pats@),
            i <= lines@.len(),
            marks@ == marks_after(ls.take(i as int), pv),
            last == last_secs(ls.take(i as int)),
        decreases lines@.len() - i,
    {
        let line = lines[i];
        proof {
            assert(bytes_of(lines@)[i as int] == line.spec_bytes());
            assert(is_stamped(ls[i as int]));
        }
        let (_, t) = parse(line);
        let lb = line.as_bytes();
        let ghost prev = marks@;
        let mut k: usize = 0;
        while k < pats.len()
            invariant
                k <= pats@.len(),
                marks@.len() == pats@.len(),
                prev.len() == pats@.len(),
                lb@ == ls[i as int],
                pv == statements_view(pats@),
                forall|h: int| 0 <= h < k ==> marks@[h] == mark(prev[h], lb@, pv[h], t),
                forall|h: int| k <= h < pats@.len() ==> marks@[h] == prev[h],
            decreases pats@.len() - k,
        {
            let (a, b) = marks[k];
            let (open, close) = pats[k];
            if a == 0 {
                if contains(lb, open.as_bytes()) {
                    marks.set(k, (t, b));
                }
            } else if b == 0 {
                if contains(lb, close.as_bytes()) {
                    marks.set(k, (a, t));
                }
            }
            k = k + 1;
        }
        proof {
            let next = ls.take(i + 1);
            assert(next.drop_last() =~= ls.take(i as int));
            assert(next.last() == ls[i as int]);
            assert(marks@ =~= marks_after(next, pv));
        }
        last = t;
        i = i + 1;
    }
    proof {
        assert(ls.take(lines@.len() as int) =~= ls);
    }
    (marks, last)
}

/// The seconds a stretch took: zero unless both its marks are set.
pub open spec fn span(m: (u64, u64)) -> u64 {
    if m.0 != 0 && m.1 != 0 {
        (m.1 - m.0) as u64
    } else {
        0
    }
}

/// No stretch ends before it starts.
pub open spec fn marks_in_order(ms: Seq<(u64, u64)>) -> bool {
    forall|k: int| 0 <= k < ms.len() && (#[trigger] ms[k]).0 != 0 && ms[k].1 != 0 ==> ms[k].0 <= ms[k].1
}

/// The seconds of each stretch.
pub open spec fn spans(ms: Seq<(u64, u64)>) -> Seq<u64> {
    ms.map_values(|m: (u64, u64)| span(m))
}

/// The sum of `s` from index `i` on.
pub open spec fn sum_from(s: Seq<u64>, i: int) -> nat
    decreases s.len() - i,
{
    if i < 0 || i >= s.len() {
        0
    } else {
        (s[i] + sum_from(s, i + 1)) as nat
    }
}

/// Every stretch took some time; otherwise the log is left out.
pub open spec fn all_measured(ms: Seq<(u64, u64)>) -> bool {
    forall|k: int| 0 <= k < ms.len() ==> span(#[trigger] ms[k]) != 0
}

/// What reading the marks asks: no stretch ends before it starts, and where
/// every stretch took some time, together they took no longer than the log.
pub open spec fn rows_defined(ms: Seq<(u64, u64)>, last: u64) -> bool {
    marks_in_order(ms) && (all_measured(ms) ==> sum_from(spans(ms), 0) <= last)
}

/// The two rows written for a log whose stretches were all measured, `None`
/// for a log that is left out.
///
/// The second row holds the seconds outside the stretches, then the seconds
/// of each stretch. The first row holds the total, then for each stretch the
/// seconds of it and of all the stretches after it.
pub open spec fn spec_rows(ms: Seq<(u64, u64)>, last: u64) -> Option<(Seq<u64>, Seq<u64>)> {
    if all_measured(ms) {
        let s = spans(ms);
        let remaining = last - sum_from(s, 0);
        Some(
            (
                seq![(remaining + sum_from(s, 0)) as u64] + Seq::new(
                    s.len(),
                    |i: int| sum_from(s, i) as u64,
                ),
                seq![remaining as u64] + s,
            ),
        )
    } else {
        None
    }
}

/// A suffix sum is no larger than the sum from an earlier index.
proof fn lemma_sum_from_mono(s: Seq<u64>, i: int, j: int)
    requires
        0 <= i <= j,
    ensures
        sum_from(s, j) <= sum_from(s, i),
    decreases j - i,
{
    if i < j {
        lemma_sum_from_mono(s, i + 1, j);
    }
}

/// Whether `rows_defined` holds of the marks.
pub fn marks_readable(ms: &Vec<(u64, u64)>, last: u64) -> (r: bool)
    ensures
        r == rows_defined(ms@, last),
{
    let n = ms.len();
    let mut k: usize = 0;
    let mut measured = true;
    while k < n
        invariant
            k <= n == ms@.len(),
            forall|h: int| 0 <= h < k ==> !((#[trigger] ms@[h]).0 != 0 && ms@[h].1 != 0) || ms@[h].0 <= ms@[h].1,
            measured == forall|h: int| 0 <= h < k ==> span(#[trigger] ms@[h]) != 0,
        decreases n - k,
    {
        let (a, b) = ms[k];
        if a != 0 && b != 0 && a > b {
            return false;
        }
        if !(a != 0 && b != 0 && b - a != 0) {
            measured = false;
        }
        k = k + 1;
    }
    if !measured {
        return true;
    }
    let ghost s = spans(ms@);
    let mut total: u64 = 0;
    let mut k: usize = n;
    while k > 0
        invariant
            k <= n == ms@.len(),
            s == spans(ms@),
            marks_in_order(ms@),
            all_measured(ms@),
            total as nat == sum_from(s, k as int),
            total <= last,
        decreases k,
    {
        let (a, b) = ms[k - 1];
        let v = if a != 0 && b != 0 { b - a } else { 0 };
        assert(v == s[k - 1]);
        if v > last - total {
            proof {
                lemma_sum_from_mono(s, 0, k - 1);
            }
            return false;
        }
        total = total + v;
        k = k - 1;
    }
    true
}

/// The two rows for a log from its marks and the stamp of its last line, or
/// `None` where some stretch took no time (the log is then left out).
pub fn statement_rows(ms: &Vec<(u64, u64)>, last: u64) -> (r: Option<(Vec<u64>, Vec<u64>)>)
    requires
        rows_defined(ms@, last),
    ensures
        match spec_rows(ms@, last) {
            Some((row1, row2)) => r matches Some((x, y)) && x@ == row1 && y@ == row2,
            None => r is None,
        },
        r is Some <==> forall|k: int|
            0 <= k < ms@.len() ==> (#[trigger] ms@[k]).0 != 0 && ms@[k].1 != 0 && ms@[k].0 != ms@[k].1,
{
    proof {
        lemma_rows_iff_measured(ms@, last);
    }
    let n = ms.len();
    let ghost s = spans(ms@);
    assert(s.len() == n);
    let mut secs: Vec<u64> = Vec::new();
    let mut k: usize = 0;
    while k < n
        invariant
            k <= n == ms@.len(),
            s == spans(ms@),
            marks_in_order(ms@),
            secs@ =~= s.take(k as int),
        decreases n - k,
    {
        let (a, b) = ms[k];
        let v = if a != 0 && b != 0 {
            assert(a <= b);
            b - a
        } else {
            0
        };
        secs.push(v);
        k = k + 1;
    }
    assert(secs@ =~= s);
    let mut k: usize = 0;
    while k < n
        invariant
            k <= n == ms@.len(),
            s == spans(ms@),
            s.len() == n,
            secs@ == s,
            marks_in_order(ms@),
            forall|h: int| 0 <= h < k ==> s[h] != 0,
        decreases n - k,
    {
        if secs[k] == 0 {
            assert(s[k as int] == span(ms@[k as int]));
            assert(!all_measured(ms@));
            proof {
                lemma_rows_iff_measured(ms@, last);
            }
            return None;
        }
        k = k + 1;
    }
    assert forall|h: int| 0 <= h < n implies span(#[trigger] ms@[h]) != 0 by {
        assert(s[h] == span(ms@[h]));
    }
    let mut suffix: Vec<u64> = Vec::new();
    let mut total: u64 = 0;
    let mut k: usize = n;
    while k > 0
        invariant
            k <= n == ms@.len(),
            s == spans(ms@),
            s.len() == n,
            secs@ == s,
            rows_defined(ms@, last),
            all_measured(ms@),
            total as nat == sum_from(s, k as int),
            suffix@.len() == n - k,
            forall|h: int| 0 <= h < n - k ==> suffix@[h] == sum_from(s, n - 1 - h),
        decreases k,
    {
        proof {
            lemma_sum_from_mono(s, 0, k - 1);
        }
        total = total + secs[k - 1];
        suffix.push(total);
        k = k - 1;
    }
    let remaining = last - total;
    let mut row1: Vec<u64> = Vec::new();
    row1.push(remaining + total);
    let mut h: usize = 0;
    while h < n
        invariant
            h <= n == ms@.len(),
            s.len() == n,
            suffix@.len() == n,
            forall|g: int| 0 <= g < n ==> suffix@[g] == sum_from(s, n - 1 - g),
            row1@.len() == h + 1,
            row1@[0] == remaining + total,
            forall|g: int| 0 <= g < h ==> row1@[g + 1] == sum_from(s, g),
        decreases n - h,
    {
        row1.push(suffix[n - 1 - h]);
        h = h + 1;
    }
    let mut row2: Vec<u64> = Vec::new();
    row2.push(remaining);
    let mut h: usize = 0;
    while h < n
        invariant
            h <= n == ms@.len(),
            s.len() == n,
            secs@ == s,
            row2@ =~= seq![remaining] + s.take(h as int),
        decreases n - h,
    {
        row2.push(secs[h]);
        h = h + 1;
    }
    proof {
        let (e1, e2) = spec_rows(ms@, last).unwrap();
        assert(row1@ =~= e1);
        assert(row2@ =~= e2);
    }
    Some((row1, row2))
}

/// Appends `" v"` for each value `v`.
pub fn push_values(s: &mut String, values: &Vec<u64>)
    ensures
        final(s)@ == old(s)@ + spaced_values(values@),
{
    let mut i: usize = 0;
    proof {
        reveal_strlit(" ");
        assert(spaced_values(values@.take(0)) =~= seq![]);
        assert(s@ =~= old(s)@ + spaced_values(values@.take(0)));
    }
    while i < values.len()
        invariant
            i <= values@.len(),
            s@ == old(s)@ + spaced_values(values@.take(i as int)),
        decreases values@.len() - i,
    {
        s.append(" ");
        push_decimal(s, values[i]);
        proof {
            reveal_strlit(" ");
            let t = values@.take(i + 1);
            assert(t.drop_last() =~= values@.take(i as int));
        }
        i = i + 1;
    }
    assert(values@.take(values@.len() as int) =~= values@);
}

/// Each value written in decimal after a space.
pub open spec fn spaced_values(v: Seq<u64>) -> Seq<char>
    decreases v.len(),
{
    if v.len() == 0 {
        seq![]
    } else {
        spaced_values(v.drop_last()) + seq![' '] + ascii_text(decimal_bytes(v.last() as nat))
    }
}

/// The line written for a log: its name, each value after a space, then a
/// space and the end of the line.
pub fn statement_line(name: &str, values: &Vec<u64>) -> (r: String)
    ensures
        r@ == name@ + spaced_values(values@) + seq![' ', '\n'],
{
    let mut s = String::from_str(name);
    push_values(&mut s, values);
    s.append(" \n");
    proof {
        reveal_strlit(" \n");
    }
    s
}

/// The stretches that are plotted, each as its opening and closing statement:
/// building the stage0 compiler, building the stage1 compiler, the run-pass
/// test suite, the libstd tests, and building LLVM.
pub fn series() -> (r: Vec<(&'static str, &'static str)>)
    ensures
        r@.len() == 5,
        r@[0].0@ == "Building stage0 compiler artifacts"@,
        r@[0].1@ == "Copying stage0 rustc"@,
        r@[1].0@ == "Building stage1 compiler artifacts"@,
        r@[1].1@ == "Copying stage1 rustc"@,
        r@[2].0@ == "Check compiletest suite=run-pass mode=run-pass"@,
        r@[2].1@ == "test result: ok"@,
        r@[3].0@ == "Testing libstd stage1"@,
        r@[3].1@ == "Testing libtest stage1"@,
        r@[4].0@ == "Building LLVM"@,
        r@[4].1@ == "Building stage0 compiler artifacts"@,
{
    let mut r: Vec<(&'static str, &'static str)> = Vec::new();
    r.push(("Building stage0 compiler artifacts", "Copying stage0 rustc"));
    r.push(("Building stage1 compiler artifacts", "Copying stage1 rustc"));
    r.push(("Check compiletest suite=run-pass mode=run-pass", "test result: ok"));
    r.push(("Testing libstd stage1", "Testing libtest stage1"));
    r.push(("Building LLVM", "Building stage0 compiler artifacts"));
    r
}

/// The first value of the first row is the stamp of the last line: the
/// seconds outside the stretches and the seconds of the stretches add up to
/// how long the whole build took.
pub proof fn lemma_total_is_last_stamp(ms: Seq<(u64, u64)>, last: u64)
    requires
        rows_defined(ms, last),
        spec_rows(ms, last) is Some,
    ensures
        spec_rows(ms, last).unwrap().0[0] == last,
        spec_rows(ms, last).unwrap().1[0] + sum_from(spans(ms), 0) == last,
{
}

/// The rows agree: each value of the first row after the total is the
/// value of the second row at that place plus the next value of the first
/// row (nothing after the last stretch), and the total is the seconds outside
/// the stretches plus the first of them; the first row never grows.
pub proof fn lemma_rows_agree(ms: Seq<(u64, u64)>, last: u64)
    requires
        rows_defined(ms, last),
        spec_rows(ms, last) is Some,
    ensures
        ({
            let (row1, row2) = spec_rows(ms, last).unwrap();
            &&& row1.len() == row2.len() == ms.len() + 1
            &&& forall|i: int| 0 <= i < ms.len() ==> #[trigger] row1[i] == row2[i] + row1[i + 1]
            &&& row1[ms.len() as int] == row2[ms.len() as int]
            &&& forall|i: int, j: int| 0 <= i <= j <= ms.len() ==> row1[j] <= row1[i]
        }),
{
    let (row1, row2) = spec_rows(ms, last).unwrap();
    let s = spans(ms);
    let n = ms.len() as int;
    assert forall|i: int| 0 <= i < n implies #[trigger] row1[i] == row2[i] + row1[i + 1] by {
        assert(all_measured(ms));
        assert(sum_from(s, 0) <= last);
        if i > 0 {
            assert(sum_from(s, i - 1) == s[i - 1] + sum_from(s, i));
            lemma_sum_from_mono(s, 0, i);
            lemma_sum_from_mono(s, 0, i - 1);
            assert(row1[i] == sum_from(s, i - 1));
            assert(row1[i + 1] == sum_from(s, i));
            assert(row2[i] == s[i - 1]);
        } else {
            assert(row1[1] == sum_from(s, 0));
        }
    }
    assert(sum_from(s, n) == 0);
    if n > 0 {
        assert(sum_from(s, n - 1) == s[n - 1] + sum_from(s, n));
    }
    assert forall|i: int, j: int| 0 <= i <= j <= n implies row1[j] <= row1[i] by {
        if i == 0 {
            if j > 0 {
                lemma_sum_from_mono(s, 0, j - 1);
            }
        } else {
            lemma_sum_from_mono(s, i - 1, j - 1);
            lemma_sum_from_mono(s, 0, i - 1);
        }
    }
}

/// A log gets rows exactly when every stretch has both its marks set and took
/// some time: one stretch without a start, without an end, or ending when it
/// started, anywhere among the stretches, leaves the log out.
pub proof fn lemma_rows_iff_measured(ms: Seq<(u64, u64)>, last: u64)
    requires
        marks_in_order(ms),
    ensures
        spec_rows(ms, last) is Some <==> forall|k: int|
            0 <= k < ms.len() ==> (#[trigger] ms[k]).0 != 0 && ms[k].1 != 0 && ms[k].0 != ms[k].1,
{
    assert forall|k: int| 0 <= k < ms.len() implies (span(#[trigger] ms[k]) != 0 <==> (ms[k].0 != 0
        && ms[k].1 != 0 && ms[k].0 != ms[k].1)) by {
        if ms[k].0 != 0 && ms[k].1 != 0 {
            assert(ms[k].0 <= ms[k].1);
        }
    }
}

/// The line holds `p` and is stamped later than the start of the build.
pub open spec fn hit(line: Seq<u8>, p: Seq<u8>) -> bool {
    contains_bytes(line, p) && line_secs(line) != 0
}

/// Where the marks of a stretch come from: the start is the stamp of the
/// first line (stamped after the build started) holding the opening
/// statement, or zero where there is none; the end is the stamp of the first
/// later such line holding the closing statement, or zero where there is
/// none; a stretch never has an end without a start.
#[verifier::spinoff_prover]
#[verifier::rlimit(60)]
pub proof fn lemma_marks_from_lines(lines: Seq<Seq<u8>>, pats: Seq<(Seq<u8>, Seq<u8>)>, k: int)
    requires
        0 <= k < pats.len(),
    ensures
        ({
            let m = marks_after(lines, pats)[k];
            let (open, close) = pats[k];
            &&& m.1 != 0 ==> m.0 != 0
            &&& m.0 == 0 ==> forall|i: int| 0 <= i < lines.len() ==> !hit(#[trigger] lines[i], open)
            &&& m.0 != 0 ==> exists|i: int|
                #![trigger lines[i]]
                0 <= i < lines.len() && hit(lines[i], open) && line_secs(lines[i]) == m.0 && (forall|
                    h: int,
                | 0 <= h < i ==> !hit(#[trigger] lines[h], open)) && (m.1 == 0 ==> forall|j: int|
                    i < j < lines.len() ==> !hit(#[trigger] lines[j], close)) && (m.1 != 0
                    ==> exists|j: int|
                    #![trigger lines[j]]
                    i < j < lines.len() && hit(lines[j], close) && line_secs(lines[j]) == m.1 && (
                    forall|h: int| i < h < j ==> !hit(#[trigger] lines[h], close)))
        }),
    decreases lines.len(),
{
    if lines.len() > 0 {
        let prev = lines.drop_last();
        lemma_marks_from_lines(prev, pats, k);
        let l = lines.last();
        let t = line_secs(l);
        let (open, close) = pats[k];
        let mp = marks_after(prev, pats)[k];
        let m = marks_after(lines, pats)[k];
        let n = lines.len() - 1;
        assert(lines[n] == l);
        assert(forall|i: int| 0 <= i < n ==> lines[i] == prev[i]);
        assert(m == mark(mp, l, pats[k], t));
        if mp.0 == 0 {
            if hit(l, open) {
                assert(m == (t, 0u64));
                assert(hit(lines[n], open));
            }
        } else {
            let i = choose|i: int|
                #![trigger prev[i]]
                0 <= i < prev.len() && hit(prev[i], open) && line_secs(prev[i]) == mp.0 && (forall|
                    h: int,
                | 0 <= h < i ==> !hit(#[trigger] prev[h], open)) && (mp.1 == 0 ==> forall|j: int|
                    i < j < prev.len() ==> !hit(#[trigger] prev[j], close)) && (mp.1 != 0
                    ==> exists|j: int|
                    #![trigger prev[j]]
                    i < j < prev.len() && hit(prev[j], close) && line_secs(prev[j]) == mp.1 && (
                    forall|h: int| i < h < j ==> !hit(#[trigger] prev[h], close)));
            assert(lines[i] == prev[i]);
            assert(forall|h: int| 0 <= h < i ==> lines[h] == prev[h]);
            if mp.1 == 0 {
                if hit(l, close) {
                    assert(m == (mp.0, t));
                    assert(forall|h: int| i < h < n ==> lines[h] == prev[h]);
                    assert(hit(lines[n], close));
                } else {
                    assert(forall|h: int| i < h < n ==> lines[h] == prev[h]);
                }
            } else {
                let j = choose|j: int|
                    #![trigger prev[j]]
                    i < j < prev.len() && hit(prev[j], close) && line_secs(prev[j]) == mp.1 && (
                    forall|h: int| i < h < j ==> !hit(#[trigger] prev[h], close));
                assert(lines[j] == prev[j]);
                assert(forall|h: int| i < h < j ==> lines[h] == prev[h]);
            }
        }
    }
}

/// Once set, a mark never changes: however the log goes on, a stretch keeps
/// its start once it has one, and keeps both marks once it has an end.
pub proof fn lemma_marks_settle(
    lines: Seq<Seq<u8>>,
    more: Seq<Seq<u8>>,
    pats: Seq<(Seq<u8>, Seq<u8>)>,
    k: int,
)
    requires
        0 <= k < pats.len(),
    ensures
        marks_after(lines, pats)[k].0 != 0 ==> marks_after(lines + more, pats)[k].0 == marks_after(
            lines,
            pats,
        )[k].0,
        marks_after(lines, pats)[k].1 != 0 ==> marks_after(lines + more, pats)[k] == marks_after(
            lines,
            pats,
        )[k],
    decreases more.len(),
{
    if more.len() == 0 {
        assert(lines + more =~= lines);
    } else {
        let before = lines + more.drop_last();
        lemma_marks_settle(lines, more.drop_last(), pats, k);
        lemma_marks_from_lines(before, pats, k);
        assert((lines + more).drop_last() =~= before);
    }
}

} // verus!
