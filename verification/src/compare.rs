//! Comparing two logs of the same build steps: which lines of the second log
//! came more than ten seconds later, relative to the start, than the same
//! line in the first.

use vstd::prelude::*;
use vstd::string::*;
use vstd::utf8::{decode_utf8, encode_utf8_decode_utf8};
use crate::logline::{all_stamped, is_stamped, line_secs, line_text, parse};
use crate::order::{entries_view, entry_view, insert_sorted, is_sorted};
use crate::text::{bytes_eq, bytes_of, spec_lines, split_lines};

verus! {

/// The characters that `char::is_whitespace` accepts: those with the Unicode
/// `White_Space` property.
pub open spec fn is_white_space(c: char) -> bool {
    let u = c as u32;
    ||| 9 <= u <= 13
    ||| u == 32
    ||| u == 0x85
    ||| u == 0xa0
    ||| u == 0x1680
    ||| 0x2000 <= u <= 0x200a
    ||| u == 0x2028
    ||| u == 0x2029
    ||| u == 0x202f
    ||| u == 0x205f
    ||| u == 0x3000
}

/// A text that `trim` empties: all of its characters are white space.
pub open spec fn is_blank(t: Seq<u8>) -> bool {
    forall|i: int| 0 <= i < decode_utf8(t).len() ==> is_white_space(#[trigger] decode_utf8(t)[i])
}

/// Whether `c` is white space.
pub fn white_space(c: char) -> (r: bool)
    ensures
        r == is_white_space(c),
{
    let u = c as u32;
    (9 <= u && u <= 13) || u == 32 || u == 0x85 || u == 0xa0 || u == 0x1680 || (0x2000 <= u && u
        <= 0x200a) || u == 0x2028 || u == 0x2029 || u == 0x202f || u == 0x205f || u == 0x3000
}

/// Whether `t` holds nothing but white space.
pub fn blank(t: &str) -> (r: bool)
    ensures
        r == is_blank(t.spec_bytes()),
{
    proof {
        encode_utf8_decode_utf8(t@);
    }
    let mut all = true;
    for c in it: t.chars()
        invariant
            it.seq() == t@,
            all == (forall|i: int| 0 <= i < it.index() ==> is_white_space(#[trigger] t@[i])),
    {
        if !white_space(c) {
            all = false;
        }
    }
    all
}

/// The text and the seconds of each line of a log.
pub open spec fn readings(b: Seq<u8>) -> Seq<(Seq<u8>, u64)> {
    spec_lines(b).map_values(|l: Seq<u8>| (line_text(l), line_secs(l)))
}

/// The seconds of the lines with text `t`, in the order of the log, where `t`
/// is not blank; nothing for a blank text.
pub open spec fn times_for(p: Seq<(Seq<u8>, u64)>, t: Seq<u8>) -> Seq<u64>
    decreases p.len(),
{
    if p.len() == 0 {
        seq![]
    } else if p.last().0 == t && !is_blank(t) {
        times_for(p.drop_last(), t).push(p.last().1)
    } else {
        times_for(p.drop_last(), t)
    }
}

/// How many lines of `p` have the text `t`.
pub open spec fn count_text(p: Seq<(Seq<u8>, u64)>, t: Seq<u8>) -> nat
    decreases p.len(),
{
    if p.len() == 0 {
        0
    } else if p.last().0 == t {
        count_text(p.drop_last(), t) + 1
    } else {
        count_text(p.drop_last(), t)
    }
}

/// The slowdowns of the log `pb` against the log `pa`, in the order of `pb`:
/// the `k`-th line of `pb` with a given text is matched with the `k`-th line
/// of `pa` with that text, if there is one and the text is not blank, and is
/// reported with its text and the seconds it came later where that is more
/// than ten.
pub open spec fn slowdowns(pa: Seq<(Seq<u8>, u64)>, pb: Seq<(Seq<u8>, u64)>) -> Seq<
    (u64, Seq<u8>),
>
    decreases pb.len(),
{
    if pb.len() == 0 {
        seq![]
    } else {
        let rest = slowdowns(pa, pb.drop_last());
        let t = pb.last().0;
        let d = pb.last().1;
        let k = count_text(pb.drop_last(), t);
        let q = times_for(pa, t);
        if k < q.len() && d > q[k as int] + 10 {
            rest.push(((d - q[k as int]) as u64, t))
        } else {
            rest
        }
    }
}

/// The index of the key equal to `t`, if there is one.
fn find_key(keys: &Vec<&str>, t: &str) -> (r: Option<usize>)
    ensures
        r matches Some(g) ==> g < keys@.len() && keys@[g as int].spec_bytes() == t.spec_bytes(),
        r is None ==> forall|g: int|
            0 <= g < keys@.len() ==> (#[trigger] keys@[g]).spec_bytes() != t.spec_bytes(),
{
    let tb = t.as_bytes();
    let mut g: usize = 0;
    while g < keys.len()
        invariant
            g <= keys@.len(),
            tb@ == t.spec_bytes(),
            forall|h: int| 0 <= h < g ==> (#[trigger] keys@[h]).spec_bytes() != t.spec_bytes(),
        decreases keys@.len() - g,
    {
        if bytes_eq(keys[g].as_bytes(), tb) {
            return Some(g);
        }
        g = g + 1;
    }
    None
}

/// The lines of log `b` that came more than ten seconds later than the same
/// line of log `a`, with how many seconds later, in ascending order of the
/// seconds and then of the text.
///
/// The `k`-th line of `b` with a given text is matched with the `k`-th line of
/// `a` with that text; lines of `a` whose text is blank are never matched.
pub fn compare_logs<'b>(a: &str, b: &'b str) -> (r: Vec<(u64, &'b str)>)
    requires
        all_stamped(a.spec_bytes()),
        all_stamped(b.spec_bytes()),
    ensures
        is_sorted(entries_view(r@)),
        entries_view(r@).to_multiset() == slowdowns(
            readings(a.spec_bytes()),
            readings(b.spec_bytes()),
        ).to_multiset(),
{
    let la = split_lines(a);
    let lb = split_lines(b);
    let ghost pa = readings(a.spec_bytes());
    let ghost pb = readings(b.spec_bytes());
    proof {
        assert(bytes_of(la@).len() == la@.len());
        assert(bytes_of(lb@).len() == lb@.len());
    }
    let mut keys: Vec<&str> = Vec::new();
    let mut queues: Vec<Vec<u64>> = Vec::new();
    let mut i: usize = 0;
    while i < la.len()
        invariant
            bytes_of(la@) == spec_lines(a.spec_bytes()),
            all_stamped(a.spec_bytes()),
            pa == readings(a.spec_bytes()),
            i <= la@.len(),
            keys@.len() == queues@.len(),
            forall|g: int| 0 <= g < keys@.len() ==> !is_blank((#[trigger] keys@[g]).spec_bytes()),
            forall|g: int, h: int|
                0 <= g < keys@.len() && 0 <= h < keys@.len() && g != h ==> (#[trigger] keys@[g]).spec_bytes()
                    != (#[trigger] keys@[h]).spec_bytes(),
            forall|g: int|
                0 <= g < keys@.len() ==> (#[trigger] queues@[g])@ == times_for(
                    pa.take(i as int),
                    keys@[g].spec_bytes(),
                ),
            forall|t: Seq<u8>|
                (forall|g: int| 0 <= g < keys@.len() ==> (#[trigger] keys@[g]).spec_bytes() != t)
                    ==> #[trigger] times_for(pa.take(i as int), t).len() == 0,
        decreases la@.len() - i,
    {
        proof {
            assert(bytes_of(la@)[i as int] == la@[i as int].spec_bytes());
            assert(is_stamped(spec_lines(a.spec_bytes())[i as int]));
        }
        let (t, d) = parse(la[i]);
        let ghost prev = pa.take(i as int);
        let ghost next = pa.take(i + 1);
        let ghost keys0 = keys@;
        proof {
            assert(next.drop_last() =~= prev);
            assert(next.last() == (t.spec_bytes(), d));
        }
        if !blank(t) {
            match find_key(&keys, t) {
                Some(g) => {
                    queues[g].push(d);
                },
                None => {
                    keys.push(t);
                    let mut q: Vec<u64> = Vec::new();
                    q.push(d);
                    queues.push(q);
                    proof {
                        assert(times_for(prev, t.spec_bytes()).len() == 0);
                        assert(q@ =~= times_for(next, t.spec_bytes()));
                    }
                },
            }
        }
        proof {
            assert forall|g: int| 0 <= g < keys@.len() implies (#[trigger] queues@[g])@
                == times_for(next, keys@[g].spec_bytes()) by {
                let _ = times_for(next, keys@[g].spec_bytes());
            }
            assert forall|t2: Seq<u8>|
                (forall|g: int| 0 <= g < keys@.len() ==> (#[trigger] keys@[g]).spec_bytes() != t2)
                    implies #[trigger] times_for(next, t2).len() == 0 by {
                let _ = times_for(next, t2);
                if t2 == t.spec_bytes() && !is_blank(t2) {
                    assert(keys@[keys@.len() - 1].spec_bytes() == t2);
                }
                assert forall|g: int| 0 <= g < keys0.len() implies (#[trigger] keys0[g]).spec_bytes()
                    != t2 by {
                    assert(keys@[g] == keys0[g]);
                }
                assert(times_for(prev, t2).len() == 0);
            }
        }
        i = i + 1;
    }
    proof {
        assert(pa.take(la@.len() as int) =~= pa);
    }
    let mut used: Vec<usize> = Vec::new();
    while used.len() < keys.len()
        invariant
            used@.len() <= keys@.len(),
            forall|g: int| 0 <= g < used@.len() ==> used@[g] == 0,
        decreases keys@.len() - used@.len(),
    {
        used.push(0);
    }
    let mut out: Vec<(u64, &'b str)> = Vec::new();
    let ghost mut found: Seq<(u64, Seq<u8>)> = seq![];
    proof {
        assert(entries_view(out@) =~= found);
        assert(pb.take(0) =~= seq![]);
    }
    let mut j: usize = 0;
    while j < lb.len()
        invariant
            bytes_of(lb@) == spec_lines(b.spec_bytes()),
            all_stamped(b.spec_bytes()),
            pb == readings(b.spec_bytes()),
            j <= lb@.len(),
            keys@.len() == queues@.len(),
            used@.len() == keys@.len(),
            forall|g: int, h: int|
                0 <= g < keys@.len() && 0 <= h < keys@.len() && g != h ==> (#[trigger] keys@[g]).spec_bytes()
                    != (#[trigger] keys@[h]).spec_bytes(),
            forall|g: int|
                0 <= g < keys@.len() ==> (#[trigger] queues@[g])@ == times_for(
                    pa,
                    keys@[g].spec_bytes(),
                ),
            forall|t: Seq<u8>|
                (forall|g: int| 0 <= g < keys@.len() ==> (#[trigger] keys@[g]).spec_bytes() != t)
                    ==> #[trigger] times_for(pa, t).len() == 0,
            forall|g: int|
                0 <= g < keys@.len() ==> {
                    let c = count_text(pb.take(j as int), keys@[g].spec_bytes());
                    let n = queues@[g]@.len();
                    (#[trigger] used@[g]) == if c < n {
                        c
                    } else {
                        n
                    }
                },
            found == slowdowns(pa, pb.take(j as int)),
            is_sorted(entries_view(out@)),
            entries_view(out@).to_multiset() == found.to_multiset(),
        decreases lb@.len() - j,
    {
        proof {
            assert(bytes_of(lb@)[j as int] == lb@[j as int].spec_bytes());
            assert(is_stamped(spec_lines(b.spec_bytes())[j as int]));
        }
        let (t, d) = parse(lb[j]);
        let ghost prev = pb.take(j as int);
        let ghost next = pb.take(j + 1);
        let ghost tb = t.spec_bytes();
        proof {
            assert(next.drop_last() =~= prev);
            assert(next.last() == (tb, d));
        }
        let ghost old_used = used@;
        let ghost mut entry: Option<(u64, Seq<u8>)> = None;
        match find_key(&keys, t) {
            None => {},
            Some(g) => {
                let u = used[g];
                if u < queues[g].len() {
                    let time = queues[g][u];
                    used.set(g, u + 1);
                    if d > time && d - time > 10 {
                        insert_sorted(&mut out, (d - time, t));
                        proof {
                            entry = Some(((d - time) as u64, tb));
                        }
                    }
                }
            },
        }
        proof {
            let q = times_for(pa, tb);
            let k = count_text(prev, tb);
            let s = slowdowns(pa, next);
            assert(s == if k < q.len() && d > q[k as int] + 10 {
                found.push(((d - q[k as int]) as u64, tb))
            } else {
                found
            });
            match entry {
                Some(e) => {
                    assert(s == found.push(e));
                    vstd::seq_lib::to_multiset_build(found, e);
                },
                None => {
                    assert(s == found);
                },
            }
            found = s;
            assert forall|g: int| 0 <= g < keys@.len() implies {
                let c = count_text(next, keys@[g].spec_bytes());
                let n = queues@[g]@.len();
                (#[trigger] used@[g]) == if c < n {
                    c
                } else {
                    n
                }
            } by {
                let _ = count_text(next, keys@[g].spec_bytes());
            }
        }
        j = j + 1;
    }
    proof {
        assert(pb.take(lb@.len() as int) =~= pb);
    }
    out
}

/// Every line reported came more than ten seconds later, has the text of a
/// line of the second log, and no more lines are reported than it has.
pub proof fn lemma_reported_are_slower(pa: Seq<(Seq<u8>, u64)>, pb: Seq<(Seq<u8>, u64)>)
    ensures
        slowdowns(pa, pb).len() <= pb.len(),
        forall|i: int| 0 <= i < slowdowns(pa, pb).len() ==> (#[trigger] slowdowns(pa, pb)[i]).0 > 10,
        forall|i: int|
            0 <= i < slowdowns(pa, pb).len() ==> exists|j: int|
                0 <= j < pb.len() && (#[trigger] pb[j]).0 == (#[trigger] slowdowns(pa, pb)[i]).1,
    decreases pb.len(),
{
    if pb.len() > 0 {
        let prev = pb.drop_last();
        lemma_reported_are_slower(pa, prev);
        let s = slowdowns(pa, pb);
        let r = slowdowns(pa, prev);
        assert forall|i: int| 0 <= i < s.len() implies exists|j: int|
            0 <= j < pb.len() && (#[trigger] pb[j]).0 == (#[trigger] s[i]).1 by {
            if i < r.len() {
                let j = choose|j: int| 0 <= j < prev.len() && (#[trigger] prev[j]).0 == r[i].1;
                assert(pb[j] == prev[j]);
            } else {
                assert(pb[pb.len() - 1].0 == s[i].1);
            }
        }
    }
}

/// For a text that is not blank, there is one time for each line with it.
proof fn lemma_times_for_len(p: Seq<(Seq<u8>, u64)>, t: Seq<u8>)
    requires
        !is_blank(t),
    ensures
        times_for(p, t).len() == count_text(p, t),
    decreases p.len(),
{
    if p.len() > 0 {
        lemma_times_for_len(p.drop_last(), t);
    }
}

/// The times of a text in a log are those of its first part, then those of
/// the rest.
proof fn lemma_times_for_append(p: Seq<(Seq<u8>, u64)>, q: Seq<(Seq<u8>, u64)>, t: Seq<u8>)
    ensures
        times_for(p + q, t) == times_for(p, t) + times_for(q, t),
    decreases q.len(),
{
    if q.len() == 0 {
        assert(p + q =~= p);
        assert(times_for(p, t) + times_for(q, t) =~= times_for(p, t));
    } else {
        lemma_times_for_append(p, q.drop_last(), t);
        assert((p + q).drop_last() =~= p + q.drop_last());
        assert(times_for(p + q, t) =~= times_for(p, t) + times_for(q, t));
    }
}

/// Comparing a log with itself reports nothing: every line is matched with
/// itself.
pub proof fn lemma_same_log_reports_nothing(pa: Seq<(Seq<u8>, u64)>)
    ensures
        slowdowns(pa, pa).len() == 0,
{
    lemma_no_slowdowns_in_prefix(pa, pa.len() as int);
    assert(pa.take(pa.len() as int) =~= pa);
}

/// Comparing the first `j` lines of a log with the log reports nothing.
proof fn lemma_no_slowdowns_in_prefix(pa: Seq<(Seq<u8>, u64)>, j: int)
    requires
        0 <= j <= pa.len(),
    ensures
        slowdowns(pa, pa.take(j)).len() == 0,
    decreases j,
{
    if j > 0 {
        let pb = pa.take(j);
        let prev = pb.drop_last();
        assert(prev =~= pa.take(j - 1));
        lemma_no_slowdowns_in_prefix(pa, j - 1);
        let t = pa[j - 1].0;
        let d = pa[j - 1].1;
        let k = count_text(prev, t);
        let q = times_for(pa, t);
        if !is_blank(t) {
            let head = pa.take(j);
            let tail = pa.skip(j);
            assert(pa =~= head + tail);
            lemma_times_for_append(head, tail, t);
            assert(head.drop_last() =~= prev);
            assert(times_for(head, t) == times_for(prev, t).push(d));
            lemma_times_for_len(prev, t);
            assert(q[k as int] == d);
        } else {
            lemma_times_for_blank(pa, t);
        }
        assert(pb.last() == pa[j - 1]);
    }
}

/// A blank text has no times.
proof fn lemma_times_for_blank(p: Seq<(Seq<u8>, u64)>, t: Seq<u8>)
    requires
        is_blank(t),
    ensures
        times_for(p, t).len() == 0,
    decreases p.len(),
{
    if p.len() > 0 {
        lemma_times_for_blank(p.drop_last(), t);
    }
}

/// The line `i` of a log, with a text that is not blank, holds the time that
/// `times_for` lists for that text at the count of its earlier lines with it.
proof fn lemma_times_at(pa: Seq<(Seq<u8>, u64)>, i: int)
    requires
        0 <= i < pa.len(),
        !is_blank(pa[i].0),
    ensures
        count_text(pa.take(i), pa[i].0) < times_for(pa, pa[i].0).len(),
        times_for(pa, pa[i].0)[count_text(pa.take(i), pa[i].0) as int] == pa[i].1,
{
    let x = pa[i].0;
    let head = pa.take(i + 1);
    let tail = pa.skip(i + 1);
    assert(pa =~= head + tail);
    lemma_times_for_append(head, tail, x);
    assert(head.drop_last() =~= pa.take(i));
    assert(head.last() == pa[i]);
    assert(times_for(head, x) == times_for(pa.take(i), x).push(pa[i].1));
    lemma_times_for_len(pa.take(i), x);
}

/// Every slowdown is reported, however large: where the `k`-th line of the
/// second log with a text that is not blank came more than ten seconds later
/// than the `k`-th line of the first log with that text, the pair of how much
/// later and the text is among the slowdowns.
pub proof fn lemma_reports_every_slowdown(
    pa: Seq<(Seq<u8>, u64)>,
    pb: Seq<(Seq<u8>, u64)>,
    i: int,
    j: int,
)
    requires
        0 <= i < pa.len(),
        0 <= j < pb.len(),
        pa[i].0 == pb[j].0,
        !is_blank(pb[j].0),
        count_text(pa.take(i), pa[i].0) == count_text(pb.take(j), pb[j].0),
        pb[j].1 > pa[i].1 + 10,
    ensures
        slowdowns(pa, pb).contains(((pb[j].1 - pa[i].1) as u64, pb[j].0)),
    decreases pb.len(),
{
    let e = ((pb[j].1 - pa[i].1) as u64, pb[j].0);
    let prev = pb.drop_last();
    if j == pb.len() - 1 {
        assert(prev =~= pb.take(j));
        lemma_times_at(pa, i);
        let s = slowdowns(pa, pb);
        assert(s == slowdowns(pa, prev).push(e));
        assert(s[s.len() - 1] == e);
    } else {
        assert(prev.take(j) =~= pb.take(j));
        assert(prev[j] == pb[j]);
        lemma_reports_every_slowdown(pa, prev, i, j);
        let r = slowdowns(pa, prev);
        let s = slowdowns(pa, pb);
        let w = choose|w: int| 0 <= w < r.len() && r[w] == e;
        assert(s[w] == e);
    }
}

/// Two logs of one line with the same text that is not blank: the line is
/// reported exactly when it came more than ten seconds later, with how much
/// later, however large that is.
pub proof fn lemma_one_line_logs(x: Seq<u8>, ta: u64, tb: u64)
    requires
        !is_blank(x),
    ensures
        slowdowns(seq![(x, ta)], seq![(x, tb)]) == if tb > ta + 10 {
            seq![((tb - ta) as u64, x)]
        } else {
            seq![]
        },
{
    let pa = seq![(x, ta)];
    let pb = seq![(x, tb)];
    assert(pb.drop_last() =~= seq![]);
    assert(pa.drop_last() =~= seq![]);
    assert(count_text(pb.drop_last(), x) == 0);
    assert(times_for(pa.drop_last(), x) =~= seq![]);
    assert(times_for(pa, x) =~= seq![ta]);
    assert(slowdowns(pa, pb.drop_last()) =~= seq![]);
}

} // verus!
