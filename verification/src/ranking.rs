//! Overlap resolution shared by the matchers: candidates are ordered by start
//! (ascending), then length (descending), then two tie-breaks (descending),
//! with a stable sort; then, left to right, a candidate is kept when it starts
//! at or after the end of the last kept one.

use vstd::prelude::*;

verus! {

/// A candidate span with its ranking key `(start, end, tie1, tie2)`.
pub trait SpanRanked: Sized {
    spec fn rank_key(&self) -> (usize, usize, u64, u64);

    fn rank(&self) -> (r: (usize, usize, u64, u64))
        ensures
            r == self.rank_key(),
    ;
}

/// Length of a span, 0 when its end precedes its start.
pub open spec fn span_len(k: (usize, usize, u64, u64)) -> int {
    if k.1 >= k.0 {
        k.1 - k.0
    } else {
        0
    }
}

/// `a` strictly precedes `b`: earlier start, then longer, then larger tie-breaks.
pub open spec fn ranks_before(a: (usize, usize, u64, u64), b: (usize, usize, u64, u64)) -> bool {
    ||| a.0 < b.0
    ||| a.0 == b.0 && span_len(a) > span_len(b)
    ||| a.0 == b.0 && span_len(a) == span_len(b) && a.2 > b.2
    ||| a.0 == b.0 && span_len(a) == span_len(b) && a.2 == b.2 && a.3 > b.3
}

/// Where a stable insertion puts `x` in `s`: before the first element that `x`
/// strictly precedes.
pub open spec fn place<T: SpanRanked>(s: Seq<T>, x: T) -> int
    decreases s.len(),
{
    if s.len() == 0 || ranks_before(x.rank_key(), s[0].rank_key()) {
        0
    } else {
        1 + place(s.drop_first(), x)
    }
}

/// Stable sort by rank.
pub open spec fn rank_sort<T: SpanRanked>(s: Seq<T>) -> Seq<T>
    decreases s.len(),
{
    if s.len() == 0 {
        seq![]
    } else {
        let r = rank_sort(s.drop_last());
        r.insert(place(r, s.last()), s.last())
    }
}

/// Left-to-right selection of candidates that start at or after the end of the
/// last kept one; also returns that end.
pub open spec fn keep_disjoint<T: SpanRanked>(s: Seq<T>) -> (Seq<T>, int)
    decreases s.len(),
{
    if s.len() == 0 {
        (seq![], 0)
    } else {
        let (r, last_end) = keep_disjoint(s.drop_last());
        let x = s.last();
        if x.rank_key().0 >= last_end {
            (r.push(x), x.rank_key().1 as int)
        } else {
            (r, last_end)
        }
    }
}

/// The candidates that survive overlap resolution, in rank order.
pub open spec fn resolve_overlaps<T: SpanRanked>(s: Seq<T>) -> Seq<T> {
    keep_disjoint(rank_sort(s)).0
}

proof fn lemma_place<T: SpanRanked>(s: Seq<T>, x: T, j: int)
    requires
        0 <= j <= s.len(),
        forall|i: int| 0 <= i < j ==> !ranks_before(x.rank_key(), (#[trigger] s[i]).rank_key()),
        j < s.len() ==> ranks_before(x.rank_key(), s[j].rank_key()),
    ensures
        place(s, x) == j,
    decreases s.len(),
{
    if s.len() > 0 && j > 0 {
        assert(!ranks_before(x.rank_key(), s[0].rank_key()));
        let t = s.drop_first();
        assert forall|i: int| 0 <= i < j - 1 implies !ranks_before(
            x.rank_key(),
            (#[trigger] t[i]).rank_key(),
        ) by {
            assert(t[i] == s[i + 1]);
        }
        if j - 1 < t.len() {
            assert(t[j - 1] == s[j]);
        }
        lemma_place(t, x, j - 1);
    }
}

fn before(a: (usize, usize, u64, u64), b: (usize, usize, u64, u64)) -> (r: bool)
    ensures
        r == ranks_before(a, b),
{
    let la = if a.1 >= a.0 {
        a.1 - a.0
    } else {
        0
    };
    let lb = if b.1 >= b.0 {
        b.1 - b.0
    } else {
        0
    };
    a.0 < b.0 || (a.0 == b.0 && la > lb) || (a.0 == b.0 && la == lb && a.2 > b.2) || (a.0 == b.0
        && la == lb && a.2 == b.2 && a.3 > b.3)
}

/// Sort the candidates by rank (stably) and drop each one that overlaps a
/// candidate kept before it.
pub fn dedupe_ranked<T: SpanRanked>(items: Vec<T>) -> (out: Vec<T>)
    ensures
        out@ == resolve_overlaps(items@),
{
    let ghost orig = items@;
    let mut items = items;
    let mut sorted: Vec<T> = Vec::new();
    let ghost mut k: int = 0;
    while items.len() > 0
        invariant
            0 <= k <= orig.len(),
            items@ == orig.subrange(k, orig.len() as int),
            sorted@ == rank_sort(orig.take(k)),
        decreases items@.len(),
    {
        let x = items.remove(0);
        let kx = x.rank();
        let mut j: usize = 0;
        while j < sorted.len() && !before(kx, sorted[j].rank())
            invariant
                j <= sorted@.len(),
                kx == x.rank_key(),
                forall|i: int| 0 <= i < j ==> !ranks_before(kx, (#[trigger] sorted@[i]).rank_key()),
            decreases sorted@.len() - j,
        {
            j = j + 1;
        }
        proof {
            lemma_place(sorted@, x, j as int);
            let t = orig.take(k + 1);
            assert(t.drop_last() =~= orig.take(k));
            assert(t.last() == x);
        }
        sorted.insert(j, x);
        proof {
            k = k + 1;
            assert(items@ =~= orig.subrange(k, orig.len() as int));
        }
    }
    assert(orig.take(orig.len() as int) =~= orig);
    let ghost srt = sorted@;
    let mut out: Vec<T> = Vec::new();
    let mut last_end: usize = 0;
    let ghost mut m: int = 0;
    while sorted.len() > 0
        invariant
            0 <= m <= srt.len(),
            sorted@ == srt.subrange(m, srt.len() as int),
            (out@, last_end as int) == keep_disjoint(srt.take(m)),
        decreases sorted@.len(),
    {
        let x = sorted.remove(0);
        let kx = x.rank();
        proof {
            let t = srt.take(m + 1);
            assert(t.drop_last() =~= srt.take(m));
            assert(t.last() == x);
        }
        if kx.0 >= last_end {
            last_end = kx.1;
            out.push(x);
        }
        proof {
            m = m + 1;
            assert(sorted@ =~= srt.subrange(m, srt.len() as int));
        }
    }
    assert(srt.take(srt.len() as int) =~= srt);
    out
}

proof fn lemma_place_bound<T: SpanRanked>(s: Seq<T>, x: T)
    ensures
        0 <= place(s, x) <= s.len(),
    decreases s.len(),
{
    if s.len() > 0 && !ranks_before(x.rank_key(), s[0].rank_key()) {
        lemma_place_bound(s.drop_first(), x);
    }
}

/// Sorting keeps the candidates: same number, each from the input.
proof fn lemma_sort_members<T: SpanRanked>(s: Seq<T>)
    ensures
        rank_sort(s).len() == s.len(),
        forall|k: int| 0 <= k < s.len() ==> s.contains(#[trigger] rank_sort(s)[k]),
    decreases s.len(),
{
    if s.len() > 0 {
        let d = s.drop_last();
        lemma_sort_members(d);
        let r = rank_sort(d);
        let x = s.last();
        lemma_place_bound(r, x);
        let p = place(r, x);
        assert forall|k: int| 0 <= k < s.len() implies s.contains(#[trigger] rank_sort(s)[k]) by {
            let y = rank_sort(s)[k];
            if k < p {
                assert(y == r[k]);
                assert(d.contains(y));
                let i = choose|i: int| 0 <= i < d.len() && d[i] == y;
                assert(s[i] == y);
            } else if k == p {
                assert(s[s.len() - 1] == y);
            } else {
                assert(y == r[k - 1]);
                assert(d.contains(y));
                let i = choose|i: int| 0 <= i < d.len() && d[i] == y;
                assert(s[i] == y);
            }
        }
    }
}

/// The kept candidates come from the input, do not overlap, and the end
/// tracked is the end of the last one kept (0 before any).
proof fn lemma_keep_disjoint<T: SpanRanked>(t: Seq<T>)
    requires
        forall|i: int| 0 <= i < t.len() ==> (#[trigger] t[i]).rank_key().0 <= t[i].rank_key().1,
    ensures
        ({
            let (r, le) = keep_disjoint(t);
            &&& forall|k: int| 0 <= k < r.len() ==> t.contains(#[trigger] r[k])
            &&& forall|a: int, b: int|
                0 <= a < b < r.len() ==> (#[trigger] r[a]).rank_key().1 <= (
                #[trigger] r[b]).rank_key().0
            &&& forall|k: int| 0 <= k < r.len() ==> (#[trigger] r[k]).rank_key().1 <= le
            &&& le >= 0
        }),
    decreases t.len(),
{
    if t.len() > 0 {
        let d = t.drop_last();
        assert forall|i: int| 0 <= i < d.len() implies (#[trigger] d[i]).rank_key().0 <= d[i].rank_key().1 by {
            assert(d[i] == t[i]);
        }
        lemma_keep_disjoint(d);
        let (r, le) = keep_disjoint(d);
        let x = t.last();
        assert(x == t[t.len() - 1]);
        assert forall|k: int| 0 <= k < r.len() implies t.contains(#[trigger] r[k]) by {
            assert(d.contains(r[k]));
            let i = choose|i: int| 0 <= i < d.len() && d[i] == r[k];
            assert(t[i] == r[k]);
        }
        if x.rank_key().0 >= le {
            let r2 = r.push(x);
            assert forall|k: int| 0 <= k < r2.len() implies t.contains(#[trigger] r2[k]) by {
                if k < r.len() {
                    assert(r2[k] == r[k]);
                } else {
                    assert(t[t.len() - 1] == r2[k]);
                }
            }
            assert forall|a: int, b: int| 0 <= a < b < r2.len() implies (#[trigger] r2[a]).rank_key().1
                <= (#[trigger] r2[b]).rank_key().0 by {
                assert(r2[a] == r[a]);
                if b < r.len() {
                    assert(r2[b] == r[b]);
                }
            }
            assert forall|k: int| 0 <= k < r2.len() implies (#[trigger] r2[k]).rank_key().1
                <= x.rank_key().1 by {
                if k < r.len() {
                    assert(r2[k] == r[k]);
                }
            }
        }
    }
}

/// Overlap resolution keeps candidates from its input and, when every
/// candidate's span is well formed, the kept ones never overlap: each starts
/// at or after the end of every earlier one.
pub proof fn law_resolved_disjoint<T: SpanRanked>(s: Seq<T>)
    requires
        forall|i: int| 0 <= i < s.len() ==> (#[trigger] s[i]).rank_key().0 <= s[i].rank_key().1,
    ensures
        forall|k: int|
            0 <= k < resolve_overlaps(s).len() ==> s.contains(#[trigger] resolve_overlaps(s)[k]),
        forall|a: int, b: int|
            0 <= a < b < resolve_overlaps(s).len() ==> (#[trigger] resolve_overlaps(s)[a]).rank_key().1
                <= (#[trigger] resolve_overlaps(s)[b]).rank_key().0,
{
    lemma_sort_members(s);
    let t = rank_sort(s);
    assert forall|i: int| 0 <= i < t.len() implies (#[trigger] t[i]).rank_key().0 <= t[i].rank_key().1 by {
        assert(s.contains(t[i]));
        let j = choose|j: int| 0 <= j < s.len() && s[j] == t[i];
        assert(s[j].rank_key().0 <= s[j].rank_key().1);
    }
    lemma_keep_disjoint(t);
    let r = resolve_overlaps(s);
    assert forall|k: int| 0 <= k < r.len() implies s.contains(#[trigger] r[k]) by {
        assert(t.contains(r[k]));
        let i = choose|i: int| 0 <= i < t.len() && t[i] == r[k];
        assert(s.contains(t[i]));
    }
}

proof fn lemma_place_prefix<T: SpanRanked>(s: Seq<T>, x: T)
    ensures
        forall|i: int| 0 <= i < place(s, x) ==> !ranks_before(x.rank_key(), (#[trigger] s[i]).rank_key()),
        place(s, x) < s.len() ==> ranks_before(x.rank_key(), s[place(s, x)].rank_key()),
    decreases s.len(),
{
    if s.len() > 0 && !ranks_before(x.rank_key(), s[0].rank_key()) {
        let t = s.drop_first();
        lemma_place_prefix(t, x);
        lemma_place_bound(t, x);
        assert(place(s, x) == 1 + place(t, x));
        assert forall|i: int| 0 <= i < place(s, x) implies !ranks_before(x.rank_key(), (#[trigger] s[i]).rank_key()) by {
            if i > 0 {
                assert(s[i] == t[i - 1]);
            }
        }
        if place(s, x) < s.len() {
            assert(s[place(s, x)] == t[place(t, x)]);
        }
    }
}

/// Sorting puts starts in order and loses no candidate.
proof fn lemma_sort_order<T: SpanRanked>(s: Seq<T>)
    ensures
        forall|a: int, b: int|
            0 <= a < b < rank_sort(s).len() ==> (#[trigger] rank_sort(s)[a]).rank_key().0 <= (
            #[trigger] rank_sort(s)[b]).rank_key().0,
        forall|i: int| 0 <= i < s.len() ==> rank_sort(s).contains(#[trigger] s[i]),
    decreases s.len(),
{
    if s.len() > 0 {
        let d = s.drop_last();
        lemma_sort_order(d);
        lemma_sort_members(d);
        let r = rank_sort(d);
        let x = s.last();
        lemma_place_bound(r, x);
        lemma_place_prefix(r, x);
        let p = place(r, x);
        r.insert_ensures(p, x);
        let out = r.insert(p, x);
        assert(rank_sort(s) == out);
        assert forall|a: int, b: int| 0 <= a < b < out.len() implies (#[trigger] out[a]).rank_key().0 <= (
        #[trigger] out[b]).rank_key().0 by {
            if b < p {
                assert(out[a] == r[a] && out[b] == r[b]);
            } else if b == p {
                assert(out[a] == r[a]);
                assert(!ranks_before(x.rank_key(), r[a].rank_key()));
            } else if a < p {
                assert(out[a] == r[a] && out[b] == r[b - 1]);
            } else if a == p {
                assert(out[b] == r[b - 1]);
                assert(ranks_before(x.rank_key(), r[p].rank_key()));
                if b - 1 > p {
                    assert(r[p].rank_key().0 <= r[b - 1].rank_key().0);
                }
            } else {
                assert(out[a] == r[a - 1] && out[b] == r[b - 1]);
            }
        }
        assert forall|i: int| 0 <= i < s.len() implies out.contains(#[trigger] s[i]) by {
            if i < d.len() {
                assert(d[i] == s[i]);
                assert(r.contains(d[i]));
                let j = choose|j: int| 0 <= j < r.len() && r[j] == d[i];
                if j < p {
                    assert(out[j] == r[j]);
                } else {
                    assert(out[j + 1] == r[j]);
                }
            } else {
                assert(out[p] == x);
            }
        }
    }
}

/// Over candidates in order of start, a candidate left out starts inside
/// one kept before it; the end tracked is that of the last one kept.
proof fn lemma_keep_covers<T: SpanRanked>(t: Seq<T>)
    requires
        forall|a: int, b: int| 0 <= a < b < t.len() ==> (#[trigger] t[a]).rank_key().0 <= (#[trigger] t[b]).rank_key().0,
    ensures
        ({
            let (r, le) = keep_disjoint(t);
            &&& forall|i: int|
                0 <= i < t.len() ==> r.contains(#[trigger] t[i]) || exists|j: int|
                    0 <= j < r.len() && (#[trigger] r[j]).rank_key().0 <= t[i].rank_key().0 < r[j].rank_key().1
            &&& r.len() > 0 ==> le == r.last().rank_key().1 && r.last().rank_key().0 <= (if t.len() > 0 {
                t.last().rank_key().0 as int
            } else {
                0
            })
            &&& r.len() == 0 ==> le == 0
        }),
    decreases t.len(),
{
    if t.len() > 0 {
        let d = t.drop_last();
        assert forall|a: int, b: int| 0 <= a < b < d.len() implies (#[trigger] d[a]).rank_key().0 <= (
        #[trigger] d[b]).rank_key().0 by {
            assert(d[a] == t[a] && d[b] == t[b]);
        }
        lemma_keep_covers(d);
        let (r, le) = keep_disjoint(d);
        let x = t.last();
        assert(x == t[t.len() - 1]);
        if r.len() > 0 && d.len() > 0 {
            assert(d.last() == t[t.len() - 2]);
        }
        if x.rank_key().0 >= le {
            let r2 = r.push(x);
            assert forall|i: int|
                0 <= i < t.len() implies r2.contains(#[trigger] t[i]) || exists|j: int|
                    0 <= j < r2.len() && (#[trigger] r2[j]).rank_key().0 <= t[i].rank_key().0 < r2[j].rank_key().1 by {
                if i < d.len() {
                    assert(d[i] == t[i]);
                    if r.contains(d[i]) {
                        let j = choose|j: int| 0 <= j < r.len() && r[j] == d[i];
                        assert(r2[j] == r[j]);
                    } else {
                        let j = choose|j: int|
                            0 <= j < r.len() && (#[trigger] r[j]).rank_key().0 <= d[i].rank_key().0 < r[j].rank_key().1;
                        assert(r2[j] == r[j]);
                    }
                } else {
                    assert(r2[r.len() as int] == x);
                }
            }
        } else {
            // x starts before the end of the last kept one, which starts no later
            assert(r.len() > 0);
            let k = r.len() - 1;
            assert(r[k] == r.last());
            assert forall|i: int|
                0 <= i < t.len() implies r.contains(#[trigger] t[i]) || exists|j: int|
                    0 <= j < r.len() && (#[trigger] r[j]).rank_key().0 <= t[i].rank_key().0 < r[j].rank_key().1 by {
                if i < d.len() {
                    assert(d[i] == t[i]);
                } else {
                    assert(d.len() > 0);
                    assert(t[t.len() - 2].rank_key().0 <= x.rank_key().0);
                    assert(r[k].rank_key().0 <= x.rank_key().0 < r[k].rank_key().1);
                }
            }
        }
    }
}

/// Overlap resolution drops a candidate only for a kept one that starts no
/// later and reaches past its start: every candidate is kept or starts
/// inside a kept one.
pub proof fn law_resolved_covers<T: SpanRanked>(s: Seq<T>)
    ensures
        forall|i: int|
            0 <= i < s.len() ==> resolve_overlaps(s).contains(#[trigger] s[i]) || exists|j: int|
                0 <= j < resolve_overlaps(s).len() && (#[trigger] resolve_overlaps(s)[j]).rank_key().0
                    <= s[i].rank_key().0 < resolve_overlaps(s)[j].rank_key().1,
{
    lemma_sort_order(s);
    let t = rank_sort(s);
    lemma_keep_covers(t);
    let r = resolve_overlaps(s);
    assert forall|i: int|
        0 <= i < s.len() implies r.contains(#[trigger] s[i]) || exists|j: int|
            0 <= j < r.len() && (#[trigger] r[j]).rank_key().0 <= s[i].rank_key().0 < r[j].rank_key().1 by {
        assert(t.contains(s[i]));
        let q = choose|q: int| 0 <= q < t.len() && t[q] == s[i];
        assert(r.contains(t[q]) || exists|j: int|
            0 <= j < r.len() && (#[trigger] r[j]).rank_key().0 <= t[q].rank_key().0 < r[j].rank_key().1);
    }
}

/// The rank order is a strict order.
proof fn lemma_ranks_order(a: (usize, usize, u64, u64), b: (usize, usize, u64, u64), c: (usize, usize, u64, u64))
    ensures
        !ranks_before(a, a),
        ranks_before(a, b) ==> !ranks_before(b, a),
        ranks_before(a, b) && ranks_before(b, c) ==> ranks_before(a, c),
{
}

/// Sorting leaves no pair out of rank order.
proof fn lemma_sort_ranked<T: SpanRanked>(s: Seq<T>)
    ensures
        forall|a: int, b: int|
            0 <= a < b < rank_sort(s).len() ==> !ranks_before(
                (#[trigger] rank_sort(s)[b]).rank_key(),
                (#[trigger] rank_sort(s)[a]).rank_key(),
            ),
    decreases s.len(),
{
    if s.len() > 0 {
        let d = s.drop_last();
        lemma_sort_ranked(d);
        lemma_sort_members(d);
        let r = rank_sort(d);
        let x = s.last();
        lemma_place_bound(r, x);
        lemma_place_prefix(r, x);
        let p = place(r, x);
        r.insert_ensures(p, x);
        let out = r.insert(p, x);
        assert(rank_sort(s) == out);
        assert forall|a: int, b: int| 0 <= a < b < out.len() implies !ranks_before(
            (#[trigger] out[b]).rank_key(),
            (#[trigger] out[a]).rank_key(),
        ) by {
            if b < p {
                assert(out[a] == r[a] && out[b] == r[b]);
            } else if b == p {
                assert(out[a] == r[a]);
                assert(out[b] == x);
            } else if a < p {
                assert(out[a] == r[a] && out[b] == r[b - 1]);
            } else if a == p {
                assert(out[a] == x);
                assert(out[b] == r[b - 1]);
                assert(ranks_before(x.rank_key(), r[p].rank_key()));
                lemma_ranks_order(r[b - 1].rank_key(), x.rank_key(), r[p].rank_key());
                if b - 1 > p {
                    assert(!ranks_before(r[b - 1].rank_key(), r[p].rank_key()));
                }
            } else {
                assert(out[a] == r[a - 1] && out[b] == r[b - 1]);
            }
        }
    }
}

/// The end tracked after the first `k` candidates.
pub open spec fn end_after<T: SpanRanked>(t: Seq<T>, k: int) -> int {
    keep_disjoint(t.take(k)).1
}

/// Candidate `k` is kept: it starts at or after the end tracked before it.
pub open spec fn kept_at<T: SpanRanked>(t: Seq<T>, k: int) -> bool {
    t[k].rank_key().0 >= end_after(t, k)
}

/// The kept candidates are those kept at their turn; the tracked end never
/// decreases and, after a non-empty candidate, lies past its start.
proof fn lemma_keep_steps<T: SpanRanked>(t: Seq<T>, k: int)
    requires
        0 <= k <= t.len(),
        forall|i: int| 0 <= i < t.len() ==> (#[trigger] t[i]).rank_key().0 <= t[i].rank_key().1,
    ensures
        forall|v: T| keep_disjoint(t.take(k)).0.contains(v) ==> exists|i: int| 0 <= i < k && kept_at(t, i) && #[trigger] t[i] == v,
        forall|i: int, j: int| #![trigger end_after(t, i), end_after(t, j)] 0 <= i <= j <= k ==> end_after(t, i) <= end_after(t, j),
        forall|i: int|
            0 <= i < k && t[i].rank_key().0 < t[i].rank_key().1 ==> t[i].rank_key().0 < #[trigger] end_after(t, i + 1),
        end_after(t, 0) == 0,
    decreases k,
{
    assert(t.take(0) =~= Seq::<T>::empty());
    if k > 0 {
        lemma_keep_steps(t, k - 1);
        let pre = t.take(k - 1);
        let cur = t.take(k);
        assert(cur.drop_last() =~= pre);
        assert(cur.last() == t[k - 1]);
        let (r, le) = keep_disjoint(pre);
        let x = t[k - 1];
        assert(end_after(t, k - 1) == le);
        assert forall|v: T| keep_disjoint(cur).0.contains(v) implies exists|i: int| 0 <= i < k && kept_at(t, i) && #[trigger] t[i] == v by {
            if x.rank_key().0 >= le {
                let out = r.push(x);
                assert(keep_disjoint(cur).0 == out);
                let q = choose|q: int| 0 <= q < out.len() && out[q] == v;
                if q < r.len() {
                    assert(out[q] == r[q]);
                    assert(r.contains(v));
                } else {
                    assert(kept_at(t, k - 1));
                }
            } else {
                assert(keep_disjoint(cur).0 == r);
            }
        }
        assert(end_after(t, k) >= end_after(t, k - 1));
        assert forall|i: int, j: int| #![trigger end_after(t, i), end_after(t, j)] 0 <= i <= j <= k implies end_after(t, i) <= end_after(t, j) by {
            if j == k && i < k {
                assert(end_after(t, i) <= end_after(t, k - 1));
            }
        }
        assert forall|i: int|
            0 <= i < k && t[i].rank_key().0 < t[i].rank_key().1 implies t[i].rank_key().0 < #[trigger] end_after(t, i + 1) by {
            if i == k - 1 {
                if x.rank_key().0 >= le {
                    assert(end_after(t, k) == x.rank_key().1);
                }
            }
        }
    }
}

/// Of two candidates over the same non-empty span, the one ranked lower (by
/// the tie-breaks: source priority, then confidence) is never kept: the
/// higher-ranked one wins.
pub proof fn law_same_span_higher_rank_wins<T: SpanRanked>(s: Seq<T>, x: T, y: T)
    requires
        forall|i: int| 0 <= i < s.len() ==> (#[trigger] s[i]).rank_key().0 <= s[i].rank_key().1,
        s.contains(x),
        s.contains(y),
        x.rank_key().0 == y.rank_key().0,
        x.rank_key().1 == y.rank_key().1,
        x.rank_key().0 < x.rank_key().1,
        ranks_before(x.rank_key(), y.rank_key()),
    ensures
        !resolve_overlaps(s).contains(y),
{
    lemma_sort_order(s);
    lemma_sort_members(s);
    lemma_sort_ranked(s);
    let t = rank_sort(s);
    assert forall|i: int| 0 <= i < t.len() implies (#[trigger] t[i]).rank_key().0 <= t[i].rank_key().1 by {
        assert(s.contains(t[i]));
        let j = choose|j: int| 0 <= j < s.len() && s[j] == t[i];
        assert(s[j].rank_key().0 <= s[j].rank_key().1);
    }
    lemma_keep_steps(t, t.len() as int);
    assert(t.take(t.len() as int) =~= t);
    assert(t.contains(x));
    let p = choose|p: int| 0 <= p < t.len() && t[p] == x;
    if resolve_overlaps(s).contains(y) {
        let q = choose|q: int| 0 <= q < t.len() && kept_at(t, q) && #[trigger] t[q] == y;
        lemma_ranks_order(x.rank_key(), y.rank_key(), x.rank_key());
        if q < p {
            assert(!ranks_before(t[p].rank_key(), t[q].rank_key()));
        }
        assert(q != p);
        assert(p < q);
        assert(end_after(t, p + 1) <= end_after(t, q));
        assert(t[p].rank_key().0 < end_after(t, p + 1));
    }
}

} // verus!
