//! The polyline curator: speck filtering and anti-adjacency ordering.
use crate::geometry::{abs, doc_view, manhattan, no_empty_polyline, within, Point, MAX_DRAW, UNIT};
use vstd::multiset::Multiset;
use vstd::prelude::*;

verus! {

/// A polyline with fewer points than this may be a speck.
pub const SPECK_MAX_POINTS: usize = 10;

/// A polyline whose ends are closer than this (Manhattan, in sub-units) may be a speck.
pub const SPECK_MAX_GAP: i64 = 20 * UNIT;

/// Manhattan distance between two points.
pub fn manhattan_exec(a: Point, b: Point) -> (r: i64)
    requires
        within(a, MAX_DRAW as int),
        within(b, MAX_DRAW as int),
    ensures
        r == manhattan(a, b),
{
    let dx: i64 = if a.x >= b.x {
        a.x - b.x
    } else {
        b.x - a.x
    };
    let dy: i64 = if a.y >= b.y {
        a.y - b.y
    } else {
        b.y - a.y
    };
    dx + dy
}

/// A short polyline whose ends nearly meet.
pub open spec fn is_speck(l: Seq<Point>) -> bool {
    l.len() < SPECK_MAX_POINTS && manhattan(l[0], l.last()) < SPECK_MAX_GAP
}

/// The polylines that are not specks, in their order.
pub open spec fn without_specks(d: Seq<Seq<Point>>) -> Seq<Seq<Point>>
    decreases d.len(),
{
    if d.len() == 0 {
        d
    } else {
        let rest = without_specks(d.drop_first());
        if is_speck(d[0]) {
            rest
        } else {
            seq![d[0]].add(rest)
        }
    }
}

proof fn lemma_view_remove_first(v: Seq<Vec<Point>>)
    requires
        v.len() > 0,
    ensures
        doc_view(v.remove(0)) == doc_view(v).drop_first(),
        doc_view(v)[0] == v[0]@,
{
    assert(doc_view(v.remove(0)) =~= doc_view(v).drop_first());
}

/// Whether a polyline is a speck.
pub fn polyline_is_speck(l: &Vec<Point>) -> (r: bool)
    requires
        l@.len() > 0,
        forall|j: int| 0 <= j < l@.len() ==> #[trigger] within(l@[j], MAX_DRAW as int),
    ensures
        r == is_speck(l@),
{
    if l.len() < SPECK_MAX_POINTS {
        manhattan_exec(l[0], l[l.len() - 1]) < SPECK_MAX_GAP
    } else {
        false
    }
}

/// Removes the specks of a document, keeping the order of the rest.
pub fn filter_specks(doc: Vec<Vec<Point>>) -> (r: Vec<Vec<Point>>)
    requires
        no_empty_polyline(doc_view(doc@)),
        forall|i: int, j: int|
            0 <= i < doc@.len() && 0 <= j < doc@[i]@.len() ==> #[trigger] within(
                doc@[i]@[j],
                MAX_DRAW as int,
            ),
    ensures
        doc_view(r@) == without_specks(doc_view(doc@)),
{
    let ghost d = doc_view(doc@);
    let mut rest = doc;
    let mut out: Vec<Vec<Point>> = Vec::new();
    while rest.len() > 0
        invariant
            no_empty_polyline(doc_view(rest@)),
            forall|i: int, j: int|
                0 <= i < rest@.len() && 0 <= j < rest@[i]@.len() ==> #[trigger] within(
                    rest@[i]@[j],
                    MAX_DRAW as int,
                ),
            doc_view(out@) + without_specks(doc_view(rest@)) == without_specks(d),
        decreases rest.len(),
    {
        let ghost before = rest@;
        proof {
            lemma_view_remove_first(before);
            assert(doc_view(before)[0] == before[0]@);
        }
        let l = rest.remove(0);
        assert(no_empty_polyline(doc_view(rest@))) by {
            assert forall|i: int| 0 <= i < doc_view(rest@).len() implies #[trigger] doc_view(
                rest@,
            )[i].len() > 0 by {
                assert(doc_view(before)[i + 1].len() > 0);
            }
        }
        assert forall|i: int, j: int|
            0 <= i < rest@.len() && 0 <= j < rest@[i]@.len() implies #[trigger] within(
            rest@[i]@[j],
            MAX_DRAW as int,
        ) by {
            assert(within(before[i + 1]@[j], MAX_DRAW as int));
        }
        assert(forall|j: int| 0 <= j < l@.len() ==> #[trigger] within(l@[j], MAX_DRAW as int)) by {
            assert forall|j: int| 0 <= j < l@.len() implies #[trigger] within(
                l@[j],
                MAX_DRAW as int,
            ) by {
                assert(within(before[0]@[j], MAX_DRAW as int));
            }
        }
        assert(doc_view(before)[0].len() > 0);
        let speck = polyline_is_speck(&l);
        if !speck {
            let ghost o = doc_view(out@);
            out.push(l);
            assert(doc_view(out@) =~= o.push(l@));
            assert(seq![l@].add(without_specks(doc_view(rest@))) =~= seq![l@] + without_specks(
                doc_view(rest@),
            ));
            assert(o.push(l@) + without_specks(doc_view(rest@)) =~= o + (seq![l@] + without_specks(
                doc_view(rest@),
            )));
        }
    }
    assert(doc_view(rest@) =~= Seq::<Seq<Point>>::empty());
    assert(doc_view(out@) + Seq::<Seq<Point>>::empty() =~= doc_view(out@));
    out
}

/// Every polyline that filtering keeps is no speck.
proof fn lemma_without_specks_kept(d: Seq<Seq<Point>>)
    ensures
        forall|i: int|
            0 <= i < without_specks(d).len() ==> !is_speck(#[trigger] without_specks(d)[i]),
    decreases d.len(),
{
    if d.len() > 0 {
        let rest = without_specks(d.drop_first());
        lemma_without_specks_kept(d.drop_first());
        if !is_speck(d[0]) {
            assert forall|i: int| 0 <= i < without_specks(d).len() implies !is_speck(
                #[trigger] without_specks(d)[i],
            ) by {
                if i > 0 {
                    assert(without_specks(d)[i] == rest[i - 1]);
                }
            }
        }
    }
}

/// A document with no specks is left as it is.
proof fn lemma_without_specks_none(d: Seq<Seq<Point>>)
    requires
        forall|i: int| 0 <= i < d.len() ==> !is_speck(#[trigger] d[i]),
    ensures
        without_specks(d) == d,
    decreases d.len(),
{
    if d.len() > 0 {
        assert(!is_speck(d[0]));
        lemma_without_specks_none(d.drop_first());
        assert(seq![d[0]].add(d.drop_first()) =~= d);
    }
}

/// Filtering specks twice keeps what filtering once kept.
pub proof fn lemma_filter_idempotent(d: Seq<Seq<Point>>)
    ensures
        without_specks(without_specks(d)) == without_specks(d),
{
    lemma_without_specks_kept(d);
    lemma_without_specks_none(without_specks(d));
}

/// `|x + y|` of a polyline's last point.
pub open spec fn tail_key(l: Seq<Point>) -> int {
    abs(l.last().x + l.last().y)
}

/// `|x + y|` of a polyline's first point.
pub open spec fn head_key(l: Seq<Point>) -> int {
    abs(l[0].x + l[0].y)
}

/// The ordering's comparison: `a` goes before `b` when the key of `a`'s last
/// point is below the key of `b`'s first point.
pub open spec fn goes_before(a: Seq<Point>, b: Seq<Point>) -> bool {
    tail_key(a) < head_key(b)
}

/// Where `x` lands when it moves left from position `j` of `s` past every
/// element that it goes before.
pub open spec fn insert_pos(s: Seq<Seq<Point>>, x: Seq<Point>, j: int) -> int
    decreases j,
{
    if j > 0 && goes_before(x, s[j - 1]) {
        insert_pos(s, x, j - 1)
    } else {
        j
    }
}

/// Insertion sort under `goes_before`: each polyline in turn moves left past
/// every polyline that it goes before.
pub open spec fn sorted_by_key(d: Seq<Seq<Point>>) -> Seq<Seq<Point>>
    decreases d.len(),
{
    if d.len() == 0 {
        d
    } else {
        let s = sorted_by_key(d.drop_last());
        s.insert(insert_pos(s, d.last(), s.len() as int), d.last())
    }
}

proof fn lemma_sorted_len(d: Seq<Seq<Point>>)
    ensures
        sorted_by_key(d).len() == d.len(),
    decreases d.len(),
{
    if d.len() > 0 {
        lemma_sorted_len(d.drop_last());
        lemma_insert_pos_range(sorted_by_key(d.drop_last()), d.last(), d.len() - 1);
    }
}

proof fn lemma_insert_pos_range(s: Seq<Seq<Point>>, x: Seq<Point>, j: int)
    requires
        0 <= j,
    ensures
        0 <= insert_pos(s, x, j) <= j,
    decreases j,
{
    if j > 0 && goes_before(x, s[j - 1]) {
        lemma_insert_pos_range(s, x, j - 1);
    }
}

/// `|x + y|` of a point.
fn point_key(p: Point) -> (r: i64)
    requires
        within(p, MAX_DRAW as int),
    ensures
        r == abs(p.x + p.y),
{
    let s: i64 = p.x + p.y;
    if s < 0 {
        -s
    } else {
        s
    }
}

/// Sorts the polylines in place under `goes_before`, by insertion.
pub fn sort_polylines(doc: &mut Vec<Vec<Point>>)
    requires
        no_empty_polyline(doc_view(old(doc)@)),
        forall|i: int, j: int|
            0 <= i < old(doc)@.len() && 0 <= j < old(doc)@[i]@.len() ==> #[trigger] within(
                old(doc)@[i]@[j],
                MAX_DRAW as int,
            ),
    ensures
        doc_view(final(doc)@) == sorted_by_key(doc_view(old(doc)@)),
{
    let ghost d = doc_view(doc@);
    let ghost items = doc@;
    let n = doc.len();
    if n == 0 {
        assert(doc_view(doc@) == sorted_by_key(d));
        return;
    }
    assert(d.take(1).drop_last() =~= Seq::<Seq<Point>>::empty());
    assert(sorted_by_key(d.take(1).drop_last()) == Seq::<Seq<Point>>::empty());
    assert(sorted_by_key(d.take(1)) =~= d.take(1));
    assert(doc_view(doc@) =~= d.take(1) + d.skip(1));
    let mut i: usize = 1;
    while i < n
        invariant
            n == items.len(),
            d == doc_view(items),
            no_empty_polyline(d),
            forall|a: int, b: int|
                0 <= a < items.len() && 0 <= b < items[a]@.len() ==> #[trigger] within(
                    items[a]@[b],
                    MAX_DRAW as int,
                ),
            1 <= i <= n,
            doc@.len() == n,
            doc_view(doc@) == sorted_by_key(d.take(i as int)) + d.skip(i as int),
            forall|k: int| i <= k < n ==> #[trigger] doc@[k] == items[k],
            forall|k: int|
                0 <= k < i ==> exists|m: int| 0 <= m < i && #[trigger] doc@[k] == items[m],
        decreases n - i,
    {
        let ghost s = sorted_by_key(d.take(i as int));
        let ghost before = doc@;
        proof {
            lemma_sorted_len(d.take(i as int));
        }
        let x = doc.remove(i);
        assert(x == items[i as int]);
        let ghost rest = doc@;
        assert(doc_view(rest) =~= s + d.skip(i as int + 1)) by {
            assert(doc_view(before) == s + d.skip(i as int));
            assert forall|k: int| 0 <= k < doc_view(rest).len() implies #[trigger] doc_view(rest)[k]
                == (s + d.skip(i as int + 1))[k] by {
                if k < i {
                    assert(doc_view(before)[k] == s[k]);
                } else {
                    assert(doc_view(before)[k + 1] == d.skip(i as int)[k + 1 - i]);
                }
            }
        }
        assert(d.len() == n && d[i as int] == items[i as int]@);
        assert(x@.len() > 0);
        assert(within(items[i as int]@[x@.len() - 1], MAX_DRAW as int));
        let kx = point_key(x[x.len() - 1]);
        let mut j: usize = i;
        let mut moving = true;
        assert(d.len() == n);
        while moving && j > 0
            invariant
                0 <= j <= i,
                i < n,
                d.len() == n,
                doc@ == rest,
                rest.len() == n - 1,
                doc_view(rest) == s + d.skip(i as int + 1),
                s.len() == i,
                x@ == d[i as int],
                x@.len() > 0,
                kx == tail_key(x@),
                insert_pos(s, x@, j as int) == insert_pos(s, x@, i as int),
                !moving ==> j > 0 && !goes_before(x@, s[j - 1]),
                forall|k: int| 0 <= k < i ==> exists|m: int| 0 <= m < i && #[trigger] rest[k] == items[m],
                forall|a: int, b: int|
                    0 <= a < items.len() && 0 <= b < items[a]@.len() ==> #[trigger] within(
                        items[a]@[b],
                        MAX_DRAW as int,
                    ),
                no_empty_polyline(d),
                d == doc_view(items),
            decreases j + if moving { 1int } else { 0int },
        {
            let prev = &doc[j - 1];
            let ghost m = choose|m: int| 0 <= m < i && #[trigger] rest[j - 1] == items[m];
            assert(doc_view(rest)[j - 1] == s[j - 1]);
            assert(d[m] == items[m]@);
            assert(d[m].len() > 0);
            assert(within(items[m]@[0], MAX_DRAW as int));
            let kp = point_key(prev[0]);
            if kx < kp {
                j -= 1;
            } else {
                moving = false;
            }
        }
        proof {
            lemma_insert_pos_range(s, x@, i as int);
        }
        assert(insert_pos(s, x@, i as int) == j);
        doc.insert(j, x);
        proof {
            assert(d.take(i as int + 1).drop_last() =~= d.take(i as int));
            assert(d.take(i as int + 1).last() == d[i as int]);
            let t = s.insert(j as int, x@);
            assert(sorted_by_key(d.take(i as int + 1)) == t);
            assert(doc_view(doc@) =~= t + d.skip(i as int + 1)) by {
                assert forall|k: int| 0 <= k < doc_view(doc@).len() implies #[trigger] doc_view(
                    doc@,
                )[k] == (t + d.skip(i as int + 1))[k] by {
                    if k < j {
                        assert(doc_view(rest)[k] == s[k]);
                    } else if k > j && k <= i {
                        assert(doc_view(rest)[k - 1] == s[k - 1]);
                    } else if k > i {
                        assert(doc_view(rest)[k - 1] == d.skip(i as int + 1)[k - 1 - i]);
                    }
                }
            }
            assert forall|k: int| 0 <= k < i + 1 implies exists|m: int|
                0 <= m < i + 1 && #[trigger] doc@[k] == items[m] by {
                if k < j {
                    let m = choose|m: int| 0 <= m < i && #[trigger] rest[k] == items[m];
                    assert(doc@[k] == items[m]);
                } else if k == j {
                    assert(doc@[k] == items[i as int]);
                } else {
                    let m = choose|m: int| 0 <= m < i && #[trigger] rest[k - 1] == items[m];
                    assert(doc@[k] == items[m]);
                }
            }
            assert forall|k: int| i + 1 <= k < n implies #[trigger] doc@[k] == items[k] by {
                assert(rest[k - 1] == before[k]);
            }
        }
        i += 1;
    }
    assert(d.take(n as int) =~= d);
    assert(doc_view(doc@) =~= sorted_by_key(d));
}

/// The input position that output position `k` of the interleave takes, for
/// `n` elements: the first half and the second half alternate, and an odd
/// middle element comes last.
pub open spec fn interleave_src(n: int, k: int) -> int {
    let half = n / 2;
    if k < 2 * half {
        if k % 2 == 0 {
            k / 2
        } else {
            (n - half) + k / 2
        }
    } else {
        half
    }
}

/// The anti-adjacency interleave of `s`.
pub open spec fn interleaved<T>(s: Seq<T>) -> Seq<T> {
    Seq::new(s.len(), |k: int| s[interleave_src(s.len() as int, k)])
}

/// Interleaves the elements: repeatedly takes the first remaining element and
/// then the one at the middle of what remains; an element left over goes last.
pub fn interleave<T>(v: Vec<T>) -> (r: Vec<T>)
    ensures
        r@ == interleaved(v@),
{
    let ghost s = v@;
    let n = v.len();
    let half = n / 2;
    let h = n - half;
    let mut rest = v;
    let mut out: Vec<T> = Vec::new();
    let mut t: usize = 0;
    assert(rest@ =~= s.subrange(0, h as int) + s.subrange(h as int, n as int));
    while t < half
        invariant
            n == s.len(),
            half == n / 2,
            h == n - half,
            t <= half,
            rest@ == s.subrange(t as int, h as int) + s.subrange(h + t, n as int),
            out@.len() == 2 * t,
            forall|k: int| 0 <= k < 2 * t ==> #[trigger] out@[k] == s[interleave_src(n as int, k)],
        decreases half - t,
    {
        let ghost r0 = rest@;
        let a = rest.remove(0);
        assert(a == s[t as int]);
        let mid = rest.len() / 2;
        assert(mid == h - t - 1);
        assert(rest@ =~= s.subrange(t + 1, h as int) + s.subrange(h + t, n as int));
        let b = rest.remove(mid);
        assert(b == s[h + t]);
        assert(rest@ =~= s.subrange(t + 1, h as int) + s.subrange(h + t + 1, n as int));
        out.push(a);
        out.push(b);
        proof {
            assert(interleave_src(n as int, 2 * t) == t);
            assert(interleave_src(n as int, 2 * t + 1) == h + t);
        }
        t += 1;
    }
    if rest.len() > 0 {
        assert(rest@.len() == 1);
        let c = rest.remove(0);
        assert(c == s[half as int]);
        out.push(c);
    }
    assert(out@ =~= interleaved(s));
    out
}

/// Some output position of the interleave of `n` elements takes input position `j`.
pub open spec fn taken(n: int, j: int) -> bool {
    exists|k: int| 0 <= k < n && #[trigger] interleave_src(n, k) == j
}

/// The interleave puts each input position at exactly one output position:
/// it keeps the length and every element, each once.
pub proof fn lemma_interleave_permutation<T>(s: Seq<T>)
    ensures
        interleaved(s).len() == s.len(),
        forall|k: int|
            0 <= k < s.len() ==> 0 <= #[trigger] interleave_src(s.len() as int, k) < s.len()
                && interleaved(s)[k] == s[interleave_src(s.len() as int, k)],
        forall|j: int| 0 <= j < s.len() ==> #[trigger] taken(s.len() as int, j),
        forall|k1: int, k2: int|
            0 <= k1 < s.len() && 0 <= k2 < s.len() && k1 != k2 ==> #[trigger] interleave_src(
                s.len() as int,
                k1,
            ) != #[trigger] interleave_src(s.len() as int, k2),
{
    let n = s.len() as int;
    let half = n / 2;
    assert forall|j: int| 0 <= j < n implies #[trigger] taken(n, j) by {
        if j < half {
            assert(interleave_src(n, 2 * j) == j);
        } else if j < n - half {
            assert(interleave_src(n, n - 1) == j);
        } else {
            assert(interleave_src(n, 2 * (j - (n - half)) + 1) == j);
        }
    }
}

/// Every polyline of `a` is a polyline of `b`.
pub open spec fn drawn_from(a: Seq<Seq<Point>>, b: Seq<Seq<Point>>) -> bool {
    forall|i: int|
        0 <= i < a.len() ==> exists|j: int| 0 <= j < b.len() && #[trigger] a[i] == b[j]
}

pub proof fn lemma_without_specks_from(d: Seq<Seq<Point>>)
    ensures
        drawn_from(without_specks(d), d),
    decreases d.len(),
{
    if d.len() > 0 {
        let t = d.drop_first();
        lemma_without_specks_from(t);
        let w = without_specks(d);
        assert forall|i: int| 0 <= i < w.len() implies exists|j: int|
            0 <= j < d.len() && #[trigger] w[i] == d[j] by {
            if !is_speck(d[0]) && i == 0 {
                assert(w[0] == d[0]);
            } else {
                let k = if is_speck(d[0]) {
                    i
                } else {
                    i - 1
                };
                assert(w[i] == without_specks(t)[k]);
                let j = choose|j: int| 0 <= j < t.len() && without_specks(t)[k] == t[j];
                assert(w[i] == d[j + 1]);
            }
        }
    }
}

proof fn lemma_sorted_from(d: Seq<Seq<Point>>)
    ensures
        drawn_from(sorted_by_key(d), d),
        sorted_by_key(d).len() == d.len(),
    decreases d.len(),
{
    lemma_sorted_len(d);
    if d.len() > 0 {
        let t = d.drop_last();
        lemma_sorted_from(t);
        let s = sorted_by_key(t);
        let p = insert_pos(s, d.last(), s.len() as int);
        lemma_insert_pos_range(s, d.last(), s.len() as int);
        let w = sorted_by_key(d);
        assert(w == s.insert(p, d.last()));
        assert forall|i: int| 0 <= i < w.len() implies exists|j: int|
            0 <= j < d.len() && #[trigger] w[i] == d[j] by {
            if i == p {
                assert(w[i] == d[d.len() - 1]);
            } else {
                let k = if i < p {
                    i
                } else {
                    i - 1
                };
                assert(w[i] == s[k]);
                let j = choose|j: int| 0 <= j < t.len() && s[k] == t[j];
                assert(w[i] == d[j]);
            }
        }
    }
}

/// The curated order of a document: specks removed when asked, sorted, then
/// interleaved.
pub open spec fn curated(d: Seq<Seq<Point>>, filter: bool) -> Seq<Seq<Point>> {
    interleaved(sorted_by_key(if filter { without_specks(d) } else { d }))
}

/// Curation keeps only polylines that the document held.
pub proof fn lemma_curated_from(d: Seq<Seq<Point>>, filter: bool)
    ensures
        drawn_from(curated(d, filter), d),
{
    let f = if filter {
        without_specks(d)
    } else {
        d
    };
    if filter {
        lemma_without_specks_from(d);
    } else {
        assert forall|i: int| 0 <= i < d.len() implies exists|j: int|
            0 <= j < d.len() && #[trigger] d[i] == d[j] by {
            assert(d[i] == d[i]);
        }
    }
    lemma_sorted_from(f);
    let s = sorted_by_key(f);
    lemma_interleave_permutation(s);
    let c = curated(d, filter);
    assert forall|i: int| 0 <= i < c.len() implies exists|j: int|
        0 <= j < d.len() && #[trigger] c[i] == d[j] by {
        let k = interleave_src(s.len() as int, i);
        assert(c[i] == s[k]);
        let m = choose|m: int| 0 <= m < f.len() && s[k] == f[m];
        let j = choose|j: int| 0 <= j < d.len() && f[m] == d[j];
        assert(c[i] == d[j]);
    }
}

/// A lone polyline of at least `SPECK_MAX_POINTS` points survives curation,
/// whatever its ends: it is never a speck, and ordering one polyline leaves it.
pub proof fn lemma_long_polyline_kept(p: Seq<Point>, filter: bool)
    requires
        p.len() >= SPECK_MAX_POINTS,
    ensures
        curated(seq![p], filter) == seq![p],
{
    let d = seq![p];
    assert(!is_speck(p));
    assert(d.drop_first() =~= Seq::<Seq<Point>>::empty());
    assert(without_specks(d.drop_first()) == Seq::<Seq<Point>>::empty());
    assert(without_specks(d) =~= d);
    assert(d.drop_last() =~= Seq::<Seq<Point>>::empty());
    assert(sorted_by_key(d.drop_last()) == Seq::<Seq<Point>>::empty());
    assert(sorted_by_key(d) =~= d);
    assert(interleaved(d) =~= d);
}

/// What remains of `s` after `t` rounds of the interleave: the first half
/// without its first `t` elements, then the second half without its first `t`.
pub open spec fn interleave_rest<T>(s: Seq<T>, t: int) -> Seq<T> {
    let n = s.len() as int;
    let h = n - n / 2;
    s.subrange(t, h) + s.subrange(h + t, n)
}

proof fn lemma_interleave_rounds<T>(s: Seq<T>, t: int)
    requires
        0 <= t <= s.len() / 2,
    ensures
        interleaved(s).take(2 * t).to_multiset().add(interleave_rest(s, t).to_multiset())
            == s.to_multiset(),
    decreases t,
{
    broadcast use vstd::seq_lib::group_to_multiset_ensures;
    broadcast use vstd::multiset::group_multiset_axioms;

    let n = s.len() as int;
    let h = n - n / 2;
    if t == 0 {
        assert(interleaved(s).take(0) =~= Seq::<T>::empty());
        assert(interleave_rest(s, 0) =~= s);
        assert(Seq::<T>::empty().to_multiset().add(s.to_multiset()) =~= s.to_multiset());
    } else {
        lemma_interleave_rounds(s, t - 1);
        let p = interleaved(s).take(2 * t - 2);
        let r = interleave_rest(s, t - 1);
        let a = s[t - 1];
        let b = s[h + t - 1];
        assert(r[0] == a);
        let r1 = r.remove(0);
        assert(r1[h - t] == b);
        assert(r1.remove(h - t) =~= interleave_rest(s, t));
        assert(interleave_src(n, 2 * t - 2) == t - 1);
        assert(interleave_src(n, 2 * t - 1) == h + t - 1);
        assert(interleaved(s).take(2 * t) =~= p.push(a).push(b));
        let m = p.to_multiset();
        let q = r.to_multiset();
        assert(r1.to_multiset() == q.remove(a));
        assert(r1.remove(h - t).to_multiset() == q.remove(a).remove(b));
        assert(r.contains(a));
        assert(q.count(a) > 0);
        assert(r1.contains(b));
        assert(r1.to_multiset().count(b) > 0);
        assert(q.remove(a).count(b) > 0);
        assert(m.insert(a).insert(b).add(q.remove(a).remove(b)) =~= m.add(q));
    }
}

/// The interleave keeps every element of `s`, each as often as `s` holds it.
pub proof fn lemma_interleave_multiset<T>(s: Seq<T>)
    ensures
        interleaved(s).to_multiset() == s.to_multiset(),
{
    broadcast use vstd::seq_lib::group_to_multiset_ensures;
    broadcast use vstd::multiset::group_multiset_axioms;

    let n = s.len() as int;
    let half = n / 2;
    lemma_interleave_rounds(s, half);
    let p = interleaved(s).take(2 * half);
    let r = interleave_rest(s, half);
    if n % 2 == 0 {
        assert(r =~= Seq::<T>::empty());
        assert(r.to_multiset().len() == 0);
        assert(r.to_multiset() =~= Multiset::<T>::empty());
        assert(interleaved(s).take(2 * half) =~= interleaved(s));
        assert(p.to_multiset().add(r.to_multiset()) =~= p.to_multiset());
    } else {
        assert(r =~= seq![s[half]]);
        assert(interleave_src(n, n - 1) == half);
        assert(interleaved(s) =~= p.push(s[half]));
        let e = Seq::<T>::empty();
        assert(r =~= e.push(s[half]));
        assert(e.to_multiset().len() == 0);
        assert(e.to_multiset() =~= Multiset::<T>::empty());
        assert(r.to_multiset() =~= Multiset::<T>::empty().insert(s[half]));
        assert(p.to_multiset().add(r.to_multiset()) =~= p.to_multiset().insert(s[half]));
    }
}

proof fn lemma_sorted_multiset(d: Seq<Seq<Point>>)
    ensures
        sorted_by_key(d).to_multiset() == d.to_multiset(),
    decreases d.len(),
{
    broadcast use vstd::seq_lib::to_multiset_build, vstd::seq_lib::to_multiset_insert;

    if d.len() == 0 {
        assert(sorted_by_key(d) == d);
    } else {
        let t = d.drop_last();
        lemma_sorted_multiset(t);
        let s = sorted_by_key(t);
        lemma_sorted_len(t);
        lemma_insert_pos_range(s, d.last(), s.len() as int);
        assert(d =~= t.push(d.last()));
    }
}

/// Curation draws every polyline that survives filtering exactly as often as
/// the document holds it: sorting and interleaving only reorder.
pub proof fn lemma_curated_permutation(d: Seq<Seq<Point>>, filter: bool)
    ensures
        curated(d, filter).to_multiset() == (if filter {
            without_specks(d)
        } else {
            d
        }).to_multiset(),
        curated(d, filter).len() == (if filter {
            without_specks(d)
        } else {
            d
        }).len(),
{
    let f = if filter {
        without_specks(d)
    } else {
        d
    };
    lemma_sorted_multiset(f);
    lemma_sorted_len(f);
    lemma_interleave_multiset(sorted_by_key(f));
}

} // verus!
