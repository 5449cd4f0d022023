use vstd::prelude::*;

verus! {

/// A directional span of the buffer: `a` is the anchor and `b` the caret.
#[derive(Debug, Clone, Copy, PartialEq, Eq, Hash, Structural)]
pub struct Region {
    pub a: usize,
    pub b: usize,
}

impl Region {
    /// The smaller of the two ends.
    pub open spec fn lo(self) -> usize {
        if self.a <= self.b {
            self.a
        } else {
            self.b
        }
    }

    /// The larger of the two ends.
    pub open spec fn hi(self) -> usize {
        if self.a <= self.b {
            self.b
        } else {
            self.a
        }
    }

    /// Two regions meet when their closed spans share a point.
    pub open spec fn meets(self, other: Region) -> bool {
        self.lo() <= other.hi() && other.lo() <= self.hi()
    }

    /// The forward region spanning both regions.
    pub open spec fn spec_cover(self, other: Region) -> Region {
        Region {
            a: if self.lo() <= other.lo() { self.lo() } else { other.lo() },
            b: if self.hi() >= other.hi() { self.hi() } else { other.hi() },
        }
    }

    pub fn new(a: usize, b: usize) -> (r: Self)
        ensures
            r.a == a,
            r.b == b,
    {
        Region { a, b }
    }

    pub fn begin(&self) -> (r: usize)
        ensures
            r == self.lo(),
    {
        if self.a <= self.b {
            self.a
        } else {
            self.b
        }
    }

    pub fn end(&self) -> (r: usize)
        ensures
            r == self.hi(),
    {
        if self.a <= self.b {
            self.b
        } else {
            self.a
        }
    }

    pub fn caret(&self) -> (r: usize)
        ensures
            r == self.b,
    {
        self.b
    }

    pub fn size(&self) -> (r: usize)
        ensures
            r == self.hi() - self.lo(),
    {
        self.end() - self.begin()
    }

    pub fn empty(&self) -> (r: bool)
        ensures
            r == (self.a == self.b),
    {
        self.a == self.b
    }

    pub fn contains(&self, point: usize) -> (r: bool)
        ensures
            r == (self.lo() <= point && point <= self.hi()),
    {
        point >= self.begin() && point <= self.end()
    }

    pub fn intersects(&self, other: &Region) -> (r: bool)
        ensures
            r == self.meets(*other),
    {
        self.begin() <= other.end() && other.begin() <= self.end()
    }

    pub fn cover(&self, other: &Region) -> (r: Region)
        ensures
            r == self.spec_cover(*other),
    {
        let lo = if self.begin() <= other.begin() {
            self.begin()
        } else {
            other.begin()
        };
        let hi = if self.end() >= other.end() {
            self.end()
        } else {
            other.end()
        };
        Region::new(lo, hi)
    }
}

/// Order of regions by `(begin, end)`.
pub open spec fn key_le(x: Region, y: Region) -> bool {
    x.lo() < y.lo() || (x.lo() == y.lo() && x.hi() <= y.hi())
}

/// Regions in non-decreasing `(begin, end)` order.
pub open spec fn sorted_by_key(s: Seq<Region>) -> bool {
    forall|i: int, j: int| 0 <= i < j < s.len() ==> key_le(#[trigger] s[i], #[trigger] s[j])
}

/// Stable insertion of `r` into `s`: after every region whose key is at most `r`'s.
pub open spec fn insert_sorted(s: Seq<Region>, r: Region) -> Seq<Region>
    decreases s.len(),
{
    if s.len() == 0 || key_le(s.last(), r) {
        s.push(r)
    } else {
        insert_sorted(s.drop_last(), r).push(s.last())
    }
}

/// The stable sort of `s` by `(begin, end)`.
pub open spec fn sort_regions(s: Seq<Region>) -> Seq<Region>
    decreases s.len(),
{
    if s.len() == 0 {
        s
    } else {
        insert_sorted(sort_regions(s.drop_last()), s.last())
    }
}

/// Whether `r` is folded into the region `last` that precedes it.
pub open spec fn joins(last: Region, r: Region) -> bool {
    last.meets(r) || last.hi() == r.lo()
}

/// One step of merging: fold `r` into the last region or append it.
pub open spec fn merge_step(acc: Seq<Region>, r: Region) -> Seq<Region> {
    if acc.len() > 0 && joins(acc.last(), r) {
        acc.drop_last().push(acc.last().spec_cover(r))
    } else {
        acc.push(r)
    }
}

/// Merging a sorted run of regions from left to right.
pub open spec fn merge_sorted(s: Seq<Region>) -> Seq<Region>
    decreases s.len(),
{
    if s.len() == 0 {
        s
    } else {
        merge_step(merge_sorted(s.drop_last()), s.last())
    }
}

/// The normal form of a set of regions: sorted by position, then merged.
pub open spec fn normalize_regions(s: Seq<Region>) -> Seq<Region> {
    merge_sorted(sort_regions(s))
}

/// Regions in increasing order, each one ending strictly before the next begins.
pub open spec fn is_normalized(s: Seq<Region>) -> bool {
    forall|i: int, j: int| 0 <= i < j < s.len() ==> (#[trigger] s[i]).hi() < (#[trigger] s[j]).lo()
}

/// Whether the closed spans of `s` cover the point `p / 2` (points are counted in half steps,
/// so that two regions with a gap between them never cover the same half points as one region).
pub open spec fn spans(s: Seq<Region>, p: int) -> bool {
    exists|i: int| 0 <= i < s.len() && 2 * (#[trigger] s[i]).lo() <= p <= 2 * s[i].hi()
}

proof fn lemma_insert_sorted(s: Seq<Region>, r: Region)
    requires
        sorted_by_key(s),
    ensures
        sorted_by_key(insert_sorted(s, r)),
        insert_sorted(s, r).len() == s.len() + 1,
        forall|x: Region| #[trigger] insert_sorted(s, r).contains(x) <==> (s.contains(x) || x == r),
    decreases s.len(),
{
    let t = insert_sorted(s, r);
    if s.len() == 0 || key_le(s.last(), r) {
        assert forall|i: int, j: int| 0 <= i < j < t.len() implies key_le(#[trigger] t[i], #[trigger] t[j]) by {
            if j == t.len() - 1 && i < s.len() - 1 {
                assert(key_le(s[i], s[s.len() - 1]));
            }
        }
        assert forall|x: Region| #[trigger] t.contains(x) <==> (s.contains(x) || x == r) by {
            if t.contains(x) {
                let k = choose|k: int| 0 <= k < t.len() && t[k] == x;
                if k < s.len() {
                    assert(s[k] == x);
                }
            }
            if s.contains(x) {
                let k = choose|k: int| 0 <= k < s.len() && s[k] == x;
                assert(t[k] == x);
            }
            if x == r {
                assert(t[s.len() as int] == x);
            }
        }
    } else {
        let p = s.drop_last();
        lemma_insert_sorted(p, r);
        let u = insert_sorted(p, r);
        assert(t == u.push(s.last()));
        assert forall|i: int, j: int| 0 <= i < j < t.len() implies key_le(#[trigger] t[i], #[trigger] t[j]) by {
            if j == t.len() - 1 {
                if i < u.len() {
                    assert(u.contains(u[i]));
                    if u[i] == r {
                    } else {
                        assert(p.contains(u[i]));
                        let k = choose|k: int| 0 <= k < p.len() && p[k] == u[i];
                        assert(s[k] == p[k]);
                    }
                }
            }
        }
        assert forall|x: Region| #[trigger] t.contains(x) <==> (s.contains(x) || x == r) by {
            if t.contains(x) {
                let k = choose|k: int| 0 <= k < t.len() && t[k] == x;
                if k < u.len() {
                    assert(u.contains(x));
                    if p.contains(x) {
                        let m = choose|m: int| 0 <= m < p.len() && p[m] == x;
                        assert(s[m] == x);
                    }
                } else {
                    assert(s[s.len() - 1] == x);
                }
            }
            if s.contains(x) {
                let k = choose|k: int| 0 <= k < s.len() && s[k] == x;
                if k < s.len() - 1 {
                    assert(p[k] == x);
                    assert(p.contains(x));
                    assert(u.contains(x));
                    let m = choose|m: int| 0 <= m < u.len() && u[m] == x;
                    assert(t[m] == x);
                } else {
                    assert(t[t.len() - 1] == x);
                }
            }
            if x == r {
                assert(u.contains(r));
                let m = choose|m: int| 0 <= m < u.len() && u[m] == r;
                assert(t[m] == r);
            }
        }
    }
}

/// The stable sort is sorted, has the same length, and holds the same regions.
pub proof fn lemma_sort_regions(s: Seq<Region>)
    ensures
        sorted_by_key(sort_regions(s)),
        sort_regions(s).len() == s.len(),
        forall|x: Region| #[trigger] sort_regions(s).contains(x) <==> s.contains(x),
    decreases s.len(),
{
    if s.len() == 0 {
    } else {
        let p = s.drop_last();
        lemma_sort_regions(p);
        lemma_insert_sorted(sort_regions(p), s.last());
        assert forall|x: Region| #[trigger] sort_regions(s).contains(x) <==> s.contains(x) by {
            if p.contains(x) {
                let k = choose|k: int| 0 <= k < p.len() && p[k] == x;
                assert(s[k] == x);
            }
            if s.contains(x) {
                let k = choose|k: int| 0 <= k < s.len() && s[k] == x;
                if k < s.len() - 1 {
                    assert(p[k] == x);
                }
            }
        }
    }
}

proof fn lemma_merge_sorted(s: Seq<Region>)
    requires
        sorted_by_key(s),
    ensures
        is_normalized(merge_sorted(s)),
        merge_sorted(s).len() <= s.len(),
        s.len() > 0 ==> merge_sorted(s).len() > 0,
        s.len() > 0 ==> merge_sorted(s).last().lo() <= s.last().lo(),
        s.len() > 0 ==> forall|i: int| 0 <= i < s.len() ==> (#[trigger] s[i]).hi() <= merge_sorted(s).last().hi(),
        forall|p: int| #[trigger] spans(merge_sorted(s), p) <==> spans(s, p),
    decreases s.len(),
{
    if s.len() == 0 {
    } else {
        let prev = s.drop_last();
        let r = s.last();
        assert(sorted_by_key(prev));
        lemma_merge_sorted(prev);
        let m = merge_sorted(prev);
        let t = merge_sorted(s);
        assert(t == merge_step(m, r));
        if m.len() > 0 && joins(m.last(), r) {
            let c = m.last().spec_cover(r);
            assert(key_le(prev.last(), r)) by {
                assert(s[s.len() - 2] == prev.last());
            }
            assert(r.lo() <= m.last().hi());
            assert(t == m.drop_last().push(c));
            assert(c.lo() == m.last().lo());
            assert forall|i: int, j: int| 0 <= i < j < t.len() implies (#[trigger] t[i]).hi() < (#[trigger] t[j]).lo() by {
                if j == t.len() - 1 {
                    assert(m[i].hi() < m[m.len() - 1].lo());
                } else {
                    assert(t[i] == m[i] && t[j] == m[j]);
                }
            }
            assert forall|i: int| 0 <= i < s.len() implies (#[trigger] s[i]).hi() <= t.last().hi() by {
                if i < s.len() - 1 {
                    assert(prev[i] == s[i]);
                }
            }
            assert forall|p: int| #[trigger] spans(t, p) <==> spans(s, p) by {
                if spans(t, p) {
                    let k = choose|k: int| 0 <= k < t.len() && 2 * (#[trigger] t[k]).lo() <= p <= 2 * t[k].hi();
                    if k < t.len() - 1 {
                        assert(m[k] == t[k]);
                        assert(spans(m, p));
                        assert(spans(prev, p));
                        let q = choose|q: int| 0 <= q < prev.len() && 2 * (#[trigger] prev[q]).lo() <= p <= 2 * prev[q].hi();
                        assert(s[q] == prev[q]);
                    } else {
                        if p <= 2 * m.last().hi() {
                            assert(spans(m, p)) by {
                                assert(m[m.len() - 1] == m.last());
                            }
                            assert(spans(prev, p));
                            let q = choose|q: int| 0 <= q < prev.len() && 2 * (#[trigger] prev[q]).lo() <= p <= 2 * prev[q].hi();
                            assert(s[q] == prev[q]);
                        } else {
                            assert(s[s.len() - 1] == r);
                        }
                    }
                }
                if spans(s, p) {
                    let k = choose|k: int| 0 <= k < s.len() && 2 * (#[trigger] s[k]).lo() <= p <= 2 * s[k].hi();
                    if k < s.len() - 1 {
                        assert(prev[k] == s[k]);
                        assert(spans(prev, p));
                        assert(spans(m, p));
                        let q = choose|q: int| 0 <= q < m.len() && 2 * (#[trigger] m[q]).lo() <= p <= 2 * m[q].hi();
                        if q < m.len() - 1 {
                            assert(t[q] == m[q]);
                        } else {
                            assert(t[t.len() - 1] == c);
                        }
                    } else {
                        assert(t[t.len() - 1] == c);
                    }
                }
            }
        } else {
            if m.len() > 0 {
                assert(key_le(prev.last(), r)) by {
                    assert(s[s.len() - 2] == prev.last());
                }
                assert(r.lo() > m.last().hi());
            }
            assert(t == m.push(r));
            assert forall|i: int, j: int| 0 <= i < j < t.len() implies (#[trigger] t[i]).hi() < (#[trigger] t[j]).lo() by {
                if j == t.len() - 1 {
                    if i < m.len() - 1 {
                        assert(m[i].hi() < m[m.len() - 1].lo());
                    }
                } else {
                    assert(t[i] == m[i] && t[j] == m[j]);
                }
            }
            assert forall|i: int| 0 <= i < s.len() implies (#[trigger] s[i]).hi() <= t.last().hi() by {
                if i < s.len() - 1 {
                    assert(prev[i] == s[i]);
                }
            }
            assert forall|p: int| #[trigger] spans(t, p) <==> spans(s, p) by {
                if spans(t, p) {
                    let k = choose|k: int| 0 <= k < t.len() && 2 * (#[trigger] t[k]).lo() <= p <= 2 * t[k].hi();
                    if k < t.len() - 1 {
                        assert(m[k] == t[k]);
                        assert(spans(m, p));
                        assert(spans(prev, p));
                        let q = choose|q: int| 0 <= q < prev.len() && 2 * (#[trigger] prev[q]).lo() <= p <= 2 * prev[q].hi();
                        assert(s[q] == prev[q]);
                    } else {
                        assert(s[s.len() - 1] == r);
                    }
                }
                if spans(s, p) {
                    let k = choose|k: int| 0 <= k < s.len() && 2 * (#[trigger] s[k]).lo() <= p <= 2 * s[k].hi();
                    if k < s.len() - 1 {
                        assert(prev[k] == s[k]);
                        assert(spans(prev, p));
                        assert(spans(m, p));
                        let q = choose|q: int| 0 <= q < m.len() && 2 * (#[trigger] m[q]).lo() <= p <= 2 * m[q].hi();
                        assert(t[q] == m[q]);
                    } else {
                        assert(t[t.len() - 1] == r);
                    }
                }
            }
        }
    }
}

/// The normal form is normalized, is never longer than its input, and covers exactly the
/// half points that the input covers.
pub proof fn lemma_normalize_regions(s: Seq<Region>)
    ensures
        is_normalized(normalize_regions(s)),
        normalize_regions(s).len() <= s.len(),
        forall|p: int| #[trigger] spans(normalize_regions(s), p) <==> spans(s, p),
{
    lemma_sort_regions(s);
    let t = sort_regions(s);
    lemma_merge_sorted(t);
    assert forall|p: int| #[trigger] spans(t, p) <==> spans(s, p) by {
        if spans(t, p) {
            let k = choose|k: int| 0 <= k < t.len() && 2 * (#[trigger] t[k]).lo() <= p <= 2 * t[k].hi();
            assert(t.contains(t[k]));
            assert(s.contains(t[k]));
            let q = choose|q: int| 0 <= q < s.len() && s[q] == t[k];
        }
        if spans(s, p) {
            let k = choose|k: int| 0 <= k < s.len() && 2 * (#[trigger] s[k]).lo() <= p <= 2 * s[k].hi();
            assert(s.contains(s[k]));
            assert(t.contains(s[k]));
            let q = choose|q: int| 0 <= q < t.len() && t[q] == s[k];
        }
    }
}


/// A single region is its own normal form.
pub proof fn lemma_normalize_single(r: Region)
    ensures
        normalize_regions(seq![r]) == seq![r],
        normalize_regions(Seq::<Region>::empty().push(r)) == seq![r],
{
    assert(seq![r].drop_last() == Seq::<Region>::empty());
    assert(Seq::<Region>::empty().push(r) == seq![r]);
    let e = Seq::<Region>::empty();
    assert(sort_regions(e) == e);
    assert(insert_sorted(e, r) == e.push(r));
    assert(sort_regions(seq![r]) == seq![r]);
    assert(merge_sorted(e) == e);
    assert(merge_step(e, r) == e.push(r));
    assert(merge_sorted(seq![r]) == seq![r]);
}

/// The stable insertion keeps every region with its multiplicity.
proof fn lemma_insert_sorted_multiset(s: Seq<Region>, r: Region)
    ensures
        insert_sorted(s, r).to_multiset() =~= s.to_multiset().insert(r),
    decreases s.len(),
{
    broadcast use vstd::seq_lib::group_to_multiset_ensures;
    broadcast use vstd::multiset::group_multiset_axioms;

    if s.len() == 0 || key_le(s.last(), r) {
    } else {
        let p = s.drop_last();
        lemma_insert_sorted_multiset(p, r);
        assert(s == p.push(s.last()));
        assert(insert_sorted(s, r) == insert_sorted(p, r).push(s.last()));
        assert(p.to_multiset().insert(r).insert(s.last()) =~= p.to_multiset().insert(s.last()).insert(r));
    }
}

/// The stable sort keeps every region with its multiplicity.
proof fn lemma_sort_regions_multiset(s: Seq<Region>)
    ensures
        sort_regions(s).to_multiset() =~= s.to_multiset(),
    decreases s.len(),
{
    broadcast use vstd::seq_lib::group_to_multiset_ensures;

    if s.len() > 0 {
        let p = s.drop_last();
        lemma_sort_regions_multiset(p);
        lemma_insert_sorted_multiset(sort_regions(p), s.last());
        assert(s == p.push(s.last()));
    }
}

/// The last merged region ends where one of the merged regions ends.
proof fn lemma_merge_last_end(s: Seq<Region>)
    requires
        s.len() > 0,
    ensures
        merge_sorted(s).len() > 0,
        exists|q: int| 0 <= q < s.len() && merge_sorted(s).last().hi() == (#[trigger] s[q]).hi(),
    decreases s.len(),
{
    let prev = s.drop_last();
    let r = s.last();
    let m = merge_sorted(prev);
    let t = merge_sorted(s);
    assert(t == merge_step(m, r));
    if prev.len() > 0 {
        lemma_merge_last_end(prev);
        let q = choose|q: int| 0 <= q < prev.len() && m.last().hi() == (#[trigger] prev[q]).hi();
        if joins(m.last(), r) {
            assert(t.last() == m.last().spec_cover(r));
            if m.last().hi() >= r.hi() {
                assert(s[q] == prev[q]);
            } else {
                assert(s[s.len() - 1] == r);
            }
        } else {
            assert(t.last() == r);
            assert(s[s.len() - 1] == r);
        }
    } else {
        assert(m == prev);
        assert(t.last() == r);
        assert(s[s.len() - 1] == r);
    }
}

/// Merging a sorted run keeps a region that meets no other region of the run.
proof fn lemma_merge_keeps_lone(s: Seq<Region>, i: int)
    requires
        sorted_by_key(s),
        0 <= i < s.len(),
        forall|j: int| 0 <= j < s.len() && j != i ==> !(#[trigger] s[j]).meets(s[i]),
    ensures
        merge_sorted(s).contains(s[i]),
    decreases s.len(),
{
    let prev = s.drop_last();
    let r = s.last();
    let m = merge_sorted(prev);
    let t = merge_sorted(s);
    let x = s[i];
    assert(t == merge_step(m, r));
    assert(sorted_by_key(prev));
    lemma_merge_sorted(prev);
    if i == s.len() - 1 {
        if m.len() > 0 {
            lemma_merge_last_end(prev);
            let q = choose|q: int| 0 <= q < prev.len() && m.last().hi() == (#[trigger] prev[q]).hi();
            assert(prev[q] == s[q]);
            assert(key_le(s[q], s[i]));
            assert(!s[q].meets(x));
            assert(prev[prev.len() - 1] == s[prev.len() - 1]);
            assert(key_le(s[prev.len() - 1], s[i]));
            assert(!joins(m.last(), r));
        }
        assert(t == m.push(r));
        assert(t[t.len() - 1] == x);
    } else {
        assert forall|j: int| 0 <= j < prev.len() && j != i implies !(#[trigger] prev[j]).meets(prev[i]) by {
            assert(prev[j] == s[j]);
            assert(prev[i] == s[i]);
        }
        lemma_merge_keeps_lone(prev, i);
        assert(prev[i] == x);
        let k = choose|k: int| 0 <= k < m.len() && m[k] == x;
        if m.len() > 0 && joins(m.last(), r) {
            if k == m.len() - 1 {
                assert(s[s.len() - 1] == r);
                assert(!r.meets(x));
                assert(false);
            }
            assert(t[k] == x);
        } else {
            assert(t[k] == x);
        }
    }
}

/// Every merged region is one of the given regions or a forward region.
proof fn lemma_merge_regions_from(s: Seq<Region>)
    ensures
        forall|k: int|
            0 <= k < merge_sorted(s).len() ==> s.contains(#[trigger] merge_sorted(s)[k])
                || merge_sorted(s)[k].a <= merge_sorted(s)[k].b,
    decreases s.len(),
{
    if s.len() > 0 {
        let prev = s.drop_last();
        let r = s.last();
        let m = merge_sorted(prev);
        let t = merge_sorted(s);
        lemma_merge_regions_from(prev);
        assert(t == merge_step(m, r));
        assert forall|k: int| 0 <= k < t.len() implies s.contains(#[trigger] t[k]) || t[k].a <= t[k].b by {
            if k < m.len() && (k < t.len() - 1 || !(m.len() > 0 && joins(m.last(), r))) {
                assert(t[k] == m[k]);
                if prev.contains(m[k]) {
                    let q = choose|q: int| 0 <= q < prev.len() && prev[q] == m[k];
                    assert(s[q] == prev[q]);
                }
            } else if !(m.len() > 0 && joins(m.last(), r)) {
                assert(t[k] == r);
                assert(s[s.len() - 1] == r);
            }
        }
    }
}

/// Normalizing keeps a region that meets no other region of the selection exactly as it was
/// given, anchor and caret included.
pub proof fn law_normalize_keeps_lone_region(s: Seq<Region>, k: int)
    requires
        0 <= k < s.len(),
        forall|j: int| 0 <= j < s.len() && j != k ==> !(#[trigger] s[j]).meets(s[k]),
    ensures
        normalize_regions(s).contains(s[k]),
{
    broadcast use vstd::seq_lib::group_to_multiset_ensures;
    broadcast use vstd::multiset::group_multiset_axioms;

    let x = s[k];
    let t = sort_regions(s);
    lemma_sort_regions(s);
    lemma_sort_regions_multiset(s);
    let rest = s.remove(k);
    assert(!rest.contains(x)) by {
        if rest.contains(x) {
            let j = choose|j: int| 0 <= j < rest.len() && rest[j] == x;
            let jj = if j < k { j } else { j + 1 };
            assert(s[jj] == x);
            assert(x.meets(x));
        }
    }
    assert(s.contains(x));
    assert(rest.to_multiset() =~= s.to_multiset().remove(x));
    assert(rest.to_multiset().count(x) == 0);
    assert(s.to_multiset().count(x) > 0);
    assert(s.to_multiset().count(x) == 1);
    assert(t.contains(x));
    let i = choose|i: int| 0 <= i < t.len() && t[i] == x;
    assert forall|j: int| 0 <= j < t.len() && j != i implies !(#[trigger] t[j]).meets(t[i]) by {
        if t[j] == x {
            let tr = t.remove(i);
            let jj = if j < i { j } else { j - 1 };
            assert(tr[jj] == x);
            assert(tr.contains(x));
            assert(tr.to_multiset().count(x) == 0);
        }
        assert(t.contains(t[j]));
        assert(s.contains(t[j]));
        let m = choose|m: int| 0 <= m < s.len() && s[m] == t[j];
        assert(m != k);
    }
    lemma_merge_keeps_lone(t, i);
}

/// Every region of the normal form is one of the given regions, as given, or a forward region
/// from its begin to its end: the cover of the regions merged into it.
pub proof fn law_normalize_merged_are_forward(s: Seq<Region>)
    ensures
        forall|k: int|
            0 <= k < normalize_regions(s).len() ==> s.contains(#[trigger] normalize_regions(s)[k])
                || normalize_regions(s)[k].a <= normalize_regions(s)[k].b,
{
    let t = sort_regions(s);
    lemma_sort_regions(s);
    lemma_merge_regions_from(t);
}

/// No region of `s` other than the one at `q` meets it.
pub open spec fn lone_at(s: Seq<Region>, q: int) -> bool {
    forall|j: int| 0 <= j < s.len() && j != q ==> !(#[trigger] s[j]).meets(s[q])
}

/// `x` occurs once among `s`, and no other region of `s` meets it.
pub open spec fn stands_alone(s: Seq<Region>, x: Region) -> bool {
    &&& s.to_multiset().count(x) == 1
    &&& forall|j: int| 0 <= j < s.len() && s[j] != x ==> !(#[trigger] s[j]).meets(x)
}

/// A reversed region survives merging only if it met no other region of the run.
proof fn lemma_merge_reversed_lone(s: Seq<Region>)
    requires
        sorted_by_key(s),
    ensures
        forall|i: int|
            #![trigger merge_sorted(s)[i]]
            0 <= i < merge_sorted(s).len() && merge_sorted(s)[i].a > merge_sorted(s)[i].b ==> exists|q: int|
                0 <= q < s.len() && s[q] == merge_sorted(s)[i] && lone_at(s, q),
    decreases s.len(),
{
    if s.len() > 0 {
        let prev = s.drop_last();
        let r = s.last();
        let m = merge_sorted(prev);
        let t = merge_sorted(s);
        assert(sorted_by_key(prev));
        lemma_merge_sorted(prev);
        lemma_merge_reversed_lone(prev);
        assert(t == merge_step(m, r));
        let joined = m.len() > 0 && joins(m.last(), r);
        if prev.len() > 0 {
            assert(prev[prev.len() - 1] == s[prev.len() - 1]);
            assert(key_le(s[prev.len() - 1], s[s.len() - 1]));
        }
        assert forall|i: int| 0 <= i < t.len() && t[i].a > t[i].b implies exists|q: int|
            0 <= q < s.len() && s[q] == t[i] && lone_at(s, q) by {
            if i < m.len() && !(joined && i == m.len() - 1) {
                assert(t[i] == m[i]);
                let q = choose|q: int| 0 <= q < prev.len() && prev[q] == m[i] && lone_at(prev, q);
                assert(s[q] == prev[q]);
                if i < m.len() - 1 {
                    assert(m[i].hi() < m[m.len() - 1].lo());
                }
                assert(!r.meets(m[i]));
                assert forall|j: int| 0 <= j < s.len() && j != q implies !(#[trigger] s[j]).meets(s[q]) by {
                    if j < s.len() - 1 {
                        assert(s[j] == prev[j]);
                    } else {
                        assert(s[j] == r);
                    }
                }
                assert(lone_at(s, q));
            } else if joined {
                assert(t[i] == m.last().spec_cover(r));
            } else {
                assert(t[i] == r);
                let q = s.len() - 1;
                assert(s[q] == r);
                assert forall|j: int| 0 <= j < s.len() && j != q implies !(#[trigger] s[j]).meets(s[q]) by {
                    assert(s[j] == prev[j]);
                    assert(prev[j].hi() <= m.last().hi());
                    assert(key_le(s[j], s[q]));
                }
                assert(lone_at(s, q));
            }
        }
    }
}

/// A reversed region of the normal form stands alone among the given regions.
proof fn lemma_reversed_stands_alone(s: Seq<Region>)
    ensures
        forall|i: int|
            #![trigger normalize_regions(s)[i]]
            0 <= i < normalize_regions(s).len() && normalize_regions(s)[i].a > normalize_regions(s)[i].b
                ==> stands_alone(s, normalize_regions(s)[i]),
{
    broadcast use vstd::seq_lib::group_to_multiset_ensures;
    broadcast use vstd::multiset::group_multiset_axioms;

    let t = sort_regions(s);
    let n = normalize_regions(s);
    lemma_sort_regions(s);
    lemma_sort_regions_multiset(s);
    lemma_merge_reversed_lone(t);
    assert forall|i: int| 0 <= i < n.len() && n[i].a > n[i].b implies stands_alone(s, n[i]) by {
        let x = n[i];
        let q = choose|q: int| 0 <= q < t.len() && t[q] == x && lone_at(t, q);
        let rest = t.remove(q);
        assert(!rest.contains(x)) by {
            if rest.contains(x) {
                let j = choose|j: int| 0 <= j < rest.len() && rest[j] == x;
                let jj = if j < q { j } else { j + 1 };
                assert(t[jj] == x);
                assert(x.meets(x));
            }
        }
        assert(t.contains(x));
        assert(rest.to_multiset() =~= t.to_multiset().remove(x));
        assert(rest.to_multiset().count(x) == 0);
        assert(t.to_multiset().count(x) > 0);
        assert(s.to_multiset().count(x) == 1);
        assert forall|j: int| 0 <= j < s.len() && s[j] != x implies !(#[trigger] s[j]).meets(x) by {
            assert(s.contains(s[j]));
            assert(t.contains(s[j]));
            let jj = choose|jj: int| 0 <= jj < t.len() && t[jj] == s[j];
        }
    }
}

/// A region that stands alone among the given regions is in the normal form.
proof fn lemma_alone_is_kept(s: Seq<Region>, x: Region)
    requires
        stands_alone(s, x),
    ensures
        normalize_regions(s).contains(x),
{
    broadcast use vstd::seq_lib::group_to_multiset_ensures;
    broadcast use vstd::multiset::group_multiset_axioms;

    assert(s.to_multiset().count(x) > 0);
    assert(s.contains(x));
    let k = choose|k: int| 0 <= k < s.len() && s[k] == x;
    assert forall|j: int| 0 <= j < s.len() && j != k implies !(#[trigger] s[j]).meets(s[k]) by {
        if s[j] == x {
            let rest = s.remove(k);
            let jj = if j < k { j } else { j - 1 };
            assert(rest[jj] == x);
            assert(rest.contains(x));
            assert(rest.to_multiset() =~= s.to_multiset().remove(x));
            assert(rest.to_multiset().count(x) > 0);
            assert(false);
        }
    }
    law_normalize_keeps_lone_region(s, k);
}

/// In a normalized run, the regions after the first span exactly the half points spanned past
/// the first region's end.
proof fn lemma_spans_tail(u: Seq<Region>, p: int)
    requires
        is_normalized(u),
        u.len() > 0,
    ensures
        spans(u.drop_first(), p) <==> (spans(u, p) && p > 2 * u[0].hi()),
{
    let w = u.drop_first();
    if spans(w, p) {
        let k = choose|k: int| 0 <= k < w.len() && 2 * (#[trigger] w[k]).lo() <= p <= 2 * w[k].hi();
        assert(w[k] == u[k + 1]);
        assert(u[0].hi() < u[k + 1].lo());
    }
    if spans(u, p) && p > 2 * u[0].hi() {
        let k = choose|k: int| 0 <= k < u.len() && 2 * (#[trigger] u[k]).lo() <= p <= 2 * u[k].hi();
        assert(k > 0);
        assert(w[k - 1] == u[k]);
    }
}

/// The first region of a normalized run begins at or before every other region's begin.
proof fn lemma_first_begins_first(u: Seq<Region>, k: int)
    requires
        is_normalized(u),
        0 <= k < u.len(),
    ensures
        u[0].lo() <= u[k].lo(),
{
    if k > 0 {
        assert(u[0].hi() < u[k].lo());
    }
}

/// Two normalized runs that span the same half points have the same regions, up to their
/// direction.
proof fn lemma_same_spans_same_ends(u: Seq<Region>, v: Seq<Region>)
    requires
        is_normalized(u),
        is_normalized(v),
        forall|p: int| #[trigger] spans(u, p) <==> spans(v, p),
    ensures
        u.len() == v.len(),
        forall|i: int| 0 <= i < u.len() ==> (#[trigger] u[i]).lo() == v[i].lo() && u[i].hi() == v[i].hi(),
    decreases u.len(),
{
    if u.len() == 0 || v.len() == 0 {
        if v.len() > 0 {
            assert(2 * v[0].lo() <= 2 * v[0].lo() <= 2 * v[0].hi());
            assert(spans(v, 2 * v[0].lo()));
            assert(!spans(u, 2 * v[0].lo()));
        }
        if u.len() > 0 {
            assert(2 * u[0].lo() <= 2 * u[0].lo() <= 2 * u[0].hi());
            assert(spans(u, 2 * u[0].lo()));
            assert(!spans(v, 2 * u[0].lo()));
        }
    } else {
        let a = u[0];
        let b = v[0];
        assert(spans(u, 2 * a.lo()));
        assert(spans(v, 2 * a.lo()));
        let k = choose|k: int| 0 <= k < v.len() && 2 * (#[trigger] v[k]).lo() <= 2 * a.lo() <= 2 * v[k].hi();
        lemma_first_begins_first(v, k);
        assert(spans(v, 2 * b.lo()));
        assert(spans(u, 2 * b.lo()));
        let k2 = choose|k2: int| 0 <= k2 < u.len() && 2 * (#[trigger] u[k2]).lo() <= 2 * b.lo() <= 2 * u[k2].hi();
        lemma_first_begins_first(u, k2);
        assert(a.lo() == b.lo());
        if a.hi() < b.hi() {
            let p = 2 * a.hi() + 1;
            assert(2 * v[0].lo() <= p <= 2 * v[0].hi());
            assert(spans(v, p));
            assert(spans(u, p));
            let j = choose|j: int| 0 <= j < u.len() && 2 * (#[trigger] u[j]).lo() <= p <= 2 * u[j].hi();
            if j > 0 {
                assert(u[0].hi() < u[j].lo());
            }
        }
        if b.hi() < a.hi() {
            let p = 2 * b.hi() + 1;
            assert(2 * u[0].lo() <= p <= 2 * u[0].hi());
            assert(spans(u, p));
            assert(spans(v, p));
            let j = choose|j: int| 0 <= j < v.len() && 2 * (#[trigger] v[j]).lo() <= p <= 2 * v[j].hi();
            if j > 0 {
                assert(v[0].hi() < v[j].lo());
            }
        }
        assert(a.hi() == b.hi());
        let u2 = u.drop_first();
        let v2 = v.drop_first();
        assert(is_normalized(u2)) by {
            assert forall|i: int, j: int| 0 <= i < j < u2.len() implies (#[trigger] u2[i]).hi() < (#[trigger] u2[j]).lo() by {
                assert(u2[i] == u[i + 1] && u2[j] == u[j + 1]);
            }
        }
        assert(is_normalized(v2)) by {
            assert forall|i: int, j: int| 0 <= i < j < v2.len() implies (#[trigger] v2[i]).hi() < (#[trigger] v2[j]).lo() by {
                assert(v2[i] == v[i + 1] && v2[j] == v[j + 1]);
            }
        }
        assert forall|p: int| #[trigger] spans(u2, p) <==> spans(v2, p) by {
            lemma_spans_tail(u, p);
            lemma_spans_tail(v, p);
        }
        lemma_same_spans_same_ends(u2, v2);
        assert forall|i: int| 0 <= i < u.len() implies (#[trigger] u[i]).lo() == v[i].lo() && u[i].hi() == v[i].hi() by {
            if i > 0 {
                assert(u[i] == u2[i - 1] && v[i] == v2[i - 1]);
            }
        }
    }
}

/// Two lists of regions that span the same half points, and in which the same reversed
/// regions stand alone, have the same normal form.
proof fn lemma_normal_form_unique(s1: Seq<Region>, s2: Seq<Region>)
    requires
        forall|p: int| #[trigger] spans(s1, p) <==> spans(s2, p),
        forall|x: Region|
            #![trigger stands_alone(s1, x)]
            #![trigger stands_alone(s2, x)]
            x.a > x.b ==> (stands_alone(s1, x) <==> stands_alone(s2, x)),
    ensures
        normalize_regions(s1) == normalize_regions(s2),
{
    let u = normalize_regions(s1);
    let v = normalize_regions(s2);
    lemma_normalize_regions(s1);
    lemma_normalize_regions(s2);
    assert forall|p: int| #[trigger] spans(u, p) <==> spans(v, p) by {
        assert(spans(u, p) <==> spans(s1, p));
        assert(spans(v, p) <==> spans(s2, p));
    }
    lemma_same_spans_same_ends(u, v);
    lemma_reversed_stands_alone(s1);
    lemma_reversed_stands_alone(s2);
    assert forall|i: int| 0 <= i < u.len() implies u[i] == v[i] by {
        if u[i].a > u[i].b {
            assert(stands_alone(s1, u[i]));
            assert(stands_alone(s2, u[i]));
            lemma_alone_is_kept(s2, u[i]);
            let j = choose|j: int| 0 <= j < v.len() && v[j] == u[i];
            if j < i {
                assert(v[j].hi() < v[i].lo());
            }
            if j > i {
                assert(v[i].hi() < v[j].lo());
            }
        } else if v[i].a > v[i].b {
            assert(stands_alone(s2, v[i]));
            assert(stands_alone(s1, v[i]));
            lemma_alone_is_kept(s1, v[i]);
            let j = choose|j: int| 0 <= j < u.len() && u[j] == v[i];
            if j < i {
                assert(u[j].hi() < u[i].lo());
            }
            if j > i {
                assert(u[i].hi() < u[j].lo());
            }
        }
    }
    assert(u =~= v);
}

/// Normalizing does not depend on the order in which the regions are given: two lists that
/// hold the same regions, each as many times, have the same normal form.
pub proof fn law_normalize_ignores_order(s1: Seq<Region>, s2: Seq<Region>)
    requires
        s1.to_multiset() == s2.to_multiset(),
    ensures
        normalize_regions(s1) == normalize_regions(s2),
{
    broadcast use vstd::seq_lib::group_to_multiset_ensures;

    assert forall|x: Region| #[trigger] s1.contains(x) <==> s2.contains(x) by {
        assert(s1.contains(x) <==> s1.to_multiset().count(x) > 0);
        assert(s2.contains(x) <==> s2.to_multiset().count(x) > 0);
    }
    assert forall|p: int| #[trigger] spans(s1, p) <==> spans(s2, p) by {
        if spans(s1, p) {
            let k = choose|k: int| 0 <= k < s1.len() && 2 * (#[trigger] s1[k]).lo() <= p <= 2 * s1[k].hi();
            assert(s1.contains(s1[k]));
            let j = choose|j: int| 0 <= j < s2.len() && s2[j] == s1[k];
        }
        if spans(s2, p) {
            let k = choose|k: int| 0 <= k < s2.len() && 2 * (#[trigger] s2[k]).lo() <= p <= 2 * s2[k].hi();
            assert(s2.contains(s2[k]));
            assert(s1.contains(s2[k]));
            let j = choose|j: int| 0 <= j < s1.len() && s1[j] == s2[k];
        }
    }
    assert forall|x: Region|
        #![trigger stands_alone(s1, x)]
        #![trigger stands_alone(s2, x)]
        x.a > x.b implies (stands_alone(s1, x) <==> stands_alone(s2, x)) by {
        if stands_alone(s1, x) {
            assert forall|j: int| 0 <= j < s2.len() && s2[j] != x implies !(#[trigger] s2[j]).meets(x) by {
                assert(s2.contains(s2[j]));
                assert(s1.contains(s2[j]));
                let k = choose|k: int| 0 <= k < s1.len() && s1[k] == s2[j];
            }
        }
        if stands_alone(s2, x) {
            assert forall|j: int| 0 <= j < s1.len() && s1[j] != x implies !(#[trigger] s1[j]).meets(x) by {
                assert(s1.contains(s1[j]));
                let k = choose|k: int| 0 <= k < s2.len() && s2[k] == s1[j];
            }
        }
    }
    lemma_normal_form_unique(s1, s2);
}

/// The half points spanned by two lists put together are those spanned by either.
proof fn lemma_spans_concat(a: Seq<Region>, b: Seq<Region>, p: int)
    ensures
        spans(a + b, p) <==> (spans(a, p) || spans(b, p)),
{
    let c = a + b;
    if spans(c, p) {
        let k = choose|k: int| 0 <= k < c.len() && 2 * (#[trigger] c[k]).lo() <= p <= 2 * c[k].hi();
        if k < a.len() {
            assert(c[k] == a[k]);
        } else {
            assert(c[k] == b[k - a.len()]);
        }
    }
    if spans(a, p) {
        let k = choose|k: int| 0 <= k < a.len() && 2 * (#[trigger] a[k]).lo() <= p <= 2 * a[k].hi();
        assert(c[k] == a[k]);
    }
    if spans(b, p) {
        let k = choose|k: int| 0 <= k < b.len() && 2 * (#[trigger] b[k]).lo() <= p <= 2 * b[k].hi();
        assert(c[k + a.len()] == b[k]);
    }
}

/// A region that meets one of `a`'s regions meets one of `c`'s, when `c` spans all that `a` spans.
proof fn lemma_meets_through_spans(a: Seq<Region>, c: Seq<Region>, y: Region, j: int)
    requires
        forall|p: int| #[trigger] spans(a, p) ==> spans(c, p),
        0 <= j < a.len(),
        a[j].meets(y),
    ensures
        exists|k: int| 0 <= k < c.len() && (#[trigger] c[k]).meets(y),
{
    let p = if a[j].lo() <= y.lo() { 2 * y.lo() } else { 2 * a[j].lo() };
    assert(2 * a[j].lo() <= p <= 2 * a[j].hi());
    assert(spans(a, p));
    assert(spans(c, p));
    let k = choose|k: int| 0 <= k < c.len() && 2 * (#[trigger] c[k]).lo() <= p <= 2 * c[k].hi();
    assert(c[k].meets(y));
}

/// A reversed region standing alone among all the regions still stands alone once the first
/// part of them has been normalized.
proof fn lemma_steps_keep_alone(x: Seq<Region>, b: Seq<Region>, r: Region)
    requires
        r.a > r.b,
        stands_alone(x + b, r),
    ensures
        stands_alone(normalize_regions(x) + b, r),
{
    broadcast use vstd::seq_lib::group_to_multiset_ensures;
    broadcast use vstd::multiset::group_multiset_axioms;

    let n = normalize_regions(x);
    let s1 = n + b;
    let s2 = x + b;
    lemma_normalize_regions(x);
    vstd::seq_lib::lemma_multiset_commutative(n, b);
    vstd::seq_lib::lemma_multiset_commutative(x, b);
    assert forall|j: int| 0 <= j < b.len() && b[j] != r implies !(#[trigger] b[j]).meets(r) by {
        assert(s2[x.len() + j] == b[j]);
    }
    if x.to_multiset().count(r) > 0 {
        assert(stands_alone(x, r)) by {
            assert forall|j: int| 0 <= j < x.len() && x[j] != r implies !(#[trigger] x[j]).meets(r) by {
                assert(s2[j] == x[j]);
            }
        }
        lemma_alone_is_kept(x, r);
        let i0 = choose|i: int| 0 <= i < n.len() && n[i] == r;
        assert forall|j: int| 0 <= j < n.len() && j != i0 implies !(#[trigger] n[j]).meets(r) by {
            if j < i0 {
                assert(n[j].hi() < n[i0].lo());
            } else {
                assert(n[i0].hi() < n[j].lo());
            }
        }
        let rest = n.remove(i0);
        assert(!rest.contains(r)) by {
            if rest.contains(r) {
                let j = choose|j: int| 0 <= j < rest.len() && rest[j] == r;
                let jj = if j < i0 { j } else { j + 1 };
                assert(n[jj] == r);
                assert(r.meets(r));
            }
        }
        assert(n.contains(r));
        assert(rest.to_multiset() =~= n.to_multiset().remove(r));
        assert(rest.to_multiset().count(r) == 0);
        assert(n.to_multiset().count(r) == 1);
        assert forall|j: int| 0 <= j < s1.len() && s1[j] != r implies !(#[trigger] s1[j]).meets(r) by {
            if j < n.len() {
                assert(s1[j] == n[j]);
                if j == i0 {
                    assert(n[j] == r);
                }
            } else {
                assert(s1[j] == b[j - n.len()]);
            }
        }
    } else {
        assert(!x.contains(r));
        assert forall|j: int| 0 <= j < n.len() implies !(#[trigger] n[j]).meets(r) by {
            if n[j].meets(r) {
                lemma_meets_through_spans(n, x, r, j);
                let k = choose|k: int| 0 <= k < x.len() && (#[trigger] x[k]).meets(r);
                assert(s2[k] == x[k]);
                assert(x.contains(x[k]));
            }
        }
        assert(!n.contains(r)) by {
            if n.contains(r) {
                let j = choose|j: int| 0 <= j < n.len() && n[j] == r;
                assert(r.meets(r));
            }
        }
        assert(n.to_multiset().count(r) == 0);
        assert forall|j: int| 0 <= j < s1.len() && s1[j] != r implies !(#[trigger] s1[j]).meets(r) by {
            if j < n.len() {
                assert(s1[j] == n[j]);
            } else {
                assert(s1[j] == b[j - n.len()]);
            }
        }
    }
}

/// A reversed region standing alone once the first part of the regions has been normalized
/// stands alone among all the regions.
proof fn lemma_steps_find_alone(x: Seq<Region>, b: Seq<Region>, r: Region)
    requires
        r.a > r.b,
        stands_alone(normalize_regions(x) + b, r),
    ensures
        stands_alone(x + b, r),
{
    broadcast use vstd::seq_lib::group_to_multiset_ensures;
    broadcast use vstd::multiset::group_multiset_axioms;

    let n = normalize_regions(x);
    let s1 = n + b;
    let s2 = x + b;
    lemma_normalize_regions(x);
    lemma_reversed_stands_alone(x);
    vstd::seq_lib::lemma_multiset_commutative(n, b);
    vstd::seq_lib::lemma_multiset_commutative(x, b);
    assert forall|j: int| 0 <= j < b.len() && b[j] != r implies !(#[trigger] b[j]).meets(r) by {
        assert(s1[n.len() + j] == b[j]);
    }
    if n.to_multiset().count(r) > 0 {
        assert(n.contains(r));
        let i = choose|i: int| 0 <= i < n.len() && n[i] == r;
        assert(stands_alone(x, r));
        assert forall|j: int| 0 <= j < s2.len() && s2[j] != r implies !(#[trigger] s2[j]).meets(r) by {
            if j < x.len() {
                assert(s2[j] == x[j]);
            } else {
                assert(s2[j] == b[j - x.len()]);
            }
        }
    } else {
        assert(!n.contains(r));
        assert forall|j: int| 0 <= j < x.len() implies !(#[trigger] x[j]).meets(r) by {
            if x[j].meets(r) {
                lemma_meets_through_spans(x, n, r, j);
                let k = choose|k: int| 0 <= k < n.len() && (#[trigger] n[k]).meets(r);
                assert(s1[k] == n[k]);
                assert(n.contains(n[k]));
            }
        }
        assert(!x.contains(r)) by {
            if x.contains(r) {
                let j = choose|j: int| 0 <= j < x.len() && x[j] == r;
                assert(r.meets(r));
            }
        }
        assert(x.to_multiset().count(r) == 0);
        assert forall|j: int| 0 <= j < s2.len() && s2[j] != r implies !(#[trigger] s2[j]).meets(r) by {
            if j < x.len() {
                assert(s2[j] == x[j]);
            } else {
                assert(s2[j] == b[j - x.len()]);
            }
        }
    }
}

/// Normalizing some regions first and then the rest with them gives the same normal form as
/// normalizing all of them at once.
proof fn lemma_normalize_in_steps(x: Seq<Region>, b: Seq<Region>)
    ensures
        normalize_regions(normalize_regions(x) + b) == normalize_regions(x + b),
{
    let n = normalize_regions(x);
    let s1 = n + b;
    let s2 = x + b;
    lemma_normalize_regions(x);
    assert forall|p: int| #[trigger] spans(s1, p) <==> spans(s2, p) by {
        lemma_spans_concat(n, b, p);
        lemma_spans_concat(x, b, p);
    }
    assert forall|r: Region|
        #![trigger stands_alone(s1, r)]
        #![trigger stands_alone(s2, r)]
        r.a > r.b implies (stands_alone(s1, r) <==> stands_alone(s2, r)) by {
        if stands_alone(s2, r) {
            lemma_steps_keep_alone(x, b, r);
        }
        if stands_alone(s1, r) {
            lemma_steps_find_alone(x, b, r);
        }
    }
    lemma_normal_form_unique(s1, s2);
}

/// The selection left by adding `rs` to the selection `s` one region at a time, in their order.
pub open spec fn add_each(s: Seq<Region>, rs: Seq<Region>) -> Seq<Region>
    decreases rs.len(),
{
    if rs.len() == 0 {
        s
    } else {
        add_each(normalize_regions(s.push(rs[0])), rs.drop_first())
    }
}

/// Adding regions to a selection one at a time, in any order, leaves the same selection as
/// adding them all at once.
pub proof fn law_add_each_is_add_all(s: Seq<Region>, rs: Seq<Region>, order: Seq<Region>)
    requires
        is_normalized(s),
        order.to_multiset() == rs.to_multiset(),
    ensures
        add_each(s, order) == normalize_regions(s + rs),
    decreases order.len(),
{
    broadcast use vstd::seq_lib::group_to_multiset_ensures;
    broadcast use vstd::multiset::group_multiset_axioms;

    if order.len() == 0 {
        assert(rs.len() == rs.to_multiset().len());
        assert(s + rs =~= s);
        assert(sorted_by_key(s)) by {
            assert forall|i: int, j: int| 0 <= i < j < s.len() implies key_le(#[trigger] s[i], #[trigger] s[j]) by {
                assert(s[i].hi() < s[j].lo());
            }
        }
        crate::laws::lemma_sort_sorted(s);
        crate::laws::lemma_merge_normalized(s);
    } else {
        let first = s.push(order[0]);
        let s1 = normalize_regions(first);
        let rest = order.drop_first();
        lemma_normalize_regions(first);
        law_add_each_is_add_all(s1, rest, rest);
        lemma_normalize_in_steps(first, rest);
        assert(first + rest =~= s + order);
        vstd::seq_lib::lemma_multiset_commutative(s, order);
        vstd::seq_lib::lemma_multiset_commutative(s, rs);
        law_normalize_ignores_order(s + order, s + rs);
    }
}

fn key_greater(x: &Region, y: &Region) -> (r: bool)
    ensures
        r == !key_le(*x, *y),
{
    x.begin() > y.begin() || (x.begin() == y.begin() && x.end() > y.end())
}

/// Stable insertion sort by `(begin, end)`.
pub(crate) fn sort_by_position(v: &Vec<Region>) -> (out: Vec<Region>)
    ensures
        out@ == sort_regions(v@),
{
    let mut out: Vec<Region> = Vec::new();
    let mut i: usize = 0;
    while i < v.len()
        invariant
            i <= v.len(),
            out@ == sort_regions(v@.take(i as int)),
        decreases v.len() - i,
    {
        let r = v[i];
        let ghost before = out@;
        let mut j: usize = out.len();
        proof {
            assert(before.take(j as int) == before);
            assert(before.skip(j as int) == Seq::<Region>::empty());
            assert(insert_sorted(before, r) + Seq::<Region>::empty() == insert_sorted(before, r));
        }
        while j > 0 && key_greater(&out[j - 1], &r)
            invariant
                j <= out.len(),
                out@ == before,
                insert_sorted(before, r) == insert_sorted(before.take(j as int), r) + before.skip(j as int),
            decreases j,
        {
            proof {
                let tj = before.take(j as int);
                assert(tj.drop_last() == before.take(j - 1));
                assert(tj.last() == before[j - 1]);
                assert(insert_sorted(tj, r) == insert_sorted(before.take(j - 1), r).push(before[j - 1]));
                assert(insert_sorted(before.take(j - 1), r).push(before[j - 1]) + before.skip(j as int)
                    == insert_sorted(before.take(j - 1), r) + before.skip(j - 1));
            }
            j = j - 1;
        }
        proof {
            let tj = before.take(j as int);
            if j > 0 {
                assert(tj.last() == before[j - 1]);
            }
            assert(insert_sorted(tj, r) == tj.push(r));
        }
        out.insert(j, r);
        proof {
            assert(out@ == before.take(j as int).push(r) + before.skip(j as int));
            assert(v@.take(i + 1).drop_last() == v@.take(i as int));
            assert(v@.take(i + 1).last() == r);
        }
        i = i + 1;
    }
    proof {
        assert(v@.take(v.len() as int) == v@);
    }
    out
}

/// Merges a sorted run of regions: overlapping or touching regions become one forward region.
fn merge_by_position(sorted: &Vec<Region>) -> (merged: Vec<Region>)
    ensures
        merged@ == merge_sorted(sorted@),
{
    let mut merged: Vec<Region> = Vec::with_capacity(sorted.len());
    let mut k: usize = 0;
    while k < sorted.len()
        invariant
            k <= sorted.len(),
            merged@ == merge_sorted(sorted@.take(k as int)),
        decreases sorted.len() - k,
    {
        let region = sorted[k];
        let n = merged.len();
        proof {
            assert(sorted@.take(k + 1).drop_last() == sorted@.take(k as int));
            assert(sorted@.take(k + 1).last() == region);
        }
        if n > 0 && (merged[n - 1].intersects(&region) || merged[n - 1].end() == region.begin()) {
            let c = merged[n - 1].cover(&region);
            merged.set(n - 1, c);
            proof {
                assert(merged@ == merge_sorted(sorted@.take(k as int)).drop_last().push(c));
            }
        } else {
            merged.push(region);
        }
        k = k + 1;
    }
    proof {
        assert(sorted@.take(sorted.len() as int) == sorted@);
    }
    merged
}

/// Brings regions into normal form: sorted by position, overlapping or touching ones merged.
pub fn normalize(regions: &Vec<Region>) -> (out: Vec<Region>)
    ensures
        out@ == normalize_regions(regions@),
        is_normalized(out@),
{
    proof {
        lemma_normalize_regions(regions@);
    }
    let sorted = sort_by_position(regions);
    merge_by_position(&sorted)
}

/// The regions selected in a view, kept in normal form.
#[derive(Debug, Clone)]
pub struct SelectionSet {
    regions: Vec<Region>,
}

impl View for SelectionSet {
    type V = Seq<Region>;

    closed spec fn view(&self) -> Seq<Region> {
        self.regions@
    }
}

impl SelectionSet {
    /// The selection is in normal form.
    pub open spec fn wf(&self) -> bool {
        is_normalized(self@)
    }

    pub fn new() -> (r: Self)
        ensures
            r@ == Seq::<Region>::empty(),
            r.wf(),
    {
        SelectionSet { regions: Vec::new() }
    }

    pub fn clear(&mut self)
        ensures
            final(self)@ == Seq::<Region>::empty(),
            final(self).wf(),
    {
        self.regions.clear();
    }

    pub fn add(&mut self, region: Region)
        ensures
            final(self)@ == normalize_regions(old(self)@.push(region)),
            final(self).wf(),
    {
        let mut all = Vec::new();
        std::mem::swap(&mut all, &mut self.regions);
        all.push(region);
        self.regions = normalize(&all);
    }

    /// Adds all of `regions` and brings the selection into normal form once.
    pub fn add_all(&mut self, regions: Vec<Region>)
        ensures
            final(self)@ == normalize_regions(old(self)@ + regions@),
            final(self).wf(),
    {
        let mut all = Vec::new();
        std::mem::swap(&mut all, &mut self.regions);
        let mut extra = regions;
        all.append(&mut extra);
        self.regions = normalize(&all);
    }

    /// Removes every region equal to `region`.
    pub fn subtract(&mut self, region: Region)
        ensures
            final(self)@ == old(self)@.filter(|r: Region| r != region),
            old(self).wf() ==> final(self).wf(),
    {
        let mut kept: Vec<Region> = Vec::new();
        let mut i: usize = 0;
        let ghost pred = |r: Region| r != region;
        while i < self.regions.len()
            invariant
                i <= self.regions.len(),
                self.regions@ == old(self)@,
                pred == (|r: Region| r != region),
                kept@ == self.regions@.take(i as int).filter(pred),
            decreases self.regions.len() - i,
        {
            let r = self.regions[i];
            if r != region {
                kept.push(r);
            }
            proof {
                reveal_with_fuel(Seq::<_>::filter, 1);
                let t = self.regions@.take(i + 1);
                assert(t.drop_last() == self.regions@.take(i as int));
                assert(t.last() == r);
                assert(pred(r) == (r != region));
                assert(t.filter(pred) == (if pred(r) { t.drop_last().filter(pred).push(r) } else { t.drop_last().filter(pred) }));
                assert(kept@ == t.filter(pred));
            }
            i = i + 1;
        }
        proof {
            assert(self.regions@.take(self.regions.len() as int) == self.regions@);
            let s = old(self)@;
            let f = s.filter(pred);
            if is_normalized(s) {
                assert forall|a: int, b: int| 0 <= a < b < f.len() implies (#[trigger] f[a]).hi() < (#[trigger] f[b]).lo() by {
                    lemma_filter_increasing(s, pred, a, b);
                }
            }
        }
        self.regions = kept;
    }

    pub fn len(&self) -> (r: usize)
        ensures
            r == self@.len(),
    {
        self.regions.len()
    }

    pub fn is_empty(&self) -> (r: bool)
        ensures
            r == (self@.len() == 0),
    {
        self.regions.len() == 0
    }

    /// The regions in order, as a slice to iterate over.
    pub fn iter(&self) -> (r: &[Region])
        ensures
            r@ == self@,
    {
        self.regions.as_slice()
    }

    /// The regions from last to first.
    pub fn iter_rev(&self) -> (r: Vec<Region>)
        ensures
            r@ == self@.reverse(),
    {
        let mut out: Vec<Region> = Vec::new();
        let mut i: usize = self.regions.len();
        while i > 0
            invariant
                i <= self.regions.len(),
                out@ == self@.skip(i as int).reverse(),
            decreases i,
        {
            i = i - 1;
            out.push(self.regions[i]);
            proof {
                assert(self@.skip(i as int).reverse() == self@.skip(i + 1).reverse().push(self@[i as int]));
            }
        }
        proof {
            assert(self@.skip(0) == self@);
        }
        out
    }

    pub fn first(&self) -> (r: Option<&Region>)
        ensures
            r == (if self@.len() > 0 { Some(&self@[0]) } else { None }),
    {
        if self.regions.len() > 0 {
            Some(&self.regions[0])
        } else {
            None
        }
    }

    pub fn last(&self) -> (r: Option<&Region>)
        ensures
            r == (if self@.len() > 0 { Some(&self@.last()) } else { None }),
    {
        let n = self.regions.len();
        if n > 0 {
            Some(&self.regions[n - 1])
        } else {
            None
        }
    }

    pub fn as_slice(&self) -> (r: &[Region])
        ensures
            r@ == self@,
    {
        self.regions.as_slice()
    }
}

proof fn lemma_filter_increasing(s: Seq<Region>, pred: spec_fn(Region) -> bool, a: int, b: int)
    requires
        is_normalized(s),
        0 <= a < b < s.filter(pred).len(),
    ensures
        s.filter(pred)[a].hi() < s.filter(pred)[b].lo(),
    decreases s.len(),
{
    reveal_with_fuel(Seq::<_>::filter, 1);
    let p = s.drop_last();
    assert(is_normalized(p));
    let fp = p.filter(pred);
    if pred(s.last()) {
        assert(s.filter(pred) == fp.push(s.last()));
        if b < fp.len() {
            lemma_filter_increasing(p, pred, a, b);
        } else {
            assert(fp.contains(fp[a]));
            p.lemma_filter_contains_rev(pred, fp[a]);
            let k = choose|k: int| 0 <= k < p.len() && p[k] == fp[a];
            assert(s[k] == p[k]);
            assert(s[s.len() - 1] == s.last());
        }
    } else {
        assert(s.filter(pred) == fp);
        lemma_filter_increasing(p, pred, a, b);
    }
}

} // verus!
