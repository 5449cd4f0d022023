//! Commands that insert whole lines at the carets, and the ordering they rely on.
use std::ops::Range;

use vstd::prelude::*;
use vstd::string::StringSliceAdditionalSpecFns;
use vstd::utf8::{encode_utf8, valid_utf8};

use crate::buffer::{Buffer, BufferError};
use crate::commands::{bad_point, caret_at, clamp, edit_command_outcome, is_point, with_selections};
use crate::history::RecordModel;
use crate::selection::{normalize_regions, Region};
use crate::state::{edit_models, AppState, EditModel};
use crate::buffer::lemma_line_bounds;
use crate::text::{concat_strs, full_line_end, line_begin, line_end, newline_string, nl, splice};
use crate::trusted::str_byte_len;

verus! {

/// Whether an entry at `a` may stay before one at `b`: in ascending order, or with `desc`
/// in descending order.
pub open spec fn in_order(desc: bool, a: usize, b: usize) -> bool {
    if desc {
        a >= b
    } else {
        a <= b
    }
}

/// Stable insertion of `x` after every entry that may stay before it.
pub open spec fn insert_by_pos<T>(s: Seq<(usize, T)>, x: (usize, T), desc: bool) -> Seq<(usize, T)>
    decreases s.len(),
{
    if s.len() == 0 || in_order(desc, s.last().0, x.0) {
        s.push(x)
    } else {
        insert_by_pos(s.drop_last(), x, desc).push(s.last())
    }
}

/// The stable sort of `s` by position, ascending or, with `desc`, descending.
pub open spec fn sort_by_pos<T>(s: Seq<(usize, T)>, desc: bool) -> Seq<(usize, T)>
    decreases s.len(),
{
    if s.len() == 0 {
        s
    } else {
        insert_by_pos(sort_by_pos(s.drop_last(), desc), s.last(), desc)
    }
}

/// `s` with every entry dropped whose position equals that of the last entry kept before it.
pub open spec fn dedup_by_pos<T>(s: Seq<(usize, T)>) -> Seq<(usize, T)>
    decreases s.len(),
{
    if s.len() == 0 {
        s
    } else {
        let d = dedup_by_pos(s.drop_last());
        if d.len() > 0 && d.last().0 == s.last().0 {
            d
        } else {
            d.push(s.last())
        }
    }
}

fn out_of_order(desc: bool, a: usize, b: usize) -> (r: bool)
    ensures
        r == !in_order(desc, a, b),
{
    if desc {
        a < b
    } else {
        a > b
    }
}

/// Stable sort by position, ascending or, with `desc`, descending.
pub fn sort_entries_by_pos<T>(v: Vec<(usize, T)>, desc: bool) -> (out: Vec<(usize, T)>)
    ensures
        out@ == sort_by_pos(v@, desc),
{
    let ghost v0 = v@;
    let n0 = v.len();
    let mut rest = v;
    let mut out: Vec<(usize, T)> = Vec::new();
    let mut k: usize = 0;
    while rest.len() > 0
        invariant
            k <= v0.len(),
            v0.len() == n0,
            rest@ == v0.skip(k as int),
            out@ == sort_by_pos(v0.take(k as int), desc),
        decreases rest.len(),
    {
        let x = rest.remove(0);
        proof {
            assert(x == v0[k as int]);
            assert(rest@ == v0.skip(k + 1));
        }
        let ghost before = out@;
        let mut j: usize = out.len();
        proof {
            assert(before.take(j as int) == before);
            assert(before.skip(j as int) == Seq::<(usize, T)>::empty());
            assert(insert_by_pos(before, x, desc) + Seq::<(usize, T)>::empty() == insert_by_pos(before, x, desc));
        }
        while j > 0 && out_of_order(desc, out[j - 1].0, x.0)
            invariant
                j <= out.len(),
                out@ == before,
                insert_by_pos(before, x, desc) == insert_by_pos(before.take(j as int), x, desc) + before.skip(j as int),
            decreases j,
        {
            proof {
                let tj = before.take(j as int);
                assert(tj.drop_last() == before.take(j - 1));
                assert(tj.last() == before[j - 1]);
                assert(insert_by_pos(before.take(j - 1), x, desc).push(before[j - 1]) + before.skip(j as int)
                    == insert_by_pos(before.take(j - 1), x, desc) + before.skip(j - 1));
            }
            j = j - 1;
        }
        proof {
            let tj = before.take(j as int);
            if j > 0 {
                assert(tj.last() == before[j - 1]);
            }
            assert(insert_by_pos(tj, x, desc) == tj.push(x));
        }
        out.insert(j, x);
        proof {
            assert(out@ == before.take(j as int).push(x) + before.skip(j as int));
            assert(v0.take(k + 1).drop_last() == v0.take(k as int));
            assert(v0.take(k + 1).last() == x);
        }
        k = k + 1;
    }
    proof {
        assert(v0.take(k as int) == v0);
    }
    out
}

/// Drops every entry whose position equals that of the last entry kept before it.
pub fn dedup_entries_by_pos<T>(v: Vec<(usize, T)>) -> (out: Vec<(usize, T)>)
    ensures
        out@ == dedup_by_pos(v@),
{
    let ghost v0 = v@;
    let n0 = v.len();
    let mut rest = v;
    let mut out: Vec<(usize, T)> = Vec::new();
    let mut k: usize = 0;
    while rest.len() > 0
        invariant
            k <= v0.len(),
            v0.len() == n0,
            rest@ == v0.skip(k as int),
            out@ == dedup_by_pos(v0.take(k as int)),
        decreases rest.len(),
    {
        let x = rest.remove(0);
        proof {
            assert(x == v0[k as int]);
            assert(rest@ == v0.skip(k + 1));
            assert(v0.take(k + 1).drop_last() == v0.take(k as int));
            assert(v0.take(k + 1).last() == x);
        }
        let n = out.len();
        if n == 0 || out[n - 1].0 != x.0 {
            out.push(x);
        }
        k = k + 1;
    }
    proof {
        assert(v0.take(k as int) == v0);
    }
    out
}

/// Where a line command inserts for one region: the offset, the text, and the region to select.
pub type LineTarget = (usize, (String, Region));

/// A target with its text as UTF-8 bytes.
pub type TargetModel = (usize, (Seq<u8>, Region));

pub open spec fn target_model(x: LineTarget) -> TargetModel {
    (x.0, (encode_utf8(x.1.0@), x.1.1))
}

pub open spec fn target_models(s: Seq<LineTarget>) -> Seq<TargetModel> {
    map_payload(s, |p: (String, Region)| (encode_utf8(p.0@), p.1))
}

/// Every entry of `s` with `f` applied to what it carries besides its position.
pub open spec fn map_payload<T, U>(s: Seq<(usize, T)>, f: spec_fn(T) -> U) -> Seq<(usize, U)> {
    s.map_values(|x: (usize, T)| (x.0, f(x.1)))
}

proof fn lemma_insert_by_pos_map<T, U>(s: Seq<(usize, T)>, x: (usize, T), f: spec_fn(T) -> U, desc: bool)
    ensures
        map_payload(insert_by_pos(s, x, desc), f) == insert_by_pos(map_payload(s, f), (x.0, f(x.1)), desc),
    decreases s.len(),
{
    if s.len() > 0 && !in_order(desc, s.last().0, x.0) {
        lemma_insert_by_pos_map(s.drop_last(), x, f, desc);
        assert(map_payload(s.drop_last(), f) == map_payload(s, f).drop_last());
        assert(map_payload(insert_by_pos(s.drop_last(), x, desc).push(s.last()), f)
            == map_payload(insert_by_pos(s.drop_last(), x, desc), f).push((s.last().0, f(s.last().1))));
    } else {
        assert(map_payload(s.push(x), f) == map_payload(s, f).push((x.0, f(x.1))));
    }
}

/// Sorting by position commutes with changing what the entries carry.
pub proof fn lemma_sort_by_pos_map<T, U>(s: Seq<(usize, T)>, f: spec_fn(T) -> U, desc: bool)
    ensures
        map_payload(sort_by_pos(s, desc), f) == sort_by_pos(map_payload(s, f), desc),
    decreases s.len(),
{
    if s.len() > 0 {
        lemma_sort_by_pos_map(s.drop_last(), f, desc);
        lemma_insert_by_pos_map(sort_by_pos(s.drop_last(), desc), s.last(), f, desc);
        assert(map_payload(s.drop_last(), f) == map_payload(s, f).drop_last());
    }
}

/// Dropping repeated positions commutes with changing what the entries carry.
pub proof fn lemma_dedup_by_pos_map<T, U>(s: Seq<(usize, T)>, f: spec_fn(T) -> U)
    ensures
        map_payload(dedup_by_pos(s), f) == dedup_by_pos(map_payload(s, f)),
    decreases s.len(),
{
    if s.len() > 0 {
        lemma_dedup_by_pos_map(s.drop_last(), f);
        assert(map_payload(s.drop_last(), f) == map_payload(s, f).drop_last());
        let d = dedup_by_pos(s.drop_last());
        if !(d.len() > 0 && d.last().0 == s.last().0) {
            assert(map_payload(d.push(s.last()), f) == map_payload(d, f).push((s.last().0, f(s.last().1))));
        }
    }
}

/// The target list kept by a line command: sorted by offset, one per offset.
pub open spec fn kept_targets(tg: Seq<TargetModel>) -> Seq<TargetModel> {
    dedup_by_pos(sort_by_pos(tg, false))
}

/// The insertions of the kept targets, from the last offset to the first.
pub open spec fn target_edits(kept: Seq<TargetModel>) -> Seq<EditModel>
    decreases kept.len(),
{
    if kept.len() == 0 {
        Seq::empty()
    } else {
        seq![EditModel { start: kept.last().0, end: kept.last().0, text: kept.last().1.0 }]
            + target_edits(kept.drop_last())
    }
}

/// The regions the kept targets select.
pub open spec fn target_regions(kept: Seq<TargetModel>) -> Seq<Region> {
    kept.map_values(|x: TargetModel| x.1.1)
}

/// Which line a line command inserts.
#[derive(Debug, Clone, Copy, PartialEq, Eq, Structural)]
pub enum LineInsert {
    /// A copy of the caret's line after it.
    Duplicate,
    /// A line with the given text after the caret's line.
    After,
    /// A line with the given text before the caret's line.
    Before,
}

/// What one region asks a line command to insert; `text` is the text of the new line.
pub open spec fn target_of(t: Seq<u8>, kind: LineInsert, text: Seq<u8>, r: Region) -> Result<TargetModel, BufferError> {
    let p = clamp(t, r.b);
    if !is_point(t, p) {
        Err(bad_point(t, p))
    } else {
        let lb = line_begin(t, p as int);
        let le = line_end(t, p as int);
        let fe = full_line_end(t, p as int);
        match kind {
            LineInsert::Duplicate => {
                let ins = if fe > le { t.subrange(lb, fe) } else { seq![nl()] + t.subrange(lb, le) };
                Ok((fe as usize, (ins, Region { a: fe as usize, b: (fe + ins.len()) as usize })))
            },
            LineInsert::After => {
                let has_newline = fe > le;
                let ins = if has_newline && text.len() > 0 {
                    text
                } else if has_newline || text.len() == 0 {
                    seq![nl()]
                } else {
                    seq![nl()] + text
                };
                let caret = if has_newline && text.len() == 0 {
                    fe
                } else if has_newline {
                    fe + text.len()
                } else {
                    fe + 1 + text.len()
                };
                Ok((fe as usize, (ins, caret_at(caret))))
            },
            LineInsert::Before => {
                let ins = if text.len() == 0 { seq![nl()] } else { text + seq![nl()] };
                Ok((lb as usize, (ins, caret_at(lb + text.len()))))
            },
        }
    }
}

/// Entries in ascending order of position.
pub open spec fn pos_ascending<T>(s: Seq<(usize, T)>) -> bool {
    forall|i: int, j: int| 0 <= i < j < s.len() ==> (#[trigger] s[i]).0 <= (#[trigger] s[j]).0
}

/// Some entry of `s` stands at position `p`.
pub open spec fn has_pos<T>(s: Seq<(usize, T)>, p: usize) -> bool {
    exists|i: int| 0 <= i < s.len() && (#[trigger] s[i]).0 == p
}

proof fn lemma_insert_by_pos_asc<T>(s: Seq<(usize, T)>, x: (usize, T))
    requires
        pos_ascending(s),
    ensures
        pos_ascending(insert_by_pos(s, x, false)),
        insert_by_pos(s, x, false).len() == s.len() + 1,
        forall|y: (usize, T)| #[trigger] insert_by_pos(s, x, false).contains(y) <==> (s.contains(y) || y == x),
    decreases s.len(),
{
    let t = insert_by_pos(s, x, false);
    if s.len() == 0 || in_order(false, s.last().0, x.0) {
        assert(t == s.push(x));
        assert forall|i: int, j: int| 0 <= i < j < t.len() implies (#[trigger] t[i]).0 <= (#[trigger] t[j]).0 by {
            if j == t.len() - 1 && i < s.len() - 1 {
                assert(s[i].0 <= s[s.len() - 1].0);
            }
        }
        assert forall|y: (usize, T)| #[trigger] t.contains(y) <==> (s.contains(y) || y == x) by {
            if t.contains(y) {
                let k = choose|k: int| 0 <= k < t.len() && t[k] == y;
                if k < s.len() {
                    assert(s[k] == y);
                }
            }
            if s.contains(y) {
                let k = choose|k: int| 0 <= k < s.len() && s[k] == y;
                assert(t[k] == y);
            }
            if y == x {
                assert(t[s.len() as int] == y);
            }
        }
    } else {
        let p = s.drop_last();
        assert(pos_ascending(p)) by {
            assert forall|i: int, j: int| 0 <= i < j < p.len() implies (#[trigger] p[i]).0 <= (#[trigger] p[j]).0 by {
                assert(p[i] == s[i] && p[j] == s[j]);
            }
        }
        lemma_insert_by_pos_asc(p, x);
        let u = insert_by_pos(p, x, false);
        assert(t == u.push(s.last()));
        assert forall|i: int, j: int| 0 <= i < j < t.len() implies (#[trigger] t[i]).0 <= (#[trigger] t[j]).0 by {
            if j == t.len() - 1 {
                assert(t[i] == u[i]);
                assert(u.contains(u[i]));
                if u[i] != x {
                    assert(p.contains(u[i]));
                    let k = choose|k: int| 0 <= k < p.len() && p[k] == u[i];
                    assert(s[k] == p[k]);
                    assert(s[k].0 <= s[s.len() - 1].0);
                }
            } else {
                assert(t[i] == u[i] && t[j] == u[j]);
            }
        }
        assert forall|y: (usize, T)| #[trigger] t.contains(y) <==> (s.contains(y) || y == x) by {
            if t.contains(y) {
                let k = choose|k: int| 0 <= k < t.len() && t[k] == y;
                if k < u.len() {
                    assert(u[k] == y);
                    assert(u.contains(y));
                    if p.contains(y) {
                        let m = choose|m: int| 0 <= m < p.len() && p[m] == y;
                        assert(s[m] == y);
                    }
                } else {
                    assert(s[s.len() - 1] == y);
                }
            }
            if s.contains(y) {
                let k = choose|k: int| 0 <= k < s.len() && s[k] == y;
                if k < s.len() - 1 {
                    assert(p[k] == y);
                    assert(p.contains(y));
                    assert(u.contains(y));
                    let m = choose|m: int| 0 <= m < u.len() && u[m] == y;
                    assert(t[m] == y);
                } else {
                    assert(t[t.len() - 1] == y);
                }
            }
            if y == x {
                assert(u.contains(x));
                let m = choose|m: int| 0 <= m < u.len() && u[m] == x;
                assert(t[m] == x);
            }
        }
    }
}

proof fn lemma_sort_by_pos_asc<T>(s: Seq<(usize, T)>)
    ensures
        pos_ascending(sort_by_pos(s, false)),
        sort_by_pos(s, false).len() == s.len(),
        forall|y: (usize, T)| #[trigger] sort_by_pos(s, false).contains(y) <==> s.contains(y),
    decreases s.len(),
{
    if s.len() > 0 {
        let p = s.drop_last();
        lemma_sort_by_pos_asc(p);
        lemma_insert_by_pos_asc(sort_by_pos(p, false), s.last());
        assert forall|y: (usize, T)| #[trigger] sort_by_pos(s, false).contains(y) <==> s.contains(y) by {
            if p.contains(y) {
                let k = choose|k: int| 0 <= k < p.len() && p[k] == y;
                assert(s[k] == y);
            }
            if s.contains(y) {
                let k = choose|k: int| 0 <= k < s.len() && s[k] == y;
                if k < s.len() - 1 {
                    assert(p[k] == y);
                }
            }
        }
    }
}

proof fn lemma_dedup_asc<T>(s: Seq<(usize, T)>)
    requires
        pos_ascending(s),
    ensures
        forall|i: int, j: int|
            0 <= i < j < dedup_by_pos(s).len() ==> (#[trigger] dedup_by_pos(s)[i]).0 < (#[trigger] dedup_by_pos(s)[j]).0,
        forall|y: (usize, T)| #[trigger] dedup_by_pos(s).contains(y) ==> s.contains(y),
        forall|k: int| 0 <= k < s.len() ==> has_pos(dedup_by_pos(s), (#[trigger] s[k]).0),
        s.len() > 0 ==> dedup_by_pos(s).len() > 0 && dedup_by_pos(s).last().0 == s.last().0,
    decreases s.len(),
{
    if s.len() > 0 {
        let p = s.drop_last();
        assert(pos_ascending(p)) by {
            assert forall|i: int, j: int| 0 <= i < j < p.len() implies (#[trigger] p[i]).0 <= (#[trigger] p[j]).0 by {
                assert(p[i] == s[i] && p[j] == s[j]);
            }
        }
        lemma_dedup_asc(p);
        let d = dedup_by_pos(p);
        let r = dedup_by_pos(s);
        let x = s.last();
        if d.len() > 0 && d.last().0 == x.0 {
            assert(r == d);
            assert forall|y: (usize, T)| #[trigger] r.contains(y) implies s.contains(y) by {
                assert(d.contains(y));
                assert(p.contains(y));
                let k = choose|k: int| 0 <= k < p.len() && p[k] == y;
                assert(s[k] == y);
            }
            assert forall|k: int| 0 <= k < s.len() implies has_pos(r, (#[trigger] s[k]).0) by {
                if k < p.len() {
                    assert(p[k] == s[k]);
                } else {
                    assert(r[r.len() - 1].0 == s[k].0);
                }
            }
        } else {
            assert(r == d.push(x));
            if d.len() > 0 {
                assert(p[p.len() - 1] == s[p.len() - 1]);
                assert(s[p.len() - 1].0 <= s[s.len() - 1].0);
            }
            assert forall|i: int, j: int| 0 <= i < j < r.len() implies (#[trigger] r[i]).0 < (#[trigger] r[j]).0 by {
                if j == r.len() - 1 {
                    assert(r[i] == d[i]);
                    if i < d.len() - 1 {
                        assert(d[i].0 < d[d.len() - 1].0);
                    }
                } else {
                    assert(r[i] == d[i] && r[j] == d[j]);
                }
            }
            assert forall|y: (usize, T)| #[trigger] r.contains(y) implies s.contains(y) by {
                let k = choose|k: int| 0 <= k < r.len() && r[k] == y;
                if k < d.len() {
                    assert(d[k] == y);
                    assert(d.contains(y));
                    assert(p.contains(y));
                    let m = choose|m: int| 0 <= m < p.len() && p[m] == y;
                    assert(s[m] == y);
                } else {
                    assert(s[s.len() - 1] == y);
                }
            }
            assert forall|k: int| 0 <= k < s.len() implies has_pos(r, (#[trigger] s[k]).0) by {
                if k < p.len() {
                    assert(p[k] == s[k]);
                    assert(has_pos(d, p[k].0));
                    let m = choose|m: int| 0 <= m < d.len() && (#[trigger] d[m]).0 == p[k].0;
                    assert(r[m] == d[m]);
                } else {
                    assert(r[r.len() - 1] == s[k]);
                }
            }
        }
    }
}

proof fn lemma_target_edits(kept: Seq<TargetModel>)
    ensures
        target_edits(kept).len() == kept.len(),
        forall|i: int| 0 <= i < kept.len() ==> #[trigger] target_edits(kept)[i] == (EditModel {
            start: kept[kept.len() - 1 - i].0,
            end: kept[kept.len() - 1 - i].0,
            text: kept[kept.len() - 1 - i].1.0,
        }),
    decreases kept.len(),
{
    if kept.len() > 0 {
        let p = kept.drop_last();
        lemma_target_edits(p);
        let es = target_edits(kept);
        assert forall|i: int| 0 <= i < kept.len() implies #[trigger] es[i] == (EditModel {
            start: kept[kept.len() - 1 - i].0,
            end: kept[kept.len() - 1 - i].0,
            text: kept[kept.len() - 1 - i].1.0,
        }) by {
            if i > 0 {
                assert(es[i] == target_edits(p)[i - 1]);
                assert(p[p.len() - 1 - (i - 1)] == kept[kept.len() - 1 - i]);
            }
        }
    }
}

/// A line command inserts at most once at any offset: its insertions run from the greatest offset
/// down to the least, each at a different offset, so that several carets on one line make one
/// insertion there. Every insertion is one that some caret asks for, and every offset a caret
/// asks for gets one.
pub proof fn law_line_edits_once_per_offset(tg: Seq<TargetModel>)
    ensures
        ({
            let es = target_edits(kept_targets(tg));
            &&& forall|i: int, j: int| 0 <= i < j < es.len() ==> (#[trigger] es[i]).start > (#[trigger] es[j]).start
            &&& forall|i: int| 0 <= i < es.len() ==> (#[trigger] es[i]).start == es[i].end
                && exists|k: int| 0 <= k < tg.len() && (#[trigger] tg[k]).0 == es[i].start && tg[k].1.0 == es[i].text
            &&& forall|k: int| 0 <= k < tg.len() ==> exists|i: int| 0 <= i < es.len() && (#[trigger] es[i]).start == (#[trigger] tg[k]).0
        }),
{
    let sorted = sort_by_pos(tg, false);
    lemma_sort_by_pos_asc(tg);
    lemma_dedup_asc(sorted);
    let kept = kept_targets(tg);
    let n = kept.len();
    lemma_target_edits(kept);
    let es = target_edits(kept);
    assert forall|i: int, j: int| 0 <= i < j < es.len() implies (#[trigger] es[i]).start > (#[trigger] es[j]).start by {
        assert(kept[n - 1 - j].0 < kept[n - 1 - i].0);
    }
    assert forall|i: int| 0 <= i < es.len() implies (#[trigger] es[i]).start == es[i].end
        && exists|k: int| 0 <= k < tg.len() && (#[trigger] tg[k]).0 == es[i].start && tg[k].1.0 == es[i].text by {
        let y = kept[n - 1 - i];
        assert(kept.contains(y));
        assert(sorted.contains(y));
        assert(tg.contains(y));
        let k = choose|k: int| 0 <= k < tg.len() && tg[k] == y;
        assert(tg[k].0 == es[i].start);
    }
    assert forall|k: int| 0 <= k < tg.len() implies exists|i: int| 0 <= i < es.len() && (#[trigger] es[i]).start == (#[trigger] tg[k]).0 by {
        assert(tg.contains(tg[k]));
        assert(sorted.contains(tg[k]));
        let q = choose|q: int| 0 <= q < sorted.len() && sorted[q] == tg[k];
        assert(has_pos(kept, sorted[q].0));
        let m = choose|m: int| 0 <= m < kept.len() && (#[trigger] kept[m]).0 == sorted[q].0;
        assert(es[n - 1 - m].start == tg[k].0);
    }
}

/// What one caret's line insertion does to the text, stated on the text itself. With `lb..le` the
/// caret's line without its newline:
/// - a duplicate puts a newline and a copy of the line right after the line's text;
/// - an insertion after puts a newline and `text` right after the line's text, except that when
///   the line ends in a newline and `text` is not empty, `text` goes to the start of the next
///   line with no newline of its own; the caret lands just after `text` in every case;
/// - an insertion before puts `text` and a newline at the start of the line, and the caret just
///   after `text`.
pub proof fn law_line_insert_text(t: Seq<u8>, kind: LineInsert, text: Seq<u8>, r: Region)
    requires
        valid_utf8(t),
        t.len() <= usize::MAX,
        target_of(t, kind, text, r) is Ok,
    ensures
        ({
            let x = target_of(t, kind, text, r).unwrap();
            let after = splice(t, x.0 as int, x.0 as int, x.1.0);
            let p = clamp(t, r.b) as int;
            let lb = line_begin(t, p);
            let le = line_end(t, p);
            let fe = full_line_end(t, p);
            let n = t.len() as int;
            match kind {
                LineInsert::Duplicate => after == t.subrange(0, le) + seq![nl()] + t.subrange(lb, le)
                    + t.subrange(le, n),
                LineInsert::After => {
                    &&& after == t.subrange(0, le) + seq![nl()] + text + (if fe > le && text.len() > 0 {
                        t.subrange(fe, n)
                    } else {
                        t.subrange(le, n)
                    })
                    &&& x.1.1 == caret_at(le + 1 + text.len())
                },
                LineInsert::Before => {
                    &&& after == t.subrange(0, lb) + text + seq![nl()] + t.subrange(lb, n)
                    &&& x.1.1 == caret_at(lb + text.len())
                },
            }
        }),
{
    let p = clamp(t, r.b) as int;
    let lb = line_begin(t, p);
    let le = line_end(t, p);
    let fe = full_line_end(t, p);
    let n = t.len() as int;
    lemma_line_bounds(t, p);
    let x = target_of(t, kind, text, r).unwrap();
    let after = splice(t, x.0 as int, x.0 as int, x.1.0);
    if fe <= le {
        assert(le == n && fe == n);
    }
    match kind {
        LineInsert::Duplicate => {
            assert(x.0 as int == fe);
            if fe > le {
                assert(x.1.0 == t.subrange(lb, fe));
                assert(after =~= t.subrange(0, le) + seq![nl()] + t.subrange(lb, le) + t.subrange(le, n));
            } else {
                assert(x.1.0 == seq![nl()] + t.subrange(lb, le));
                assert(after =~= t.subrange(0, le) + seq![nl()] + t.subrange(lb, le) + t.subrange(le, n));
            }
        },
        LineInsert::After => {
            assert(x.0 as int == fe);
            if fe > le && text.len() > 0 {
                assert(x.1.0 == text);
                assert(after =~= t.subrange(0, le) + seq![nl()] + text + t.subrange(fe, n));
            } else if fe > le {
                assert(x.1.0 == seq![nl()]);
                assert(after =~= t.subrange(0, le) + seq![nl()] + text + t.subrange(le, n));
            } else if text.len() == 0 {
                assert(x.1.0 == seq![nl()]);
                assert(after =~= t.subrange(0, le) + seq![nl()] + text + t.subrange(le, n));
            } else {
                assert(x.1.0 == seq![nl()] + text);
                assert(after =~= t.subrange(0, le) + seq![nl()] + text + t.subrange(le, n));
            }
        },
        LineInsert::Before => {
            assert(after =~= t.subrange(0, lb) + text + seq![nl()] + t.subrange(lb, n));
        },
    }
}

/// The targets of all regions, in order; the first refusal stops the command.
pub open spec fn targets_of(t: Seq<u8>, kind: LineInsert, text: Seq<u8>, rs: Seq<Region>) -> Result<Seq<TargetModel>, BufferError>
    decreases rs.len(),
{
    if rs.len() == 0 {
        Ok(Seq::empty())
    } else {
        match targets_of(t, kind, text, rs.drop_last()) {
            Err(e) => Err(e),
            Ok(v) => match target_of(t, kind, text, rs.last()) {
                Err(e) => Err(e),
                Ok(x) => Ok(v.push(x)),
            },
        }
    }
}

/// The edits a line command makes, given its targets.
pub open spec fn line_edits(res: Result<Seq<TargetModel>, BufferError>) -> Result<Seq<EditModel>, BufferError> {
    match res {
        Err(e) => Err(e),
        Ok(tg) => Ok(target_edits(kept_targets(tg))),
    }
}

/// The regions a line command selects, given its targets.
pub open spec fn line_regions(res: Result<Seq<TargetModel>, BufferError>) -> Seq<Region> {
    match res {
        Err(e) => Seq::empty(),
        Ok(tg) => target_regions(kept_targets(tg)),
    }
}

proof fn lemma_targets_stopped(t: Seq<u8>, kind: LineInsert, text: Seq<u8>, rs: Seq<Region>, j: int)
    requires
        0 <= j <= rs.len(),
        targets_of(t, kind, text, rs.take(j)) is Err,
    ensures
        targets_of(t, kind, text, rs) == targets_of(t, kind, text, rs.take(j)),
    decreases rs.len() - j,
{
    if j < rs.len() {
        assert(rs.drop_last().take(j) == rs.take(j));
        lemma_targets_stopped(t, kind, text, rs.drop_last(), j);
    } else {
        assert(rs.take(j) == rs);
    }
}

fn target_exec(buffer: &Buffer, kind: LineInsert, text: &str, region: Region) -> (r: Result<LineTarget, BufferError>)
    requires
        buffer@.text.len() <= isize::MAX,
    ensures
        match r {
            Err(e) => target_of(buffer@.text, kind, text.spec_bytes(), region) == Err::<TargetModel, BufferError>(e),
            Ok(x) => target_of(buffer@.text, kind, text.spec_bytes(), region) == Ok::<TargetModel, BufferError>(target_model(x)),
        },
{
    let ghost t = buffer@.text;
    proof {
        buffer.lemma_valid();
    }
    let len = buffer.len();
    let point = if region.caret() <= len {
        region.caret()
    } else {
        len
    };
    let line = match buffer.line(point) {
        Err(e) => return Err(e),
        Ok(l) => l,
    };
    proof {
        crate::buffer::lemma_line_bounds(t, point as int);
        vstd::utf8::encode_utf8_decode_utf8(text@);
    }
    let full_line = match buffer.full_line(point) {
        Err(e) => return Err(e),
        Ok(l) => l,
    };
    let text_len = str_byte_len(text);
    match kind {
        LineInsert::Duplicate => {
            let full_text = match buffer.substr(full_line.begin()..full_line.end()) {
                Err(e) => return Err(e),
                Ok(s) => s,
            };
            let line_text = match buffer.substr(line.begin()..line.end()) {
                Err(e) => return Err(e),
                Ok(s) => s,
            };
            let insert_text = if full_line.end() > line.end() {
                full_text.to_owned()
            } else {
                let nlstr = newline_string();
                proof {
                    vstd::utf8::encode_utf8_decode_utf8(nlstr@);
                    vstd::utf8::encode_utf8_decode_utf8(line_text@);
                }
                concat_strs(nlstr.as_str(), line_text)
            };
            let ins_len = str_byte_len(insert_text.as_str());
            proof {
                vstd::utf8::encode_utf8_decode_utf8(insert_text@);
            }
            let at = full_line.end();
            Ok((at, (insert_text, Region::new(at, at + ins_len))))
        },
        LineInsert::After => {
            let at = full_line.end();
            let has_newline = full_line.end() > line.end();
            let nlstr = newline_string();
            proof {
                vstd::utf8::encode_utf8_decode_utf8(nlstr@);
            }
            if has_newline {
                if text_len == 0 {
                    Ok((at, (nlstr, Region::new(at, at))))
                } else {
                    Ok((at, (text.to_owned(), Region::new(at + text_len, at + text_len))))
                }
            } else if text_len == 0 {
                Ok((at, (nlstr, Region::new(at + 1, at + 1))))
            } else {
                let s = concat_strs(nlstr.as_str(), text);
                Ok((at, (s, Region::new(at + 1 + text_len, at + 1 + text_len))))
            }
        },
        LineInsert::Before => {
            let at = line.begin();
            let nlstr = newline_string();
            proof {
                vstd::utf8::encode_utf8_decode_utf8(nlstr@);
            }
            let insert_text = if text_len == 0 {
                nlstr
            } else {
                concat_strs(text, nlstr.as_str())
            };
            Ok((at, (insert_text, Region::new(at + text_len, at + text_len))))
        },
    }
}

/// The outcome of a line command.
pub open spec fn line_command_outcome(old: &AppState, kind: LineInsert, text: Seq<u8>, r: Result<usize, BufferError>, new: &AppState) -> bool {
    if old.active_buffer_index() < 0 {
        r == Err::<usize, BufferError>(BufferError::NoActiveView) && new.model() == old.model()
    } else {
        let tg = targets_of(
            old.model().buffers[old.active_buffer_index()].text,
            kind,
            text,
            old.model().views[old.active_view_index()].selections,
        );
        edit_command_outcome(old, line_edits(tg), false, |recs: Seq<RecordModel>| line_regions(tg), false, r, new)
    }
}

impl AppState {
    fn insert_lines(&mut self, kind: LineInsert, text: &str) -> (r: Result<usize, BufferError>)
        requires
            old(self).wf(),
        ensures
            line_command_outcome(old(self), kind, text.spec_bytes(), r, final(self)),
            final(self).wf(),
    {
        proof {
            self.lemma_active();
            self.lemma_wf();
        }
        let view_id = match self.active_view_id() {
            Some(id) => id,
            None => return Err(BufferError::NoActiveView),
        };
        let (buffer_id, targets) = {
            let view = match self.view(view_id) {
                Some(v) => v,
                None => return Err(BufferError::NoActiveView),
            };
            let buffer_id = view.buffer_id();
            let buffer = match self.buffer(buffer_id) {
                Some(b) => b,
                None => return Err(BufferError::NoActiveView),
            };
            let ghost t = buffer@.text;
            let ghost txt = text.spec_bytes();
            let sels = view.sel().as_slice();
            let ghost rs = sels@;
            let mut targets: Vec<LineTarget> = Vec::new();
            let mut i: usize = 0;
            proof {
                assert(rs.take(0) == Seq::<Region>::empty());
                assert(target_models(targets@) == Seq::<TargetModel>::empty());
            }
            while i < sels.len()
                invariant
                    i <= rs.len(),
                    rs == sels@,
                    t == buffer@.text,
                    txt == text.spec_bytes(),
                    t.len() <= isize::MAX,
                    self.wf(),
                    self.model() == old(self).model(),
                    0 <= old(self).active_buffer_index() < old(self).model().buffers.len(),
                    t == old(self).model().buffers[old(self).active_buffer_index()].text,
                    rs == old(self).model().views[old(self).active_view_index()].selections,
                    targets_of(t, kind, txt, rs.take(i as int)) == Ok::<Seq<TargetModel>, BufferError>(target_models(targets@)),
                decreases rs.len() - i,
            {
                proof {
                    assert(rs.take(i + 1).drop_last() == rs.take(i as int));
                    assert(rs.take(i + 1).last() == rs[i as int]);
                }
                match target_exec(buffer, kind, text, sels[i]) {
                    Err(e) => {
                        proof {
                            lemma_targets_stopped(t, kind, txt, rs, i + 1);
                        }
                        return Err(e);
                    },
                    Ok(x) => {
                        let ghost before = targets@;
                        targets.push(x);
                        proof {
                            assert(target_models(targets@) == target_models(before).push(target_model(x)));
                        }
                    },
                }
                i = i + 1;
            }
            proof {
                assert(rs.take(rs.len() as int) == rs);
            }
            (buffer_id, targets)
        };
        let ghost tg = target_models(targets@);
        let sorted = sort_entries_by_pos(targets, false);
        let kept = dedup_entries_by_pos(sorted);
        proof {
            let f = |p: (String, Region)| (encode_utf8(p.0@), p.1);
            lemma_sort_by_pos_map(targets@, f, false);
            lemma_dedup_by_pos_map(sort_by_pos(targets@, false), f);
            assert(target_models(kept@) == kept_targets(tg));
        }
        let ghost km = target_models(kept@);
        let mut edits: Vec<(Range<usize>, String)> = Vec::new();
        let mut regions: Vec<Region> = Vec::new();
        let mut i: usize = kept.len();
        proof {
            assert(km.take(km.len() as int) == km);
            assert(Seq::<EditModel>::empty() + target_edits(km) == target_edits(km));
        }
        while i > 0
            invariant
                i <= km.len(),
                km == target_models(kept@),
                target_edits(km) == edit_models(edits@) + target_edits(km.take(i as int)),
            decreases i,
        {
            i = i - 1;
            let at = kept[i].0;
            let ghost before = edits@;
            edits.push((at..at, kept[i].1.0.clone()));
            proof {
                assert(km.take(i + 1).drop_last() == km.take(i as int));
                assert(km.take(i + 1).last() == km[i as int]);
                let e = EditModel { start: at, end: at, text: km[i as int].1.0 };
                assert(edit_models(edits@) == edit_models(before).push(e));
                assert(edit_models(before) + (seq![e] + target_edits(km.take(i as int)))
                    == edit_models(edits@) + target_edits(km.take(i as int)));
            }
        }
        let mut j: usize = 0;
        while j < kept.len()
            invariant
                j <= km.len(),
                km == target_models(kept@),
                regions@ == target_regions(km.take(j as int)),
            decreases km.len() - j,
        {
            regions.push(kept[j].1.1);
            proof {
                assert(km.take(j + 1) == km.take(j as int).push(km[j as int]));
                assert(regions@ == target_regions(km.take(j + 1)));
            }
            j = j + 1;
        }
        proof {
            assert(km.take(0) == Seq::<TargetModel>::empty());
            assert(edit_models(edits@) + Seq::<EditModel>::empty() == edit_models(edits@));
            assert(km.take(km.len() as int) == km);
        }
        let ghost before = self.model();
        match self.apply_edits(buffer_id, edits) {
            Ok(_t) => {},
            Err(e) => return Err(e),
        }
        proof {
            crate::state::lemma_find_view(before.views, before.active_view.unwrap());
            assert(self.active_view_index() == old(self).active_view_index());
        }
        let ghost v = regions@;
        let ghost mid = self.model();
        match self.set_active_selections(regions) {
            Err(e) => return Err(e),
            Ok(()) => {},
        }
        proof {
            crate::commands::lemma_selected(self, mid, old(self).active_view_index(), normalize_regions(v));
        }
        match self.active_view() {
            Some(view) => Ok(view.selection_count()),
            None => Ok(0),
        }
    }

    /// Inserts, after the line of every caret, a copy of that line, and selects the copies.
    pub fn duplicate_current_lines(&mut self) -> (r: Result<usize, BufferError>)
        requires
            old(self).wf(),
        ensures
            line_command_outcome(old(self), LineInsert::Duplicate, Seq::empty(), r, final(self)),
            final(self).wf(),
    {
        let empty = String::new();
        let e = empty.as_str();
        proof {
            assert(e@ == Seq::<char>::empty());
            assert(e.spec_bytes() == Seq::<u8>::empty());
        }
        self.insert_lines(LineInsert::Duplicate, e)
    }

    /// Inserts a line holding `text` after the line of every caret.
    pub fn insert_line_after(&mut self, text: &str) -> (r: Result<usize, BufferError>)
        requires
            old(self).wf(),
        ensures
            line_command_outcome(old(self), LineInsert::After, text.spec_bytes(), r, final(self)),
            final(self).wf(),
    {
        self.insert_lines(LineInsert::After, text)
    }

    /// Inserts a line holding `text` before the line of every caret.
    pub fn insert_line_before(&mut self, text: &str) -> (r: Result<usize, BufferError>)
        requires
            old(self).wf(),
        ensures
            line_command_outcome(old(self), LineInsert::Before, text.spec_bytes(), r, final(self)),
            final(self).wf(),
    {
        self.insert_lines(LineInsert::Before, text)
    }
}

} // verus!
