//! Moving the selected lines up and down past their neighbours.
use std::ops::Range;

use vstd::prelude::*;
use vstd::string::StringSliceAdditionalSpecFns;
use vstd::utf8::{encode_utf8, valid_utf8};

use crate::buffer::{lemma_line_bounds, Buffer, BufferError};
use crate::commands::{bad_point, clamp, edit_command_outcome, is_point, prefixed};
use crate::history::RecordModel;
use crate::line_commands::{lemma_sort_by_pos_map, map_payload, sort_by_pos, sort_entries_by_pos};
use crate::selection::{lemma_sort_regions, normalize_regions, sort_by_position, sort_regions, Region};
use crate::state::{edit_models, AppState, EditModel};
use crate::text::{concat_strs, full_line_end, lemma_ascii_boundaries, line_begin, line_end, nl, valid_range};
use crate::trusted::str_byte_len;

verus! {

/// The line around `p`, its newline included.
pub open spec fn full_line_at(t: Seq<u8>, p: int) -> Region {
    Region { a: line_begin(t, p) as usize, b: full_line_end(t, p) as usize }
}

/// The full lines that the span from `p` to `hi` runs through, starting with the line of `p`.
pub open spec fn lines_from(t: Seq<u8>, p: int, hi: int) -> Result<Seq<Region>, BufferError>
    decreases hi - p,
{
    if p >= hi {
        Ok(Seq::empty())
    } else if !valid_range(t, p, p) {
        Err(bad_point(t, p as usize))
    } else {
        let fe = full_line_end(t, p);
        if fe <= p || fe >= hi {
            Ok(seq![full_line_at(t, p)])
        } else {
            prefixed(seq![full_line_at(t, p)], lines_from(t, fe, hi))
        }
    }
}

/// The full lines a region touches: the caret's line for an empty region.
pub open spec fn region_lines(t: Seq<u8>, r: Region) -> Result<Seq<Region>, BufferError> {
    if r.a == r.b {
        let p = clamp(t, r.b);
        if !is_point(t, p) {
            Err(bad_point(t, p))
        } else {
            Ok(seq![full_line_at(t, p as int)])
        }
    } else {
        lines_from(t, r.lo() as int, r.hi() as int)
    }
}

/// The lines of every region in order; the first refusal stops the walk.
pub open spec fn all_lines(t: Seq<u8>, rs: Seq<Region>) -> Result<Seq<Region>, BufferError>
    decreases rs.len(),
{
    if rs.len() == 0 {
        Ok(Seq::empty())
    } else {
        match all_lines(t, rs.drop_last()) {
            Err(e) => Err(e),
            Ok(v) => prefixed(v, region_lines(t, rs.last())),
        }
    }
}

/// `s` with every region dropped that has the same ends as the last one kept before it.
pub open spec fn dedup_regions(s: Seq<Region>) -> Seq<Region>
    decreases s.len(),
{
    if s.len() == 0 {
        s
    } else {
        let d = dedup_regions(s.drop_last());
        if d.len() > 0 && d.last().lo() == s.last().lo() && d.last().hi() == s.last().hi() {
            d
        } else {
            d.push(s.last())
        }
    }
}

/// Joining, from left to right, every line that starts where the block before it ends.
pub open spec fn merge_lines(s: Seq<Region>) -> Seq<Region>
    decreases s.len(),
{
    if s.len() == 0 {
        s
    } else {
        let m = merge_lines(s.drop_last());
        let r = s.last();
        if m.len() > 0 && m.last().hi() == r.lo() {
            m.drop_last().push(Region { a: m.last().lo(), b: r.hi() })
        } else {
            m.push(r)
        }
    }
}

/// The blocks of whole lines that the regions `rs` touch, in order, touching blocks joined.
pub open spec fn line_blocks(t: Seq<u8>, rs: Seq<Region>) -> Result<Seq<Region>, BufferError> {
    match all_lines(t, rs) {
        Err(e) => Err(e),
        Ok(ls) => Ok(merge_lines(dedup_regions(sort_regions(ls)))),
    }
}

/// `x` is a forward run of whole lines of `t`.
pub open spec fn line_ok(t: Seq<u8>, x: Region) -> bool {
    &&& x.a <= x.b
    &&& valid_range(t, x.a as int, x.b as int)
    &&& (x.a == 0 || t[x.a - 1] == nl())
    &&& (x.b == t.len() || (x.b > 0 && t[x.b - 1] == nl()))
}

pub open spec fn lines_ok(t: Seq<u8>, s: Seq<Region>) -> bool {
    forall|i: int| 0 <= i < s.len() ==> line_ok(t, #[trigger] s[i])
}

proof fn lemma_full_line_ok(t: Seq<u8>, p: int)
    requires
        valid_utf8(t),
        0 <= p <= t.len(),
        t.len() <= usize::MAX,
    ensures
        line_ok(t, full_line_at(t, p)),
{
    lemma_line_bounds(t, p);
    let e = line_end(t, p);
    if e < t.len() {
        assert(full_line_end(t, p) == e + 1);
    }
}

proof fn lemma_dedup_regions(s: Seq<Region>)
    ensures
        forall|i: int| 0 <= i < dedup_regions(s).len() ==> s.contains(#[trigger] dedup_regions(s)[i]),
    decreases s.len(),
{
    if s.len() > 0 {
        lemma_dedup_regions(s.drop_last());
        let d = dedup_regions(s.drop_last());
        assert forall|i: int| 0 <= i < dedup_regions(s).len() implies s.contains(#[trigger] dedup_regions(s)[i]) by {
            if i < d.len() {
                let j = choose|j: int| 0 <= j < s.drop_last().len() && s.drop_last()[j] == d[i];
                assert(s[j] == d[i]);
            } else {
                assert(s[s.len() - 1] == s.last());
            }
        }
    }
}

proof fn lemma_merge_lines(t: Seq<u8>, s: Seq<Region>)
    requires
        lines_ok(t, s),
    ensures
        lines_ok(t, merge_lines(s)),
    decreases s.len(),
{
    if s.len() > 0 {
        assert(lines_ok(t, s.drop_last())) by {
            assert forall|i: int| 0 <= i < s.drop_last().len() implies line_ok(t, #[trigger] s.drop_last()[i]) by {
                assert(s.drop_last()[i] == s[i]);
            }
        }
        lemma_merge_lines(t, s.drop_last());
        let m = merge_lines(s.drop_last());
        assert(line_ok(t, s[s.len() - 1]));
        if m.len() > 0 {
            assert(line_ok(t, m[m.len() - 1]));
        }
    }
}

/// Lines in the order and state the block walk keeps them: every region a run of whole lines.
proof fn lemma_lines_ok_contains(t: Seq<u8>, s: Seq<Region>, u: Seq<Region>)
    requires
        lines_ok(t, s),
        forall|i: int| 0 <= i < u.len() ==> s.contains(#[trigger] u[i]),
    ensures
        lines_ok(t, u),
{
    assert forall|i: int| 0 <= i < u.len() implies line_ok(t, #[trigger] u[i]) by {
        assert(s.contains(u[i]));
        let j = choose|j: int| 0 <= j < s.len() && s[j] == u[i];
        assert(line_ok(t, s[j]));
    }
}

proof fn lemma_all_lines_stopped(t: Seq<u8>, rs: Seq<Region>, j: int)
    requires
        0 <= j <= rs.len(),
        all_lines(t, rs.take(j)) is Err,
    ensures
        all_lines(t, rs) == all_lines(t, rs.take(j)),
    decreases rs.len() - j,
{
    if j < rs.len() {
        assert(rs.drop_last().take(j) == rs.take(j));
        lemma_all_lines_stopped(t, rs.drop_last(), j);
    } else {
        assert(rs.take(j) == rs);
    }
}

fn dedup_lines(v: &Vec<Region>) -> (out: Vec<Region>)
    ensures
        out@ == dedup_regions(v@),
{
    let mut out: Vec<Region> = Vec::new();
    let mut k: usize = 0;
    while k < v.len()
        invariant
            k <= v.len(),
            out@ == dedup_regions(v@.take(k as int)),
        decreases v.len() - k,
    {
        let x = v[k];
        proof {
            assert(v@.take(k + 1).drop_last() == v@.take(k as int));
            assert(v@.take(k + 1).last() == x);
        }
        let n = out.len();
        if n == 0 || out[n - 1].begin() != x.begin() || out[n - 1].end() != x.end() {
            out.push(x);
        }
        k = k + 1;
    }
    proof {
        assert(v@.take(v.len() as int) == v@);
    }
    out
}

fn merge_touching_lines(v: &Vec<Region>) -> (out: Vec<Region>)
    ensures
        out@ == merge_lines(v@),
{
    let mut out: Vec<Region> = Vec::new();
    let mut k: usize = 0;
    while k < v.len()
        invariant
            k <= v.len(),
            out@ == merge_lines(v@.take(k as int)),
        decreases v.len() - k,
    {
        let x = v[k];
        proof {
            assert(v@.take(k + 1).drop_last() == v@.take(k as int));
            assert(v@.take(k + 1).last() == x);
        }
        let n = out.len();
        if n > 0 && out[n - 1].end() == x.begin() {
            let joined = Region::new(out[n - 1].begin(), x.end());
            out.set(n - 1, joined);
            proof {
                let m = merge_lines(v@.take(k as int));
                assert(out@ == m.drop_last().push(joined));
            }
        } else {
            out.push(x);
        }
        k = k + 1;
    }
    proof {
        assert(v@.take(v.len() as int) == v@);
    }
    out
}

/// The blocks of whole lines that the selections touch.
fn selected_line_blocks(buffer: &Buffer, selections: &[Region]) -> (r: Result<Vec<Region>, BufferError>)
    ensures
        match r {
            Err(e) => line_blocks(buffer@.text, selections@) == Err::<Seq<Region>, BufferError>(e),
            Ok(v) => line_blocks(buffer@.text, selections@) == Ok::<Seq<Region>, BufferError>(v@)
                && lines_ok(buffer@.text, v@),
        },
{
    let ghost t = buffer@.text;
    let text_len = buffer.len();
    proof {
        buffer.lemma_valid();
        assert(selections@.take(0) == Seq::<Region>::empty());
    }
    let mut lines: Vec<Region> = Vec::new();
    let mut i: usize = 0;
    while i < selections.len()
        invariant
            i <= selections@.len(),
            t == buffer@.text,
            valid_utf8(t),
            t.len() == text_len,
            all_lines(t, selections@.take(i as int)) == Ok::<Seq<Region>, BufferError>(lines@),
            lines_ok(t, lines@),
        decreases selections@.len() - i,
    {
        let region = selections[i];
        proof {
            assert(selections@.take(i + 1).drop_last() == selections@.take(i as int));
            assert(selections@.take(i + 1).last() == region);
        }
        if region.empty() {
            let len = buffer.len();
            let p = if region.caret() <= len {
                region.caret()
            } else {
                len
            };
            let fl = match buffer.full_line(p) {
                Err(e) => {
                    proof {
                        lemma_all_lines_stopped(t, selections@, i + 1);
                    }
                    return Err(e);
                },
                Ok(l) => l,
            };
            proof {
                lemma_full_line_ok(t, p as int);
            }
            let ghost base = lines@;
            lines.push(fl);
            proof {
                assert(base + seq![fl] == lines@);
                assert(lines@[lines@.len() - 1] == fl);
            }
        } else {
            let ghost base = lines@;
            let hi = region.end();
            let mut point = region.begin();
            let ghost lo = point as int;
            proof {
                assert(base + Seq::<Region>::empty() == base);
                assert(lines@.skip(base.len() as int) == Seq::<Region>::empty());
            }
            loop
                invariant_except_break
                    lo <= point <= hi,
                    lines_from(t, lo, hi as int) == prefixed(lines@.skip(base.len() as int), lines_from(t, point as int, hi as int)),
                invariant
                    lines@.take(base.len() as int) == base,
                    base.len() <= lines@.len(),
                    lines_ok(t, lines@),
                    i < selections@.len(),
                    t == buffer@.text,
                    valid_utf8(t),
                    t.len() == text_len,
                    selections@.take(i + 1).drop_last() == selections@.take(i as int),
                    selections@.take(i + 1).last() == region,
                    all_lines(t, selections@.take(i as int)) == Ok::<Seq<Region>, BufferError>(base),
                    region.a != region.b,
                    lo == region.lo(),
                    hi == region.hi(),
                ensures
                    lines_from(t, lo, hi as int) == Ok::<Seq<Region>, BufferError>(lines@.skip(base.len() as int)),
                decreases hi - point,
            {
                if point >= hi {
                    break;
                }
                let fl = match buffer.full_line(point) {
                    Err(e) => {
                        proof {
                            assert(all_lines(t, selections@.take(i + 1)) is Err);
                            lemma_all_lines_stopped(t, selections@, i + 1);
                        }
                        return Err(e);
                    },
                    Ok(l) => l,
                };
                proof {
                    lemma_full_line_ok(t, point as int);
                    lemma_line_bounds(t, point as int);
                }
                let ghost before = lines@;
                lines.push(fl);
                proof {
                    assert(lines@.take(base.len() as int) == base);
                    assert(lines@.skip(base.len() as int) == before.skip(base.len() as int).push(full_line_at(t, point as int)));
                    assert(lines@[lines@.len() - 1] == fl);
                }
                if fl.end() <= point || fl.end() >= hi {
                    proof {
                        assert(before.skip(base.len() as int) + seq![full_line_at(t, point as int)]
                            == lines@.skip(base.len() as int));
                    }
                    break;
                }
                proof {
                    assert(before.skip(base.len() as int) + (seq![full_line_at(t, point as int)] + lines_from(t, full_line_end(t, point as int), hi as int)->Ok_0)
                        == lines@.skip(base.len() as int) + lines_from(t, full_line_end(t, point as int), hi as int)->Ok_0);
                }
                point = fl.end();
            }
            proof {
                assert(lines@ == base + lines@.skip(base.len() as int));
                assert(region_lines(t, region) == lines_from(t, lo, hi as int));
            }
        }
        i = i + 1;
    }
    proof {
        assert(selections@.take(selections@.len() as int) == selections@);
    }
    let sorted = sort_by_position(&lines);
    let unique = dedup_lines(&sorted);
    let blocks = merge_touching_lines(&unique);
    proof {
        lemma_sort_regions(lines@);
        assert forall|k: int| 0 <= k < sorted@.len() implies lines@.contains(#[trigger] sorted@[k]) by {
            assert(sorted@.contains(sorted@[k]));
        }
        lemma_lines_ok_contains(t, lines@, sorted@);
        lemma_dedup_regions(sorted@);
        lemma_lines_ok_contains(t, sorted@, unique@);
        lemma_merge_lines(t, unique@);
    }
    Ok(blocks)
}

/// An edit as an entry keyed by its start: `(start, (end, text))`.
pub type EditEntry = (usize, (usize, String));

pub open spec fn entry_models(s: Seq<EditEntry>) -> Seq<(usize, (usize, Seq<u8>))> {
    map_payload(s, |p: (usize, String)| (p.0, encode_utf8(p.1@)))
}

/// The edits that entries stand for.
pub open spec fn entry_edits(s: Seq<(usize, (usize, Seq<u8>))>) -> Seq<EditModel> {
    s.map_values(|x: (usize, (usize, Seq<u8>))| EditModel { start: x.0, end: x.1.0, text: x.1.1 })
}

/// Moving block `b` up: the line before it and the block change places.
pub open spec fn up_entry(t: Seq<u8>, b: Region) -> (usize, (usize, Seq<u8>)) {
    let pl = full_line_at(t, b.lo() - 1);
    (pl.a, (b.hi(), t.subrange(b.lo() as int, b.hi() as int) + t.subrange(pl.a as int, pl.b as int)))
}

/// Where block `b` is selected after moving up; a block at the start of the text stays.
pub open spec fn up_region(t: Seq<u8>, b: Region) -> Region {
    if b.lo() == 0 {
        b
    } else {
        let pl = full_line_at(t, b.lo() - 1);
        Region { a: pl.a, b: (pl.a + (b.hi() - b.lo())) as usize }
    }
}

/// The moves of all blocks that do not start the text, in block order.
pub open spec fn up_entries(t: Seq<u8>, bs: Seq<Region>) -> Seq<(usize, (usize, Seq<u8>))>
    decreases bs.len(),
{
    if bs.len() == 0 {
        Seq::empty()
    } else if bs.last().lo() == 0 {
        up_entries(t, bs.drop_last())
    } else {
        up_entries(t, bs.drop_last()).push(up_entry(t, bs.last()))
    }
}

pub open spec fn up_regions(t: Seq<u8>, bs: Seq<Region>) -> Seq<Region> {
    bs.map_values(|b: Region| up_region(t, b))
}

/// Moving block `b` down: the block and the line after it change places.
pub open spec fn down_entry(t: Seq<u8>, b: Region) -> (usize, (usize, Seq<u8>)) {
    let nx = full_line_at(t, b.hi() as int);
    (b.lo(), (nx.b, t.subrange(nx.a as int, nx.b as int) + t.subrange(b.lo() as int, b.hi() as int)))
}

/// Where block `b` is selected after moving down; a block at the end of the text stays.
pub open spec fn down_region(t: Seq<u8>, b: Region) -> Region {
    if b.hi() >= t.len() {
        b
    } else {
        let nx = full_line_at(t, b.hi() as int);
        let shift = nx.b - nx.a;
        Region { a: (b.lo() + shift) as usize, b: (b.lo() + shift + (b.hi() - b.lo())) as usize }
    }
}

/// The moves of all blocks that do not end the text, from the last block to the first.
pub open spec fn down_entries(t: Seq<u8>, bs: Seq<Region>) -> Seq<(usize, (usize, Seq<u8>))>
    decreases bs.len(),
{
    if bs.len() == 0 {
        Seq::empty()
    } else if bs.last().hi() >= t.len() {
        down_entries(t, bs.drop_last())
    } else {
        seq![down_entry(t, bs.last())] + down_entries(t, bs.drop_last())
    }
}

/// The regions after moving down, from the last block to the first.
pub open spec fn down_regions(t: Seq<u8>, bs: Seq<Region>) -> Seq<Region>
    decreases bs.len(),
{
    if bs.len() == 0 {
        Seq::empty()
    } else {
        seq![down_region(t, bs.last())] + down_regions(t, bs.drop_last())
    }
}

/// The edits of a move, made from the last start to the first.
pub open spec fn move_edits(t: Seq<u8>, up: bool, bs: Seq<Region>) -> Seq<EditModel> {
    entry_edits(sort_by_pos(if up { up_entries(t, bs) } else { down_entries(t, bs) }, true))
}

/// The regions selected after a move.
pub open spec fn move_regions(t: Seq<u8>, up: bool, bs: Seq<Region>) -> Seq<Region> {
    if up {
        up_regions(t, bs)
    } else {
        sort_regions(down_regions(t, bs))
    }
}

/// The outcome of moving the selected lines up (`up`) or down.
pub open spec fn move_outcome(old: &AppState, up: bool, r: Result<usize, BufferError>, new: &AppState) -> bool {
    if old.active_buffer_index() < 0 {
        r == Err::<usize, BufferError>(BufferError::NoActiveView) && new.model() == old.model()
    } else {
        let t = old.model().buffers[old.active_buffer_index()].text;
        let blocks = line_blocks(t, old.model().views[old.active_view_index()].selections);
        let res = match blocks {
            Err(e) => Err(e),
            Ok(bs) => Ok(move_edits(t, up, bs)),
        };
        edit_command_outcome(
            old,
            res,
            true,
            |recs: Seq<RecordModel>| move_regions(t, up, blocks->Ok_0),
            false,
            r,
            new,
        )
    }
}

/// The move of one block, with the region it leaves selected.
fn move_block(buffer: &Buffer, up: bool, block: Region) -> (r: (Option<EditEntry>, Region))
    requires
        line_ok(buffer@.text, block),
        buffer@.text.len() <= isize::MAX,
    ensures
        up ==> r.1 == up_region(buffer@.text, block),
        up ==> (r.0 is None <==> block.lo() == 0),
        up ==> (r.0 matches Some(x) ==> entry_models(seq![x]) == seq![up_entry(buffer@.text, block)]),
        !up ==> r.1 == down_region(buffer@.text, block),
        !up ==> (r.0 is None <==> block.hi() >= buffer@.text.len()),
        !up ==> (r.0 matches Some(x) ==> entry_models(seq![x]) == seq![down_entry(buffer@.text, block)]),
{
    let ghost t = buffer@.text;
    proof {
        buffer.lemma_valid();
    }
    let len = buffer.len();
    if up {
        if block.begin() == 0 {
            return (None, block);
        }
        proof {
            lemma_ascii_boundaries(t, block.a - 1);
            lemma_line_bounds(t, block.a - 1);
        }
        let prev = match buffer.full_line(block.begin() - 1) {
            Err(_) => return (None, block),
            Ok(l) => l,
        };
        let prev_text = match buffer.substr(prev.begin()..prev.end()) {
            Err(_) => return (None, block),
            Ok(s) => s,
        };
        let block_text = match buffer.substr(block.begin()..block.end()) {
            Err(_) => return (None, block),
            Ok(s) => s,
        };
        let text = concat_strs(block_text, prev_text);
        let block_len = str_byte_len(block_text);
        let entry: EditEntry = (prev.begin(), (block.end(), text));
        proof {
            assert(entry_models(seq![entry]) == seq![up_entry(t, block)]);
        }
        (Some(entry), Region::new(prev.begin(), prev.begin() + block_len))
    } else {
        if block.end() >= len {
            return (None, block);
        }
        proof {
            lemma_line_bounds(t, block.b as int);
            assert(line_begin(t, block.b as int) == block.b);
        }
        let next = match buffer.full_line(block.end()) {
            Err(_) => return (None, block),
            Ok(l) => l,
        };
        let next_text = match buffer.substr(next.begin()..next.end()) {
            Err(_) => return (None, block),
            Ok(s) => s,
        };
        let block_text = match buffer.substr(block.begin()..block.end()) {
            Err(_) => return (None, block),
            Ok(s) => s,
        };
        let text = concat_strs(next_text, block_text);
        let next_len = str_byte_len(next_text);
        let block_len = str_byte_len(block_text);
        let entry: EditEntry = (block.begin(), (next.end(), text));
        proof {
            assert(entry_models(seq![entry]) == seq![down_entry(t, block)]);
        }
        (Some(entry), Region::new(block.begin() + next_len, block.begin() + next_len + block_len))
    }
}

impl AppState {
    fn move_lines(&mut self, up: bool) -> (r: Result<usize, BufferError>)
        requires
            old(self).wf(),
        ensures
            move_outcome(old(self), up, r, final(self)),
            final(self).wf(),
    {
        proof {
            self.lemma_active();
            self.lemma_wf();
        }
        let view_id = match self.active_view_id() {
            Some(id) => id,
            None => return Err(BufferError::NoActiveView),
        };
        let ghost t = old(self).model().buffers[old(self).active_buffer_index()].text;
        let ghost rs = old(self).model().views[old(self).active_view_index()].selections;
        let (buffer_id, entries, regions, bs) = {
            let view = match self.view(view_id) {
                Some(v) => v,
                None => return Err(BufferError::NoActiveView),
            };
            let buffer_id = view.buffer_id();
            let buffer = match self.buffer(buffer_id) {
                Some(b) => b,
                None => return Err(BufferError::NoActiveView),
            };
            let _len = buffer.len();
            let blocks = match selected_line_blocks(buffer, view.sel().as_slice()) {
                Err(e) => return Err(e),
                Ok(b) => b,
            };
            let ghost bs = blocks@;
            let mut entries: Vec<EditEntry> = Vec::new();
            let mut regions: Vec<Region> = Vec::new();
            let mut i: usize = 0;
            if up {
                proof {
                    assert(bs.take(0) == Seq::<Region>::empty());
                    assert(entry_models(entries@) == Seq::<(usize, (usize, Seq<u8>))>::empty());
                }
                while i < blocks.len()
                    invariant
                        up,
                        i <= bs.len(),
                        bs == blocks@,
                        t == buffer@.text,
                        t.len() <= isize::MAX,
                        lines_ok(t, bs),
                        entry_models(entries@) == up_entries(t, bs.take(i as int)),
                        regions@ == up_regions(t, bs.take(i as int)),
                    decreases bs.len() - i,
                {
                    let block = blocks[i];
                    proof {
                        assert(line_ok(t, bs[i as int]));
                        assert(bs.take(i + 1).drop_last() == bs.take(i as int));
                        assert(bs.take(i + 1).last() == block);
                        assert(up_regions(t, bs.take(i + 1)) == up_regions(t, bs.take(i as int)).push(up_region(t, block)));
                    }
                    let (entry, region) = move_block(buffer, true, block);
                    regions.push(region);
                    match entry {
                        Some(x) => {
                            let ghost before = entries@;
                            entries.push(x);
                            proof {
                                assert(entries@ == before + seq![x]);
                                assert(entry_models(entries@) == entry_models(before) + entry_models(seq![x]));
                            }
                        },
                        None => {},
                    }
                    i = i + 1;
                }
                proof {
                    assert(bs.take(bs.len() as int) == bs);
                }
            } else {
                i = blocks.len();
                proof {
                    assert(bs.take(bs.len() as int) == bs);
                    assert(entry_models(entries@) + down_entries(t, bs) == down_entries(t, bs));
                    assert(regions@ + down_regions(t, bs) == down_regions(t, bs));
                }
                while i > 0
                    invariant
                        !up,
                        i <= bs.len(),
                        bs == blocks@,
                        t == buffer@.text,
                        t.len() <= isize::MAX,
                        lines_ok(t, bs),
                        down_entries(t, bs) == entry_models(entries@) + down_entries(t, bs.take(i as int)),
                        down_regions(t, bs) == regions@ + down_regions(t, bs.take(i as int)),
                    decreases i,
                {
                    i = i - 1;
                    let block = blocks[i];
                    proof {
                        assert(line_ok(t, bs[i as int]));
                        assert(bs.take(i + 1).drop_last() == bs.take(i as int));
                        assert(bs.take(i + 1).last() == block);
                    }
                    let (entry, region) = move_block(buffer, false, block);
                    let ghost rbefore = regions@;
                    regions.push(region);
                    proof {
                        assert(rbefore + (seq![region] + down_regions(t, bs.take(i as int)))
                            == regions@ + down_regions(t, bs.take(i as int)));
                    }
                    match entry {
                        Some(x) => {
                            let ghost before = entries@;
                            entries.push(x);
                            proof {
                                assert(entries@ == before + seq![x]);
                                assert(entry_models(entries@) == entry_models(before) + entry_models(seq![x]));
                                assert(entry_models(before) + (entry_models(seq![x]) + down_entries(t, bs.take(i as int)))
                                    == entry_models(entries@) + down_entries(t, bs.take(i as int)));
                            }
                        },
                        None => {},
                    }
                }
                proof {
                    assert(bs.take(0) == Seq::<Region>::empty());
                    assert(entry_models(entries@) + Seq::<(usize, (usize, Seq<u8>))>::empty() == entry_models(entries@));
                    assert(regions@ + Seq::<Region>::empty() == regions@);
                }
            }
            (buffer_id, entries, regions, Ghost(bs))
        };
        let ghost bs = bs@;
        proof {
            assert(line_blocks(t, rs) == Ok::<Seq<Region>, BufferError>(bs));
        }
        if entries.len() == 0 {
            return Ok(0);
        }
        let ghost em = entry_models(entries@);
        let sorted = sort_entries_by_pos(entries, true);
        proof {
            lemma_sort_by_pos_map(entries@, |p: (usize, String)| (p.0, encode_utf8(p.1@)), true);
        }
        let ghost sm = entry_models(sorted@);
        let mut edits: Vec<(Range<usize>, String)> = Vec::new();
        let mut k: usize = 0;
        while k < sorted.len()
            invariant
                k <= sorted@.len(),
                sm == entry_models(sorted@),
                edit_models(edits@) == entry_edits(sm.take(k as int)),
            decreases sorted@.len() - k,
        {
            let start = sorted[k].0;
            let end = sorted[k].1.0;
            let text = sorted[k].1.1.clone();
            let ghost before = edits@;
            edits.push((start..end, text));
            proof {
                let e = EditModel { start: sm[k as int].0, end: sm[k as int].1.0, text: sm[k as int].1.1 };
                assert(text@ == sorted@[k as int].1.1@);
                assert(edit_models(edits@) == edit_models(before).push(e));
                assert(sm.take(k + 1) == sm.take(k as int).push(sm[k as int]));
                assert(entry_edits(sm.take(k + 1)) == entry_edits(sm.take(k as int)).push(e));
                assert(edit_models(edits@) == entry_edits(sm.take(k + 1)));
            }
            k = k + 1;
        }
        proof {
            assert(sm.take(sm.len() as int) == sm);
        }
        let ghost before = self.model();
        match self.apply_edits(buffer_id, edits) {
            Ok(_t) => {},
            Err(e) => return Err(e),
        }
        proof {
            crate::state::lemma_find_view(before.views, before.active_view.unwrap());
            assert(self.active_view_index() == old(self).active_view_index());
        }
        let chosen = if up {
            regions
        } else {
            sort_by_position(&regions)
        };
        let ghost v = chosen@;
        let ghost mid = self.model();
        match self.set_active_selections(chosen) {
            Err(e) => return Err(e),
            Ok(()) => {},
        }
        proof {
            crate::commands::lemma_selected(self, mid, old(self).active_view_index(), normalize_regions(v));
        }
        match self.active_view() {
            Some(view) => Ok(view.selection_count()),
            None => Ok(0),
        }
    }

    /// Moves every block of selected lines above the line before it; a block at the start of the
    /// text stays.
    pub fn move_selected_lines_up(&mut self) -> (r: Result<usize, BufferError>)
        requires
            old(self).wf(),
        ensures
            move_outcome(old(self), true, r, final(self)),
            final(self).wf(),
    {
        self.move_lines(true)
    }

    /// Moves every block of selected lines below the line after it; a block at the end of the
    /// text stays.
    pub fn move_selected_lines_down(&mut self) -> (r: Result<usize, BufferError>)
        requires
            old(self).wf(),
        ensures
            move_outcome(old(self), false, r, final(self)),
            final(self).wf(),
    {
        self.move_lines(false)
    }
}

} // verus!
