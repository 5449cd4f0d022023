//! Properties that span several operations of the library.
use std::ops::Range;

use vstd::prelude::*;
use vstd::utf8::{
    encode_utf8, decode_first_scalar, decode_utf8, is_continuation_byte, length_of_first_scalar, pop_first_scalar, valid_first_scalar,
    valid_utf8, valid_utf8_split,
};

use crate::buffer::{next_revision, BufferError, BufferModel};
use crate::history::{EditTransaction, RecordModel};
use crate::ids::BufferId;
use crate::state::{
    edit_models, transaction_model, undo_outcome, AppState, StateModel,
    find_buffer, lemma_find_buffer, lemma_find_buffer_ids, record_fits, redo_upto, replace_outcome,
    replaced, run_edits, undo_from, EditModel,
};
use crate::command::name_lt;
use crate::commands::{clamp, deletion_of, motion_all, motion_region, text_point_of, CaretMotion, DeleteKind};
use crate::settings::{find_key, key_position, key_position_from, keys_sorted, lemma_find_key, lemma_name_order};
use crate::selection::{
    is_normalized, key_le, lemma_normalize_regions, merge_sorted, normalize_regions, sort_regions, sorted_by_key, Region,
};
use crate::text::{
    lemma_boundary_char,
    count_newlines, full_line_end, is_next_char_end, is_prev_char_start, is_row_start, lemma_next_char_end_of,
    lemma_prev_char_start_of, lemma_row_start_of, lemma_splice, line_begin, line_end, next_char_end_of, nl,
    prev_char_start_of, splice, valid_range,
};
use vstd::utf8::is_char_boundary;

verus! {

/// The revision counted `k` steps after `r`, wrapping around as a buffer's revision does.
pub open spec fn revisions_after(r: u64, k: nat) -> u64
    decreases k,
{
    if k == 0 {
        r
    } else {
        next_revision(revisions_after(r, (k - 1) as nat))
    }
}

/// Undoing records of one buffer, all of which succeed, counts that buffer's revision up once per
/// record and keeps the ids of all buffers.
proof fn lemma_undo_revisions(x: Seq<BufferModel>, tx: Seq<RecordModel>, k: int, id: BufferId)
    requires
        0 <= k <= tx.len(),
        forall|j: int| 0 <= j < tx.len() ==> (#[trigger] tx[j]).buffer_id == id,
        undo_from(x, tx, k).1 is None,
    ensures
        undo_from(x, tx, k).0.len() == x.len(),
        forall|j: int| 0 <= j < x.len() ==> (#[trigger] undo_from(x, tx, k).0[j]).id == x[j].id,
        k < tx.len() ==> find_buffer(x, id) >= 0,
        find_buffer(x, id) >= 0 ==> undo_from(x, tx, k).0[find_buffer(x, id)].revision == revisions_after(
            x[find_buffer(x, id)].revision,
            (tx.len() - k) as nat,
        ),
    decreases tx.len() - k,
{
    if k < tx.len() {
        let prev = undo_from(x, tx, k + 1);
        assert(prev.1 is None);
        lemma_undo_revisions(x, tx, k + 1, id);
        let r = tx[k];
        lemma_find_buffer_ids(prev.0, x, id);
        let i = find_buffer(x, id);
        let out = undo_from(x, tx, k);
        let e = (r.range_start + r.new.len()) as usize;
        lemma_find_buffer(x, id);
        assert(out == replace_outcome(prev.0, id, r.range_start, e, r.old));
        assert(i >= 0);
        assert(out.0 == prev.0.update(i, replaced(prev.0[i], r.range_start as int, e as int, r.old)));
        assert(((tx.len() - k) as nat - 1) as nat == (tx.len() - (k + 1)) as nat);
    }
}

/// Undo right after `AppState::apply_edits` made a non-empty run of edits: it answers with the
/// recorded transaction, gives every buffer back the text it had before the run, and moves the
/// transaction from the undo history to the redo history. `s1` is any state that
/// `apply_edits(id, edits)` can leave from `s0`, and `s2` any state that `undo` can leave from `s1`.
pub proof fn law_undo_after_apply_edits(
    s0: &AppState,
    s1: &AppState,
    s2: &AppState,
    id: BufferId,
    edits: Seq<(Range<usize>, String)>,
    r: Result<Option<EditTransaction>, BufferError>,
)
    requires
        s0.wf(),
        s1.wf(),
        run_edits(s0.model().buffers, id, edit_models(edits)).err is None,
        run_edits(s0.model().buffers, id, edit_models(edits)).records.len() > 0,
        s1.model() == (StateModel {
            buffers: run_edits(s0.model().buffers, id, edit_models(edits)).bufs,
            undo: s0.model().undo.push(run_edits(s0.model().buffers, id, edit_models(edits)).records),
            redo: Seq::empty(),
            ..s0.model()
        }),
        undo_outcome(s1, r, s2),
    ensures
        r matches Ok(Some(t)) && transaction_model(t) == run_edits(s0.model().buffers, id, edit_models(edits)).records,
        same_texts(s2.model().buffers, s0.model().buffers),
        s2.model().undo == s0.model().undo,
        s2.model().redo == seq![run_edits(s0.model().buffers, id, edit_models(edits)).records],
        find_buffer(s1.model().buffers, id) >= 0,
        s2.model().buffers[find_buffer(s1.model().buffers, id)].revision == revisions_after(
            s1.model().buffers[find_buffer(s1.model().buffers, id)].revision,
            run_edits(s0.model().buffers, id, edit_models(edits)).records.len(),
        ),
{
    broadcast use vstd::utf8::encode_utf8_valid_utf8;

    let es = edit_models(edits);
    let run = run_edits(s0.model().buffers, id, es);
    s0.lemma_wf();
    s1.lemma_wf();
    assert(all_valid(s0.model().buffers));
    assert(edits_valid(es)) by {
        assert forall|k: int| 0 <= k < es.len() implies valid_utf8((#[trigger] es[k]).text) by {
            assert(es[k].text == encode_utf8(edits[k].1@));
        }
    }
    assert(s1.model().undo.last() == run.records);
    assert forall|k: int| 0 <= k < run.records.len() implies record_fits(#[trigger] run.records[k]) by {
        let top = s1.model().undo.len() - 1;
        assert(s1.model().undo[top] == run.records);
        assert(record_fits(s1.model().undo[top][k]));
    }
    assert(same_texts(run.bufs, run.bufs));
    law_undo_reverts_edits(s0.model().buffers, id, es, run.bufs);
    lemma_run_shape(s0.model().buffers, id, es);
    lemma_undo_revisions(run.bufs, run.records, 0, id);
    assert(s1.model().undo.drop_last() == s0.model().undo);
    assert(Seq::<Seq<RecordModel>>::empty().push(run.records) == seq![run.records]);
}

/// Two lists of buffers that agree on everything an edit reads or keeps: the ids, the texts and the
/// read-only flags.
pub open spec fn same_texts(a: Seq<BufferModel>, b: Seq<BufferModel>) -> bool {
    &&& a.len() == b.len()
    &&& forall|j: int|
        0 <= j < a.len() ==> (#[trigger] a[j]).id == b[j].id && a[j].text == b[j].text
            && a[j].read_only == b[j].read_only
}

/// Every edit inserts valid UTF-8.
pub open spec fn edits_valid(es: Seq<EditModel>) -> bool {
    forall|k: int| 0 <= k < es.len() ==> valid_utf8((#[trigger] es[k]).text)
}

pub open spec fn all_valid(bufs: Seq<BufferModel>) -> bool {
    forall|j: int| 0 <= j < bufs.len() ==> valid_utf8((#[trigger] bufs[j]).text)
}

/// What a successful run of edits leaves: one record per edit, all for the edited buffer, the
/// same ids and flags, and valid texts.
proof fn lemma_run_shape(bufs: Seq<BufferModel>, id: BufferId, es: Seq<EditModel>)
    requires
        all_valid(bufs),
        edits_valid(es),
        run_edits(bufs, id, es).err is None,
    ensures
        ({
            let run = run_edits(bufs, id, es);
            &&& run.records.len() == es.len()
            &&& forall|k: int| 0 <= k < run.records.len() ==> (#[trigger] run.records[k]).buffer_id == id
            &&& run.bufs.len() == bufs.len()
            &&& forall|j: int| 0 <= j < bufs.len() ==> (#[trigger] run.bufs[j]).id == bufs[j].id
                && run.bufs[j].read_only == bufs[j].read_only
            &&& all_valid(run.bufs)
        }),
    decreases es.len(),
{
    if es.len() > 0 {
        let p = es.drop_last();
        assert(edits_valid(p)) by {
            assert forall|k: int| 0 <= k < p.len() implies valid_utf8((#[trigger] p[k]).text) by {
                assert(p[k] == es[k]);
            }
        }
        assert(valid_utf8(es.last().text)) by {
            assert(es.last() == es[es.len() - 1]);
        }
        lemma_run_shape(bufs, id, p);
        let prev = run_edits(bufs, id, p);
        let i = find_buffer(prev.bufs, id);
        lemma_find_buffer(prev.bufs, id);
        let e = es.last();
        let run = run_edits(bufs, id, es);
        lemma_splice(prev.bufs[i].text, e.start as int, e.end as int, e.text);
        assert forall|k: int| 0 <= k < run.records.len() implies (#[trigger] run.records[k]).buffer_id == id by {
            if k < prev.records.len() {
                assert(run.records[k] == prev.records[k]);
            }
        }
        assert forall|j: int| 0 <= j < run.bufs.len() implies valid_utf8((#[trigger] run.bufs[j]).text) by {
            if j != i {
                assert(run.bufs[j] == prev.bufs[j]);
            }
        }
    }
}

/// Undoing one record on top of a list of buffers, then the rest, is undoing the list with the
/// record appended.
proof fn lemma_undo_shift(x: Seq<BufferModel>, rs: Seq<RecordModel>, r: RecordModel, k: int)
    requires
        0 <= k <= rs.len(),
        replace_outcome(x, r.buffer_id, r.range_start, (r.range_start + r.new.len()) as usize, r.old).1 is None,
    ensures
        undo_from(x, rs.push(r), k) == undo_from(
            replace_outcome(x, r.buffer_id, r.range_start, (r.range_start + r.new.len()) as usize, r.old).0,
            rs,
            k,
        ),
    decreases rs.len() - k,
{
    let t = rs.push(r);
    if k < rs.len() {
        lemma_undo_shift(x, rs, r, k + 1);
        assert(t[k] == rs[k]);
    } else {
        assert(t[k] == r);
        assert(undo_from(x, t, k + 1) == (x, None::<crate::buffer::BufferError>));
    }
}

/// Redoing the first `k` records does not look past them.
proof fn lemma_redo_prefix(x: Seq<BufferModel>, rs: Seq<RecordModel>, r: RecordModel, k: int)
    requires
        0 <= k <= rs.len(),
    ensures
        redo_upto(x, rs.push(r), k) == redo_upto(x, rs, k),
    decreases k,
{
    if k > 0 {
        lemma_redo_prefix(x, rs, r, k - 1);
        assert(rs.push(r)[k - 1] == rs[k - 1]);
    }
}

/// Undoing the records of a successful run of edits, from the last to the first, restores the
/// texts the buffers had before the run. `x` stands for the buffers after the run: only ids, texts
/// and read-only flags matter, so revisions and dirty flags may differ.
pub proof fn law_undo_reverts_edits(
    bufs: Seq<BufferModel>,
    id: BufferId,
    es: Seq<EditModel>,
    x: Seq<BufferModel>,
)
    requires
        all_valid(bufs),
        edits_valid(es),
        run_edits(bufs, id, es).err is None,
        forall|k: int| 0 <= k < run_edits(bufs, id, es).records.len() ==> record_fits(
            #[trigger] run_edits(bufs, id, es).records[k],
        ),
        same_texts(x, run_edits(bufs, id, es).bufs),
    ensures
        undo_from(x, run_edits(bufs, id, es).records, 0).1 is None,
        same_texts(undo_from(x, run_edits(bufs, id, es).records, 0).0, bufs),
    decreases es.len(),
{
    let run = run_edits(bufs, id, es);
    if es.len() == 0 {
        assert(run.records.len() == 0);
    } else {
        let p = es.drop_last();
        assert(edits_valid(p)) by {
            assert forall|k: int| 0 <= k < p.len() implies valid_utf8((#[trigger] p[k]).text) by {
                assert(p[k] == es[k]);
            }
        }
        assert(valid_utf8(es.last().text)) by {
            assert(es.last() == es[es.len() - 1]);
        }
        let prev = run_edits(bufs, id, p);
        lemma_run_shape(bufs, id, p);
        lemma_run_shape(bufs, id, es);
        let i = find_buffer(prev.bufs, id);
        lemma_find_buffer(prev.bufs, id);
        let e = es.last();
        let t = prev.bufs[i].text;
        let r = run.records.last();
        assert(run.records == prev.records.push(r));
        assert(r.range_start == e.start && r.new == e.text && r.old == t.subrange(e.start as int, e.end as int));
        lemma_splice(t, e.start as int, e.end as int, e.text);
        // the undo step on `x` succeeds and restores `t`
        assert forall|j: int| 0 <= j < x.len() implies (#[trigger] x[j]).id == run.bufs[j].id by {}
        lemma_find_buffer_ids(x, run.bufs, id);
        assert forall|j: int| 0 <= j < run.bufs.len() implies (#[trigger] run.bufs[j]).id == prev.bufs[j].id by {
            if j != i {
                assert(run.bufs[j] == prev.bufs[j]);
            }
        }
        lemma_find_buffer_ids(run.bufs, prev.bufs, id);
        assert(run.bufs[i].text == splice(t, e.start as int, e.end as int, e.text));
        assert(record_fits(run.records[run.records.len() - 1]));
        let y = replace_outcome(x, id, r.range_start, (r.range_start + r.new.len()) as usize, r.old);
        assert(y.1 is None);
        assert(same_texts(y.0, prev.bufs)) by {
            assert forall|j: int| 0 <= j < y.0.len() implies (#[trigger] y.0[j]).id == prev.bufs[j].id
                && y.0[j].text == prev.bufs[j].text && y.0[j].read_only == prev.bufs[j].read_only by {
                if j != i {
                    assert(y.0[j] == x[j]);
                    assert(run.bufs[j] == prev.bufs[j]);
                }
            }
        }
        lemma_undo_shift(x, prev.records, r, 0);
        assert forall|k: int| 0 <= k < prev.records.len() implies record_fits(#[trigger] prev.records[k]) by {
            assert(run.records[k] == prev.records[k]);
        }
        law_undo_reverts_edits(bufs, id, p, y.0);
    }
}

/// Redoing, in order, the records of a successful run of edits on buffers with the texts from
/// before the run gives back the texts the run produced.
pub proof fn law_redo_replays_edits(
    bufs: Seq<BufferModel>,
    id: BufferId,
    es: Seq<EditModel>,
    x: Seq<BufferModel>,
)
    requires
        all_valid(bufs),
        edits_valid(es),
        run_edits(bufs, id, es).err is None,
        forall|k: int| 0 <= k < run_edits(bufs, id, es).records.len() ==> record_fits(
            #[trigger] run_edits(bufs, id, es).records[k],
        ),
        same_texts(x, bufs),
    ensures
        redo_upto(x, run_edits(bufs, id, es).records, es.len() as int).1 is None,
        same_texts(redo_upto(x, run_edits(bufs, id, es).records, es.len() as int).0, run_edits(bufs, id, es).bufs),
    decreases es.len(),
{
    let run = run_edits(bufs, id, es);
    if es.len() > 0 {
        let p = es.drop_last();
        assert(edits_valid(p)) by {
            assert forall|k: int| 0 <= k < p.len() implies valid_utf8((#[trigger] p[k]).text) by {
                assert(p[k] == es[k]);
            }
        }
        assert(valid_utf8(es.last().text)) by {
            assert(es.last() == es[es.len() - 1]);
        }
        let prev = run_edits(bufs, id, p);
        lemma_run_shape(bufs, id, p);
        lemma_run_shape(bufs, id, es);
        let i = find_buffer(prev.bufs, id);
        lemma_find_buffer(prev.bufs, id);
        let e = es.last();
        let t = prev.bufs[i].text;
        let r = run.records.last();
        assert(run.records == prev.records.push(r));
        lemma_splice(t, e.start as int, e.end as int, e.text);
        assert forall|k: int| 0 <= k < prev.records.len() implies record_fits(#[trigger] prev.records[k]) by {
            assert(run.records[k] == prev.records[k]);
        }
        law_redo_replays_edits(bufs, id, p, x);
        lemma_redo_prefix(x, prev.records, r, p.len() as int);
        let y = redo_upto(x, prev.records, p.len() as int);
        assert(redo_upto(x, run.records, p.len() as int) == y);
        assert forall|j: int| 0 <= j < y.0.len() implies (#[trigger] y.0[j]).id == prev.bufs[j].id by {}
        lemma_find_buffer_ids(y.0, prev.bufs, id);
        assert(record_fits(run.records[run.records.len() - 1]));
        assert(r.range_start + r.old.len() == e.end);
        let z = replace_outcome(y.0, id, r.range_start, (r.range_start + r.old.len()) as usize, r.new);
        assert(z.1 is None);
        assert(redo_upto(x, run.records, es.len() as int) == z);
        assert forall|j: int| 0 <= j < z.0.len() implies (#[trigger] z.0[j]).id == run.bufs[j].id
            && z.0[j].text == run.bufs[j].text && z.0[j].read_only == run.bufs[j].read_only by {
            if j != i {
                assert(z.0[j] == y.0[j]);
                assert(run.bufs[j] == prev.bufs[j]);
            }
        }
    }
}

/// Undo after a successful, non-empty transaction of edits restores the texts from before it,
/// and redo after that undo restores the texts the edits produced.
pub proof fn law_edit_undo_redo_roundtrip(bufs: Seq<BufferModel>, id: BufferId, es: Seq<EditModel>)
    requires
        all_valid(bufs),
        edits_valid(es),
        run_edits(bufs, id, es).err is None,
        forall|k: int| 0 <= k < run_edits(bufs, id, es).records.len() ==> record_fits(
            #[trigger] run_edits(bufs, id, es).records[k],
        ),
    ensures
        ({
            let run = run_edits(bufs, id, es);
            let undone = undo_from(run.bufs, run.records, 0);
            let redone = redo_upto(undone.0, run.records, run.records.len() as int);
            &&& undone.1 is None
            &&& same_texts(undone.0, bufs)
            &&& redone.1 is None
            &&& same_texts(redone.0, run.bufs)
        }),
{
    let run = run_edits(bufs, id, es);
    lemma_run_shape(bufs, id, es);
    law_undo_reverts_edits(bufs, id, es, run.bufs);
    let undone = undo_from(run.bufs, run.records, 0);
    law_redo_replays_edits(bufs, id, es, undone.0);
}

/// Within a line, before its newline, every offset counts the newlines of the line's start and
/// has that start as its line beginning.
proof fn lemma_within_line(t: Seq<u8>, k: int, q: int)
    requires
        0 <= k <= q <= line_end(t, k),
        q <= t.len(),
        k == 0 || t[k - 1] == nl(),
    ensures
        count_newlines(t, q) == count_newlines(t, k),
        line_begin(t, q) == k,
        line_end(t, q) == line_end(t, k),
    decreases q - k,
{
    if q > k {
        lemma_within_line(t, k, q - 1);
        lemma_line_end_step(t, k, q - 1);
        assert(t[q - 1] != nl());
    }
}

/// Walking forward inside a line keeps its end, and the bytes passed are not newlines.
proof fn lemma_line_end_step(t: Seq<u8>, k: int, q: int)
    requires
        0 <= k <= q < line_end(t, k),
        q < t.len(),
    ensures
        t[q] != nl(),
        line_end(t, q + 1) == line_end(t, k),
        line_end(t, q) == line_end(t, k),
    decreases q - k,
{
    if q > k {
        lemma_line_end_step(t, k, q - 1);
    }
}

/// Moving to row `row`, column `col` and reading back the row and column of the offset reached
/// gives `row` and `col`, the column cut at the end of that row.
pub proof fn law_text_point_row_col(t: Seq<u8>, row: int, k: int, col: int)
    requires
        is_row_start(t, row, k),
        col >= 0,
    ensures
        ({
            let p = text_point_of(t, row, col);
            let width = line_end(t, k) - k;
            &&& count_newlines(t, p) == row
            &&& p - line_begin(t, p) == (if col <= width { col } else { width })
        }),
{
    lemma_row_start_of(t, row, k);
    lemma_line_end_bound(t, k);
    let p = text_point_of(t, row, col);
    lemma_within_line(t, k, p);
}

proof fn lemma_line_end_bound(t: Seq<u8>, p: int)
    requires
        0 <= p <= t.len(),
    ensures
        p <= line_end(t, p) <= t.len(),
    decreases t.len() - p,
{
    if p < t.len() && t[p] != nl() {
        lemma_line_end_bound(t, p + 1);
    }
}

/// Stepping back over the character before a boundary `p` and forward again returns to `p`;
/// stepping forward over the character after a boundary and back again returns there too.
pub proof fn law_char_steps_invert(t: Seq<u8>, p: int)
    requires
        valid_utf8(t),
        0 <= p <= t.len(),
        is_char_boundary(t, p),
    ensures
        p > 0 ==> next_char_end_of(t, prev_char_start_of(t, p)) == p,
        p < t.len() ==> prev_char_start_of(t, next_char_end_of(t, p)) == p,
{
    vstd::utf8::is_char_boundary_start_end_of_seq(t);
    if p > 0 {
        let j = greatest_boundary_below(t, p, 0);
        lemma_prev_char_start_of(t, p, j);
        assert(is_next_char_end(t, j, p));
        lemma_next_char_end_of(t, j, p);
    }
    if p < t.len() {
        let j = least_boundary_above(t, p, t.len() as int);
        lemma_next_char_end_of(t, p, j);
        assert(is_prev_char_start(t, j, p));
        lemma_prev_char_start_of(t, j, p);
    }
}

/// The greatest boundary below `p`, searching up from the boundary `lo`.
proof fn greatest_boundary_below(t: Seq<u8>, p: int, lo: int) -> (j: int)
    requires
        0 <= lo < p,
        is_char_boundary(t, lo),
    ensures
        is_prev_char_start(t, p, j),
    decreases p - lo,
{
    if exists|k: int| lo < k < p && is_char_boundary(t, k) {
        let k = choose|k: int| lo < k < p && is_char_boundary(t, k);
        greatest_boundary_below(t, p, k)
    } else {
        lo
    }
}

/// The least boundary above `p`, searching down from the boundary `hi`.
proof fn least_boundary_above(t: Seq<u8>, p: int, hi: int) -> (j: int)
    requires
        p < hi <= t.len(),
        is_char_boundary(t, hi),
    ensures
        is_next_char_end(t, p, j),
    decreases hi - p,
{
    if exists|k: int| p < k < hi && is_char_boundary(t, k) {
        let k = choose|k: int| p < k < hi && is_char_boundary(t, k);
        least_boundary_above(t, p, k)
    } else {
        hi
    }
}

pub(crate) proof fn lemma_sort_sorted(s: Seq<Region>)
    requires
        sorted_by_key(s),
    ensures
        sort_regions(s) == s,
    decreases s.len(),
{
    if s.len() > 0 {
        let p = s.drop_last();
        assert(sorted_by_key(p)) by {
            assert forall|i: int, j: int| 0 <= i < j < p.len() implies key_le(#[trigger] p[i], #[trigger] p[j]) by {
                assert(p[i] == s[i] && p[j] == s[j]);
            }
        }
        lemma_sort_sorted(p);
        if p.len() > 0 {
            assert(key_le(s[p.len() - 1], s[s.len() - 1]));
        }
        assert(p.push(s.last()) == s);
    }
}

pub(crate) proof fn lemma_merge_normalized(s: Seq<Region>)
    requires
        is_normalized(s),
    ensures
        merge_sorted(s) == s,
    decreases s.len(),
{
    if s.len() > 0 {
        let p = s.drop_last();
        assert(is_normalized(p)) by {
            assert forall|i: int, j: int| 0 <= i < j < p.len() implies (#[trigger] p[i]).hi() < (#[trigger] p[j]).lo() by {
                assert(p[i] == s[i] && p[j] == s[j]);
            }
        }
        lemma_merge_normalized(p);
        if p.len() > 0 {
            assert(s[p.len() - 1].hi() < s[s.len() - 1].lo());
        }
        assert(p.push(s.last()) == s);
    }
}

/// Bringing regions into normal form twice is the same as once.
pub proof fn law_normalize_idempotent(s: Seq<Region>)
    ensures
        normalize_regions(normalize_regions(s)) == normalize_regions(s),
{
    let n = normalize_regions(s);
    lemma_normalize_regions(s);
    assert(sorted_by_key(n)) by {
        assert forall|i: int, j: int| 0 <= i < j < n.len() implies key_le(#[trigger] n[i], #[trigger] n[j]) by {
            assert(n[i].hi() < n[j].lo());
        }
    }
    lemma_sort_sorted(n);
    lemma_merge_normalized(n);
}

/// Storing `v` under `key` in a keyed list, as `CommandArgs::insert` and `CommandBus::register`
/// do: an entry of that key is replaced in place, else one is appended.
pub open spec fn stored<V>(s: Seq<(Seq<char>, V)>, key: Seq<char>, v: V) -> Seq<(Seq<char>, V)> {
    if find_key(s, key) >= 0 {
        s.update(find_key(s, key), (key, v))
    } else {
        s.push((key, v))
    }
}

/// No key occurs twice in a keyed list.
pub open spec fn unique_keys<V>(s: Seq<(Seq<char>, V)>) -> bool {
    forall|i: int, j: int| 0 <= i < j < s.len() ==> (#[trigger] s[i]).0 != (#[trigger] s[j]).0
}

proof fn lemma_find_key_exact<V>(s: Seq<(Seq<char>, V)>, key: Seq<char>, i: int)
    requires
        0 <= i < s.len(),
        s[i].0 == key,
        forall|j: int| i < j < s.len() ==> (#[trigger] s[j]).0 != key,
    ensures
        find_key(s, key) == i,
    decreases s.len(),
{
    if s.last().0 != key {
        let p = s.drop_last();
        assert forall|j: int| i < j < p.len() implies (#[trigger] p[j]).0 != key by {
            assert(p[j] == s[j]);
        }
        lemma_find_key_exact(p, key, i);
    }
}

proof fn lemma_find_key_last<V>(s: Seq<(Seq<char>, V)>, key: Seq<char>)
    ensures
        find_key(s, key) >= 0 ==> forall|j: int| find_key(s, key) < j < s.len() ==> (#[trigger] s[j]).0 != key,
    decreases s.len(),
{
    if s.len() > 0 && s.last().0 != key {
        let p = s.drop_last();
        lemma_find_key_last(p, key);
        assert forall|j: int| 0 <= j < p.len() implies p[j] == s[j] by {}
    }
}

proof fn lemma_find_key_same_keys<V>(s: Seq<(Seq<char>, V)>, t: Seq<(Seq<char>, V)>, key: Seq<char>)
    requires
        s.len() == t.len(),
        forall|i: int| 0 <= i < s.len() ==> ((#[trigger] s[i]).0 == key) == (t[i].0 == key),
    ensures
        find_key(s, key) == find_key(t, key),
    decreases s.len(),
{
    if s.len() > 0 {
        let (ps, pt) = (s.drop_last(), t.drop_last());
        assert forall|i: int| 0 <= i < ps.len() implies ((#[trigger] ps[i]).0 == key) == (pt[i].0 == key) by {
            assert(ps[i] == s[i] && pt[i] == t[i]);
        }
        lemma_find_key_same_keys(ps, pt, key);
    }
}

/// Reading a key of a keyed list after storing a value under it gives that value; reading any
/// other key finds what it found before, at the same place.
pub proof fn law_read_after_store<V>(s: Seq<(Seq<char>, V)>, key: Seq<char>, v: V, other: Seq<char>)
    ensures
        ({
            let t = stored(s, key, v);
            &&& find_key(t, key) >= 0
            &&& t[find_key(t, key)] == (key, v)
            &&& other != key ==> find_key(t, other) == find_key(s, other)
            &&& other != key && find_key(s, other) >= 0 ==> t[find_key(s, other)] == s[find_key(s, other)]
        }),
{
    lemma_find_key(s, key);
    lemma_find_key(s, other);
    lemma_find_key_last(s, key);
    let t = stored(s, key, v);
    let i = find_key(s, key);
    if i >= 0 {
        assert forall|j: int| i < j < t.len() implies (#[trigger] t[j]).0 != key by {
            assert(t[j] == s[j]);
        }
        lemma_find_key_exact(t, key, i);
        if other != key {
            assert forall|j: int| 0 <= j < s.len() implies ((#[trigger] s[j]).0 == other) == (t[j].0 == other) by {
                if j == i {
                    assert(s[j].0 == key && t[j].0 == key);
                }
            }
            lemma_find_key_same_keys(s, t, other);
        }
    } else {
        lemma_find_key_exact(t, key, s.len() as int);
        if other != key {
            assert(t.drop_last() == s);
        }
    }
}

/// Storing a value keeps the keys of a keyed list unique.
pub proof fn law_store_keeps_keys_unique<V>(s: Seq<(Seq<char>, V)>, key: Seq<char>, v: V)
    requires
        unique_keys(s),
    ensures
        unique_keys(stored(s, key, v)),
{
    lemma_find_key(s, key);
    let t = stored(s, key, v);
    let i = find_key(s, key);
    assert forall|a: int, b: int| 0 <= a < b < t.len() implies (#[trigger] t[a]).0 != (#[trigger] t[b]).0 by {
        if i >= 0 {
            assert(t[a].0 == s[a].0);
            assert(t[b].0 == s[b].0);
        } else if b == s.len() {
            assert(t[a] == s[a]);
        } else {
            assert(t[a] == s[a] && t[b] == s[b]);
        }
    }
}

/// Erasing a key from a keyed list whose keys are unique leaves no entry of that key, keeps the
/// keys unique, and leaves every other key with the entry it had.
pub proof fn law_erase_removes_key<V>(s: Seq<(Seq<char>, V)>, key: Seq<char>, other: Seq<char>)
    requires
        unique_keys(s),
        find_key(s, key) >= 0,
    ensures
        ({
            let r = s.remove(find_key(s, key));
            &&& find_key(r, key) < 0
            &&& unique_keys(r)
            &&& other != key ==> (find_key(r, other) >= 0 <==> find_key(s, other) >= 0)
            &&& other != key && find_key(s, other) >= 0 ==> r[find_key(r, other)] == s[find_key(s, other)]
        }),
{
    lemma_find_key(s, key);
    lemma_find_key(s, other);
    let i = find_key(s, key);
    let r = s.remove(i);
    assert forall|j: int| 0 <= j < r.len() implies (#[trigger] r[j]) == (if j < i { s[j] } else { s[j + 1] }) by {}
    assert forall|a: int, b: int| 0 <= a < b < r.len() implies (#[trigger] r[a]).0 != (#[trigger] r[b]).0 by {
        let sa = if a < i { a } else { a + 1 };
        let sb = if b < i { b } else { b + 1 };
        assert(r[a] == s[sa] && r[b] == s[sb]);
        assert(s[sa].0 != s[sb].0);
    }
    assert forall|j: int| 0 <= j < r.len() implies (#[trigger] r[j]).0 != key by {
        let sj = if j < i { j } else { j + 1 };
        assert(r[j] == s[sj]);
        if sj < i {
            assert(s[sj].0 != s[i].0);
        } else {
            assert(s[i].0 != s[sj].0);
        }
    }
    lemma_find_key(r, key);
    if find_key(r, key) >= 0 {
        assert(r[find_key(r, key)].0 == key);
    }
    if other != key {
        let k = find_key(s, other);
        if k >= 0 {
            assert(k != i);
            let rk = if k < i { k } else { k - 1 };
            assert(r[rk] == s[k]);
            assert forall|j: int| rk < j < r.len() implies (#[trigger] r[j]).0 != other by {
                let sj = if j < i { j } else { j + 1 };
                assert(r[j] == s[sj]);
                assert(sj != k);
                if sj < k {
                    assert(s[sj].0 != s[k].0);
                } else {
                    assert(s[k].0 != s[sj].0);
                }
            }
            lemma_find_key_exact(r, other, rk);
        } else {
            assert forall|j: int| 0 <= j < r.len() implies (#[trigger] r[j]).0 != other by {
                let sj = if j < i { j } else { j + 1 };
                assert(r[j] == s[sj]);
            }
            lemma_find_key(r, other);
            if find_key(r, other) >= 0 {
                assert(r[find_key(r, other)].0 == other);
            }
        }
    }
}

/// Storing `v` under `key` in sorted settings, as `Settings::set` does: an entry of that key is
/// replaced in place, else one is inserted where the key's order puts it.
pub open spec fn set_in_sorted<V>(s: Seq<(Seq<char>, V)>, key: Seq<char>, v: V) -> Seq<(Seq<char>, V)> {
    if find_key(s, key) >= 0 {
        s.update(find_key(s, key), (key, v))
    } else {
        s.insert(key_position(s, key), (key, v))
    }
}

proof fn lemma_key_position_from<V>(s: Seq<(Seq<char>, V)>, key: Seq<char>, i: int)
    requires
        0 <= i <= s.len(),
    ensures
        i <= key_position_from(s, key, i) <= s.len(),
    decreases s.len() - i,
{
    if i < s.len() && name_lt(s[i].0, key) {
        lemma_key_position_from(s, key, i + 1);
    }
}

/// Sorted keys occur once each.
pub proof fn lemma_sorted_keys_unique<V>(s: Seq<(Seq<char>, V)>)
    requires
        keys_sorted(s),
    ensures
        unique_keys(s),
{
    assert forall|i: int, j: int| 0 <= i < j < s.len() implies (#[trigger] s[i]).0 != (#[trigger] s[j]).0 by {
        lemma_name_order(s[i].0, s[j].0, s[j].0);
    }
}

/// Reading a key of sorted settings after setting it gives the value set; any other key is
/// present exactly when it was before, with the entry it had.
pub proof fn law_read_after_set<V>(s: Seq<(Seq<char>, V)>, key: Seq<char>, v: V, other: Seq<char>)
    requires
        keys_sorted(s),
    ensures
        ({
            let t = set_in_sorted(s, key, v);
            &&& find_key(t, key) >= 0
            &&& t[find_key(t, key)] == (key, v)
            &&& other != key ==> (find_key(t, other) >= 0 <==> find_key(s, other) >= 0)
            &&& other != key && find_key(s, other) >= 0 ==> t[find_key(t, other)] == s[find_key(s, other)]
        }),
{
    lemma_sorted_keys_unique(s);
    lemma_find_key(s, key);
    lemma_find_key(s, other);
    if find_key(s, key) >= 0 {
        law_read_after_store(s, key, v, other);
    } else {
        lemma_key_position_from(s, key, 0);
        let p = key_position(s, key);
        let t = s.insert(p, (key, v));
        assert forall|j: int| 0 <= j < t.len() implies #[trigger] t[j] == (if j < p { s[j] } else if j == p { (key, v) } else { s[j - 1] }) by {}
        assert forall|j: int| p < j < t.len() implies (#[trigger] t[j]).0 != key by {
            assert(t[j] == s[j - 1]);
        }
        lemma_find_key_exact(t, key, p);
        if other != key {
            let k = find_key(s, other);
            if k >= 0 {
                let tk = if k < p { k } else { k + 1 };
                assert(t[tk] == s[k]);
                assert forall|j: int| tk < j < t.len() implies (#[trigger] t[j]).0 != other by {
                    if j != p {
                        let sj = if j < p { j } else { j - 1 };
                        assert(t[j] == s[sj]);
                        assert(sj != k);
                        if sj < k {
                            assert(s[sj].0 != s[k].0);
                        } else {
                            assert(s[k].0 != s[sj].0);
                        }
                    }
                }
                lemma_find_key_exact(t, other, tk);
            } else {
                assert forall|j: int| 0 <= j < t.len() implies (#[trigger] t[j]).0 != other by {
                    if j != p {
                        let sj = if j < p { j } else { j - 1 };
                        assert(t[j] == s[sj]);
                    }
                }
                lemma_find_key(t, other);
                if find_key(t, other) >= 0 {
                    assert(t[find_key(t, other)].0 == other);
                }
            }
        }
    }
}

proof fn lemma_line_begin_bounds(t: Seq<u8>, p: int)
    requires
        0 <= p <= t.len(),
    ensures
        0 <= line_begin(t, p) <= p,
        forall|i: int| line_begin(t, p) <= i < p ==> t[i] != nl(),
    decreases p,
{
    if p > 0 && t[p - 1] != nl() {
        lemma_line_begin_bounds(t, p - 1);
    }
}

proof fn lemma_line_end_bounds(t: Seq<u8>, p: int)
    requires
        0 <= p <= t.len(),
    ensures
        p <= line_end(t, p) <= t.len(),
        forall|i: int| p <= i < line_end(t, p) ==> t[i] != nl(),
        line_end(t, p) < t.len() ==> t[line_end(t, p)] == nl(),
    decreases t.len() - p,
{
    if p < t.len() && t[p] != nl() {
        lemma_line_end_bounds(t, p + 1);
    }
}

/// The line that holds an offset holds no newline.
pub proof fn law_line_has_no_newline(t: Seq<u8>, p: int)
    requires
        0 <= p <= t.len(),
    ensures
        0 <= line_begin(t, p) <= p <= line_end(t, p) <= t.len(),
        forall|i: int| line_begin(t, p) <= i < line_end(t, p) ==> t[i] != nl(),
{
    lemma_line_begin_bounds(t, p);
    lemma_line_end_bounds(t, p);
}

/// The full line of an offset is its line followed by the newline that ends it, when one does.
pub proof fn law_full_line_is_line_and_newline(t: Seq<u8>, p: int)
    requires
        0 <= p <= t.len(),
    ensures
        line_end(t, p) < t.len() ==> t[line_end(t, p)] == nl() && full_line_end(t, p) == line_end(t, p) + 1,
        line_end(t, p) == t.len() ==> full_line_end(t, p) == t.len(),
{
    lemma_line_end_bounds(t, p);
}

/// Replacing `s..e` by `new` and then the range the new bytes took by the bytes replaced gives
/// the text back; the new bytes stand at `s..s + new.len()` on character boundaries.
pub proof fn law_record_round_trip(t: Seq<u8>, s: int, e: int, new: Seq<u8>)
    requires
        valid_utf8(t),
        valid_range(t, s, e),
        valid_utf8(new),
    ensures
        ({
            let u = splice(t, s, e, new);
            &&& valid_range(u, s, s + new.len())
            &&& u.subrange(s, s + new.len()) == new
            &&& splice(u, s, s + new.len(), t.subrange(s, e)) == t
        }),
{
    lemma_splice(t, s, e, new);
}

/// Inserting bytes into a writable buffer and then deleting them gives back its text; the buffer
/// is then dirty and its revision has moved on twice.
pub proof fn law_insert_then_delete(b: BufferModel, p: int, ins: Seq<u8>)
    requires
        valid_utf8(b.text),
        valid_range(b.text, p, p),
        valid_utf8(ins),
    ensures
        ({
            let once = replaced(b, p, p, ins);
            &&& valid_range(once.text, p, p + ins.len())
            &&& replaced(once, p, p + ins.len(), Seq::empty()) == (BufferModel {
                revision: crate::buffer::next_revision(crate::buffer::next_revision(b.revision)),
                dirty: true,
                ..b
            })
        }),
{
    lemma_splice(b.text, p, p, ins);
    let u = splice(b.text, p, p, ins);
    assert(b.text.subrange(p, p) == Seq::<u8>::empty());
    assert(splice(u, p, p + ins.len(), Seq::<u8>::empty()) == b.text);
}

/// Stepping forward from a character boundary to the next one passes exactly one character.
pub proof fn law_next_char_is_one_char(t: Seq<u8>, p: int, j: int)
    requires
        valid_utf8(t),
        is_char_boundary(t, p),
        0 <= p < t.len(),
        is_next_char_end(t, p, j),
    ensures
        decode_utf8(t.subrange(p, j)).len() == 1,
{
    valid_utf8_split(t, p);
    let r = t.subrange(p, t.len() as int);
    assert(valid_first_scalar(r));
    let l = length_of_first_scalar(r);
    assert(1 <= l <= r.len());
    assert(is_char_boundary(r, l)) by {
        reveal_with_fuel(is_char_boundary, 2);
    }
    lemma_boundary_char(r, l);
    assert forall|k: int| p < k < p + l implies !is_char_boundary(t, k) by {
        lemma_boundary_char(t, k);
        assert(t[k] == r[k - p]);
        assert(is_continuation_byte(r[k - p]));
    }
    lemma_boundary_char(t, p + l);
    if p + l < t.len() {
        assert(t[p + l] == r[l]);
    }
    assert(is_char_boundary(t, p + l));
    if j < p + l {
        assert(!is_char_boundary(t, j));
    }
    if j > p + l {
        assert(!is_char_boundary(t, p + l));
    }
    assert(j == p + l);
    let x = t.subrange(p, j);
    assert(x =~= r.subrange(0, l));
    valid_utf8_split(r, l);
    assert(x[0] == r[0]);
    assert(valid_first_scalar(x));
    assert(length_of_first_scalar(x) == l);
    assert(pop_first_scalar(x) =~= Seq::<u8>::empty());
    assert(decode_utf8(x) == seq![decode_first_scalar(x) as char] + decode_utf8(pop_first_scalar(x)));
    assert(decode_utf8(Seq::<u8>::empty()) == Seq::<char>::empty());
}

/// Moving left takes each region to a caret at or before where the region began: a selection
/// collapses onto its start, and a caret steps back to the start of the character before it,
/// staying put only at the start of the text.
pub proof fn law_move_left_goes_left(t: Seq<u8>, rs: Seq<Region>)
    requires
        valid_utf8(t),
        t.len() <= usize::MAX,
        motion_all(t, CaretMotion::Left, rs) is Ok,
    ensures
        ({
            let v = motion_all(t, CaretMotion::Left, rs)->Ok_0;
            &&& v.len() == rs.len()
            &&& forall|i: int| 0 <= i < rs.len() ==> {
                let (x, r) = (#[trigger] v[i], rs[i]);
                &&& x.a == x.b
                &&& x.b <= r.lo()
                &&& r.a != r.b ==> x.b == r.lo()
                &&& r.a == r.b && r.b > 0 ==> x.b < r.b && is_char_boundary(t, x.b as int)
            }
        }),
    decreases rs.len(),
{
    if rs.len() > 0 {
        let p = rs.drop_last();
        law_move_left_goes_left(t, p);
        let r = rs.last();
        let v = motion_all(t, CaretMotion::Left, rs)->Ok_0;
        let vp = motion_all(t, CaretMotion::Left, p)->Ok_0;
        let x = motion_region(t, CaretMotion::Left, r)->Ok_0;
        assert(v == vp.push(x));
        if r.a == r.b && r.b > 0 {
            vstd::utf8::is_char_boundary_start_end_of_seq(t);
            let j = greatest_boundary_below(t, r.b as int, 0);
            lemma_prev_char_start_of(t, r.b as int, j);
        }
        assert forall|i: int| 0 <= i < rs.len() implies {
            let (x, r) = (#[trigger] v[i], rs[i]);
            &&& x.a == x.b
            &&& x.b <= r.lo()
            &&& r.a != r.b ==> x.b == r.lo()
            &&& r.a == r.b && r.b > 0 ==> x.b < r.b && is_char_boundary(t, x.b as int)
        } by {
            if i < p.len() {
                assert(v[i] == vp[i] && rs[i] == p[i]);
            }
        }
    }
}

/// Moving right takes each region to a caret at or after where the region ended: a selection
/// collapses onto its end, and a caret steps past the character after it, staying put only at
/// the end of the text.
pub proof fn law_move_right_goes_right(t: Seq<u8>, rs: Seq<Region>)
    requires
        valid_utf8(t),
        t.len() <= usize::MAX,
        motion_all(t, CaretMotion::Right, rs) is Ok,
    ensures
        ({
            let v = motion_all(t, CaretMotion::Right, rs)->Ok_0;
            &&& v.len() == rs.len()
            &&& forall|i: int| 0 <= i < rs.len() ==> {
                let (x, r) = (#[trigger] v[i], rs[i]);
                &&& x.a == x.b
                &&& x.b >= r.hi()
                &&& r.a != r.b ==> x.b == r.hi()
                &&& r.a == r.b && r.b < t.len() ==> x.b > r.b && is_char_boundary(t, x.b as int)
            }
        }),
    decreases rs.len(),
{
    if rs.len() > 0 {
        let p = rs.drop_last();
        law_move_right_goes_right(t, p);
        let r = rs.last();
        let v = motion_all(t, CaretMotion::Right, rs)->Ok_0;
        let vp = motion_all(t, CaretMotion::Right, p)->Ok_0;
        let x = motion_region(t, CaretMotion::Right, r)->Ok_0;
        assert(v == vp.push(x));
        if r.a == r.b && r.b < t.len() {
            vstd::utf8::is_char_boundary_start_end_of_seq(t);
            let j = least_boundary_above(t, r.b as int, t.len() as int);
            lemma_next_char_end_of(t, r.b as int, j);
        }
        assert forall|i: int| 0 <= i < rs.len() implies {
            let (x, r) = (#[trigger] v[i], rs[i]);
            &&& x.a == x.b
            &&& x.b >= r.hi()
            &&& r.a != r.b ==> x.b == r.hi()
            &&& r.a == r.b && r.b < t.len() ==> x.b > r.b && is_char_boundary(t, x.b as int)
        } by {
            if i < p.len() {
                assert(v[i] == vp[i] && rs[i] == p[i]);
            }
        }
    }
}

/// What one region deletes. A non-empty region deletes exactly its own bytes. A caret deletes
/// nothing at the edge it deletes towards; otherwise, backward, the one character before it;
/// forward, the one character after it; to the line start, the bytes back to just after the
/// newline before it (or to the start of the text); to the line end, the bytes up to the next
/// newline (or to the end of the text). A deletion never takes a newline in the last two cases.
pub proof fn law_deletion_of_region(t: Seq<u8>, k: DeleteKind, r: Region)
    requires
        valid_utf8(t),
        t.len() <= usize::MAX,
        deletion_of(t, k, r) is Ok,
    ensures
        ({
            let o = deletion_of(t, k, r)->Ok_0;
            let p = clamp(t, r.b) as int;
            &&& o matches Some(e) ==> e.text == Seq::<u8>::empty() && e.start <= e.end
            &&& r.a != r.b ==> o == Some(EditModel { start: r.lo(), end: r.hi(), text: Seq::empty() })
            &&& r.a == r.b && k == DeleteKind::Backward ==> (o is None <==> r.b == 0) && (o matches Some(e) ==> {
                &&& e.end == r.b
                &&& e.start < r.b
                &&& is_char_boundary(t, e.start as int)
                &&& forall|j: int| e.start < j < r.b ==> !is_char_boundary(t, j)
            })
            &&& r.a == r.b && k == DeleteKind::Forward ==> (o is None <==> r.b == t.len()) && (o matches Some(e) ==> {
                &&& e.start == r.b
                &&& e.end > r.b
                &&& is_char_boundary(t, e.end as int)
                &&& forall|j: int| r.b < j < e.end ==> !is_char_boundary(t, j)
            })
            &&& r.a == r.b && k == DeleteKind::ToLineStart ==> (o is None <==> (p == 0 || t[p - 1] == nl())) && (
            o matches Some(e) ==> {
                &&& e.end == p
                &&& e.start < p
                &&& (e.start == 0 || t[e.start - 1] == nl())
                &&& forall|j: int| e.start <= j < p ==> t[j] != nl()
            })
            &&& r.a == r.b && k == DeleteKind::ToLineEnd ==> (o is None <==> (p == t.len() || t[p] == nl())) && (
            o matches Some(e) ==> {
                &&& e.start == p
                &&& e.end > p
                &&& (e.end == t.len() || t[e.end as int] == nl())
                &&& forall|j: int| p <= j < e.end ==> t[j] != nl()
            })
        }),
{
    let p = clamp(t, r.b) as int;
    if r.a == r.b {
        vstd::utf8::is_char_boundary_start_end_of_seq(t);
        match k {
            DeleteKind::Backward => {
                if r.b > 0 {
                    let j = greatest_boundary_below(t, r.b as int, 0);
                    lemma_prev_char_start_of(t, r.b as int, j);
                }
            },
            DeleteKind::Forward => {
                if r.b < t.len() {
                    let j = least_boundary_above(t, r.b as int, t.len() as int);
                    lemma_next_char_end_of(t, r.b as int, j);
                }
            },
            DeleteKind::ToLineStart => {
                lemma_line_begin_bounds(t, p);
                crate::buffer::lemma_line_bounds(t, p);
                if p > 0 && t[p - 1] != nl() {
                    assert(line_begin(t, p) == line_begin(t, p - 1));
                    lemma_line_begin_bounds(t, p - 1);
                }
            },
            DeleteKind::ToLineEnd => {
                lemma_line_end_bounds(t, p);
                crate::buffer::lemma_line_bounds(t, p);
            },
        }
    }
}

/// Moving to the line start puts the caret just after the newline before it (or at the start of
/// the text) with no newline in between; moving to the line end puts it on the next newline (or
/// at the end of the text) with no newline in between; selecting the line spans from the line's
/// start through its newline, if it has one, and holds no other newline.
pub proof fn law_line_motions(t: Seq<u8>, m: CaretMotion, r: Region)
    requires
        valid_utf8(t),
        t.len() <= usize::MAX,
        m == CaretMotion::LineStart || m == CaretMotion::LineEnd || m == CaretMotion::WholeLine,
        motion_region(t, m, r) is Ok,
    ensures
        ({
            let x = motion_region(t, m, r)->Ok_0;
            let p = clamp(t, r.b) as int;
            let n = t.len() as int;
            &&& m == CaretMotion::LineStart ==> {
                &&& x.a == x.b
                &&& x.b <= p
                &&& (x.b == 0 || t[x.b - 1] == nl())
                &&& forall|j: int| x.b <= j < p ==> t[j] != nl()
            }
            &&& m == CaretMotion::LineEnd ==> {
                &&& x.a == x.b
                &&& p <= x.b
                &&& (x.b == n || t[x.b as int] == nl())
                &&& forall|j: int| p <= j < x.b ==> t[j] != nl()
            }
            &&& m == CaretMotion::WholeLine ==> {
                &&& x.a <= p <= x.b <= n
                &&& (x.a == 0 || t[x.a - 1] == nl())
                &&& (x.b == n || t[x.b - 1] == nl())
                &&& forall|j: int| x.a <= j < x.b && t[j] == nl() ==> j == x.b - 1
            }
        }),
{
    let p = clamp(t, r.b) as int;
    lemma_line_begin_bounds(t, p);
    lemma_line_end_bounds(t, p);
    crate::buffer::lemma_line_bounds(t, p);
}

} // verus!
