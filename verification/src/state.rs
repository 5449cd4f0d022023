use std::ops::Range;

use vstd::prelude::*;
use vstd::string::StringSliceAdditionalSpecFns;
use vstd::utf8::{encode_utf8, valid_utf8};
use vstd::view::View as ModelOf;

use crate::buffer::{next_revision, Buffer, BufferError, BufferModel};
use crate::history::{clone_transaction, EditRecord, EditTransaction, RecordModel};
use crate::ids::{next_id, BufferId, IdAllocator, ViewId, WindowId};
use crate::selection::{normalize_regions, Region};
use crate::text::{lemma_splice, splice, valid_range};
use crate::view::{View, ViewModel};

verus! {

/// Everything an application state holds.
pub ghost struct StateModel {
    pub app_name: Seq<char>,
    pub active_window: WindowId,
    pub active_view: Option<ViewId>,
    pub buffers: Seq<BufferModel>,
    pub views: Seq<ViewModel>,
    pub undo: Seq<Seq<RecordModel>>,
    pub redo: Seq<Seq<RecordModel>>,
    pub next_buffer_id: u64,
    pub next_view_id: u64,
    pub next_window_id: u64,
}

/// An edit to make: replace `start..end` with `text` (UTF-8 bytes).
pub ghost struct EditModel {
    pub start: usize,
    pub end: usize,
    pub text: Seq<u8>,
}

pub open spec fn edit_model(e: (Range<usize>, String)) -> EditModel {
    EditModel { start: e.0.start, end: e.0.end, text: encode_utf8(e.1@) }
}

pub open spec fn edit_models(es: Seq<(Range<usize>, String)>) -> Seq<EditModel> {
    es.map_values(|e: (Range<usize>, String)| edit_model(e))
}

pub open spec fn transaction_model(t: Vec<EditRecord>) -> Seq<RecordModel> {
    t@.map_values(|r: EditRecord| r@)
}

/// Index of the buffer with id `id` (the last one, should there be several), or -1.
pub open spec fn find_buffer(bufs: Seq<BufferModel>, id: BufferId) -> int
    decreases bufs.len(),
{
    if bufs.len() == 0 {
        -1
    } else if bufs.last().id == id {
        bufs.len() - 1
    } else {
        find_buffer(bufs.drop_last(), id)
    }
}

/// Index of the view with id `id` (the last one, should there be several), or -1.
pub open spec fn find_view(views: Seq<ViewModel>, id: ViewId) -> int
    decreases views.len(),
{
    if views.len() == 0 {
        -1
    } else if views.last().id == id {
        views.len() - 1
    } else {
        find_view(views.drop_last(), id)
    }
}

/// The buffer after its bytes `start..end` were replaced by `ins`.
pub open spec fn replaced(b: BufferModel, start: int, end: int, ins: Seq<u8>) -> BufferModel {
    BufferModel {
        text: splice(b.text, start, end, ins),
        revision: next_revision(b.revision),
        dirty: true,
        ..b
    }
}

/// Replacing `start..end` of buffer `id` with `ins`, as a buffer's own `replace` does it:
/// the buffers afterwards, and the error if it was refused.
pub open spec fn replace_outcome(
    bufs: Seq<BufferModel>,
    id: BufferId,
    start: usize,
    end: usize,
    ins: Seq<u8>,
) -> (Seq<BufferModel>, Option<BufferError>) {
    let i = find_buffer(bufs, id);
    if i < 0 {
        (bufs, Some(BufferError::InvalidRange { start, end, len: 0 }))
    } else if bufs[i].read_only {
        (bufs, Some(BufferError::ReadOnly))
    } else if !valid_range(bufs[i].text, start as int, end as int) {
        (bufs, Some(BufferError::InvalidRange { start, end, len: bufs[i].text.len() as usize }))
    } else {
        (bufs.update(i, replaced(bufs[i], start as int, end as int, ins)), None)
    }
}

/// The state of a run of edits: the buffers, the records made so far, and the error that
/// stopped the run, if any.
pub ghost struct EditRun {
    pub bufs: Seq<BufferModel>,
    pub records: Seq<RecordModel>,
    pub err: Option<BufferError>,
}

/// Making the edits `es` to buffer `id` one after the other, stopping at the first refusal.
/// An edit's range is read against the text as the earlier edits left it.
pub open spec fn run_edits(bufs: Seq<BufferModel>, id: BufferId, es: Seq<EditModel>) -> EditRun
    decreases es.len(),
{
    if es.len() == 0 {
        EditRun { bufs, records: Seq::empty(), err: None }
    } else {
        let prev = run_edits(bufs, id, es.drop_last());
        let e = es.last();
        let i = find_buffer(prev.bufs, id);
        if prev.err is Some {
            prev
        } else if i < 0 {
            EditRun {
                err: Some(BufferError::InvalidRange { start: e.start, end: e.end, len: 0 }),
                ..prev
            }
        } else if !valid_range(prev.bufs[i].text, e.start as int, e.end as int) {
            EditRun {
                err: Some(
                    BufferError::InvalidRange {
                        start: e.start,
                        end: e.end,
                        len: prev.bufs[i].text.len() as usize,
                    },
                ),
                ..prev
            }
        } else if prev.bufs[i].read_only {
            EditRun { err: Some(BufferError::ReadOnly), ..prev }
        } else {
            EditRun {
                bufs: prev.bufs.update(
                    i,
                    replaced(prev.bufs[i], e.start as int, e.end as int, e.text),
                ),
                records: prev.records.push(
                    RecordModel {
                        buffer_id: id,
                        range_start: e.start,
                        old: prev.bufs[i].text.subrange(e.start as int, e.end as int),
                        new: e.text,
                    },
                ),
                err: None,
            }
        }
    }
}

/// Undoing the records of `tx` from the last down to index `k`, stopping at the first refusal.
pub open spec fn undo_from(bufs: Seq<BufferModel>, tx: Seq<RecordModel>, k: int) -> (
    Seq<BufferModel>,
    Option<BufferError>,
)
    decreases tx.len() - k,
{
    if k >= tx.len() || k < 0 {
        (bufs, None)
    } else {
        let prev = undo_from(bufs, tx, k + 1);
        if prev.1 is Some {
            prev
        } else {
            let r = tx[k];
            replace_outcome(
                prev.0,
                r.buffer_id,
                r.range_start,
                (r.range_start + r.new.len()) as usize,
                r.old,
            )
        }
    }
}

/// Redoing the first `k` records of `tx` in order, stopping at the first refusal.
pub open spec fn redo_upto(bufs: Seq<BufferModel>, tx: Seq<RecordModel>, k: int) -> (
    Seq<BufferModel>,
    Option<BufferError>,
)
    decreases k,
{
    if k <= 0 || k > tx.len() {
        (bufs, None)
    } else {
        let prev = redo_upto(bufs, tx, k - 1);
        if prev.1 is Some {
            prev
        } else {
            let r = tx[k - 1];
            replace_outcome(
                prev.0,
                r.buffer_id,
                r.range_start,
                (r.range_start + r.old.len()) as usize,
                r.new,
            )
        }
    }
}

/// A record whose ranges can be computed without overflow.
pub open spec fn record_fits(r: RecordModel) -> bool {
    r.range_start + r.new.len() <= isize::MAX && r.range_start + r.old.len() <= isize::MAX
}

pub open spec fn stack_fits(s: Seq<Seq<RecordModel>>) -> bool {
    forall|i: int, j: int| 0 <= i < s.len() && 0 <= j < s[i].len() ==> record_fits(#[trigger] s[i][j])
}

/// The application state: buffers, views onto them, the active view and the undo history.
#[derive(Debug)]
pub struct AppState {
    app_name: String,
    active_window: WindowId,
    active_view: Option<ViewId>,
    buffers: Vec<Buffer>,
    views: Vec<View>,
    undo_stack: Vec<EditTransaction>,
    redo_stack: Vec<EditTransaction>,
    ids: IdAllocator,
}

impl AppState {
    /// What the state holds.
    pub closed spec fn model(&self) -> StateModel {
        StateModel {
            app_name: self.app_name@,
            active_window: self.active_window,
            active_view: self.active_view,
            buffers: self.buffers@.map_values(|b: Buffer| b@),
            views: self.views@.map_values(|v: View| v@),
            undo: self.undo_stack@.map_values(|t: EditTransaction| transaction_model(t)),
            redo: self.redo_stack@.map_values(|t: EditTransaction| transaction_model(t)),
            next_buffer_id: self.ids@.buffer,
            next_view_id: self.ids@.view,
            next_window_id: self.ids@.window,
        }
    }
}

pub proof fn lemma_find_buffer(bufs: Seq<BufferModel>, id: BufferId)
    ensures
        -1 <= find_buffer(bufs, id) < bufs.len(),
        find_buffer(bufs, id) >= 0 ==> bufs[find_buffer(bufs, id)].id == id,
        find_buffer(bufs, id) < 0 ==> forall|i: int| 0 <= i < bufs.len() ==> (#[trigger] bufs[i]).id != id,
        forall|i: int| find_buffer(bufs, id) < i < bufs.len() ==> (#[trigger] bufs[i]).id != id,
    decreases bufs.len(),
{
    if bufs.len() > 0 && bufs.last().id != id {
        let p = bufs.drop_last();
        lemma_find_buffer(p, id);
        assert forall|i: int| 0 <= i < bufs.len() - 1 implies bufs[i] == p[i] by {}
    }
}

/// Lookups are decided by the ids alone.
pub proof fn lemma_find_buffer_ids(a: Seq<BufferModel>, b: Seq<BufferModel>, id: BufferId)
    requires
        a.len() == b.len(),
        forall|i: int| 0 <= i < a.len() ==> (#[trigger] a[i]).id == b[i].id,
    ensures
        find_buffer(a, id) == find_buffer(b, id),
    decreases a.len(),
{
    if a.len() > 0 {
        let (pa, pb) = (a.drop_last(), b.drop_last());
        assert(a.last().id == b.last().id);
        assert forall|i: int| 0 <= i < pa.len() implies (#[trigger] pa[i]).id == pb[i].id by {
            assert(pa[i] == a[i] && pb[i] == b[i]);
        }
        lemma_find_buffer_ids(pa, pb, id);
    }
}

pub proof fn lemma_find_view(views: Seq<ViewModel>, id: ViewId)
    ensures
        -1 <= find_view(views, id) < views.len(),
        find_view(views, id) >= 0 ==> views[find_view(views, id)].id == id,
        find_view(views, id) < 0 ==> forall|i: int| 0 <= i < views.len() ==> (#[trigger] views[i]).id != id,
    decreases views.len(),
{
    if views.len() > 0 && views.last().id != id {
        let p = views.drop_last();
        lemma_find_view(p, id);
        assert forall|i: int| 0 <= i < views.len() - 1 implies views[i] == p[i] by {}
    }
}

pub proof fn lemma_find_view_ids(a: Seq<ViewModel>, b: Seq<ViewModel>, id: ViewId)
    requires
        a.len() == b.len(),
        forall|i: int| 0 <= i < a.len() ==> (#[trigger] a[i]).id == b[i].id,
    ensures
        find_view(a, id) == find_view(b, id),
    decreases a.len(),
{
    if a.len() > 0 {
        let (pa, pb) = (a.drop_last(), b.drop_last());
        assert(a.last().id == b.last().id);
        assert forall|i: int| 0 <= i < pa.len() implies (#[trigger] pa[i]).id == pb[i].id by {
            assert(pa[i] == a[i] && pb[i] == b[i]);
        }
        lemma_find_view_ids(pa, pb, id);
    }
}

impl AppState {
    /// The invariant of a state: recorded edits can be replayed without overflow, and every
    /// buffer is short enough for offsets to be added.
    pub closed spec fn wf(&self) -> bool {
        &&& stack_fits(self.model().undo)
        &&& stack_fits(self.model().redo)
        &&& forall|i: int| 0 <= i < self.model().buffers.len() ==> (#[trigger] self.model().buffers[i]).text.len() <= isize::MAX
        &&& forall|i: int| 0 <= i < self.model().buffers.len() ==> valid_utf8((#[trigger] self.model().buffers[i]).text)
    }

    /// What a state with a valid invariant states of its buffers.
    pub proof fn lemma_wf(&self)
        requires
            self.wf(),
        ensures
            forall|i: int| 0 <= i < self.model().buffers.len() ==> (#[trigger] self.model().buffers[i]).text.len() <= isize::MAX,
            forall|i: int| 0 <= i < self.model().buffers.len() ==> valid_utf8((#[trigger] self.model().buffers[i]).text),
            stack_fits(self.model().undo),
            stack_fits(self.model().redo),
    {
    }

    pub fn new(app_name: &str) -> (r: Self)
        ensures
            r.model() == (StateModel {
                app_name: app_name@,
                active_window: WindowId(1),
                active_view: None,
                buffers: Seq::empty(),
                views: Seq::empty(),
                undo: Seq::empty(),
                redo: Seq::empty(),
                next_buffer_id: 1,
                next_view_id: 1,
                next_window_id: 2,
            }),
            r.wf(),
    {
        let mut ids = IdAllocator::new();
        let active_window = WindowId::next(&mut ids);
        let r = AppState {
            app_name: app_name.to_owned(),
            active_window,
            active_view: None,
            buffers: Vec::new(),
            views: Vec::new(),
            undo_stack: Vec::new(),
            redo_stack: Vec::new(),
            ids,
        };
        proof {
            assert(r.model().buffers == Seq::<BufferModel>::empty());
            assert(r.model().views == Seq::<ViewModel>::empty());
            assert(r.model().undo == Seq::<Seq<RecordModel>>::empty());
            assert(r.model().redo == Seq::<Seq<RecordModel>>::empty());
        }
        r
    }

    pub fn app_name(&self) -> (r: &str)
        ensures
            r@ == self.model().app_name,
    {
        self.app_name.as_str()
    }

    pub fn active_window(&self) -> (r: WindowId)
        ensures
            r == self.model().active_window,
    {
        self.active_window
    }

    pub fn active_view_id(&self) -> (r: Option<ViewId>)
        ensures
            r == self.model().active_view,
    {
        self.active_view
    }

    fn buffer_index(&self, id: BufferId) -> (r: Option<usize>)
        ensures
            r is None <==> find_buffer(self.model().buffers, id) < 0,
            r matches Some(i) ==> i == find_buffer(self.model().buffers, id) && i < self.buffers@.len(),
            self.model().buffers.len() == self.buffers@.len(),
    {
        proof {
            lemma_find_buffer(self.model().buffers, id);
            assert(self.model().buffers.take(self.buffers.len() as int) == self.model().buffers);
        }
        let mut i: usize = self.buffers.len();
        while i > 0
            invariant
                i <= self.buffers.len(),
                self.model().buffers.len() == self.buffers@.len(),
                forall|k: int| 0 <= k < self.buffers@.len() ==> (#[trigger] self.model().buffers[k]) == self.buffers@[k]@,
                find_buffer(self.model().buffers, id) == find_buffer(self.model().buffers.take(i as int), id),
            decreases i,
        {
            proof {
                assert(self.model().buffers.take(i as int).drop_last() == self.model().buffers.take(i - 1));
                assert(self.model().buffers.take(i as int).last() == self.model().buffers[i - 1]);
                assert(self.model().buffers[i - 1] == self.buffers@[i - 1]@);
            }
            if self.buffers[i - 1].id() == id {
                return Some(i - 1);
            }
            i = i - 1;
        }
        None
    }

    fn view_index(&self, id: ViewId) -> (r: Option<usize>)
        ensures
            r is None <==> find_view(self.model().views, id) < 0,
            r matches Some(i) ==> i == find_view(self.model().views, id) && i < self.views@.len(),
            self.model().views.len() == self.views@.len(),
    {
        proof {
            lemma_find_view(self.model().views, id);
            assert(self.model().views.take(self.views.len() as int) == self.model().views);
        }
        let mut i: usize = self.views.len();
        while i > 0
            invariant
                i <= self.views.len(),
                self.model().views.len() == self.views@.len(),
                forall|k: int| 0 <= k < self.views@.len() ==> (#[trigger] self.model().views[k]) == self.views@[k]@,
                find_view(self.model().views, id) == find_view(self.model().views.take(i as int), id),
            decreases i,
        {
            proof {
                assert(self.model().views.take(i as int).drop_last() == self.model().views.take(i - 1));
                assert(self.model().views.take(i as int).last() == self.model().views[i - 1]);
                assert(self.model().views[i - 1] == self.views@[i - 1]@);
            }
            if self.views[i - 1].id() == id {
                return Some(i - 1);
            }
            i = i - 1;
        }
        None
    }

    pub fn buffer(&self, id: BufferId) -> (r: Option<&Buffer>)
        ensures
            r is None <==> find_buffer(self.model().buffers, id) < 0,
            r matches Some(b) ==> b@ == self.model().buffers[find_buffer(self.model().buffers, id)],
    {
        match self.buffer_index(id) {
            Some(i) => Some(&self.buffers[i]),
            None => None,
        }
    }

    pub fn buffer_mut(&mut self, id: BufferId) -> (r: Option<&mut Buffer>)
        ensures
            r is None <==> find_buffer(old(self).model().buffers, id) < 0,
            r is None ==> final(self).model() == old(self).model(),
    {
        match self.buffer_index(id) {
            Some(i) => Some(&mut self.buffers[i]),
            None => None,
        }
    }

    pub fn view(&self, id: ViewId) -> (r: Option<&View>)
        ensures
            r is None <==> find_view(self.model().views, id) < 0,
            r matches Some(v) ==> v@ == self.model().views[find_view(self.model().views, id)],
    {
        match self.view_index(id) {
            Some(i) => Some(&self.views[i]),
            None => None,
        }
    }

    pub fn view_mut(&mut self, id: ViewId) -> (r: Option<&mut View>)
        ensures
            r is None <==> find_view(old(self).model().views, id) < 0,
            r is None ==> final(self).model() == old(self).model(),
    {
        match self.view_index(id) {
            Some(i) => Some(&mut self.views[i]),
            None => None,
        }
    }
}

/// Stable insertion of `x` into `s`, after every id not greater than it.
pub open spec fn insert_id(s: Seq<ViewId>, x: ViewId) -> Seq<ViewId>
    decreases s.len(),
{
    if s.len() == 0 || s.last().0 <= x.0 {
        s.push(x)
    } else {
        insert_id(s.drop_last(), x).push(s.last())
    }
}

/// The ids of `s` in increasing order.
pub open spec fn sort_ids(s: Seq<ViewId>) -> Seq<ViewId>
    decreases s.len(),
{
    if s.len() == 0 {
        s
    } else {
        insert_id(sort_ids(s.drop_last()), s.last())
    }
}

pub open spec fn view_id_list(views: Seq<ViewModel>) -> Seq<ViewId> {
    views.map_values(|v: ViewModel| v.id)
}

/// The ids sorted are in increasing order and are the ids that were given.
pub proof fn lemma_sort_ids(s: Seq<ViewId>)
    ensures
        sort_ids(s).len() == s.len(),
        forall|i: int, j: int| 0 <= i < j < s.len() ==> (#[trigger] sort_ids(s)[i]).0 <= (#[trigger] sort_ids(s)[j]).0,
        forall|x: ViewId| #[trigger] sort_ids(s).contains(x) <==> s.contains(x),
    decreases s.len(),
{
    if s.len() > 0 {
        let p = s.drop_last();
        lemma_sort_ids(p);
        lemma_insert_id(sort_ids(p), s.last());
        assert forall|x: ViewId| #[trigger] sort_ids(s).contains(x) <==> s.contains(x) by {
            if p.contains(x) {
                let k = choose|k: int| 0 <= k < p.len() && p[k] == x;
                assert(s[k] == x);
            }
            if s.contains(x) {
                let k = choose|k: int| 0 <= k < s.len() && s[k] == x;
                if k < s.len() - 1 {
                    assert(p[k] == x);
                }
            }
        }
    }
}

proof fn lemma_insert_id(s: Seq<ViewId>, x: ViewId)
    requires
        forall|i: int, j: int| 0 <= i < j < s.len() ==> (#[trigger] s[i]).0 <= (#[trigger] s[j]).0,
    ensures
        insert_id(s, x).len() == s.len() + 1,
        forall|i: int, j: int| 0 <= i < j < s.len() + 1 ==> (#[trigger] insert_id(s, x)[i]).0 <= (#[trigger] insert_id(s, x)[j]).0,
        forall|y: ViewId| #[trigger] insert_id(s, x).contains(y) <==> (s.contains(y) || y == x),
    decreases s.len(),
{
    let t = insert_id(s, x);
    if s.len() == 0 || s.last().0 <= x.0 {
        assert forall|i: int, j: int| 0 <= i < j < t.len() implies (#[trigger] t[i]).0 <= (#[trigger] t[j]).0 by {
            if j == t.len() - 1 && i < s.len() - 1 {
                assert(s[i].0 <= s[s.len() - 1].0);
            }
        }
        assert forall|y: ViewId| #[trigger] t.contains(y) <==> (s.contains(y) || y == x) by {
            if t.contains(y) {
                let k = choose|k: int| 0 <= k < t.len() && t[k] == y;
                if k < s.len() {
                    assert(s[k] == y);
                }
            }
            if s.contains(y) {
                let k = choose|k: int| 0 <= k < s.len() && s[k] == y;
                assert(t[k] == y);
            }
            if y == x {
                assert(t[s.len() as int] == y);
            }
        }
    } else {
        let p = s.drop_last();
        lemma_insert_id(p, x);
        let u = insert_id(p, x);
        assert(t == u.push(s.last()));
        assert forall|i: int, j: int| 0 <= i < j < t.len() implies (#[trigger] t[i]).0 <= (#[trigger] t[j]).0 by {
            if j == t.len() - 1 && i < u.len() {
                assert(u.contains(u[i]));
                if u[i] != x {
                    assert(p.contains(u[i]));
                    let k = choose|k: int| 0 <= k < p.len() && p[k] == u[i];
                    assert(s[k] == p[k]);
                }
            }
        }
        assert forall|y: ViewId| #[trigger] t.contains(y) <==> (s.contains(y) || y == x) by {
            if t.contains(y) {
                let k = choose|k: int| 0 <= k < t.len() && t[k] == y;
                if k < u.len() {
                    assert(u.contains(y));
                    if p.contains(y) {
                        let m = choose|m: int| 0 <= m < p.len() && p[m] == y;
                        assert(s[m] == y);
                    }
                } else {
                    assert(s[s.len() - 1] == y);
                }
            }
            if s.contains(y) {
                let k = choose|k: int| 0 <= k < s.len() && s[k] == y;
                if k < s.len() - 1 {
                    assert(p[k] == y);
                    assert(p.contains(y));
                    assert(u.contains(y));
                    let m = choose|m: int| 0 <= m < u.len() && u[m] == y;
                    assert(t[m] == y);
                } else {
                    assert(t[t.len() - 1] == y);
                }
            }
            if y == x {
                assert(u.contains(x));
                let m = choose|m: int| 0 <= m < u.len() && u[m] == x;
                assert(t[m] == x);
            }
        }
    }
}

impl AppState {
    /// Creates an empty buffer and a view onto it with a caret at 0, and makes that view active.
    pub fn create_empty_buffer_and_view(&mut self) -> (r: (BufferId, ViewId))
        requires
            old(self).wf(),
        ensures
            r == (BufferId(old(self).model().next_buffer_id), ViewId(old(self).model().next_view_id)),
            final(self).model() == with_new_buffer_and_view(old(self).model()),
            final(self).wf(),
            ids_below(old(self).model()) && old(self).model().next_buffer_id < u64::MAX
                && old(self).model().next_view_id < u64::MAX ==> ids_below(final(self).model())
                && (forall|i: int| 0 <= i < old(self).model().buffers.len() ==> (#[trigger] old(self).model().buffers[i]).id != r.0)
                && (forall|i: int| 0 <= i < old(self).model().views.len() ==> (#[trigger] old(self).model().views[i]).id != r.1),
    {
        let buffer = Buffer::new_empty(&mut self.ids);
        let buffer_id = buffer.id();
        let mut view = View::new(&mut self.ids, buffer_id);
        let view_id = view.id();
        view.set_single_selection(Region::new(0, 0));
        proof {
            buffer.lemma_valid();
        }
        self.buffers.push(buffer);
        self.views.push(view);
        self.active_view = Some(view_id);
        proof {
            assert(self.model().buffers == old(self).model().buffers.push(buffer@));
            assert(self.model().views == old(self).model().views.push(view@));
        }
        (buffer_id, view_id)
    }

    /// Makes `view_id` the active view.
    pub fn set_active_view(&mut self, view_id: ViewId)
        ensures
            final(self).model() == (StateModel { active_view: Some(view_id), ..old(self).model() }),
            old(self).wf() ==> final(self).wf(),
    {
        self.active_view = Some(view_id);
    }

    /// Index of the active view, if it exists.
    pub open spec fn active_view_index(&self) -> int {
        match self.model().active_view {
            Some(id) => find_view(self.model().views, id),
            None => -1,
        }
    }

    /// Index of the buffer of the active view, if both exist.
    pub open spec fn active_buffer_index(&self) -> int {
        if self.active_view_index() >= 0 {
            find_buffer(self.model().buffers, self.model().views[self.active_view_index()].buffer_id)
        } else {
            -1
        }
    }

    pub fn active_view(&self) -> (r: Option<&View>)
        ensures
            r is None <==> self.active_view_index() < 0,
            r matches Some(v) ==> v@ == self.model().views[self.active_view_index()],
    {
        match self.active_view {
            Some(id) => self.view(id),
            None => None,
        }
    }

    pub fn active_buffer_id(&self) -> (r: Option<BufferId>)
        ensures
            r is None <==> self.active_view_index() < 0,
            r matches Some(id) ==> id == self.model().views[self.active_view_index()].buffer_id,
    {
        match self.active_view() {
            Some(v) => Some(v.buffer_id()),
            None => None,
        }
    }

    pub fn active_buffer(&self) -> (r: Option<&Buffer>)
        ensures
            r is None <==> self.active_buffer_index() < 0,
            r matches Some(b) ==> b@ == self.model().buffers[self.active_buffer_index()],
    {
        match self.active_view() {
            Some(v) => self.buffer(v.buffer_id()),
            None => None,
        }
    }

    pub fn active_buffer_mut(&mut self) -> (r: Option<&mut Buffer>)
        ensures
            r is None <==> old(self).active_buffer_index() < 0,
            r is None ==> final(self).model() == old(self).model(),
    {
        match self.active_buffer_id() {
            Some(id) => self.buffer_mut(id),
            None => None,
        }
    }

    /// The ids of all views, in increasing order.
    pub fn view_ids(&self) -> (r: Vec<ViewId>)
        ensures
            r@ == sort_ids(view_id_list(self.model().views)),
    {
        let ghost ids = view_id_list(self.model().views);
        let mut out: Vec<ViewId> = Vec::new();
        let mut i: usize = 0;
        while i < self.views.len()
            invariant
                i <= self.views.len(),
                ids.len() == self.views@.len(),
                forall|k: int| 0 <= k < self.views@.len() ==> (#[trigger] ids[k]) == self.views@[k]@.id,
                out@ == sort_ids(ids.take(i as int)),
            decreases self.views.len() - i,
        {
            let x = self.views[i].id();
            let ghost before = out@;
            let mut j: usize = out.len();
            proof {
                assert(before.take(j as int) == before);
                assert(before.skip(j as int) == Seq::<ViewId>::empty());
                assert(insert_id(before, x) + Seq::<ViewId>::empty() == insert_id(before, x));
            }
            while j > 0 && out[j - 1].0 > x.0
                invariant
                    j <= out.len(),
                    out@ == before,
                    insert_id(before, x) == insert_id(before.take(j as int), x) + before.skip(j as int),
                decreases j,
            {
                proof {
                    let tj = before.take(j as int);
                    assert(tj.drop_last() == before.take(j - 1));
                    assert(tj.last() == before[j - 1]);
                    assert(insert_id(before.take(j - 1), x).push(before[j - 1]) + before.skip(j as int)
                        == insert_id(before.take(j - 1), x) + before.skip(j - 1));
                }
                j = j - 1;
            }
            proof {
                let tj = before.take(j as int);
                if j > 0 {
                    assert(tj.last() == before[j - 1]);
                }
                assert(insert_id(tj, x) == tj.push(x));
            }
            out.insert(j, x);
            proof {
                assert(out@ == before.take(j as int).push(x) + before.skip(j as int));
                assert(ids.take(i + 1).drop_last() == ids.take(i as int));
                assert(ids.take(i + 1).last() == x);
            }
            i = i + 1;
        }
        proof {
            assert(ids.take(self.views.len() as int) == ids);
        }
        out
    }

    /// A copy of the regions selected in the active view.
    pub fn active_selection_regions(&self) -> (r: Option<Vec<Region>>)
        ensures
            r is None <==> self.active_view_index() < 0,
            r matches Some(v) ==> v@ == self.model().views[self.active_view_index()].selections,
    {
        match self.active_view() {
            Some(v) => Some(vstd::slice::slice_to_vec(v.sel().as_slice())),
            None => None,
        }
    }

    /// Replaces the selections of the active view with the normal form of `regions`.
    pub fn set_active_selections(&mut self, regions: Vec<Region>) -> (r: Result<(), BufferError>)
        ensures
            old(self).active_view_index() < 0 ==> r == Err::<(), BufferError>(BufferError::NoActiveView)
                && final(self).model() == old(self).model(),
            old(self).active_view_index() >= 0 ==> r is Ok && final(self).model() == (StateModel {
                views: old(self).model().views.update(
                    old(self).active_view_index(),
                    ViewModel {
                        selections: normalize_regions(regions@),
                        ..old(self).model().views[old(self).active_view_index()]
                    },
                ),
                ..old(self).model()
            }),
            old(self).wf() ==> final(self).wf(),
    {
        let view_id = match self.active_view {
            Some(id) => id,
            None => return Err(BufferError::NoActiveView),
        };
        let i = match self.view_index(view_id) {
            Some(i) => i,
            None => return Err(BufferError::NoActiveView),
        };
        self.views[i].set_selections(regions);
        proof {
            assert(self.model().views == old(self).model().views.update(
                i as int,
                ViewModel {
                    selections: normalize_regions(regions@),
                    ..old(self).model().views[i as int]
                },
            ));
        }
        Ok(())
    }

    pub fn undo_depth(&self) -> (r: usize)
        ensures
            r == self.model().undo.len(),
    {
        self.undo_stack.len()
    }

    pub fn redo_depth(&self) -> (r: usize)
        ensures
            r == self.model().redo.len(),
    {
        self.redo_stack.len()
    }

    pub fn buffer_count(&self) -> (r: usize)
        ensures
            r == self.model().buffers.len(),
    {
        self.buffers.len()
    }

    pub fn view_count(&self) -> (r: usize)
        ensures
            r == self.model().views.len(),
    {
        self.views.len()
    }

    /// Closes view `view_id` together with its buffer. Closing the active view activates the view
    /// with the smallest id that remains, if any. Returns the active view afterwards, or `None`
    /// when there is no such view to close.
    pub fn close_view(&mut self, view_id: ViewId) -> (r: Option<ViewId>)
        requires
            old(self).wf(),
        ensures
            (r, final(self).model()) == closed_view(old(self).model(), view_id),
            final(self).wf(),
    {
        let i = match self.view_index(view_id) {
            Some(i) => i,
            None => return None,
        };
        let ghost m = self.model();
        let view = self.views.remove(i);
        let buffer_id = view.buffer_id();
        proof {
            assert(self.model().views == m.views.remove(i as int));
        }
        let ghost mid = self.model();
        match self.buffer_index(buffer_id) {
            Some(j) => {
                let _removed = self.buffers.remove(j);
                proof {
                    assert(self.model().buffers == m.buffers.remove(j as int));
                }
            },
            None => {},
        }
        let next_active = if self.active_view == Some(view_id) {
            let ids = self.view_ids();
            if ids.len() > 0 {
                Some(ids[0])
            } else {
                None
            }
        } else {
            self.active_view
        };
        self.active_view = next_active;
        proof {
            assert(self.model().views == m.views.remove(i as int));
            assert forall|k: int| 0 <= k < self.model().buffers.len() implies
                (#[trigger] self.model().buffers[k]).text.len() <= isize::MAX
                && valid_utf8(self.model().buffers[k].text) by {
                let j = find_buffer(m.buffers, buffer_id);
                if j >= 0 && k >= j {
                    assert(self.model().buffers[k] == m.buffers[k + 1]);
                } else {
                    assert(self.model().buffers[k] == m.buffers[k]);
                }
            }
        }
        next_active
    }
}

/// The state after closing view `view_id`, and the view active then.
pub open spec fn closed_view(m: StateModel, view_id: ViewId) -> (Option<ViewId>, StateModel) {
    let i = find_view(m.views, view_id);
    if i < 0 {
        (None, m)
    } else {
        let views = m.views.remove(i);
        let j = find_buffer(m.buffers, m.views[i].buffer_id);
        let buffers = if j >= 0 {
            m.buffers.remove(j)
        } else {
            m.buffers
        };
        let ids = sort_ids(view_id_list(views));
        let active = if m.active_view == Some(view_id) {
            if ids.len() > 0 {
                Some(ids[0])
            } else {
                None
            }
        } else {
            m.active_view
        };
        (active, StateModel { views, buffers, active_view: active, ..m })
    }
}

impl StateModel {
    /// Replacing one buffer of a state that has a valid invariant by a valid, short enough one
    /// keeps the invariant.
    proof fn lemma_wf_model_update(self, other: &AppState, i: int)
        requires
            forall|j: int| 0 <= j < self.buffers.len() ==> (#[trigger] self.buffers[j]).text.len() <= isize::MAX,
            forall|j: int| 0 <= j < self.buffers.len() ==> valid_utf8((#[trigger] self.buffers[j]).text),
            stack_fits(self.undo),
            stack_fits(self.redo),
            0 <= i < self.buffers.len(),
            other.model().undo == self.undo,
            other.model().redo == self.redo,
            other.model().buffers == self.buffers.update(i, other.model().buffers[i]),
            other.model().buffers[i].text.len() <= isize::MAX,
            valid_utf8(other.model().buffers[i].text),
        ensures
            other.wf(),
    {
    }
}

impl AppState {
    /// The invariant survives replacing one buffer by a valid, short enough one.
    proof fn lemma_wf_update(&self, other: &Self, i: int)
        requires
            self.wf(),
            0 <= i < self.model().buffers.len(),
            other.model().undo == self.model().undo,
            other.model().redo == self.model().redo,
            other.model().buffers.len() == self.model().buffers.len(),
            forall|j: int| 0 <= j < self.model().buffers.len() && j != i ==> other.model().buffers[j] == self.model().buffers[j],
            other.model().buffers[i].text.len() <= isize::MAX,
            valid_utf8(other.model().buffers[i].text),
        ensures
            other.wf(),
    {
    }

    /// Replaces `range` of buffer `buffer_id` with `new_text`, outside the undo history.
    fn apply_edit_without_history(
        &mut self,
        buffer_id: BufferId,
        range: Range<usize>,
        new_text: &str,
    ) -> (r: Result<(), BufferError>)
        requires
            old(self).wf(),
        ensures
            ({
                let out = replace_outcome(
                    old(self).model().buffers,
                    buffer_id,
                    range.start,
                    range.end,
                    new_text.spec_bytes(),
                );
                &&& final(self).model() == (StateModel { buffers: out.0, ..old(self).model() })
                &&& (out.1 is Some ==> r == Err::<(), BufferError>(out.1.unwrap()))
                &&& (out.1 is None ==> r is Ok)
            }),
            final(self).wf(),
    {
        let i = match self.buffer_index(buffer_id) {
            Some(i) => i,
            None => {
                return Err(BufferError::InvalidRange { start: range.start, end: range.end, len: 0 });
            },
        };
        let ghost before = self.model();
        let ghost bi = self.buffers@[i as int];
        proof {
            assert(before.buffers[i as int] == bi@);
        }
        let res = self.buffers[i].replace(range, new_text);
        let _ = self.buffers[i].len();
        proof {
            self.buffers@[i as int].lemma_valid();
            assert(self.model().buffers == before.buffers.update(i as int, self.buffers@[i as int]@));
            if res is Err {
                assert(self.model().buffers == before.buffers);
            }
            old(self).lemma_wf_update(self, i as int);
        }
        res
    }

    /// Makes `edits` to buffer `buffer_id` one after the other and records them as one transaction
    /// in the undo history (clearing what could be redone). The first refused edit stops the run:
    /// the edits before it stay made, and nothing is recorded.
    pub fn apply_edits(&mut self, buffer_id: BufferId, edits: Vec<(Range<usize>, String)>) -> (r:
        Result<EditTransaction, BufferError>)
        requires
            old(self).wf(),
        ensures
            ({
                let run = run_edits(old(self).model().buffers, buffer_id, edit_models(edits@));
                &&& run.err is Some ==> r == Err::<EditTransaction, BufferError>(run.err.unwrap())
                    && final(self).model() == (StateModel { buffers: run.bufs, ..old(self).model() })
                &&& run.err is None && run.records.len() > 0 ==> r is Ok
                    && transaction_model(r.unwrap()) == run.records
                    && final(self).model() == (StateModel {
                        buffers: run.bufs,
                        undo: old(self).model().undo.push(run.records),
                        redo: Seq::empty(),
                        ..old(self).model()
                    })
                &&& run.err is None && run.records.len() == 0 ==> r is Ok
                    && transaction_model(r.unwrap()) == run.records
                    && final(self).model() == old(self).model()
            }),
            final(self).wf(),
    {
        let ghost es = edit_models(edits@);
        let ghost start_model = self.model();
        let mut transaction: Vec<EditRecord> = Vec::new();
        let mut k: usize = 0;
        proof {
            assert(es.take(0) == Seq::<EditModel>::empty());
            assert(transaction_model(transaction) == Seq::<RecordModel>::empty());
        }
        while k < edits.len()
            invariant
                k <= edits.len(),
                es == edit_models(edits@),
                self.wf(),
                start_model == old(self).model(),
                run_edits(start_model.buffers, buffer_id, es.take(k as int)) == (EditRun {
                    bufs: self.model().buffers,
                    records: transaction_model(transaction),
                    err: None,
                }),
                self.model() == (StateModel { buffers: self.model().buffers, ..start_model }),
                forall|j: int| 0 <= j < transaction@.len() ==> record_fits(#[trigger] transaction@[j]@),
            decreases edits.len() - k,
        {
            let start = edits[k].0.start;
            let end = edits[k].0.end;
            proof {
                assert(es.take(k + 1).drop_last() == es.take(k as int));
                assert(es.take(k + 1).last() == es[k as int]);
                assert(es[k as int] == edit_model(edits@[k as int]));
            }
            let i = match self.buffer_index(buffer_id) {
                Some(i) => i,
                None => {
                    proof {
                        lemma_run_edits_stopped(start_model.buffers, buffer_id, es, k + 1);
                    }
                    return Err(BufferError::InvalidRange { start, end, len: 0 });
                },
            };
            proof {
                assert(self.model().buffers[i as int] == self.buffers@[i as int]@);
            }
            let old_text = match self.buffers[i].substr(start..end) {
                Err(e) => {
                    proof {
                        lemma_run_edits_stopped(start_model.buffers, buffer_id, es, k + 1);
                    }
                    return Err(e);
                },
                Ok(t) => t.to_owned(),
            };
            let len_before = self.buffers[i].len();
            let ghost before = self.model();
            let ghost bi = self.buffers@[i as int];
            match self.buffers[i].replace(start..end, edits[k].1.as_str()) {
                Err(e) => {
                    proof {
                        assert(self.buffers@[i as int]@ == bi@);
                        assert(self.model().buffers == before.buffers);
                        lemma_run_edits_stopped(start_model.buffers, buffer_id, es, k + 1);
                    }
                    return Err(e);
                },
                Ok(()) => {},
            }
            let _ = self.buffers[i].len();
            proof {
                self.buffers@[i as int].lemma_valid();
                bi.lemma_valid();
                assert(self.model().buffers == before.buffers.update(i as int, self.buffers@[i as int]@));
                before.lemma_wf_model_update(self, i as int);
            }
            let record = EditRecord {
                buffer_id,
                range_start: start,
                old_text,
                new_text: edits[k].1.clone(),
            };
            proof {
                let t = bi@.text;
                vstd::utf8::encode_utf8_valid_utf8(edits@[k as int].1@);
                lemma_splice(t, start as int, end as int, encode_utf8(edits@[k as int].1@));
                vstd::utf8::encode_utf8_decode_utf8(old_text@);
            }
            let ghost tm = transaction_model(transaction);
            transaction.push(record);
            proof {
                assert(transaction_model(transaction) == tm.push(record@));
            }
            k = k + 1;
        }
        proof {
            assert(es.take(edits.len() as int) == es);
        }
        if transaction.len() > 0 {
            let copy = clone_transaction(&transaction);
            let ghost mid = self.model();
            self.undo_stack.push(copy);
            self.redo_stack.clear();
            proof {
                assert(self.model().undo == mid.undo.push(transaction_model(transaction)));
                assert(self.model().redo == Seq::<Seq<RecordModel>>::empty());
                let u = self.model().undo;
                assert forall|a: int, b: int| 0 <= a < u.len() && 0 <= b < u[a].len() implies record_fits(#[trigger] u[a][b]) by {
                    if a == u.len() - 1 {
                        assert(u[a][b] == transaction@[b]@);
                    } else {
                        assert(u[a] == mid.undo[a]);
                    }
                }
            }
        }
        Ok(transaction)
    }
}

/// Once a run of edits stopped, further edits change nothing.
pub proof fn lemma_run_edits_stopped(bufs: Seq<BufferModel>, id: BufferId, es: Seq<EditModel>, j: int)
    requires
        0 <= j <= es.len(),
        run_edits(bufs, id, es.take(j)).err is Some,
    ensures
        run_edits(bufs, id, es) == run_edits(bufs, id, es.take(j)),
    decreases es.len() - j,
{
    if j < es.len() {
        assert(es.drop_last().take(j) == es.take(j));
        lemma_run_edits_stopped(bufs, id, es.drop_last(), j);
    } else {
        assert(es.take(j) == es);
    }
}

impl AppState {
    /// Makes one edit and records it as a transaction of its own.
    pub fn apply_edit(&mut self, buffer_id: BufferId, range: Range<usize>, new_text: &str) -> (r:
        Result<EditRecord, BufferError>)
        requires
            old(self).wf(),
        ensures
            ({
                let e = EditModel { start: range.start, end: range.end, text: new_text.spec_bytes() };
                let run = run_edits(old(self).model().buffers, buffer_id, seq![e]);
                &&& run.err is Some ==> r == Err::<EditRecord, BufferError>(run.err.unwrap())
                    && final(self).model() == (StateModel { buffers: run.bufs, ..old(self).model() })
                &&& run.err is None ==> run.records.len() == 1 && r is Ok && r.unwrap()@ == run.records[0]
                    && final(self).model() == (StateModel {
                        buffers: run.bufs,
                        undo: old(self).model().undo.push(run.records),
                        redo: Seq::empty(),
                        ..old(self).model()
                    })
            }),
            final(self).wf(),
    {
        let edits = vec![(range, new_text.to_owned())];
        proof {
            let e = EditModel { start: range.start, end: range.end, text: new_text.spec_bytes() };
            assert(edit_models(edits@) == seq![e]);
            reveal_with_fuel(run_edits, 2);
            assert(seq![e].drop_last() == Seq::<EditModel>::empty());
        }
        let mut transaction = match self.apply_edits(buffer_id, edits) {
            Ok(t) => t,
            Err(e) => return Err(e),
        };
        proof {
            assert(transaction@.len() == transaction_model(transaction).len());
        }
        let record = transaction.remove(0);
        Ok(record)
    }

    /// Undoes the last transaction: its records are reverted from the last to the first, and it
    /// moves to the redo history. `None` when there is nothing to undo. Should a record be refused,
    /// the transaction is dropped from both histories and the error is handed back.
    pub fn undo(&mut self) -> (r: Result<Option<EditTransaction>, BufferError>)
        requires
            old(self).wf(),
        ensures
            undo_outcome(old(self), r, final(self)),
            final(self).wf(),
    {
        let ghost m0 = self.model();
        let transaction = match self.undo_stack.pop() {
            Some(t) => t,
            None => return Ok(None),
        };
        let ghost tx = transaction_model(transaction);
        let ghost m1 = self.model();
        proof {
            assert(tx == m0.undo.last());
            assert(m1.undo =~= m0.undo.drop_last());
            assert(m1 == (StateModel { undo: m0.undo.drop_last(), ..m0 }));
            assert(stack_fits(m1.undo)) by {
                assert forall|a: int, b: int| 0 <= a < m1.undo.len() && 0 <= b < m1.undo[a].len() implies record_fits(#[trigger] m1.undo[a][b]) by {
                    assert(m1.undo[a] == m0.undo[a]);
                }
            }
            assert forall|b: int| 0 <= b < tx.len() implies record_fits(#[trigger] tx[b]) by {
                assert(tx[b] == m0.undo[m0.undo.len() - 1][b]);
            }
        }
        let mut k: usize = transaction.len();
        while k > 0
            invariant
                k <= transaction@.len(),
                tx == transaction_model(transaction),
                forall|b: int| 0 <= b < tx.len() ==> record_fits(#[trigger] tx[b]),
                self.wf(),
                undo_from(m1.buffers, tx, k as int) == (self.model().buffers, None::<BufferError>),
                m0 == old(self).model(),
                m0.undo.len() > 0,
                tx == m0.undo.last(),
                m1 == (StateModel { undo: m0.undo.drop_last(), ..m0 }),
                self.model() == (StateModel { buffers: self.model().buffers, ..m1 }),
            decreases k,
        {
            k = k - 1;
            let record = &transaction[k];
            proof {
                assert(record@ == tx[k as int]);
                assert(record_fits(tx[k as int]));
            }
            let range = record.undo_range();
            match self.apply_edit_without_history(record.buffer_id, range, record.old_text.as_str()) {
                Err(e) => {
                    proof {
                        lemma_undo_stopped(m1.buffers, tx, k as int, 0);
                    }
                    return Err(e);
                },
                Ok(()) => {},
            }
        }
        let copy = clone_transaction(&transaction);
        let ghost m2 = self.model();
        self.redo_stack.push(copy);
        proof {
            assert(self.model().redo == m2.redo.push(tx));
            let u = self.model().redo;
            assert forall|a: int, b: int| 0 <= a < u.len() && 0 <= b < u[a].len() implies record_fits(#[trigger] u[a][b]) by {
                if a < u.len() - 1 {
                    assert(u[a] == m2.redo[a]);
                }
            }
        }
        Ok(Some(transaction))
    }

    /// Redoes the last undone transaction: its records are made again in order, and it moves back
    /// to the undo history. `None` when there is nothing to redo. Should a record be refused, the
    /// transaction is dropped from both histories and the error is handed back.
    pub fn redo(&mut self) -> (r: Result<Option<EditTransaction>, BufferError>)
        requires
            old(self).wf(),
        ensures
            redo_outcome(old(self), r, final(self)),
            final(self).wf(),
    {
        let ghost m0 = self.model();
        let transaction = match self.redo_stack.pop() {
            Some(t) => t,
            None => return Ok(None),
        };
        let ghost tx = transaction_model(transaction);
        let ghost m1 = self.model();
        proof {
            assert(tx == m0.redo.last());
            assert(m1.redo =~= m0.redo.drop_last());
            assert(m1 == (StateModel { redo: m0.redo.drop_last(), ..m0 }));
            assert(stack_fits(m1.redo)) by {
                assert forall|a: int, b: int| 0 <= a < m1.redo.len() && 0 <= b < m1.redo[a].len() implies record_fits(#[trigger] m1.redo[a][b]) by {
                    assert(m1.redo[a] == m0.redo[a]);
                }
            }
            assert forall|b: int| 0 <= b < tx.len() implies record_fits(#[trigger] tx[b]) by {
                assert(tx[b] == m0.redo[m0.redo.len() - 1][b]);
            }
        }
        let mut k: usize = 0;
        while k < transaction.len()
            invariant
                k <= transaction@.len(),
                tx == transaction_model(transaction),
                forall|b: int| 0 <= b < tx.len() ==> record_fits(#[trigger] tx[b]),
                self.wf(),
                redo_upto(m1.buffers, tx, k as int) == (self.model().buffers, None::<BufferError>),
                m0 == old(self).model(),
                m0.redo.len() > 0,
                tx == m0.redo.last(),
                m1 == (StateModel { redo: m0.redo.drop_last(), ..m0 }),
                self.model() == (StateModel { buffers: self.model().buffers, ..m1 }),
            decreases transaction@.len() - k,
        {
            let record = &transaction[k];
            proof {
                assert(record@ == tx[k as int]);
                assert(record_fits(tx[k as int]));
            }
            let range = record.redo_range();
            match self.apply_edit_without_history(record.buffer_id, range, record.new_text.as_str()) {
                Err(e) => {
                    proof {
                        lemma_redo_stopped(m1.buffers, tx, k + 1, tx.len() as int);
                    }
                    return Err(e);
                },
                Ok(()) => {},
            }
            k = k + 1;
        }
        let copy = clone_transaction(&transaction);
        let ghost m2 = self.model();
        self.undo_stack.push(copy);
        proof {
            assert(self.model().undo == m2.undo.push(tx));
            let u = self.model().undo;
            assert forall|a: int, b: int| 0 <= a < u.len() && 0 <= b < u[a].len() implies record_fits(#[trigger] u[a][b]) by {
                if a < u.len() - 1 {
                    assert(u[a] == m2.undo[a]);
                }
            }
        }
        Ok(Some(transaction))
    }
}

/// Once undoing stopped at index `k`, undoing further down to `j` changes nothing.
pub proof fn lemma_undo_stopped(bufs: Seq<BufferModel>, tx: Seq<RecordModel>, k: int, j: int)
    requires
        0 <= j <= k < tx.len(),
        undo_from(bufs, tx, k).1 is Some,
    ensures
        undo_from(bufs, tx, j) == undo_from(bufs, tx, k),
    decreases k - j,
{
    if j < k {
        lemma_undo_stopped(bufs, tx, k, j + 1);
    }
}

/// Once redoing stopped after `k` records, redoing up to `j` changes nothing.
pub proof fn lemma_redo_stopped(bufs: Seq<BufferModel>, tx: Seq<RecordModel>, k: int, j: int)
    requires
        0 < k <= j <= tx.len(),
        redo_upto(bufs, tx, k).1 is Some,
    ensures
        redo_upto(bufs, tx, j) == redo_upto(bufs, tx, k),
    decreases j - k,
{
    if k < j {
        lemma_redo_stopped(bufs, tx, k, j - 1);
    }
}

/// The outcome of undoing the last transaction.
pub open spec fn undo_outcome(old: &AppState, r: Result<Option<EditTransaction>, BufferError>, new: &AppState) -> bool {
    &&& (old.model().undo.len() == 0 ==> r == Ok::<Option<EditTransaction>, BufferError>(None)
        && new.model() == old.model())
    &&& (old.model().undo.len() > 0 ==> ({
        let tx = old.model().undo.last();
        let out = undo_from(old.model().buffers, tx, 0);
        &&& out.1 is Some ==> r == Err::<Option<EditTransaction>, BufferError>(out.1.unwrap())
            && new.model() == (StateModel {
                buffers: out.0,
                undo: old.model().undo.drop_last(),
                ..old.model()
            })
        &&& out.1 is None ==> (r matches Ok(Some(t)) && transaction_model(t) == tx)
            && new.model() == (StateModel {
                buffers: out.0,
                undo: old.model().undo.drop_last(),
                redo: old.model().redo.push(tx),
                ..old.model()
            })
    }))
}

/// The outcome of redoing the last undone transaction.
pub open spec fn redo_outcome(old: &AppState, r: Result<Option<EditTransaction>, BufferError>, new: &AppState) -> bool {
    &&& (old.model().redo.len() == 0 ==> r == Ok::<Option<EditTransaction>, BufferError>(None)
        && new.model() == old.model())
    &&& (old.model().redo.len() > 0 ==> ({
        let tx = old.model().redo.last();
        let out = redo_upto(old.model().buffers, tx, tx.len() as int);
        &&& out.1 is Some ==> r == Err::<Option<EditTransaction>, BufferError>(out.1.unwrap())
            && new.model() == (StateModel {
                buffers: out.0,
                redo: old.model().redo.drop_last(),
                ..old.model()
            })
        &&& out.1 is None ==> (r matches Ok(Some(t)) && transaction_model(t) == tx)
            && new.model() == (StateModel {
                buffers: out.0,
                redo: old.model().redo.drop_last(),
                undo: old.model().undo.push(tx),
                ..old.model()
            })
    }))
}

/// Every buffer and view of the state carries an identifier below the one issued next.
pub open spec fn ids_below(m: StateModel) -> bool {
    &&& forall|i: int| 0 <= i < m.buffers.len() ==> (#[trigger] m.buffers[i]).id.0 < m.next_buffer_id
    &&& forall|i: int| 0 <= i < m.views.len() ==> (#[trigger] m.views[i]).id.0 < m.next_view_id
}

/// A buffer and a view created after another buffer and view carry identifiers of their own.
pub proof fn law_created_ids_differ(m: StateModel)
    ensures
        ({
            let m1 = with_new_buffer_and_view(m);
            let m2 = with_new_buffer_and_view(m1);
            &&& m1.buffers.last().id != m2.buffers.last().id
            &&& m1.views.last().id != m2.views.last().id
        }),
{
}

/// The state with an empty buffer and an active view onto it added under the next ids.
pub open spec fn with_new_buffer_and_view(m: StateModel) -> StateModel {
    (StateModel {
        buffers: m.buffers.push(
            BufferModel {
                id: BufferId(m.next_buffer_id),
                path: None,
                text: Seq::empty(),
                revision: 0,
                dirty: false,
                read_only: false,
            },
        ),
        views: m.views.push(
            ViewModel {
                id: ViewId(m.next_view_id),
                buffer_id: BufferId(m.next_buffer_id),
                name: None,
                scratch: false,
                settings: Seq::empty(),
                selections: seq![Region { a: 0, b: 0 }],
                viewport_bits: (0, 0),
                syntax: None,
            },
        ),
        active_view: Some(ViewId(m.next_view_id)),
        next_buffer_id: next_id(m.next_buffer_id),
        next_view_id: next_id(m.next_view_id),
        ..m
    })
}

} // verus!
