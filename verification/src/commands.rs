//! The editing commands of the application state, built on its public operations.
use std::ops::Range;

use vstd::prelude::*;
use vstd::string::StringSliceAdditionalSpecFns;

use crate::buffer::{Buffer, BufferError};
use crate::selection::{normalize_regions, Region};
use crate::history::RecordModel;
use crate::buffer::BufferModel;
use crate::ids::BufferId;
use crate::selection::lemma_normalize_single;
use crate::state::{edit_models, find_buffer, replaced, run_edits, AppState, EditModel, EditRun, StateModel};
use crate::text::{
    count_newlines, full_line_end, lemma_next_char_end_of, lemma_prev_char_start_of,
    lemma_row_start_of, line_begin, line_end, next_char_end_of, prev_char_start_of,
    row_start_of, valid_range,
};
use crate::view::ViewModel;

verus! {

/// How a caret command moves each region.
#[derive(Debug, Clone, Copy, PartialEq, Eq, Structural)]
pub enum CaretMotion {
    Left,
    Right,
    LineStart,
    LineEnd,
    Up,
    Down,
    WholeLine,
}

/// A caret at `p`.
pub open spec fn caret_at(p: int) -> Region {
    Region { a: p as usize, b: p as usize }
}

/// The caret of `r`, pulled back to the end of the text.
pub open spec fn clamp(t: Seq<u8>, caret: usize) -> usize {
    if caret <= t.len() {
        caret
    } else {
        t.len() as usize
    }
}

/// The error for a point that is not a character boundary of `t`.
pub open spec fn bad_point(t: Seq<u8>, p: usize) -> BufferError {
    BufferError::InvalidRange { start: p, end: p, len: t.len() as usize }
}

pub open spec fn is_point(t: Seq<u8>, p: usize) -> bool {
    valid_range(t, p as int, p as int)
}

/// The offset `col` bytes into row `row`, but no further than the end of that row.
pub open spec fn text_point_of(t: Seq<u8>, row: int, col: int) -> int {
    let k = row_start_of(t, row);
    if k + col <= line_end(t, k) {
        k + col
    } else {
        line_end(t, k)
    }
}

/// Where one region goes under a caret motion.
pub open spec fn motion_region(t: Seq<u8>, m: CaretMotion, r: Region) -> Result<Region, BufferError> {
    match m {
        CaretMotion::Left => if r.a != r.b {
            Ok(caret_at(r.lo() as int))
        } else if !is_point(t, r.b) {
            Err(bad_point(t, r.b))
        } else if r.b == 0 {
            Ok(caret_at(0))
        } else {
            Ok(caret_at(prev_char_start_of(t, r.b as int)))
        },
        CaretMotion::Right => if r.a != r.b {
            Ok(caret_at(r.hi() as int))
        } else if !is_point(t, r.b) {
            Err(bad_point(t, r.b))
        } else if r.b == t.len() {
            Ok(caret_at(t.len() as int))
        } else {
            Ok(caret_at(next_char_end_of(t, r.b as int)))
        },
        _ => {
            let p = clamp(t, r.b);
            if !is_point(t, p) {
                Err(bad_point(t, p))
            } else {
                let row = count_newlines(t, p as int);
                let col = p - line_begin(t, p as int);
                match m {
                    CaretMotion::LineStart => Ok(caret_at(line_begin(t, p as int))),
                    CaretMotion::LineEnd => Ok(caret_at(line_end(t, p as int))),
                    CaretMotion::Up => if row == 0 {
                        Ok(caret_at(0))
                    } else {
                        Ok(caret_at(text_point_of(t, row - 1, col)))
                    },
                    CaretMotion::Down => if row + 1 >= count_newlines(t, t.len() as int) + 1 {
                        Ok(caret_at(t.len() as int))
                    } else {
                        Ok(caret_at(text_point_of(t, (row + 1) as int, col)))
                    },
                    _ => Ok(
                        Region {
                            a: line_begin(t, p as int) as usize,
                            b: full_line_end(t, p as int) as usize,
                        },
                    ),
                }
            }
        },
    }
}

/// Moving every region in order; the first refusal stops the command.
pub open spec fn motion_all(t: Seq<u8>, m: CaretMotion, rs: Seq<Region>) -> Result<Seq<Region>, BufferError>
    decreases rs.len(),
{
    if rs.len() == 0 {
        Ok(Seq::empty())
    } else {
        match motion_all(t, m, rs.drop_last()) {
            Err(e) => Err(e),
            Ok(v) => match motion_region(t, m, rs.last()) {
                Err(e) => Err(e),
                Ok(x) => Ok(v.push(x)),
            },
        }
    }
}

/// The state with the selections of view `i` replaced.
pub open spec fn with_selections(m: StateModel, i: int, sel: Seq<Region>) -> StateModel {
    StateModel { views: m.views.update(i, ViewModel { selections: sel, ..m.views[i] }), ..m }
}

/// The outcome of a command that only moves the regions of the active view.
pub open spec fn motion_outcome(
    old: &AppState,
    m: CaretMotion,
    r: Result<usize, BufferError>,
    new: &AppState,
) -> bool {
    if old.active_buffer_index() < 0 {
        r == Err::<usize, BufferError>(BufferError::NoActiveView) && new.model() == old.model()
    } else {
        let t = old.model().buffers[old.active_buffer_index()].text;
        let sels = old.model().views[old.active_view_index()].selections;
        match motion_all(t, m, sels) {
            Err(e) => r == Err::<usize, BufferError>(e) && new.model() == old.model(),
            Ok(v) => r == Ok::<usize, BufferError>(normalize_regions(v).len() as usize)
                && new.model() == with_selections(old.model(), old.active_view_index(), normalize_regions(v)),
        }
    }
}

fn motion_region_exec(buffer: &Buffer, m: CaretMotion, region: Region) -> (r: Result<Region, BufferError>)
    ensures
        r == motion_region(buffer@.text, m, region),
{
    let ghost t = buffer@.text;
    proof {
        buffer.lemma_valid();
    }
    match m {
        CaretMotion::Left => {
            if !region.empty() {
                let p = region.begin();
                proof {
                    assert(motion_region(t, m, region) == Ok::<Region, BufferError>(caret_at(p as int)));
                }
                return Ok(Region { a: p, b: p });
            }
            let p = match buffer.prev_char_start(region.caret()) {
                Err(e) => return Err(e),
                Ok(Some(j)) => {
                    proof {
                        lemma_prev_char_start_of(t, region.b as int, j as int);
                        assert(region.b != 0);
                    }
                    j
                },
                Ok(None) => 0,
            };
            proof {
                assert(is_point(t, region.b));
                assert(region.a == region.b);
                if region.b == 0 {
                    assert(p == 0);
                } else {
                    assert(p == prev_char_start_of(t, region.b as int));
                }
                assert(motion_region(t, m, region) == Ok::<Region, BufferError>(caret_at(p as int)));
            }
            Ok(Region { a: p, b: p })
        },
        CaretMotion::Right => {
            if !region.empty() {
                let p = region.end();
                return Ok(Region { a: p, b: p });
            }
            let p = match buffer.next_char_end(region.caret()) {
                Err(e) => return Err(e),
                Ok(Some(j)) => {
                    proof {
                        lemma_next_char_end_of(t, region.b as int, j as int);
                    }
                    j
                },
                Ok(None) => buffer.len(),
            };
            Ok(Region { a: p, b: p })
        },
        _ => {
            let len = buffer.len();
            let point = if region.caret() <= len {
                region.caret()
            } else {
                len
            };
            proof {
                if is_point(t, point) {
                    crate::buffer::lemma_line_bounds(t, point as int);
                }
            }
            match m {
                CaretMotion::LineStart => match buffer.line(point) {
                    Err(e) => Err(e),
                    Ok(line) => Ok(Region::new(line.begin(), line.begin())),
                },
                CaretMotion::LineEnd => match buffer.line(point) {
                    Err(e) => Err(e),
                    Ok(line) => {
                        proof {
                            crate::buffer::lemma_line_bounds(t, point as int);
                        }
                        Ok(Region::new(line.end(), line.end()))
                    },
                },
                CaretMotion::Up => {
                    let (row, col) = match buffer.row_col(point) {
                        Err(e) => return Err(e),
                        Ok(rc) => rc,
                    };
                    if row == 0 {
                        Ok(Region::new(0, 0))
                    } else {
                        proof {
                            crate::buffer::lemma_count_newlines_monotone(t, point as int, t.len() as int);
                        }
                        match buffer.text_point(row - 1, col) {
                            Err(e) => Err(e),
                            Ok(q) => {
                                proof {
                                    let k = choose|k: int| #[trigger] crate::text::is_row_start(t, row - 1, k)
                                        && q == (if k + col <= line_end(t, k) { k + col } else { line_end(t, k) });
                                    lemma_row_start_of(t, row - 1, k);
                                }
                                Ok(Region::new(q, q))
                            },
                        }
                    }
                },
                CaretMotion::Down => {
                    let (row, col) = match buffer.row_col(point) {
                        Err(e) => return Err(e),
                        Ok(rc) => rc,
                    };
                    if row + 1 >= buffer.line_count() {
                        Ok(Region::new(len, len))
                    } else {
                        match buffer.text_point(row + 1, col) {
                            Err(e) => Err(e),
                            Ok(q) => {
                                proof {
                                    let k = choose|k: int| #[trigger] crate::text::is_row_start(t, row + 1, k)
                                        && q == (if k + col <= line_end(t, k) { k + col } else { line_end(t, k) });
                                    lemma_row_start_of(t, row + 1, k);
                                }
                                Ok(Region::new(q, q))
                            },
                        }
                    }
                },
                _ => match buffer.full_line(point) {
                    Err(e) => Err(e),
                    Ok(line) => Ok(line),
                },
            }
        },
    }
}

impl AppState {
    fn move_carets(&mut self, m: CaretMotion) -> (r: Result<usize, BufferError>)
        requires
            old(self).wf(),
        ensures
            motion_outcome(old(self), m, r, final(self)),
            final(self).wf(),
    {
        let selections = match self.active_selection_regions() {
            Some(v) => v,
            None => return Err(BufferError::NoActiveView),
        };
        let new_regions = {
            let buffer = match self.active_buffer() {
                Some(b) => b,
                None => return Err(BufferError::NoActiveView),
            };
            let ghost t = buffer@.text;
            let mut out: Vec<Region> = Vec::new();
            let mut i: usize = 0;
            while i < selections.len()
                invariant
                    i <= selections@.len(),
                    t == buffer@.text,
                    self.wf(),
                    self.model() == old(self).model(),
                    old(self).active_buffer_index() >= 0,
                    t == old(self).model().buffers[old(self).active_buffer_index()].text,
                    selections@ == old(self).model().views[old(self).active_view_index()].selections,
                    motion_all(t, m, selections@.take(i as int)) == Ok::<Seq<Region>, BufferError>(out@),
                decreases selections@.len() - i,
            {
                proof {
                    assert(selections@.take(i + 1).drop_last() == selections@.take(i as int));
                    assert(selections@.take(i + 1).last() == selections@[i as int]);
                }
                match motion_region_exec(buffer, m, selections[i]) {
                    Err(e) => {
                        proof {
                            lemma_motion_stopped(t, m, selections@, i + 1);
                        }
                        return Err(e);
                    },
                    Ok(x) => out.push(x),
                }
                i = i + 1;
            }
            proof {
                assert(selections@.take(selections@.len() as int) == selections@);
            }
            out
        };
        let ghost v = new_regions@;
        let ghost before = self.model();
        proof {
            assert(self.model() == old(self).model());
            assert(self.active_view_index() == old(self).active_view_index());
            assert(self.active_view_index() >= 0);
            crate::state::lemma_find_view(before.views, before.active_view.unwrap());
        }
        match self.set_active_selections(new_regions) {
            Err(e) => return Err(e),
            Ok(()) => {},
        }
        proof {
            assert(self.model().views.len() == before.views.len());
            assert forall|j: int| 0 <= j < self.model().views.len() implies (#[trigger] self.model().views[j]).id == before.views[j].id by {
                if j != old(self).active_view_index() {
                    assert(self.model().views[j] == before.views[j]);
                }
            }
            crate::state::lemma_find_view_ids(self.model().views, before.views, before.active_view.unwrap());
        }
        match self.active_view() {
            Some(view) => Ok(view.selection_count()),
            None => Ok(0),
        }
    }

    /// Moves every caret one character left; a non-empty region collapses to its start.
    pub fn move_caret_left(&mut self) -> (r: Result<usize, BufferError>)
        requires
            old(self).wf(),
        ensures
            motion_outcome(old(self), CaretMotion::Left, r, final(self)),
            final(self).wf(),
    {
        self.move_carets(CaretMotion::Left)
    }

    /// Moves every caret one character right; a non-empty region collapses to its end.
    pub fn move_caret_right(&mut self) -> (r: Result<usize, BufferError>)
        requires
            old(self).wf(),
        ensures
            motion_outcome(old(self), CaretMotion::Right, r, final(self)),
            final(self).wf(),
    {
        self.move_carets(CaretMotion::Right)
    }

    /// Moves every caret to the start of its line.
    pub fn move_to_beginning_of_line(&mut self) -> (r: Result<usize, BufferError>)
        requires
            old(self).wf(),
        ensures
            motion_outcome(old(self), CaretMotion::LineStart, r, final(self)),
            final(self).wf(),
    {
        self.move_carets(CaretMotion::LineStart)
    }

    /// Moves every caret to the end of its line.
    pub fn move_to_end_of_line(&mut self) -> (r: Result<usize, BufferError>)
        requires
            old(self).wf(),
        ensures
            motion_outcome(old(self), CaretMotion::LineEnd, r, final(self)),
            final(self).wf(),
    {
        self.move_carets(CaretMotion::LineEnd)
    }

    /// Moves every caret one row up, keeping its column where the row is long enough.
    pub fn move_caret_up(&mut self) -> (r: Result<usize, BufferError>)
        requires
            old(self).wf(),
        ensures
            motion_outcome(old(self), CaretMotion::Up, r, final(self)),
            final(self).wf(),
    {
        self.move_carets(CaretMotion::Up)
    }

    /// Moves every caret one row down, keeping its column where the row is long enough.
    pub fn move_caret_down(&mut self) -> (r: Result<usize, BufferError>)
        requires
            old(self).wf(),
        ensures
            motion_outcome(old(self), CaretMotion::Down, r, final(self)),
            final(self).wf(),
    {
        self.move_carets(CaretMotion::Down)
    }

    /// Selects the whole line of every caret, its newline included.
    pub fn select_current_lines(&mut self) -> (r: Result<usize, BufferError>)
        requires
            old(self).wf(),
        ensures
            motion_outcome(old(self), CaretMotion::WholeLine, r, final(self)),
            final(self).wf(),
    {
        self.move_carets(CaretMotion::WholeLine)
    }
}

proof fn lemma_motion_stopped(t: Seq<u8>, m: CaretMotion, rs: Seq<Region>, j: int)
    requires
        0 <= j <= rs.len(),
        motion_all(t, m, rs.take(j)) is Err,
    ensures
        motion_all(t, m, rs) == motion_all(t, m, rs.take(j)),
    decreases rs.len() - j,
{
    if j < rs.len() {
        assert(rs.drop_last().take(j) == rs.take(j));
        lemma_motion_stopped(t, m, rs.drop_last(), j);
    } else {
        assert(rs.take(j) == rs);
    }
}

/// `res` with `c` put in front of the regions it holds.
pub open spec fn prefixed(c: Seq<Region>, res: Result<Seq<Region>, BufferError>) -> Result<Seq<Region>, BufferError> {
    match res {
        Ok(v) => Ok(c + v),
        Err(e) => Err(e),
    }
}

/// Carets at the start of every line that the span from `p` to `hi` runs through, starting with
/// the line of `p`.
pub open spec fn split_from(t: Seq<u8>, p: int, hi: int) -> Result<Seq<Region>, BufferError>
    decreases hi - p,
{
    if p >= hi {
        Ok(Seq::empty())
    } else if !valid_range(t, p, p) {
        Err(bad_point(t, p as usize))
    } else {
        let lb = line_begin(t, p);
        let fe = full_line_end(t, p);
        if fe <= p || fe >= hi {
            Ok(seq![caret_at(lb)])
        } else {
            prefixed(seq![caret_at(lb)], split_from(t, fe, hi))
        }
    }
}

/// An empty region stays; any other becomes a caret at the start of each of its lines.
pub open spec fn split_region(t: Seq<u8>, r: Region) -> Result<Seq<Region>, BufferError> {
    if r.a == r.b {
        Ok(seq![r])
    } else {
        split_from(t, r.lo() as int, r.hi() as int)
    }
}

/// Splitting every region in order; the first refusal stops the command.
pub open spec fn split_all(t: Seq<u8>, rs: Seq<Region>) -> Result<Seq<Region>, BufferError>
    decreases rs.len(),
{
    if rs.len() == 0 {
        Ok(Seq::empty())
    } else {
        match split_all(t, rs.drop_last()) {
            Err(e) => Err(e),
            Ok(v) => prefixed(v, split_region(t, rs.last())),
        }
    }
}

/// The outcome of a command that replaces the selections of the active view by `res`.
pub open spec fn selection_outcome(
    old: &AppState,
    res: Result<Seq<Region>, BufferError>,
    r: Result<usize, BufferError>,
    new: &AppState,
) -> bool {
    match res {
        Err(e) => r == Err::<usize, BufferError>(e) && new.model() == old.model(),
        Ok(v) => r == Ok::<usize, BufferError>(normalize_regions(v).len() as usize)
            && new.model() == with_selections(old.model(), old.active_view_index(), normalize_regions(v)),
    }
}

proof fn lemma_split_all_stopped(t: Seq<u8>, rs: Seq<Region>, j: int)
    requires
        0 <= j <= rs.len(),
        split_all(t, rs.take(j)) is Err,
    ensures
        split_all(t, rs) == split_all(t, rs.take(j)),
    decreases rs.len() - j,
{
    if j < rs.len() {
        assert(rs.drop_last().take(j) == rs.take(j));
        lemma_split_all_stopped(t, rs.drop_last(), j);
    } else {
        assert(rs.take(j) == rs);
    }
}

impl AppState {
    /// The active view and its buffer, when they exist, lie inside the state.
    pub proof fn lemma_active(&self)
        ensures
            self.active_view_index() < self.model().views.len(),
            self.active_buffer_index() < self.model().buffers.len(),
            self.active_buffer_index() >= 0 ==> self.active_view_index() >= 0,
    {
        if self.model().active_view is Some {
            crate::state::lemma_find_view(self.model().views, self.model().active_view.unwrap());
        }
        if self.active_view_index() >= 0 {
            crate::state::lemma_find_buffer(
                self.model().buffers,
                self.model().views[self.active_view_index()].buffer_id,
            );
        }
    }

    /// Selecting new regions in the active view keeps the active view where it is.
    pub proof fn lemma_after_selecting(&self, before: StateModel, sel: Seq<Region>)
        requires
            before.active_view is Some,
            0 <= crate::state::find_view(before.views, before.active_view.unwrap()),
            self.model() == with_selections(before, crate::state::find_view(before.views, before.active_view.unwrap()), sel),
        ensures
            self.active_view_index() == crate::state::find_view(before.views, before.active_view.unwrap()),
            self.model().views[self.active_view_index()].selections == sel,
    {
        let i = crate::state::find_view(before.views, before.active_view.unwrap());
        crate::state::lemma_find_view(before.views, before.active_view.unwrap());
        assert forall|j: int| 0 <= j < self.model().views.len() implies (#[trigger] self.model().views[j]).id == before.views[j].id by {
            if j != i {
                assert(self.model().views[j] == before.views[j]);
            }
        }
        crate::state::lemma_find_view_ids(self.model().views, before.views, before.active_view.unwrap());
    }

    /// Replaces the selections with carets at the start of every line that each non-empty region
    /// runs through; empty regions stay.
    pub fn split_selection_into_lines(&mut self) -> (r: Result<usize, BufferError>)
        requires
            old(self).wf(),
        ensures
            split_outcome(old(self), r, final(self)),
            final(self).wf(),
    {
        proof {
            self.lemma_active();
        }
        let selections = match self.active_selection_regions() {
            Some(v) => v,
            None => return Err(BufferError::NoActiveView),
        };
        let new_regions = {
            let buffer = match self.active_buffer() {
                Some(b) => b,
                None => return Err(BufferError::NoActiveView),
            };
            let ghost t = buffer@.text;
            proof {
                buffer.lemma_valid();
            }
            let mut out: Vec<Region> = Vec::new();
            let mut i: usize = 0;
            while i < selections.len()
                invariant
                    i <= selections@.len(),
                    t == buffer@.text,
                    vstd::utf8::valid_utf8(t),
                    self.wf(),
                    self.model() == old(self).model(),
                    0 <= old(self).active_buffer_index() < old(self).model().buffers.len(),
                    t == old(self).model().buffers[old(self).active_buffer_index()].text,
                    selections@ == old(self).model().views[old(self).active_view_index()].selections,
                    split_all(t, selections@.take(i as int)) == Ok::<Seq<Region>, BufferError>(out@),
                decreases selections@.len() - i,
            {
                let region = selections[i];
                proof {
                    assert(selections@.take(i + 1).drop_last() == selections@.take(i as int));
                    assert(selections@.take(i + 1).last() == region);
                }
                if region.empty() {
                    let ghost base = out@;
                    out.push(region);
                    proof {
                        assert(base + seq![region] == out@);
                    }
                } else {
                    let ghost base = out@;
                    let hi = region.end();
                    let mut point = region.begin();
                    let ghost lo = point as int;
                    proof {
                        assert(base + Seq::<Region>::empty() == base);
                    }
                    loop
                        invariant_except_break
                            lo <= point <= hi,
                            split_from(t, lo, hi as int) == prefixed(out@.skip(base.len() as int), split_from(t, point as int, hi as int)),
                            out@.take(base.len() as int) == base,
                            base.len() <= out@.len(),
                        invariant
                            self.wf(),
                            self.model() == old(self).model(),
                            0 <= old(self).active_buffer_index() < old(self).model().buffers.len(),
                            t == old(self).model().buffers[old(self).active_buffer_index()].text,
                            selections@ == old(self).model().views[old(self).active_view_index()].selections,
                            i < selections@.len(),
                            t == buffer@.text,
                            vstd::utf8::valid_utf8(t),
                            selections@.take(i + 1).drop_last() == selections@.take(i as int),
                            selections@.take(i + 1).last() == region,
                            split_all(t, selections@.take(i as int)) == Ok::<Seq<Region>, BufferError>(base),
                            region.a != region.b,
                            lo == region.lo(),
                            hi == region.hi(),
                        ensures
                            out@.take(base.len() as int) == base,
                            base.len() <= out@.len(),
                            split_from(t, lo, hi as int) == Ok::<Seq<Region>, BufferError>(out@.skip(base.len() as int)),
                        decreases hi - point,
                    {
                        if point >= hi {
                            break;
                        }
                        let line = match buffer.line(point) {
                            Err(e) => {
                                proof {
                                    assert(split_all(t, selections@.take(i + 1)) is Err);
                                    lemma_split_all_stopped(t, selections@, i + 1);
                                }
                                return Err(e);
                            },
                            Ok(l) => l,
                        };
                        proof {
                            crate::buffer::lemma_line_bounds(t, point as int);
                        }
                        let ghost before = out@;
                        out.push(Region::new(line.begin(), line.begin()));
                        proof {
                            assert(out@.take(base.len() as int) == base);
                            assert(out@.skip(base.len() as int) == before.skip(base.len() as int).push(caret_at(line_begin(t, point as int))));
                        }
                        let full_line = match buffer.full_line(point) {
                            Err(e) => return Err(e),
                            Ok(l) => l,
                        };
                        if full_line.end() <= point || full_line.end() >= hi {
                            proof {
                                assert(before.skip(base.len() as int) + seq![caret_at(line_begin(t, point as int))]
                                    == out@.skip(base.len() as int));
                            }
                            break;
                        }
                        proof {
                            assert(before.skip(base.len() as int) + (seq![caret_at(line_begin(t, point as int))] + split_from(t, full_line_end(t, point as int), hi as int)->Ok_0)
                                == out@.skip(base.len() as int) + split_from(t, full_line_end(t, point as int), hi as int)->Ok_0);
                        }
                        point = full_line.end();
                    }
                    proof {
                        assert(out@ == base + out@.skip(base.len() as int));
                        assert(split_region(t, region) == split_from(t, lo, hi as int));
                    }
                }
                i = i + 1;
            }
            proof {
                assert(selections@.take(selections@.len() as int) == selections@);
            }
            out
        };
        let ghost v = new_regions@;
        let ghost before = self.model();
        proof {
            assert(self.active_view_index() == old(self).active_view_index());
            crate::state::lemma_find_view(before.views, before.active_view.unwrap());
        }
        match self.set_active_selections(new_regions) {
            Err(e) => return Err(e),
            Ok(()) => {},
        }
        proof {
            self.lemma_after_selecting(before, normalize_regions(v));
        }
        match self.active_view() {
            Some(view) => Ok(view.selection_count()),
            None => Ok(0),
        }
    }
}

/// `res` with `c` put in front of the edits it holds.
pub open spec fn prefixed_edits(c: Seq<EditModel>, res: Result<Seq<EditModel>, BufferError>) -> Result<Seq<EditModel>, BufferError> {
    match res {
        Ok(v) => Ok(c + v),
        Err(e) => Err(e),
    }
}

/// The state after a run of edits: the edits made stay made; a run that made edits and was not
/// refused is recorded in the undo history, and what could be redone is dropped.
pub open spec fn after_edits(m: StateModel, run: EditRun) -> StateModel {
    if run.err is Some {
        StateModel { buffers: run.bufs, ..m }
    } else if run.records.len() > 0 {
        StateModel { buffers: run.bufs, undo: m.undo.push(run.records), redo: Seq::empty(), ..m }
    } else {
        m
    }
}

/// Which deletion a delete command makes around each caret.
#[derive(Debug, Clone, Copy, PartialEq, Eq, Structural)]
pub enum DeleteKind {
    Backward,
    Forward,
    ToLineStart,
    ToLineEnd,
}

/// A deletion of `start..end`.
pub open spec fn deletion(start: int, end: int) -> EditModel {
    EditModel { start: start as usize, end: end as usize, text: Seq::empty() }
}

/// What one region deletes: a non-empty region deletes itself; a caret deletes per `k`, or
/// nothing where there is nothing to delete.
pub open spec fn deletion_of(t: Seq<u8>, k: DeleteKind, r: Region) -> Result<Option<EditModel>, BufferError> {
    if r.a != r.b {
        Ok(Some(deletion(r.lo() as int, r.hi() as int)))
    } else {
        match k {
            DeleteKind::Backward => if !is_point(t, r.b) {
                Err(bad_point(t, r.b))
            } else if r.b == 0 {
                Ok(None)
            } else {
                Ok(Some(deletion(prev_char_start_of(t, r.b as int), r.b as int)))
            },
            DeleteKind::Forward => if !is_point(t, r.b) {
                Err(bad_point(t, r.b))
            } else if r.b == t.len() {
                Ok(None)
            } else {
                Ok(Some(deletion(r.b as int, next_char_end_of(t, r.b as int))))
            },
            DeleteKind::ToLineStart => {
                let p = clamp(t, r.b);
                if !is_point(t, p) {
                    Err(bad_point(t, p))
                } else if line_begin(t, p as int) < p {
                    Ok(Some(deletion(line_begin(t, p as int), p as int)))
                } else {
                    Ok(None)
                }
            },
            DeleteKind::ToLineEnd => {
                let p = clamp(t, r.b);
                if !is_point(t, p) {
                    Err(bad_point(t, p))
                } else if p < line_end(t, p as int) {
                    Ok(Some(deletion(p as int, line_end(t, p as int))))
                } else {
                    Ok(None)
                }
            },
        }
    }
}

/// The deletions of all regions, from the last region to the first; the first refusal stops the
/// command.
pub open spec fn deletions(t: Seq<u8>, k: DeleteKind, rs: Seq<Region>) -> Result<Seq<EditModel>, BufferError>
    decreases rs.len(),
{
    if rs.len() == 0 {
        Ok(Seq::empty())
    } else {
        match deletion_of(t, k, rs.last()) {
            Err(e) => Err(e),
            Ok(o) => match o {
                Some(d) => prefixed_edits(seq![d], deletions(t, k, rs.drop_last())),
                None => deletions(t, k, rs.drop_last()),
            },
        }
    }
}

/// Carets where the records' edits start.
pub open spec fn carets_at_starts(recs: Seq<RecordModel>) -> Seq<Region> {
    recs.map_values(|rec: RecordModel| caret_at(rec.range_start as int))
}

/// Carets just after the text that the records' edits inserted.
pub open spec fn carets_after_inserts(recs: Seq<RecordModel>) -> Seq<Region> {
    recs.map_values(|rec: RecordModel| caret_at(rec.range_start + rec.new.len()))
}

/// The outcome of running the edits `es` on the active buffer and, when they all went through,
/// selecting `sel(records)`; `count(records, selections)` is what the command answers. With
/// `skip_empty`, a command with no edit to make answers 0 and changes nothing.
pub open spec fn edit_command_outcome(
    old: &AppState,
    res: Result<Seq<EditModel>, BufferError>,
    skip_empty: bool,
    sel: spec_fn(Seq<RecordModel>) -> Seq<Region>,
    count_records: bool,
    r: Result<usize, BufferError>,
    new: &AppState,
) -> bool {
    match res {
        Err(e) => r == Err::<usize, BufferError>(e) && new.model() == old.model(),
        Ok(es) => if skip_empty && es.len() == 0 {
            r == Ok::<usize, BufferError>(0) && new.model() == old.model()
        } else {
            let bid = old.model().views[old.active_view_index()].buffer_id;
            let run = run_edits(old.model().buffers, bid, es);
            if run.err is Some {
                r == Err::<usize, BufferError>(run.err.unwrap()) && new.model() == after_edits(old.model(), run)
            } else {
                let chosen = normalize_regions(sel(run.records));
                &&& r == Ok::<usize, BufferError>(
                    if count_records { run.records.len() as usize } else { chosen.len() as usize },
                )
                &&& new.model() == with_selections(after_edits(old.model(), run), old.active_view_index(), chosen)
            }
        },
    }
}

fn deletion_exec(buffer: &Buffer, k: DeleteKind, region: Region) -> (r: Result<Option<(usize, usize)>, BufferError>)
    ensures
        match r {
            Err(e) => deletion_of(buffer@.text, k, region) == Err::<Option<EditModel>, BufferError>(e),
            Ok(None) => deletion_of(buffer@.text, k, region) == Ok::<Option<EditModel>, BufferError>(None),
            Ok(Some((s, e))) => deletion_of(buffer@.text, k, region) == Ok::<Option<EditModel>, BufferError>(
                Some(deletion(s as int, e as int)),
            ),
        },
{
    let ghost t = buffer@.text;
    proof {
        buffer.lemma_valid();
    }
    if !region.empty() {
        return Ok(Some((region.begin(), region.end())));
    }
    match k {
        DeleteKind::Backward => match buffer.prev_char_start(region.caret()) {
            Err(e) => Err(e),
            Ok(None) => Ok(None),
            Ok(Some(j)) => {
                proof {
                    lemma_prev_char_start_of(t, region.b as int, j as int);
                }
                Ok(Some((j, region.caret())))
            },
        },
        DeleteKind::Forward => match buffer.next_char_end(region.caret()) {
            Err(e) => Err(e),
            Ok(None) => Ok(None),
            Ok(Some(j)) => {
                proof {
                    lemma_next_char_end_of(t, region.b as int, j as int);
                }
                Ok(Some((region.caret(), j)))
            },
        },
        _ => {
            let len = buffer.len();
            let point = if region.caret() <= len {
                region.caret()
            } else {
                len
            };
            let line = match buffer.line(point) {
                Err(e) => return Err(e),
                Ok(l) => l,
            };
            proof {
                crate::buffer::lemma_line_bounds(t, point as int);
            }
            match k {
                DeleteKind::ToLineStart => if line.begin() < point {
                    Ok(Some((line.begin(), point)))
                } else {
                    Ok(None)
                },
                _ => if point < line.end() {
                    Ok(Some((point, line.end())))
                } else {
                    Ok(None)
                },
            }
        },
    }
}

impl AppState {
    fn delete_around_carets(&mut self, k: DeleteKind) -> (r: Result<usize, BufferError>)
        requires
            old(self).wf(),
        ensures
            old(self).active_buffer_index() < 0 ==> r == Err::<usize, BufferError>(BufferError::NoActiveView)
                && final(self).model() == old(self).model(),
            old(self).active_buffer_index() >= 0 ==> edit_command_outcome(
                old(self),
                deletions(
                    old(self).model().buffers[old(self).active_buffer_index()].text,
                    k,
                    old(self).model().views[old(self).active_view_index()].selections,
                ),
                true,
                |recs: Seq<RecordModel>| carets_at_starts(recs),
                true,
                r,
                final(self),
            ),
            final(self).wf(),
    {
        proof {
            self.lemma_active();
        }
        let view_id = match self.active_view_id() {
            Some(id) => id,
            None => return Err(BufferError::NoActiveView),
        };
        let (buffer_id, edits) = {
            let view = match self.view(view_id) {
                Some(v) => v,
                None => return Err(BufferError::NoActiveView),
            };
            let buffer_id = view.buffer_id();
            let buffer = match self.buffer(buffer_id) {
                Some(b) => b,
                None => return Err(BufferError::NoActiveView),
            };
            let ghost t = buffer@.text;
            let sels = view.sel().as_slice();
            let ghost rs = sels@;
            let mut edits: Vec<(Range<usize>, String)> = Vec::new();
            let mut i: usize = sels.len();
            proof {
                assert(rs.take(rs.len() as int) == rs);
                assert(Seq::<EditModel>::empty() + deletions(t, k, rs)->Ok_0 == deletions(t, k, rs)->Ok_0);
            }
            while i > 0
                invariant
                    i <= rs.len(),
                    rs == sels@,
                    t == buffer@.text,
                    self.wf(),
                    self.model() == old(self).model(),
                    0 <= old(self).active_buffer_index() < old(self).model().buffers.len(),
                    t == old(self).model().buffers[old(self).active_buffer_index()].text,
                    rs == old(self).model().views[old(self).active_view_index()].selections,
                    deletions(t, k, rs) == prefixed_edits(edit_models(edits@), deletions(t, k, rs.take(i as int))),
                decreases i,
            {
                i = i - 1;
                proof {
                    assert(rs.take(i + 1).drop_last() == rs.take(i as int));
                    assert(rs.take(i + 1).last() == rs[i as int]);
                }
                match deletion_exec(buffer, k, sels[i]) {
                    Err(e) => {
                        proof {
                            assert(deletions(t, k, rs.take(i + 1)) is Err);
                        }
                        return Err(e);
                    },
                    Ok(None) => {},
                    Ok(Some((s, e))) => {
                        let ghost before = edits@;
                        edits.push((s..e, String::new()));
                        proof {
                            assert(edit_models(edits@) == edit_models(before).push(deletion(s as int, e as int)));
                            assert(edit_models(before) + (seq![deletion(s as int, e as int)] + deletions(t, k, rs.take(i as int))->Ok_0)
                                == edit_models(edits@) + deletions(t, k, rs.take(i as int))->Ok_0);
                        }
                    },
                }
            }
            proof {
                assert(rs.take(0) == Seq::<Region>::empty());
                assert(edit_models(edits@) + Seq::<EditModel>::empty() == edit_models(edits@));
            }
            (buffer_id, edits)
        };
        if edits.len() == 0 {
            return Ok(0);
        }
        let ghost before = self.model();
        let ghost es = edit_models(edits@);
        let transaction = match self.apply_edits(buffer_id, edits) {
            Ok(t) => t,
            Err(e) => return Err(e),
        };
        let mut new_regions: Vec<Region> = Vec::new();
        let mut j: usize = 0;
        while j < transaction.len()
            invariant
                j <= transaction@.len(),
                new_regions@ == carets_at_starts(crate::state::transaction_model(transaction).take(j as int)),
            decreases transaction@.len() - j,
        {
            let start = transaction[j].range_start;
            new_regions.push(Region::new(start, start));
            proof {
                let tm = crate::state::transaction_model(transaction);
                assert(tm.take(j + 1) == tm.take(j as int).push(tm[j as int]));
                assert(new_regions@ == carets_at_starts(tm.take(j + 1)));
            }
            j = j + 1;
        }
        proof {
            let tm = crate::state::transaction_model(transaction);
            assert(tm.take(transaction@.len() as int) == tm);
            crate::state::lemma_find_view(before.views, before.active_view.unwrap());
            assert(self.active_view_index() == old(self).active_view_index());
        }
        let ghost v = new_regions@;
        let ghost mid = self.model();
        match self.set_active_selections(new_regions) {
            Err(e) => return Err(e),
            Ok(()) => {},
        }
        Ok(transaction.len())
    }

    /// Deletes every non-empty region, and the character before every caret.
    pub fn delete_backward_from_active_selections(&mut self) -> (r: Result<usize, BufferError>)
        requires
            old(self).wf(),
        ensures
            delete_outcome(old(self), DeleteKind::Backward, r, final(self)),
            final(self).wf(),
    {
        self.delete_around_carets(DeleteKind::Backward)
    }

    /// Deletes every non-empty region, and the character after every caret.
    pub fn delete_forward_from_active_selections(&mut self) -> (r: Result<usize, BufferError>)
        requires
            old(self).wf(),
        ensures
            delete_outcome(old(self), DeleteKind::Forward, r, final(self)),
            final(self).wf(),
    {
        self.delete_around_carets(DeleteKind::Forward)
    }

    /// Deletes every non-empty region, and from every caret back to the start of its line.
    pub fn delete_to_beginning_of_line(&mut self) -> (r: Result<usize, BufferError>)
        requires
            old(self).wf(),
        ensures
            delete_outcome(old(self), DeleteKind::ToLineStart, r, final(self)),
            final(self).wf(),
    {
        self.delete_around_carets(DeleteKind::ToLineStart)
    }

    /// Deletes every non-empty region, and from every caret to the end of its line.
    pub fn delete_to_end_of_line(&mut self) -> (r: Result<usize, BufferError>)
        requires
            old(self).wf(),
        ensures
            delete_outcome(old(self), DeleteKind::ToLineEnd, r, final(self)),
            final(self).wf(),
    {
        self.delete_around_carets(DeleteKind::ToLineEnd)
    }
}

/// The edits that replace every region with `text`, from the last region to the first.
pub open spec fn replace_edits(rs: Seq<Region>, text: Seq<u8>) -> Seq<EditModel>
    decreases rs.len(),
{
    if rs.len() == 0 {
        Seq::empty()
    } else {
        seq![EditModel { start: rs.last().lo(), end: rs.last().hi(), text }] + replace_edits(rs.drop_last(), text)
    }
}

/// The regions a typed text replaces: the selections, or a caret at 0 when there are none.
pub open spec fn typing_targets(sels: Seq<Region>) -> Seq<Region> {
    if sels.len() == 0 {
        seq![caret_at(0)]
    } else {
        sels
    }
}

impl AppState {
    /// Replaces every selected region (a caret at 0 when nothing is selected) with `new_text`,
    /// and leaves a caret after each inserted text.
    pub fn replace_active_selections(&mut self, new_text: &str) -> (r: Result<usize, BufferError>)
        requires
            old(self).wf(),
        ensures
            typing_outcome(old(self), new_text.spec_bytes(), r, final(self)),
            final(self).wf(),
    {
        proof {
            self.lemma_active();
        }
        let view_id = match self.active_view_id() {
            Some(id) => id,
            None => return Err(BufferError::NoActiveView),
        };
        let (buffer_id, edits) = {
            let view = match self.view(view_id) {
                Some(v) => v,
                None => return Err(BufferError::NoActiveView),
            };
            let buffer_id = view.buffer_id();
            let selections: Vec<Region> = if view.sel().is_empty() {
                vec![Region::new(0, 0)]
            } else {
                vstd::slice::slice_to_vec(view.sel().as_slice())
            };
            let ghost rs = selections@;
            let ghost txt = new_text.spec_bytes();
            proof {
                assert(rs == typing_targets(old(self).model().views[old(self).active_view_index()].selections));
                assert(rs.take(rs.len() as int) == rs);
                assert(Seq::<EditModel>::empty() + replace_edits(rs, txt) == replace_edits(rs, txt));
            }
            let mut edits: Vec<(Range<usize>, String)> = Vec::new();
            let mut i: usize = selections.len();
            while i > 0
                invariant
                    i <= rs.len(),
                    rs == selections@,
                    txt == new_text.spec_bytes(),
                    replace_edits(rs, txt) == edit_models(edits@) + replace_edits(rs.take(i as int), txt),
                decreases i,
            {
                i = i - 1;
                let region = selections[i];
                let ghost before = edits@;
                edits.push((region.begin()..region.end(), new_text.to_owned()));
                proof {
                    assert(rs.take(i + 1).drop_last() == rs.take(i as int));
                    assert(rs.take(i + 1).last() == region);
                    assert(edit_models(edits@) == edit_models(before).push(
                        EditModel { start: region.lo(), end: region.hi(), text: txt },
                    ));
                    assert(edit_models(before) + (seq![EditModel { start: region.lo(), end: region.hi(), text: txt }] + replace_edits(rs.take(i as int), txt))
                        == edit_models(edits@) + replace_edits(rs.take(i as int), txt));
                }
            }
            proof {
                assert(rs.take(0) == Seq::<Region>::empty());
                assert(edit_models(edits@) + Seq::<EditModel>::empty() == edit_models(edits@));
            }
            (buffer_id, edits)
        };
        let ghost before = self.model();
        let transaction = match self.apply_edits(buffer_id, edits) {
            Ok(t) => t,
            Err(e) => return Err(e),
        };
        let ghost tm = crate::state::transaction_model(transaction);
        proof {
            self.lemma_wf();
            if tm.len() > 0 {
                let u = self.model().undo;
                assert(u.last() == tm);
                assert forall|q: int| 0 <= q < tm.len() implies crate::state::record_fits(#[trigger] tm[q]) by {
                    assert(u[u.len() - 1][q] == tm[q]);
                }
            }
        }
        let mut new_regions: Vec<Region> = Vec::new();
        let mut j: usize = 0;
        while j < transaction.len()
            invariant
                j <= transaction@.len(),
                tm == crate::state::transaction_model(transaction),
                forall|q: int| 0 <= q < tm.len() ==> crate::state::record_fits(#[trigger] tm[q]),
                new_regions@ == carets_after_inserts(tm.take(j as int)),
            decreases transaction@.len() - j,
        {
            proof {
                assert(crate::state::record_fits(tm[j as int]));
                assert(tm[j as int] == transaction@[j as int]@);
            }
            let caret = transaction[j].range_start + transaction[j].new_text.as_str().len();
            new_regions.push(Region::new(caret, caret));
            proof {
                assert(tm.take(j + 1) == tm.take(j as int).push(tm[j as int]));
                assert(new_regions@ == carets_after_inserts(tm.take(j + 1)));
            }
            j = j + 1;
        }
        proof {
            assert(tm.take(transaction@.len() as int) == tm);
            crate::state::lemma_find_view(before.views, before.active_view.unwrap());
            assert(self.active_view_index() == old(self).active_view_index());
        }
        match self.set_active_selections(new_regions) {
            Err(e) => return Err(e),
            Ok(()) => {},
        }
        Ok(transaction.len())
    }

    /// Puts a single caret at the start of the one-based line `one_based_line`.
    pub fn goto_line(&mut self, one_based_line: usize) -> (r: Result<usize, BufferError>)
        requires
            old(self).wf(),
        ensures
            goto_outcome(old(self), one_based_line, r, final(self)),
            final(self).wf(),
    {
        if one_based_line == 0 {
            return Err(BufferError::InvalidRow { row: 0 });
        }
        proof {
            self.lemma_active();
        }
        let point = {
            let buffer = match self.active_buffer() {
                Some(b) => b,
                None => return Err(BufferError::NoActiveView),
            };
            match buffer.line_start(one_based_line - 1) {
                Err(e) => return Err(e),
                Ok(p) => {
                    proof {
                        lemma_row_start_of(buffer@.text, one_based_line - 1, p as int);
                    }
                    p
                },
            }
        };
        proof {
            crate::selection::lemma_normalize_single(Region { a: point, b: point });
        }
        let v = vec![Region::new(point, point)];
        proof {
            assert(v@ == seq![Region { a: point, b: point }]);
            assert(self.active_view_index() == old(self).active_view_index());
        }
        match self.set_active_selections(v) {
            Err(e) => return Err(e),
            Ok(()) => {},
        }
        Ok(1)
    }

    /// Selects the whole text of the active buffer.
    pub fn select_all(&mut self) -> (r: Result<Region, BufferError>)
        requires
            old(self).wf(),
        ensures
            select_all_outcome(old(self), r, final(self)),
            final(self).wf(),
    {
        proof {
            self.lemma_active();
        }
        let region = {
            let buffer = match self.active_buffer() {
                Some(b) => b,
                None => return Err(BufferError::NoActiveView),
            };
            Region::new(0, buffer.len())
        };
        proof {
            crate::selection::lemma_normalize_single(region);
        }
        let v = vec![region];
        proof {
            assert(v@ == seq![region]);
            assert(self.active_view_index() == old(self).active_view_index());
        }
        match self.set_active_selections(v) {
            Err(e) => return Err(e),
            Ok(()) => {},
        }
        Ok(region)
    }
}

/// After selecting in the active view, the active view is where it was and holds the selection.
pub proof fn lemma_selected(s: &AppState, before: StateModel, i: int, sel: Seq<Region>)
    requires
        before.active_view is Some,
        i == crate::state::find_view(before.views, before.active_view.unwrap()),
        0 <= i,
        s.model() == with_selections(before, i, sel),
    ensures
        s.active_view_index() == i,
        s.model().views[i].selections == sel,
{
    s.lemma_after_selecting(before, sel);
}

/// The outcome of typing `text` over every selected region.
pub open spec fn typing_outcome(old: &AppState, text: Seq<u8>, r: Result<usize, BufferError>, new: &AppState) -> bool {
    &&& (old.active_view_index() < 0 ==> r == Err::<usize, BufferError>(BufferError::NoActiveView)
        && new.model() == old.model())
    &&& (old.active_view_index() >= 0 ==> edit_command_outcome(
        old,
        Ok(replace_edits(
            typing_targets(old.model().views[old.active_view_index()].selections),
            text,
        )),
        false,
        |recs: Seq<RecordModel>| carets_after_inserts(recs),
        true,
        r,
        new,
    ))
}

/// The outcome of putting a single caret at the start of the one-based line `one_based_line`.
pub open spec fn goto_outcome(old: &AppState, one_based_line: usize, r: Result<usize, BufferError>, new: &AppState) -> bool {
    &&& (one_based_line == 0 ==> r == Err::<usize, BufferError>(BufferError::InvalidRow { row: 0 })
        && new.model() == old.model())
    &&& (one_based_line > 0 && old.active_buffer_index() < 0 ==> r == Err::<usize, BufferError>(
        BufferError::NoActiveView,
    ) && new.model() == old.model())
    &&& (one_based_line > 0 && old.active_buffer_index() >= 0 ==> ({
        let t = old.model().buffers[old.active_buffer_index()].text;
        if one_based_line - 1 > count_newlines(t, t.len() as int) {
            r == Err::<usize, BufferError>(BufferError::InvalidRow { row: (one_based_line - 1) as usize })
                && new.model() == old.model()
        } else {
            r == Ok::<usize, BufferError>(1) && new.model() == with_selections(
                old.model(),
                old.active_view_index(),
                seq![caret_at(row_start_of(t, one_based_line - 1))],
            )
        }
    }))
}

/// The outcome of selecting the whole text of the active buffer.
pub open spec fn select_all_outcome(old: &AppState, r: Result<Region, BufferError>, new: &AppState) -> bool {
    &&& (old.active_buffer_index() < 0 ==> r == Err::<Region, BufferError>(BufferError::NoActiveView)
        && new.model() == old.model())
    &&& (old.active_buffer_index() >= 0 ==> ({
        let reg = Region {
            a: 0,
            b: old.model().buffers[old.active_buffer_index()].text.len() as usize,
        };
        &&& r == Ok::<Region, BufferError>(reg)
        &&& new.model() == with_selections(old.model(), old.active_view_index(), seq![reg])
    }))
}

/// The outcome of splitting the selections into carets at the starts of their lines.
pub open spec fn split_outcome(old: &AppState, r: Result<usize, BufferError>, new: &AppState) -> bool {
    &&& (old.active_buffer_index() < 0 ==> r == Err::<usize, BufferError>(BufferError::NoActiveView)
        && new.model() == old.model())
    &&& (old.active_buffer_index() >= 0 ==> selection_outcome(
        old,
        split_all(
            old.model().buffers[old.active_buffer_index()].text,
            old.model().views[old.active_view_index()].selections,
        ),
        r,
        new,
    ))
}

/// The outcome of a delete command of kind `k`.
pub open spec fn delete_outcome(old: &AppState, k: DeleteKind, r: Result<usize, BufferError>, new: &AppState) -> bool {
    &&& (old.active_buffer_index() < 0 ==> r == Err::<usize, BufferError>(BufferError::NoActiveView)
        && new.model() == old.model())
    &&& (old.active_buffer_index() >= 0 ==> edit_command_outcome(
        old,
        deletions(
            old.model().buffers[old.active_buffer_index()].text,
            k,
            old.model().views[old.active_view_index()].selections,
        ),
        true,
        |recs: Seq<RecordModel>| carets_at_starts(recs),
        true,
        r,
        new,
    ))
}

/// Running one edit that fits its buffer's text, on a buffer that is not read-only: the text is
/// spliced, and one record is made of it.
proof fn lemma_one_edit(bufs: Seq<BufferModel>, id: BufferId, e: EditModel)
    requires
        find_buffer(bufs, id) >= 0,
        valid_range(bufs[find_buffer(bufs, id)].text, e.start as int, e.end as int),
        !bufs[find_buffer(bufs, id)].read_only,
    ensures
        ({
            let i = find_buffer(bufs, id);
            let run = run_edits(bufs, id, seq![e]);
            &&& run.err is None
            &&& run.records.len() == 1
            &&& run.records[0].range_start == e.start
            &&& run.records[0].new == e.text
            &&& run.bufs == bufs.update(i, replaced(bufs[i], e.start as int, e.end as int, e.text))
        }),
{
    let es = seq![e];
    assert(es.drop_last() == Seq::<EditModel>::empty());
    assert(es.last() == e);
    let prev = run_edits(bufs, id, Seq::<EditModel>::empty());
    assert(prev.bufs == bufs && prev.err is None && prev.records == Seq::<RecordModel>::empty());
    let run = run_edits(bufs, id, es);
    assert(run.records == Seq::<RecordModel>::empty().push(run.records[0]));
}

/// Deleting with a single selection that is not empty removes exactly the selected bytes and
/// leaves one caret where the selection began, whichever way the delete goes, and answers that
/// one deletion was made.
pub proof fn law_delete_removes_selection(
    old: &AppState,
    k: DeleteKind,
    res: Result<usize, BufferError>,
    new: &AppState,
)
    requires
        old.active_buffer_index() >= 0,
        old.model().views[old.active_view_index()].selections.len() == 1,
        ({
            let t = old.model().buffers[old.active_buffer_index()].text;
            let r = old.model().views[old.active_view_index()].selections[0];
            &&& r.a != r.b
            &&& valid_range(t, r.lo() as int, r.hi() as int)
        }),
        !old.model().buffers[old.active_buffer_index()].read_only,
        delete_outcome(old, k, res, new),
    ensures
        ({
            let t = old.model().buffers[old.active_buffer_index()].text;
            let r = old.model().views[old.active_view_index()].selections[0];
            &&& res == Ok::<usize, BufferError>(1)
            &&& new.model().buffers[old.active_buffer_index()].text
                == t.subrange(0, r.lo() as int) + t.subrange(r.hi() as int, t.len() as int)
            &&& new.model().views[old.active_view_index()].selections == seq![caret_at(r.lo() as int)]
        }),
{
    let m = old.model();
    let vi = old.active_view_index();
    let bi = old.active_buffer_index();
    let bid = m.views[vi].buffer_id;
    let t = m.buffers[bi].text;
    let sels = m.views[vi].selections;
    let r = sels[0];
    let d = deletion(r.lo() as int, r.hi() as int);
    assert(sels.drop_last() == Seq::<Region>::empty());
    assert(sels.last() == r);
    assert(deletions(t, k, Seq::<Region>::empty()) == Ok::<Seq<EditModel>, BufferError>(Seq::empty()));
    assert(deletions(t, k, sels) == Ok::<Seq<EditModel>, BufferError>(seq![d]));
    crate::state::lemma_find_buffer(m.buffers, bid);
    crate::state::lemma_find_view(m.views, m.active_view.unwrap());
    assert(find_buffer(m.buffers, bid) == bi);
    lemma_one_edit(m.buffers, bid, d);
    let run = run_edits(m.buffers, bid, seq![d]);
    let recs = run.records;
    assert(carets_at_starts(recs) == seq![caret_at(r.lo() as int)]);
    lemma_normalize_single(caret_at(r.lo() as int));
    let nm = with_selections(after_edits(m, run), vi, seq![caret_at(r.lo() as int)]);
    assert(new.model() == nm);
    assert(nm.buffers == run.bufs);
    assert(run.bufs[bi].text == crate::text::splice(t, r.lo() as int, r.hi() as int, Seq::empty()));
    assert(t.subrange(0, r.lo() as int) + Seq::<u8>::empty() == t.subrange(0, r.lo() as int));
}

/// Typing with a single selection replaces exactly the selected bytes with the typed text and
/// leaves one caret just after it, and answers that one replacement was made.
pub proof fn law_typing_replaces_selection(old: &AppState, text: Seq<u8>, res: Result<usize, BufferError>, new: &AppState)
    requires
        old.active_buffer_index() >= 0,
        old.model().views[old.active_view_index()].selections.len() == 1,
        ({
            let t = old.model().buffers[old.active_buffer_index()].text;
            let r = old.model().views[old.active_view_index()].selections[0];
            valid_range(t, r.lo() as int, r.hi() as int)
        }),
        !old.model().buffers[old.active_buffer_index()].read_only,
        typing_outcome(old, text, res, new),
    ensures
        ({
            let t = old.model().buffers[old.active_buffer_index()].text;
            let r = old.model().views[old.active_view_index()].selections[0];
            &&& res == Ok::<usize, BufferError>(1)
            &&& new.model().buffers[old.active_buffer_index()].text
                == t.subrange(0, r.lo() as int) + text + t.subrange(r.hi() as int, t.len() as int)
            &&& new.model().views[old.active_view_index()].selections == seq![caret_at(r.lo() + text.len())]
        }),
{
    let m = old.model();
    let vi = old.active_view_index();
    let bi = old.active_buffer_index();
    let bid = m.views[vi].buffer_id;
    let t = m.buffers[bi].text;
    let sels = m.views[vi].selections;
    let r = sels[0];
    let e = EditModel { start: r.lo(), end: r.hi(), text };
    assert(typing_targets(sels) == sels);
    assert(sels.drop_last() == Seq::<Region>::empty());
    assert(sels.last() == r);
    assert(replace_edits(Seq::<Region>::empty(), text) == Seq::<EditModel>::empty());
    assert(replace_edits(sels, text) == seq![e]);
    crate::state::lemma_find_buffer(m.buffers, bid);
    crate::state::lemma_find_view(m.views, m.active_view.unwrap());
    assert(find_buffer(m.buffers, bid) == bi);
    lemma_one_edit(m.buffers, bid, e);
    let run = run_edits(m.buffers, bid, seq![e]);
    let recs = run.records;
    assert(carets_after_inserts(recs) == seq![caret_at(r.lo() + text.len())]);
    lemma_normalize_single(caret_at(r.lo() + text.len()));
    let nm = with_selections(after_edits(m, run), vi, seq![caret_at(r.lo() + text.len())]);
    assert(new.model() == nm);
    assert(nm.buffers == run.bufs);
    assert(run.bufs[bi].text == crate::text::splice(t, r.lo() as int, r.hi() as int, text));
}

} // verus!
