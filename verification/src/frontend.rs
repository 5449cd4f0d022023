//! What the desktop front end decides around the editor core: keeping the edited text and the
//! core in step, the progress and refreshing of a project search, and the small texts it shows.
use vstd::prelude::*;
use vstd::string::StringSliceAdditionalSpecFns;
use vstd::utf8::*;

use crate::buffer::BufferError;
use crate::editor::{replace_matches, replaced_from, selected_pieces, selected_texts, slice_between};
use crate::ids::ViewId;
use crate::search::{ProjectSearchMatch, ProjectTextSearchEvent, ProjectTextSearchQuery, ProjectTextSearchSummary};
use crate::selection::Region;
use crate::state::{find_buffer, run_edits, AppState, EditModel, StateModel};
use crate::text::{decimal, decimal_string, lemma_encode_concat, lemma_encode_newline, nl, str_eq, valid_range};
use crate::text_edit::{byte_len, char_index_to_byte_index, compute_minimal_text_edit, minimal_edit};
use crate::trusted::{str_trim, trimmed};

verus! {

// ---------------------------------------------------------------------------------------------
// Progress of a running project search
// ---------------------------------------------------------------------------------------------

/// The status shown while a search runs.
pub open spec fn searching_status(matches: nat, files: nat) -> Seq<char> {
    "Searching… "@ + decimal(matches) + " match(es) in "@ + decimal(files) + " file(s)"@
}

/// The status shown when a search completes.
pub open spec fn completed_status(matches: nat, files: nat) -> Seq<char> {
    if matches == 0 {
        "No matches in "@ + decimal(files) + " file(s)"@
    } else {
        "Found "@ + decimal(matches) + " match(es) in "@ + decimal(files) + " file(s)"@
    }
}

/// The status shown when a search stops without completing.
pub open spec fn stopped_status(matches: nat, files: nat) -> Seq<char> {
    "Search stopped at "@ + decimal(matches) + " match(es) in "@ + decimal(files) + " file(s)"@
}

/// `head`, the decimal numeral of `m`, `mid`, the numeral of `n`, then `tail`.
fn counts_text(head: &str, m: usize, mid: &str, n: usize, tail: &str) -> (r: String)
    ensures
        r@ == head@ + decimal(m as nat) + mid@ + decimal(n as nat) + tail@,
{
    let mut s = head.to_owned();
    s.append(decimal_string(m as u64).as_str());
    s.append(mid);
    s.append(decimal_string(n as u64).as_str());
    s.append(tail);
    s
}

/// What a running search has reported so far: how many files it read and how many matches it
/// found.
#[derive(Debug, Clone, Copy, PartialEq, Eq, Structural)]
pub struct SearchProgress {
    pub scanned_files: usize,
    pub total_matches: usize,
}

impl SearchProgress {
    pub fn new() -> (r: Self)
        ensures
            r.scanned_files == 0,
            r.total_matches == 0,
    {
        SearchProgress { scanned_files: 0, total_matches: 0 }
    }

    /// Takes in one report of the search: a batch adds its matches to `results` and its counts
    /// become the progress; the completion sets the final counts. Gives back the status to show
    /// and whether the search is over.
    pub fn on_event(&mut self, event: ProjectTextSearchEvent, results: &mut Vec<ProjectSearchMatch>) -> (r: (String, bool))
        ensures
            match event {
                ProjectTextSearchEvent::Batch(b) => {
                    &&& final(results)@ == old(results)@ + b.matches@
                    &&& final(self).scanned_files == b.scanned_files
                    &&& final(self).total_matches == b.total_matches
                    &&& r.0@ == searching_status(b.total_matches as nat, b.scanned_files as nat)
                    &&& !r.1
                },
                ProjectTextSearchEvent::Complete(s) => {
                    &&& final(results)@ == old(results)@
                    &&& final(self).scanned_files == s.scanned_files
                    &&& final(self).total_matches == s.total_matches
                    &&& r.0@ == completed_status(s.total_matches as nat, s.scanned_files as nat)
                    &&& r.1
                },
            },
    {
        match event {
            ProjectTextSearchEvent::Batch(batch) => {
                let mut found = batch.matches;
                results.append(&mut found);
                self.scanned_files = batch.scanned_files;
                self.total_matches = batch.total_matches;
                let status = counts_text("Searching… ", self.total_matches, " match(es) in ", self.scanned_files, " file(s)");
                (status, false)
            },
            ProjectTextSearchEvent::Complete(summary) => {
                self.scanned_files = summary.scanned_files;
                self.total_matches = summary.total_matches;
                let status = if summary.total_matches == 0 {
                    let mut s = "No matches in ".to_owned();
                    s.append(decimal_string(summary.scanned_files as u64).as_str());
                    s.append(" file(s)");
                    s
                } else {
                    counts_text("Found ", summary.total_matches, " match(es) in ", summary.scanned_files, " file(s)")
                };
                (status, true)
            },
        }
    }

    /// The status to show when the search went away before completing.
    pub fn on_disconnect(&self) -> (r: String)
        ensures
            r@ == stopped_status(self.total_matches as nat, self.scanned_files as nat),
    {
        counts_text("Search stopped at ", self.total_matches, " match(es) in ", self.scanned_files, " file(s)")
    }
}

// ---------------------------------------------------------------------------------------------
// When a project search is started again
// ---------------------------------------------------------------------------------------------

/// What to do about the project search after the query, the case setting or the index changed.
#[derive(Debug, Clone)]
pub enum SearchRefresh {
    /// The query is blank: drop the results and any running search.
    Idle,
    /// Nothing changed since the last search was started.
    Unchanged,
    /// Start this search in place of any running one.
    Start(ProjectTextSearchQuery),
}

/// What the last search was started for: the trimmed query, whether case mattered, and the
/// generation of the index it ran on.
#[derive(Debug, Clone)]
pub struct SearchCache {
    pub query: String,
    pub case_sensitive: bool,
    pub generation: u64,
}

impl SearchCache {
    pub fn new() -> (r: Self)
        ensures
            r.query@ == Seq::<char>::empty(),
            !r.case_sensitive,
            r.generation == 0,
    {
        SearchCache { query: String::new(), case_sensitive: false, generation: 0 }
    }

    /// Decides about the search for `query` with the given case setting on the index of
    /// `generation`: a blank query makes the search idle; the query, setting and generation the
    /// last search was started for leave it as it is; anything else starts a search for the
    /// trimmed query, at most 200 matches reported 24 at a time. The cache then records what
    /// was asked.
    pub fn refresh(&mut self, query: &str, case_sensitive: bool, generation: u64) -> (r: SearchRefresh)
        ensures
            ({
                let t = trimmed(query@);
                &&& t.len() == 0 ==> r is Idle && final(self).query@ == Seq::<char>::empty()
                    && final(self).case_sensitive == case_sensitive && final(self).generation == generation
                &&& t.len() > 0 && old(self).query@ == t && old(self).case_sensitive == case_sensitive
                    && old(self).generation == generation ==> r is Unchanged && *final(self) == *old(self)
                &&& t.len() > 0 && !(old(self).query@ == t && old(self).case_sensitive == case_sensitive
                    && old(self).generation == generation) ==> (r matches SearchRefresh::Start(q)
                    && q.text@ == t && q.case_sensitive == case_sensitive && q.limit == 200
                    && q.batch_size == 24) && final(self).query@ == t
                    && final(self).case_sensitive == case_sensitive && final(self).generation == generation
            }),
    {
        let t = str_trim(query);
        if t.is_empty() {
            self.query = String::new();
            self.case_sensitive = case_sensitive;
            self.generation = generation;
            return SearchRefresh::Idle;
        }
        if str_eq(self.query.as_str(), t) && self.case_sensitive == case_sensitive && self.generation == generation {
            return SearchRefresh::Unchanged;
        }
        self.query = t.to_owned();
        self.case_sensitive = case_sensitive;
        self.generation = generation;
        let mut q = ProjectTextSearchQuery::new(t.to_owned());
        q.case_sensitive = case_sensitive;
        q.limit = 200;
        q.batch_size = 24;
        SearchRefresh::Start(q)
    }

    /// Forgets the generation, so that the next refresh with a query starts a search again.
    pub fn invalidate(&mut self)
        ensures
            final(self).generation == 0,
            final(self).query@ == old(self).query@,
            final(self).case_sensitive == old(self).case_sensitive,
    {
        self.generation = 0;
    }
}

// ---------------------------------------------------------------------------------------------
// Keeping the edited text and the core in step
// ---------------------------------------------------------------------------------------------

/// The text of the active view's buffer as bytes; empty when the view's buffer is missing.
pub open spec fn active_text(m: StateModel, view_index: int) -> Seq<u8> {
    let i = find_buffer(m.buffers, m.views[view_index].buffer_id);
    if i >= 0 {
        m.buffers[i].text
    } else {
        Seq::empty()
    }
}

/// The edit that brings `prev` to `next`: the smallest one, in bytes.
pub open spec fn sync_edit(prev: Seq<u8>, next: Seq<char>) -> EditModel {
    let a = decode_utf8(prev);
    let (s, e, rep) = minimal_edit(a, next);
    EditModel { start: byte_len(a.take(s)) as usize, end: byte_len(a.take(e)) as usize, text: encode_utf8(rep) }
}

/// Makes the active buffer hold `text`, by the smallest edit that turns its text into `text`,
/// recorded as a transaction of its own. `Ok(false)` when there is no active view or nothing
/// changes; otherwise the edit's outcome.
pub fn apply_editor_text(state: &mut AppState, text: &str) -> (r: Result<bool, BufferError>)
    requires
        old(state).wf(),
    ensures
        final(state).wf(),
        old(state).active_view_index() < 0 ==> r == Ok::<bool, BufferError>(false)
            && final(state).model() == old(state).model(),
        old(state).active_view_index() >= 0 ==> ({
            let m = old(state).model();
            let v = old(state).active_view_index();
            let prev = active_text(m, v);
            let run = run_edits(m.buffers, m.views[v].buffer_id, seq![sync_edit(prev, text@)]);
            &&& prev == text.spec_bytes() ==> r == Ok::<bool, BufferError>(false) && final(state).model() == m
            &&& prev != text.spec_bytes() && run.err is Some ==> r == Err::<bool, BufferError>(run.err.unwrap())
                && final(state).model() == (StateModel { buffers: run.bufs, ..m })
            &&& prev != text.spec_bytes() && run.err is None ==> r == Ok::<bool, BufferError>(true)
                && final(state).model() == (StateModel {
                    buffers: run.bufs,
                    undo: m.undo.push(run.records),
                    redo: Seq::empty(),
                    ..m
                })
        }),
        old(state).active_buffer_index() >= 0 && r == Ok::<bool, BufferError>(true) ==>
            final(state).model().buffers[old(state).active_buffer_index()].text == text.spec_bytes(),
        old(state).active_buffer_index() >= 0 && r is Err ==> r == Err::<bool, BufferError>(BufferError::ReadOnly),
{
    let buffer_id = match state.active_buffer_id() {
        Some(id) => id,
        None => return Ok(false),
    };
    proof {
        state.lemma_active();
    }
    let previous: String = match state.buffer(buffer_id) {
        Some(b) => b.content().to_owned(),
        None => String::new(),
    };
    let ghost prev_bytes = encode_utf8(previous@);
    proof {
        assert(prev_bytes == active_text(state.model(), state.active_view_index()));
        encode_utf8_decode_utf8(previous@);
    }
    let (range, replacement) = match compute_minimal_text_edit(previous.as_str(), text) {
        Some(edit) => edit,
        None => {
            return Ok(false);
        },
    };
    proof {
        assert(previous@ != text@);
        encode_utf8_decode_utf8(text@);
        assert(prev_bytes != text.spec_bytes());
        assert(sync_edit(prev_bytes, text@) == (EditModel {
            start: range.start,
            end: range.end,
            text: replacement.spec_bytes(),
        }));
    }
    let ghost m = state.model();
    let ghost abi = state.active_buffer_index();
    proof {
        let e = EditModel { start: range.start, end: range.end, text: replacement.spec_bytes() };
        reveal_with_fuel(run_edits, 2);
        assert(seq![e].drop_last() == Seq::<EditModel>::empty());
        assert(seq![e].last() == e);
        if abi >= 0 {
            assert(find_buffer(m.buffers, buffer_id) == abi);
            assert(m.buffers[abi].text == prev_bytes);
            assert(valid_range(prev_bytes, range.start as int, range.end as int));
        }
    }
    match state.apply_edit(buffer_id, range, replacement) {
        Ok(_) => Ok(true),
        Err(e) => Err(e),
    }
}

// ---------------------------------------------------------------------------------------------
// Selections, find, and the texts the front end shows
// ---------------------------------------------------------------------------------------------

/// Pieces of text joined with newlines between them.
pub open spec fn joined(pieces: Seq<Seq<u8>>) -> Seq<u8>
    decreases pieces.len(),
{
    if pieces.len() == 0 {
        Seq::empty()
    } else if pieces.len() == 1 {
        pieces[0]
    } else {
        joined(pieces.drop_last()) + seq![nl()] + pieces.last()
    }
}

/// The selected texts of the active view joined with newlines, for the clipboard; `None` when
/// nothing non-empty is selected.
pub fn selection_clipboard_text(state: &AppState) -> (r: Result<Option<String>, BufferError>)
    ensures
        state.active_buffer_index() < 0 ==> r == Err::<Option<String>, BufferError>(BufferError::NoActiveView),
        state.active_buffer_index() >= 0 ==> ({
            let pieces = selected_pieces(
                state.model().buffers[state.active_buffer_index()].text,
                state.model().views[state.active_view_index()].selections,
            );
            match pieces {
                Err(e) => r == Err::<Option<String>, BufferError>(e),
                Ok(ps) => if ps.len() == 0 {
                    r == Ok::<Option<String>, BufferError>(None)
                } else {
                    r matches Ok(Some(s)) && encode_utf8(s@) == joined(ps)
                },
            }
        }),
{
    let pieces = match selected_texts(state) {
        Ok(p) => p,
        Err(e) => return Err(e),
    };
    let ghost ps = pieces@.map_values(|s: String| encode_utf8(s@));
    if pieces.len() == 0 {
        return Ok(None);
    }
    let mut out = pieces[0].clone();
    let mut i: usize = 1;
    proof {
        assert(ps.take(1) == seq![ps[0]]);
        assert(joined(ps.take(1)) == ps[0]);
    }
    while i < pieces.len()
        invariant
            1 <= i <= pieces@.len(),
            ps == pieces@.map_values(|s: String| encode_utf8(s@)),
            encode_utf8(out@) == joined(ps.take(i as int)),
        decreases pieces@.len() - i,
    {
        let ghost before = out@;
        out.append("\n");
        out.append(pieces[i].as_str());
        proof {
            reveal_strlit("\n");
            lemma_encode_newline();
            lemma_encode_concat(before, seq!['\n']);
            lemma_encode_concat(before + seq!['\n'], pieces@[i as int]@);
            assert(out@ == before + seq!['\n'] + pieces@[i as int]@);
            assert(ps.take(i + 1).drop_last() == ps.take(i as int));
            assert(ps.take(i + 1).last() == ps[i as int]);
        }
        i = i + 1;
    }
    proof {
        assert(ps.take(pieces@.len() as int) == ps);
    }
    Ok(Some(out))
}

/// Where searching forward starts: the end of the last selected region, or the start of the
/// text, at most the text's length.
pub open spec fn find_next_start_of(selections: Option<Seq<Region>>, len: usize) -> usize {
    let p: usize = match selections {
        Some(rs) => if rs.len() > 0 { rs.last().hi() } else { 0 },
        None => 0,
    };
    if p < len { p } else { len }
}

/// Where searching backward ends: the start of the last selected region, or the end of the
/// text, at most the text's length.
pub open spec fn find_previous_end_of(selections: Option<Seq<Region>>, len: usize) -> usize {
    let p: usize = match selections {
        Some(rs) => if rs.len() > 0 { rs.last().lo() } else { len },
        None => len,
    };
    if p < len { p } else { len }
}

/// The selections of the active view, if there is one.
pub open spec fn active_selections(state: &AppState) -> Option<Seq<Region>> {
    if state.active_view_index() >= 0 {
        Some(state.model().views[state.active_view_index()].selections)
    } else {
        None
    }
}

/// Where a forward search of a text of `len` bytes starts in `state`.
pub fn find_next_start(state: &AppState, len: usize) -> (r: usize)
    ensures
        r == find_next_start_of(active_selections(state), len),
{
    let p = match state.active_selection_regions() {
        Some(rs) => if rs.len() > 0 {
            rs[rs.len() - 1].end()
        } else {
            0
        },
        None => 0,
    };
    if p < len {
        p
    } else {
        len
    }
}

/// Where a backward search of a text of `len` bytes ends in `state`.
pub fn find_previous_end(state: &AppState, len: usize) -> (r: usize)
    ensures
        r == find_previous_end_of(active_selections(state), len),
{
    let p = match state.active_selection_regions() {
        Some(rs) => if rs.len() > 0 {
            rs[rs.len() - 1].begin()
        } else {
            len
        },
        None => len,
    };
    if p < len {
        p
    } else {
        len
    }
}

/// The bytes of `text` from `start` to `end` when that is a range on character boundaries, else
/// nothing; newlines written as a backslash and `n`.
pub open spec fn matched_bytes(text: Seq<u8>, start: int, end: int) -> Seq<u8> {
    let piece = if valid_range(text, start, end) { text.subrange(start, end) } else { Seq::empty() };
    replaced_from(piece, seq![nl()], seq![92u8, 110u8], 0)
}

/// The status shown after a find selected `start..end` of `text`.
pub fn match_status(text: &str, start: usize, end: usize) -> (r: String)
    ensures
        encode_utf8(r@) == encode_utf8("Matched: "@) + matched_bytes(text.spec_bytes(), start as int, end as int),
{
    let n = text.as_bytes().len();
    let piece: &str = if start <= end && end <= n && text.is_char_boundary(start) && text.is_char_boundary(end) {
        slice_between(text, start, end)
    } else {
        ""
    };
    proof {
        reveal_strlit("");
        reveal_strlit("\n");
        reveal_strlit("\\n");
        lemma_encode_newline();
        assert(encode_utf8(""@) == Seq::<u8>::empty());
        assert(piece.spec_bytes() == encode_utf8(piece@));
    }
    let nl_text = "\n";
    let escaped_nl = "\\n";
    proof {
        assert(nl_text@ == seq!['\n']);
        assert(nl_text@.len() > 0);
        assert(nl_text.spec_bytes() == seq![nl()]);
        assert(escaped_nl@ == seq!['\\', 'n']);
        assert(escaped_nl.spec_bytes() == seq![92u8, 110u8]) by {
            let c = seq!['\\', 'n'];
            assert(('\\' as u32) == 92u32);
            assert(('n' as u32) == 110u32);
            assert((92u32 & 0x7F) as u8 == 92u8) by (bit_vector);
            assert((110u32 & 0x7F) as u8 == 110u8) by (bit_vector);
            assert(c.drop_first() == seq!['n']);
            assert(seq!['n'].drop_first() == Seq::<char>::empty());
            assert(encode_utf8(seq!['n']) == encode_scalar(110u32) + encode_utf8(Seq::<char>::empty()));
            assert(encode_utf8(c) == encode_scalar(92u32) + encode_utf8(seq!['n']));
        }
    }
    let (escaped, _count) = replace_matches(piece, nl_text, escaped_nl);
    let mut out = "Matched: ".to_owned();
    out.append(escaped.as_str());
    proof {
        lemma_encode_concat("Matched: "@, escaped@);
    }
    out
}

/// The title of a view whose buffer has no path.
pub open spec fn untitled_title(view_id: ViewId) -> Seq<char> {
    "Untitled "@ + decimal(view_id.0 as nat)
}

/// The tab title of a view whose buffer has no path.
pub fn untitled_view_title(view_id: ViewId) -> (r: String)
    ensures
        r@ == untitled_title(view_id),
{
    let mut s = "Untitled ".to_owned();
    s.append(decimal_string(view_id.0).as_str());
    s
}

/// The region the editor widget's selection stands for: from `secondary` to `primary`, given in
/// characters of `text` and turned into byte offsets.
pub fn region_from_chars(text: &str, primary_char: usize, secondary_char: usize) -> (r: Region)
    ensures
        r.a == byte_len(text@.take(if secondary_char < text@.len() { secondary_char as int } else { text@.len() as int })),
        r.b == byte_len(text@.take(if primary_char < text@.len() { primary_char as int } else { text@.len() as int })),
{
    let primary = char_index_to_byte_index(text, primary_char);
    let secondary = char_index_to_byte_index(text, secondary_char);
    Region::new(secondary, primary)
}

/// The value of a run of decimal digits.
pub open spec fn digits_value(s: Seq<char>) -> int
    decreases s.len(),
{
    if s.len() == 0 {
        0
    } else {
        digits_value(s.drop_last()) * 10 + (s.last() as int - 48)
    }
}

/// `s` without one leading plus sign.
pub open spec fn unsigned_part(s: Seq<char>) -> Seq<char> {
    if s.len() > 0 && s[0] == '+' {
        s.drop_first()
    } else {
        s
    }
}

/// Every character of `d` is a decimal digit.
pub open spec fn all_digits(d: Seq<char>) -> bool {
    forall|i: int| 0 <= i < d.len() ==> '0' <= #[trigger] d[i] <= '9'
}

/// What `u64` reads from `s`: an optional plus sign followed by at least one decimal digit and
/// nothing else, whose value does not exceed `u64::MAX`.
pub open spec fn parsed_u64(s: Seq<char>) -> Option<u64> {
    let d = unsigned_part(s);
    if d.len() > 0 && all_digits(d) && digits_value(d) <= u64::MAX {
        Some(digits_value(d) as u64)
    } else {
        None
    }
}

/// A prefix one digit longer adds that digit to ten times the shorter prefix's value.
proof fn lemma_digits_step(d: Seq<char>, j: int)
    requires
        0 <= j < d.len(),
    ensures
        digits_value(d.take(j + 1)) == digits_value(d.take(j)) * 10 + (d[j] as int - 48),
{
    assert(d.take(j + 1).drop_last() =~= d.take(j));
}

/// The value of a run of digits is never negative.
proof fn lemma_digits_nonneg(d: Seq<char>)
    requires
        forall|i: int| 0 <= i < d.len() ==> '0' <= #[trigger] d[i] <= '9',
    ensures
        digits_value(d) >= 0,
    decreases d.len(),
{
    if d.len() > 0 {
        lemma_digits_nonneg(d.drop_last());
    }
}

/// The value of a run of digits is at least that of any of its prefixes.
proof fn lemma_digits_prefix(d: Seq<char>, j: int)
    requires
        0 <= j <= d.len(),
        forall|i: int| 0 <= i < d.len() ==> '0' <= #[trigger] d[i] <= '9',
    ensures
        digits_value(d.take(j)) <= digits_value(d),
    decreases d.len() - j,
{
    if j < d.len() {
        lemma_digits_prefix(d, j + 1);
        lemma_digits_step(d, j);
        assert forall|i: int| 0 <= i < d.take(j).len() implies '0' <= #[trigger] d.take(j)[i] <= '9' by {
            assert(d.take(j)[i] == d[i]);
        }
        lemma_digits_nonneg(d.take(j));
        assert(digits_value(d.take(j)) <= digits_value(d.take(j)) * 10 + (d[j] as int - 48)) by (nonlinear_arith)
            requires
                digits_value(d.take(j)) >= 0,
                d[j] as int - 48 >= 0,
        ;
    } else {
        assert(d.take(j) =~= d);
    }
}

/// Reads `s` as a `u64` the way `str::parse::<u64>` does: an optional `+`, then decimal digits
/// only, failing when the value overflows.
fn parse_u64(s: &str) -> (r: Option<u64>)
    ensures
        r == parsed_u64(s@),
{
    let n = s.unicode_len();
    let start: usize = if n > 0 && s.get_char(0) == '+' {
        1
    } else {
        0
    };
    let ghost d = unsigned_part(s@);
    proof {
        assert(d =~= s@.subrange(start as int, n as int));
    }
    if start >= n {
        return None;
    }
    let mut acc: u64 = 0;
    let mut i: usize = start;
    proof {
        assert(d.take(0) =~= Seq::<char>::empty());
    }
    while i < n
        invariant
            start <= i <= n,
            n == s@.len(),
            d == s@.subrange(start as int, n as int),
            d == unsigned_part(s@),
            d.len() > 0,
            forall|k: int| 0 <= k < i - start ==> '0' <= #[trigger] d[k] <= '9',
            acc == digits_value(d.take(i - start)),
        decreases n - i,
    {
        let c = s.get_char(i);
        proof {
            assert(d[i - start] == c);
        }
        if c < '0' || c > '9' {
            proof {
                assert(!('0' <= d[i - start] <= '9'));
                assert(parsed_u64(s@) is None);
            }
            return None;
        }
        let v: u64 = (c as u32 - 48) as u64;
        proof {
            assert(v == d[i - start] as int - 48);
            lemma_digits_step(d, i - start);
        }
        if acc > (u64::MAX - v) / 10 {
            proof {
                assert(acc * 10 + v > u64::MAX) by (nonlinear_arith)
                    requires
                        acc > (u64::MAX - v) / 10,
                        v <= 9,
                ;
                if all_digits(d) {
                    lemma_digits_prefix(d, i - start + 1);
                    assert(digits_value(d) > u64::MAX);
                }
                assert(parsed_u64(s@) is None);
            }
            return None;
        }
        assert(acc * 10 + v <= u64::MAX) by (nonlinear_arith)
            requires
                acc <= (u64::MAX - v) / 10,
                v <= 9,
        ;
        acc = acc * 10 + v;
        i = i + 1;
    }
    proof {
        assert(d.take(d.len() as int) =~= d);
    }
    Some(acc)
}

/// The line number typed into the goto-line field: its text without surrounding white space,
/// read as a `u64`.
pub fn parse_line_number(query: &str) -> (r: Option<u64>)
    ensures
        r == parsed_u64(trimmed(query@)),
{
    parse_u64(str_trim(query))
}

/// What the find panel says of the matches: how many there are and, when the selection is one
/// of them, which.
pub open spec fn find_count_text(query_empty: bool, count: nat, current: Option<nat>) -> Seq<char> {
    if query_empty {
        "0 matches"@
    } else {
        match current {
            Some(i) => decimal(count) + " matches · current "@ + decimal(i + 1) + "/"@ + decimal(count),
            None => decimal(count) + " matches"@,
        }
    }
}

/// The find panel's count of matches.
pub fn find_count_label(query_empty: bool, count: usize, current: Option<usize>) -> (r: String)
    requires
        current matches Some(i) ==> i < count,
    ensures
        r@ == find_count_text(
            query_empty,
            count as nat,
            match current {
                Some(i) => Some(i as nat),
                None => None,
            },
        ),
{
    if query_empty {
        return "0 matches".to_owned();
    }
    match current {
        Some(i) => {
            let mut s = decimal_string(count as u64);
            s.append(" matches · current ");
            s.append(decimal_string((i + 1) as u64).as_str());
            s.append("/");
            s.append(decimal_string(count as u64).as_str());
            s
        },
        None => {
            let mut s = decimal_string(count as u64);
            s.append(" matches");
            s
        },
    }
}

/// How the project search panel lists a match: relative path, line number, then the line.
pub open spec fn search_result_text(m: ProjectSearchMatch) -> Seq<char> {
    m.relative_path@ + ":"@ + decimal(m.line_number as nat) + "  "@ + m.line_text@
}

/// The project search panel's line for a match.
pub fn search_result_label(m: &ProjectSearchMatch) -> (r: String)
    ensures
        r@ == search_result_text(*m),
{
    let mut s = m.relative_path.clone();
    s.append(":");
    s.append(decimal_string(m.line_number as u64).as_str());
    s.append("  ");
    s.append(m.line_text.as_str());
    s
}

} // verus!
