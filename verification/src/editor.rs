//! What the editor front end decides about the text it shows: finding and replacing text,
//! the selected texts, the caret's position, and the commands the palette offers.
use std::ops::Range;

use vstd::prelude::*;
use vstd::string::StringSliceAdditionalSpecFns;
use vstd::utf8::*;

use crate::buffer::BufferError;
use crate::command::CommandSpec;
use crate::state::AppState;
use crate::selection::Region;
use crate::text::{count_newlines, decimal, decimal_string, lemma_encode_concat, line_begin, valid_range};
use crate::trusted::{contains_bytes, lowercased, str_byte_len, str_contains, str_to_lowercase, str_trim, trimmed};

verus! {

/// `n` occurs in `h` at byte `i`.
pub open spec fn occurs_at(h: Seq<u8>, n: Seq<u8>, i: int) -> bool {
    0 <= i && i + n.len() <= h.len() && h.subrange(i, i + n.len()) == n
}

/// The first place at or after `lo` where `n` occurs, ending no later than `hi`.
pub open spec fn first_occurrence(h: Seq<u8>, n: Seq<u8>, lo: int, hi: int) -> Option<int>
    decreases hi - lo,
{
    if lo < 0 || lo + n.len() > hi || hi > h.len() {
        None
    } else if occurs_at(h, n, lo) {
        Some(lo)
    } else if lo >= hi {
        None
    } else {
        first_occurrence(h, n, lo + 1, hi)
    }
}

/// The last place at or after `lo` where `n` occurs, ending no later than `hi`.
pub open spec fn last_occurrence(h: Seq<u8>, n: Seq<u8>, lo: int, hi: int) -> Option<int>
    decreases hi - lo,
{
    if lo < 0 || lo + n.len() > hi || hi > h.len() {
        None
    } else if occurs_at(h, n, hi - n.len()) {
        Some(hi - n.len())
    } else if hi <= lo {
        None
    } else {
        last_occurrence(h, n, lo, hi - 1)
    }
}

fn occurs_at_exec(h: &[u8], n: &[u8], i: usize) -> (r: bool)
    requires
        i + n@.len() <= h@.len(),
        h@.len() <= isize::MAX,
    ensures
        r == occurs_at(h@, n@, i as int),
{
    let mut k: usize = 0;
    while k < n.len()
        invariant
            k <= n@.len(),
            i + n@.len() <= h@.len(),
            h@.len() <= isize::MAX,
            forall|j: int| 0 <= j < k ==> h@[i + j] == n@[j],
        decreases n@.len() - k,
    {
        if h[i + k] != n[k] {
            proof {
                assert(h@.subrange(i as int, i + n@.len())[k as int] != n@[k as int]);
            }
            return false;
        }
        k = k + 1;
    }
    proof {
        assert(h@.subrange(i as int, i + n@.len()) == n@);
    }
    true
}

/// The first occurrence of `n` in `h` within `lo..hi`.
fn find_first(h: &[u8], n: &[u8], lo: usize, hi: usize) -> (r: Option<usize>)
    requires
        lo <= hi <= h@.len(),
        h@.len() <= isize::MAX,
    ensures
        r == match first_occurrence(h@, n@, lo as int, hi as int) {
            Some(i) => Some(i as usize),
            None => None,
        },
{
    if n.len() > hi {
        return None;
    }
    let last = hi - n.len();
    let mut i: usize = lo;
    while i <= last
        invariant
            lo <= i,
            last + n@.len() == hi,
            hi <= h@.len(),
            h@.len() <= isize::MAX,
            first_occurrence(h@, n@, lo as int, hi as int) == first_occurrence(h@, n@, i as int, hi as int),
        decreases last + 1 - i,
    {
        if occurs_at_exec(h, n, i) {
            return Some(i);
        }
        i = i + 1;
    }
    None
}

/// The last occurrence of `n` in `h` within `lo..hi`.
fn find_last(h: &[u8], n: &[u8], lo: usize, hi: usize) -> (r: Option<usize>)
    requires
        lo <= hi <= h@.len(),
        h@.len() <= isize::MAX,
    ensures
        r == match last_occurrence(h@, n@, lo as int, hi as int) {
            Some(i) => Some(i as usize),
            None => None,
        },
{
    if n.len() > hi - lo {
        return None;
    }
    let least = lo + n.len();
    let mut end: usize = hi;
    while end >= least
        invariant
            lo <= hi <= h@.len(),
            h@.len() <= isize::MAX,
            least == lo + n@.len(),
            least <= hi,
            end <= hi,
            last_occurrence(h@, n@, lo as int, hi as int) == last_occurrence(h@, n@, lo as int, end as int),
        decreases end,
    {
        if occurs_at_exec(h, n, end - n.len()) {
            return Some(end - n.len());
        }
        if end == least {
            proof {
                if n@.len() == 0 {
                    assert(h@.subrange(lo as int, lo as int) == n@);
                }
                assert(last_occurrence(h@, n@, lo as int, least - 1) is None);
            }
            return None;
        }
        end = end - 1;
    }
    None
}

/// Where searching forward from `start_from` finds `query` in `text`: the first occurrence that
/// starts there or later, else the first one that ends before it (the search wraps around).
pub open spec fn found_forward(t: Seq<u8>, q: Seq<u8>, start_from: int) -> Option<int> {
    let s = if start_from < t.len() { start_from } else { t.len() as int };
    match first_occurrence(t, q, s, t.len() as int) {
        Some(i) => Some(i),
        None => first_occurrence(t, q, 0, s),
    }
}

/// Where searching backward from `end_at` finds `query` in `text`: the last occurrence that ends
/// there or earlier, else the last one that starts there or later (the search wraps around).
pub open spec fn found_backward(t: Seq<u8>, q: Seq<u8>, end_at: int) -> Option<int> {
    let e = if end_at < t.len() { end_at } else { t.len() as int };
    match last_occurrence(t, q, 0, e) {
        Some(i) => Some(i),
        None => last_occurrence(t, q, e, t.len() as int),
    }
}

/// The byte offset where searching `text` forward from `start_from` finds `query`.
pub fn find_forward(text: &str, query: &str, start_from: usize) -> (r: Option<usize>)
    requires
        is_char_boundary(
            text.spec_bytes(),
            if start_from < text.spec_bytes().len() { start_from as int } else { text.spec_bytes().len() as int },
        ),
    ensures
        r == match found_forward(text.spec_bytes(), query.spec_bytes(), start_from as int) {
            Some(i) => Some(i as usize),
            None => None,
        },
{
    let h = text.as_bytes();
    let n = query.as_bytes();
    let _len = str_byte_len(text);
    let s = if start_from < h.len() {
        start_from
    } else {
        h.len()
    };
    match find_first(h, n, s, h.len()) {
        Some(i) => Some(i),
        None => find_first(h, n, 0, s),
    }
}

/// The byte offset where searching `text` backward from `end_at` finds `query`.
pub fn find_backward(text: &str, query: &str, end_at: usize) -> (r: Option<usize>)
    requires
        is_char_boundary(
            text.spec_bytes(),
            if end_at < text.spec_bytes().len() { end_at as int } else { text.spec_bytes().len() as int },
        ),
    ensures
        r == match found_backward(text.spec_bytes(), query.spec_bytes(), end_at as int) {
            Some(i) => Some(i as usize),
            None => None,
        },
{
    let h = text.as_bytes();
    let n = query.as_bytes();
    let _len = str_byte_len(text);
    let e = if end_at < h.len() {
        end_at
    } else {
        h.len()
    };
    match find_last(h, n, 0, e) {
        Some(i) => Some(i),
        None => find_last(h, n, e, h.len()),
    }
}

pub proof fn lemma_first_occurrence(h: Seq<u8>, n: Seq<u8>, lo: int, hi: int)
    ensures
        first_occurrence(h, n, lo, hi) matches Some(i) ==> lo <= i && i + n.len() <= hi && occurs_at(h, n, i),
    decreases hi - lo,
{
    if !(lo < 0 || lo + n.len() > hi || hi > h.len()) && !occurs_at(h, n, lo) && lo < hi {
        lemma_first_occurrence(h, n, lo + 1, hi);
    }
}

/// The places where `n` occurs in `h` from `lo` on, taken from left to right without overlap.
pub open spec fn occurrences_from(h: Seq<u8>, n: Seq<u8>, lo: int) -> Seq<int>
    decreases h.len() - lo,
{
    if n.len() == 0 || lo < 0 || lo > h.len() {
        Seq::empty()
    } else {
        match first_occurrence(h, n, lo, h.len() as int) {
            None => Seq::empty(),
            Some(i) => if i + n.len() <= lo {
                Seq::empty()
            } else {
                proof {
                    lemma_first_occurrence(h, n, lo, h.len() as int);
                }
                seq![i] + occurrences_from(h, n, i + n.len())
            },
        }
    }
}


/// The byte ranges of the matches of `query` in `text`, from left to right without overlap;
/// none for an empty query.
pub fn match_ranges(text: &str, query: &str) -> (r: Vec<Range<usize>>)
    ensures
        r@.map_values(|x: Range<usize>| x.start as int) == occurrences_from(text.spec_bytes(), query.spec_bytes(), 0),
        forall|k: int| 0 <= k < r@.len() ==> #[trigger] r@[k].end == r@[k].start + query.spec_bytes().len(),
{
    let h = text.as_bytes();
    let n = query.as_bytes();
    let _len = str_byte_len(text);
    let mut out: Vec<Range<usize>> = Vec::new();
    if n.len() == 0 {
        return out;
    }
    let mut lo: usize = 0;
    proof {
        assert(Seq::<int>::empty() + occurrences_from(h@, n@, 0) == occurrences_from(h@, n@, 0));
    }
    loop
        invariant
            lo <= h@.len(),
            h@.len() <= isize::MAX,
            n@.len() > 0,
            h@ == text.spec_bytes(),
            n@ == query.spec_bytes(),
            occurrences_from(h@, n@, 0) == out@.map_values(|x: Range<usize>| x.start as int) + occurrences_from(h@, n@, lo as int),
            forall|k: int| 0 <= k < out@.len() ==> #[trigger] out@[k].end == out@[k].start + n@.len(),
        decreases h@.len() - lo,
    {
        let found = find_first(h, n, lo, h.len());
        proof {
            lemma_first_occurrence(h@, n@, lo as int, h@.len() as int);
        }
        match found {
            None => {
                proof {
                    assert(occurrences_from(h@, n@, lo as int) == Seq::<int>::empty());
                    assert(out@.map_values(|x: Range<usize>| x.start as int) + Seq::<int>::empty()
                        == out@.map_values(|x: Range<usize>| x.start as int));
                }
                return out;
            },
            Some(i) => {
                let ghost before = out@.map_values(|x: Range<usize>| x.start as int);
                out.push(i..i + n.len());
                proof {
                    assert(out@.map_values(|x: Range<usize>| x.start as int) == before.push(i as int));
                    assert(before + (seq![i as int] + occurrences_from(h@, n@, i + n@.len()))
                        == before.push(i as int) + occurrences_from(h@, n@, i + n@.len()));
                }
                lo = i + n.len();
            },
        }
    }
}

/// The index of the first match that is exactly the region `active` selects.
pub fn current_match_index(matches: &[Range<usize>], active: Region) -> (r: Option<usize>)
    ensures
        r matches Some(i) ==> i < matches@.len() && matches@[i as int].start == active.lo()
            && matches@[i as int].end == active.hi()
            && forall|j: int| 0 <= j < i ==> !(matches@[j].start == active.lo() && matches@[j].end == active.hi()),
        r is None ==> forall|j: int| 0 <= j < matches@.len()
            ==> !(matches@[j].start == active.lo() && matches@[j].end == active.hi()),
{
    let mut i: usize = 0;
    while i < matches.len()
        invariant
            i <= matches@.len(),
            forall|j: int| 0 <= j < i ==> !(matches@[j].start == active.lo() && matches@[j].end == active.hi()),
        decreases matches@.len() - i,
    {
        if matches[i].start == active.begin() && matches[i].end == active.end() {
            return Some(i);
        }
        i = i + 1;
    }
    None
}

/// `h` with every match of `n`, taken from left to right without overlap, replaced by `r`.
pub open spec fn replaced_from(h: Seq<u8>, n: Seq<u8>, r: Seq<u8>, lo: int) -> Seq<u8>
    decreases h.len() - lo,
{
    if n.len() == 0 || lo < 0 || lo > h.len() {
        h.subrange(if 0 <= lo <= h.len() { lo } else { h.len() as int }, h.len() as int)
    } else {
        match first_occurrence(h, n, lo, h.len() as int) {
            None => h.subrange(lo, h.len() as int),
            Some(i) => if i + n.len() <= lo {
                h.subrange(lo, h.len() as int)
            } else {
                proof {
                    lemma_first_occurrence(h, n, lo, h.len() as int);
                }
                h.subrange(lo, i) + r + replaced_from(h, n, r, i + n.len())
            },
        }
    }
}

/// A match of valid UTF-8 in valid UTF-8 begins and ends on character boundaries.
proof fn lemma_occurrence_boundaries(t: Seq<u8>, n: Seq<u8>, i: int)
    requires
        valid_utf8(t),
        valid_utf8(n),
        n.len() > 0,
        occurs_at(t, n, i),
    ensures
        is_char_boundary(t, i),
        is_char_boundary(t, i + n.len()),
{
    let e = i + n.len();
    crate::text::lemma_boundary_char(t, i);
    crate::text::lemma_first_not_continuation(n);
    assert(t[i] == t.subrange(i, e)[0]);
    valid_utf8_split(t, i);
    let u = t.subrange(i, t.len() as int);
    assert(u.subrange(0, n.len() as int) == n);
    assert(u.subrange(n.len() as int, u.len() as int) == t.subrange(e, t.len() as int));
    if !valid_utf8(t.subrange(e, t.len() as int)) {
        partial_valid_partial_invalid_utf8(u, n.len() as int);
    }
    valid_utf8_concat(t.subrange(0, i), n);
    assert(t.subrange(0, i) + n == t.subrange(0, e));
    crate::text::lemma_concat_boundary(t.subrange(0, e), t.subrange(e, t.len() as int));
    assert(t.subrange(0, e) + t.subrange(e, t.len() as int) == t);
}

/// The bytes of `text` from `lo` to `hi`, as a string.
pub(crate) fn slice_between(text: &str, lo: usize, hi: usize) -> (r: &str)
    requires
        lo <= hi <= text.spec_bytes().len(),
        is_char_boundary(text.spec_bytes(), lo as int),
        is_char_boundary(text.spec_bytes(), hi as int),
    ensures
        r.spec_bytes() == text.spec_bytes().subrange(lo as int, hi as int),
{
    let ghost t = text.spec_bytes();
    proof {
        encode_utf8_valid_utf8(text@);
        valid_utf8_split(t, hi as int);
        crate::text::lemma_concat_boundary(t.subrange(0, hi as int), t.subrange(hi as int, t.len() as int));
        assert(t.subrange(0, hi as int) + t.subrange(hi as int, t.len() as int) == t);
    }
    let (head, _rest) = text.split_at(hi);
    let (_skip, piece) = head.split_at(lo);
    piece
}

/// `text` with every match of `find` replaced by `replacement`, and the number of matches.
pub fn replace_matches(text: &str, find: &str, replacement: &str) -> (r: (String, usize))
    requires
        find@.len() > 0,
    ensures
        encode_utf8(r.0@) == replaced_from(text.spec_bytes(), find.spec_bytes(), replacement.spec_bytes(), 0),
        r.1 == occurrences_from(text.spec_bytes(), find.spec_bytes(), 0).len(),
{
    let ghost h = text.spec_bytes();
    let ghost n = find.spec_bytes();
    let ghost rep = replacement.spec_bytes();
    proof {
        encode_utf8_valid_utf8(text@);
        encode_utf8_valid_utf8(find@);
        lemma_encode_nonempty(find@);
        is_char_boundary_start_end_of_seq(h);
    }
    let ranges = match_ranges(text, find);
    let ghost starts = ranges@.map_values(|x: Range<usize>| x.start as int);
    let mut out = String::new();
    let mut lo: usize = 0;
    let mut k: usize = 0;
    let len = str_byte_len(text);
    proof {
        assert(starts.skip(0) == starts);
        assert(encode_utf8(out@) == Seq::<u8>::empty());
        assert(Seq::<u8>::empty() + replaced_from(h, n, rep, 0) == replaced_from(h, n, rep, 0));
    }
    while k < ranges.len()
        invariant
            k <= ranges@.len(),
            lo <= h.len(),
            len == h.len(),
            h == text.spec_bytes(),
            n == find.spec_bytes(),
            rep == replacement.spec_bytes(),
            n.len() > 0,
            valid_utf8(h),
            valid_utf8(n),
            starts == ranges@.map_values(|x: Range<usize>| x.start as int),
            starts == occurrences_from(h, n, 0),
            forall|j: int| 0 <= j < ranges@.len() ==> #[trigger] ranges@[j].end == ranges@[j].start + n.len(),
            starts.skip(k as int) == occurrences_from(h, n, lo as int),
            is_char_boundary(h, lo as int),
            encode_utf8(out@) + replaced_from(h, n, rep, lo as int) == replaced_from(h, n, rep, 0),
        decreases ranges@.len() - k,
    {
        let start = ranges[k].start;
        let end = ranges[k].end;
        let ghost occ = occurrences_from(h, n, lo as int);
        proof {
            assert(occ[0] == starts[k as int]);
            lemma_first_occurrence(h, n, lo as int, h.len() as int);
            assert(first_occurrence(h, n, lo as int, h.len() as int) == Some(start as int));
            assert(start + n.len() > lo);
            lemma_occurrence_boundaries(h, n, start as int);
            assert(starts.skip(k + 1) == occ.drop_first());
            assert(occ.drop_first() == occurrences_from(h, n, end as int));
        }
        let piece = slice_between(text, lo, start);
        let ghost old_out = out@;
        out.append(piece);
        out.append(replacement);
        proof {
            assert(out@ == old_out + piece@ + replacement@);
            lemma_encode_concat(old_out + piece@, replacement@);
            lemma_encode_concat(old_out, piece@);
            assert(replaced_from(h, n, rep, lo as int) == h.subrange(lo as int, start as int) + rep + replaced_from(h, n, rep, end as int));
        }
        lo = end;
        k = k + 1;
    }
    proof {
        assert(occurrences_from(h, n, lo as int) == Seq::<int>::empty());
        assert(replaced_from(h, n, rep, lo as int) == h.subrange(lo as int, h.len() as int));
    }
    let tail = slice_between(text, lo, len);
    let ghost old_out = out@;
    out.append(tail);
    proof {
        assert(out@ == old_out + tail@);
        lemma_encode_concat(old_out, tail@);
    }
    (out, ranges.len())
}

proof fn lemma_encode_nonempty(s: Seq<char>)
    requires
        s.len() > 0,
    ensures
        encode_utf8(s).len() > 0,
{
    char_is_scalar(s[0]);
}

/// The texts of the non-empty regions of `rs`, in order; the first region that does not lie on
/// character boundaries of `t` stops the collection.
pub open spec fn selected_pieces(t: Seq<u8>, rs: Seq<Region>) -> Result<Seq<Seq<u8>>, BufferError>
    decreases rs.len(),
{
    if rs.len() == 0 {
        Ok(Seq::empty())
    } else {
        match selected_pieces(t, rs.drop_last()) {
            Err(e) => Err(e),
            Ok(v) => {
                let r = rs.last();
                if r.a == r.b {
                    Ok(v)
                } else if !valid_range(t, r.lo() as int, r.hi() as int) {
                    Err(BufferError::InvalidRange { start: r.lo(), end: r.hi(), len: t.len() as usize })
                } else {
                    Ok(v.push(t.subrange(r.lo() as int, r.hi() as int)))
                }
            },
        }
    }
}

proof fn lemma_pieces_stopped(t: Seq<u8>, rs: Seq<Region>, j: int)
    requires
        0 <= j <= rs.len(),
        selected_pieces(t, rs.take(j)) is Err,
    ensures
        selected_pieces(t, rs) == selected_pieces(t, rs.take(j)),
    decreases rs.len() - j,
{
    if j < rs.len() {
        assert(rs.drop_last().take(j) == rs.take(j));
        lemma_pieces_stopped(t, rs.drop_last(), j);
    } else {
        assert(rs.take(j) == rs);
    }
}

/// The texts the active view selects, one per non-empty region.
pub fn selected_texts(state: &AppState) -> (r: Result<Vec<String>, BufferError>)
    ensures
        state.active_buffer_index() < 0 ==> r == Err::<Vec<String>, BufferError>(BufferError::NoActiveView),
        state.active_buffer_index() >= 0 ==> match r {
            Err(e) => selected_pieces(
                state.model().buffers[state.active_buffer_index()].text,
                state.model().views[state.active_view_index()].selections,
            ) == Err::<Seq<Seq<u8>>, BufferError>(e),
            Ok(v) => selected_pieces(
                state.model().buffers[state.active_buffer_index()].text,
                state.model().views[state.active_view_index()].selections,
            ) == Ok::<Seq<Seq<u8>>, BufferError>(v@.map_values(|s: String| encode_utf8(s@))),
        },
{
    proof {
        state.lemma_active();
    }
    let buffer = match state.active_buffer() {
        Some(b) => b,
        None => return Err(BufferError::NoActiveView),
    };
    let regions = match state.active_selection_regions() {
        Some(rs) => rs,
        None => return Err(BufferError::NoActiveView),
    };
    let ghost t = buffer@.text;
    let ghost rs = regions@;
    let mut out: Vec<String> = Vec::new();
    let mut i: usize = 0;
    proof {
        assert(rs.take(0) == Seq::<Region>::empty());
        assert(out@.map_values(|s: String| encode_utf8(s@)) == Seq::<Seq<u8>>::empty());
    }
    while i < regions.len()
        invariant
            i <= rs.len(),
            rs == regions@,
            t == buffer@.text,
            state.active_buffer_index() >= 0,
            t == state.model().buffers[state.active_buffer_index()].text,
            rs == state.model().views[state.active_view_index()].selections,
            selected_pieces(t, rs.take(i as int)) == Ok::<Seq<Seq<u8>>, BufferError>(out@.map_values(|s: String| encode_utf8(s@))),
        decreases rs.len() - i,
    {
        let region = regions[i];
        proof {
            assert(rs.take(i + 1).drop_last() == rs.take(i as int));
            assert(rs.take(i + 1).last() == region);
        }
        if !region.empty() {
            match buffer.substr(region.begin()..region.end()) {
                Err(e) => {
                    proof {
                        lemma_pieces_stopped(t, rs, i + 1);
                    }
                    return Err(e);
                },
                Ok(piece) => {
                    let ghost before = out@;
                    let owned = piece.to_owned();
                    out.push(owned);
                    proof {
                        assert(out@.map_values(|s: String| encode_utf8(s@))
                            == before.map_values(|s: String| encode_utf8(s@)).push(encode_utf8(owned@)));
                    }
                },
            }
        }
        i = i + 1;
    }
    proof {
        assert(rs.take(rs.len() as int) == rs);
    }
    Ok(out)
}

/// The caret position the status bar shows, one-based, for the last region of the active view.
pub open spec fn status_text(state: &AppState) -> Seq<char> {
    if state.active_buffer_index() < 0 {
        "Ln 1, Col 1"@
    } else {
        let t = state.model().buffers[state.active_buffer_index()].text;
        let sels = state.model().views[state.active_view_index()].selections;
        let c = if sels.len() > 0 { sels.last().b } else { 0usize };
        let caret = if c < t.len() { c } else { t.len() as usize };
        if valid_range(t, caret as int, caret as int) {
            "Ln "@ + decimal(count_newlines(t, caret as int) + 1) + ", Col "@
                + decimal((caret - line_begin(t, caret as int) + 1) as nat)
        } else {
            "Pos err: "@ + crate::buffer::buffer_error_text(
                BufferError::InvalidRange { start: caret, end: caret, len: t.len() as usize },
            )
        }
    }
}

/// What the status bar shows of the caret's position.
pub fn selection_status(state: &AppState) -> (r: String)
    ensures
        r@ == status_text(state),
{
    proof {
        state.lemma_active();
    }
    let buffer = match state.active_buffer() {
        Some(b) => b,
        None => return "Ln 1, Col 1".to_owned(),
    };
    let view = match state.active_view() {
        Some(v) => v,
        None => return "Ln 1, Col 1".to_owned(),
    };
    let c = match view.sel().last() {
        Some(region) => region.caret(),
        None => 0,
    };
    let len = buffer.len();
    let caret = if c < len {
        c
    } else {
        len
    };
    match buffer.row_col(caret) {
        Ok((row, col)) => {
            proof {
                buffer.lemma_valid();
                crate::buffer::lemma_line_bounds(buffer@.text, caret as int);
            }
            let mut s = "Ln ".to_owned();
            s.append(decimal_string((row as u64) + 1).as_str());
            s.append(", Col ");
            s.append(decimal_string((col as u64) + 1).as_str());
            s
        },
        Err(BufferError::NoActiveView) => "Ln 1, Col 1".to_owned(),
        Err(e) => {
            let mut s = "Pos err: ".to_owned();
            s.append(e.message().as_str());
            s
        },
    }
}

/// The commands the palette offers for `query`: all of them for an empty query, else those whose
/// name or description holds the query, all compared in lower case.
pub open spec fn palette_filter(specs: Seq<(Seq<char>, Seq<char>)>, query: Seq<char>) -> Seq<(Seq<char>, Seq<char>)> {
    let q = lowercased(trimmed(query));
    if q.len() == 0 {
        specs
    } else {
        specs.filter(|c: (Seq<char>, Seq<char>)| contains_bytes(encode_utf8(lowercased(c.0)), encode_utf8(q))
            || contains_bytes(encode_utf8(lowercased(c.1)), encode_utf8(q)))
    }
}

/// The commands of `specs` that the palette offers for `query`, in order.
pub fn palette_matches(specs: Vec<CommandSpec>, query: &str) -> (r: Vec<CommandSpec>)
    ensures
        r@.map_values(|c: CommandSpec| crate::command::spec_model(c)) == palette_filter(
            specs@.map_values(|c: CommandSpec| crate::command::spec_model(c)),
            query@,
        ),
{
    let q = str_to_lowercase(str_trim(query));
    if q.as_str().is_empty() {
        return specs;
    }
    let ghost sm = specs@.map_values(|c: CommandSpec| crate::command::spec_model(c));
    let ghost keep = |c: (Seq<char>, Seq<char>)| contains_bytes(encode_utf8(lowercased(c.0)), encode_utf8(q@))
        || contains_bytes(encode_utf8(lowercased(c.1)), encode_utf8(q@));
    let mut out: Vec<CommandSpec> = Vec::new();
    let mut i: usize = 0;
    proof {
        assert(sm.take(0) == Seq::<(Seq<char>, Seq<char>)>::empty());
        assert(sm.take(0).filter(keep) == Seq::<(Seq<char>, Seq<char>)>::empty());
    }
    while i < specs.len()
        invariant
            i <= sm.len(),
            sm == specs@.map_values(|c: CommandSpec| crate::command::spec_model(c)),
            q@ == lowercased(trimmed(query@)),
            keep == (|c: (Seq<char>, Seq<char>)| contains_bytes(encode_utf8(lowercased(c.0)), encode_utf8(q@))
                || contains_bytes(encode_utf8(lowercased(c.1)), encode_utf8(q@))),
            out@.map_values(|c: CommandSpec| crate::command::spec_model(c)) == sm.take(i as int).filter(keep),
        decreases sm.len() - i,
    {
        let name = str_to_lowercase(specs[i].name.as_str());
        let description = str_to_lowercase(specs[i].description.as_str());
        let hit = str_contains(name.as_str(), q.as_str()) || str_contains(description.as_str(), q.as_str());
        proof {
            assert(sm.take(i + 1).drop_last() == sm.take(i as int));
            assert(sm.take(i + 1).last() == sm[i as int]);
            assert(hit == keep(sm[i as int]));
            reveal(Seq::filter);
        }
        if hit {
            let ghost before = out@;
            let c = specs[i].clone();
            out.push(c);
            proof {
                assert(out@.map_values(|c: CommandSpec| crate::command::spec_model(c))
                    == before.map_values(|c: CommandSpec| crate::command::spec_model(c)).push(sm[i as int]));
            }
        }
        i = i + 1;
    }
    proof {
        assert(sm.take(sm.len() as int) == sm);
    }
    out
}

} // verus!
