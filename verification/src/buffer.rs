use std::ops::Range;
use std::path::PathBuf;

use vstd::prelude::*;
use vstd::string::*;
use vstd::utf8::*;

use crate::ids::{next_id, BufferId, IdAllocator, IdCounters};
use crate::selection::Region;
use crate::trusted::str_byte_len;
use crate::text::{
    count_newlines, decimal, decimal_string, full_line_end, is_next_char_end, is_prev_char_start, is_row_start,
    lemma_ascii_boundaries, lemma_boundary_char, lemma_encode_concat, lemma_suffix_boundary,
    line_begin, line_end, nl, splice, valid_range,
};

verus! {

/// Why a buffer operation was refused.
#[derive(Debug, Clone, PartialEq, Eq, Structural)]
pub enum BufferError {
    NoActiveView,
    ReadOnly,
    InvalidRange { start: usize, end: usize, len: usize },
    InvalidRow { row: usize },
}

/// The message that describes a refusal.
pub open spec fn buffer_error_text(e: BufferError) -> Seq<char> {
    match e {
        BufferError::NoActiveView => "no active view"@,
        BufferError::ReadOnly => "buffer is read-only"@,
        BufferError::InvalidRange { start, end, len } => "range "@ + decimal(start as nat) + ".."@
            + decimal(end as nat) + " is out of bounds for buffer length "@ + decimal(len as nat),
        BufferError::InvalidRow { row } => "row "@ + decimal(row as nat) + " is out of bounds"@,
    }
}

impl BufferError {
    /// The message that describes the refusal.
    pub fn message(&self) -> (r: String)
        ensures
            r@ == buffer_error_text(*self),
    {
        match self {
            BufferError::NoActiveView => "no active view".to_owned(),
            BufferError::ReadOnly => "buffer is read-only".to_owned(),
            BufferError::InvalidRange { start, end, len } => {
                let mut s = "range ".to_owned();
                s.append(decimal_string(*start as u64).as_str());
                s.append("..");
                s.append(decimal_string(*end as u64).as_str());
                s.append(" is out of bounds for buffer length ");
                s.append(decimal_string(*len as u64).as_str());
                s
            },
            BufferError::InvalidRow { row } => {
                let mut s = "row ".to_owned();
                s.append(decimal_string(*row as u64).as_str());
                s.append(" is out of bounds");
                s
            },
        }
    }
}

/// The revision that follows `r` (the counter wraps around).
pub open spec fn next_revision(r: u64) -> u64 {
    if r == u64::MAX {
        0
    } else {
        (r + 1) as u64
    }
}

/// What a buffer holds, with its text as UTF-8 bytes.
pub ghost struct BufferModel {
    pub id: BufferId,
    pub path: Option<PathBuf>,
    pub text: Seq<u8>,
    pub revision: u64,
    pub dirty: bool,
    pub read_only: bool,
}

/// A text buffer. Offsets are byte offsets into its UTF-8 text.
#[derive(Debug, Clone)]
pub struct Buffer {
    id: BufferId,
    path: Option<PathBuf>,
    content: String,
    revision: u64,
    dirty: bool,
    read_only: bool,
}

impl View for Buffer {
    type V = BufferModel;

    closed spec fn view(&self) -> BufferModel {
        BufferModel {
            id: self.id,
            path: self.path,
            text: encode_utf8(self.content@),
            revision: self.revision,
            dirty: self.dirty,
            read_only: self.read_only,
        }
    }
}

impl Buffer {
    /// The text of a buffer is always valid UTF-8.
    pub proof fn lemma_valid(&self)
        ensures
            valid_utf8(self@.text),
    {
        encode_utf8_valid_utf8(self.content@);
    }

    /// A buffer with the given id and text.
    pub(crate) fn with_id(id: BufferId, text: String) -> (r: Self)
        ensures
            r@ == (BufferModel {
                id,
                path: None,
                text: encode_utf8(text@),
                revision: 0,
                dirty: false,
                read_only: false,
            }),
    {
        Buffer { id, path: None, content: text, revision: 0, dirty: false, read_only: false }
    }

    /// An empty buffer under the next buffer identifier of `ids`.
    pub fn new_empty(ids: &mut IdAllocator) -> (r: Self)
        ensures
            r@ == (BufferModel {
                id: BufferId(old(ids)@.buffer),
                path: None,
                text: Seq::empty(),
                revision: 0,
                dirty: false,
                read_only: false,
            }),
            final(ids)@ == (IdCounters { buffer: next_id(old(ids)@.buffer), ..old(ids)@ }),
    {
        let id = BufferId::next(ids);
        Buffer::with_id(id, String::new())
    }

    /// A buffer holding `text`, under the next buffer identifier of `ids`.
    pub fn from_text(ids: &mut IdAllocator, text: &str) -> (r: Self)
        ensures
            r@ == (BufferModel {
                id: BufferId(old(ids)@.buffer),
                path: None,
                text: text.spec_bytes(),
                revision: 0,
                dirty: false,
                read_only: false,
            }),
            final(ids)@ == (IdCounters { buffer: next_id(old(ids)@.buffer), ..old(ids)@ }),
    {
        let id = BufferId::next(ids);
        Buffer::with_id(id, text.to_owned())
    }

    pub fn id(&self) -> (r: BufferId)
        ensures
            r == self@.id,
    {
        self.id
    }

    pub fn path(&self) -> (r: Option<&PathBuf>)
        ensures
            r == (match self@.path {
                Some(p) => Some(&p),
                None => None,
            }),
    {
        match &self.path {
            Some(p) => Some(p),
            None => None,
        }
    }

    pub fn set_path(&mut self, path: PathBuf)
        ensures
            final(self)@ == (BufferModel { path: Some(path), ..old(self)@ }),
    {
        self.path = Some(path);
    }

    pub fn revision(&self) -> (r: u64)
        ensures
            r == self@.revision,
    {
        self.revision
    }

    pub fn is_dirty(&self) -> (r: bool)
        ensures
            r == self@.dirty,
    {
        self.dirty
    }

    pub fn set_dirty(&mut self, dirty: bool)
        ensures
            final(self)@ == (BufferModel { dirty, ..old(self)@ }),
    {
        self.dirty = dirty;
    }

    pub fn is_read_only(&self) -> (r: bool)
        ensures
            r == self@.read_only,
    {
        self.read_only
    }

    pub fn set_read_only(&mut self, read_only: bool)
        ensures
            final(self)@ == (BufferModel { read_only, ..old(self)@ }),
    {
        self.read_only = read_only;
    }

    /// Length of the text in bytes.
    pub fn len(&self) -> (r: usize)
        ensures
            r == self@.text.len(),
            r <= isize::MAX,
    {
        str_byte_len(self.content.as_str())
    }

    pub fn is_empty(&self) -> (r: bool)
        ensures
            r == (self@.text.len() == 0),
    {
        self.len() == 0
    }

    /// The whole text.
    pub fn content(&self) -> (r: &str)
        ensures
            r.spec_bytes() == self@.text,
            r@ == self.spec_chars(),
    {
        self.content.as_str()
    }

    /// The text as characters.
    pub closed spec fn spec_chars(&self) -> Seq<char> {
        self.content@
    }

    fn bytes(&self) -> (r: &[u8])
        ensures
            r@ == self@.text,
    {
        self.content.as_str().as_bytes()
    }

    /// Number of lines: one more than the number of newlines.
    pub fn line_count(&self) -> (r: usize)
        ensures
            r == count_newlines(self@.text, self@.text.len() as int) + 1,
    {
        let bytes = self.bytes();
        let n = self.len();
        let mut count: usize = 0;
        let mut i: usize = 0;
        while i < n
            invariant
                i <= n,
                n == bytes@.len(),
                n <= isize::MAX,
                bytes@ == self@.text,
                count == count_newlines(bytes@, i as int),
                count <= i,
            decreases n - i,
        {
            if bytes[i] == 10u8 {
                count = count + 1;
            }
            i = i + 1;
        }
        count + 1
    }

    fn validate_range(&self, start: usize, end: usize) -> (r: Result<(), BufferError>)
        ensures
            r is Ok <==> valid_range(self@.text, start as int, end as int),
            r is Err ==> r == Err::<(), BufferError>(
                BufferError::InvalidRange { start, end, len: self@.text.len() as usize },
            ),
    {
        let len = self.len();
        if start > end || end > len {
            return Err(BufferError::InvalidRange { start, end, len });
        }
        let s = self.content.as_str();
        if !s.is_char_boundary(start) || !s.is_char_boundary(end) {
            return Err(BufferError::InvalidRange { start, end, len });
        }
        Ok(())
    }

    fn validate_point(&self, point: usize) -> (r: Result<(), BufferError>)
        ensures
            r is Ok <==> valid_range(self@.text, point as int, point as int),
            r is Err ==> r == Err::<(), BufferError>(
                BufferError::InvalidRange { start: point, end: point, len: self@.text.len() as usize },
            ),
    {
        self.validate_range(point, point)
    }

    /// Inserts `text` at `point`.
    pub fn insert(&mut self, point: usize, text: &str) -> (r: Result<(), BufferError>)
        ensures
            spec_replace_result(*old(self), point, point, text.spec_bytes(), r, *final(self)),
    {
        self.replace(point..point, text)
    }

    /// Deletes the bytes of `range`.
    pub fn delete(&mut self, range: Range<usize>) -> (r: Result<(), BufferError>)
        ensures
            spec_replace_result(*old(self), range.start, range.end, Seq::empty(), r, *final(self)),
    {
        proof {
            reveal_strlit("");
        }
        self.replace(range, "")
    }

    /// Replaces the bytes of `range` with `text`; the revision moves on and the buffer is dirty.
    pub fn replace(&mut self, range: Range<usize>, text: &str) -> (r: Result<(), BufferError>)
        ensures
            spec_replace_result(*old(self), range.start, range.end, text.spec_bytes(), r, *final(self)),
    {
        if self.read_only {
            return Err(BufferError::ReadOnly);
        }
        let start = range.start;
        let end = range.end;
        match self.validate_range(start, end) {
            Err(e) => return Err(e),
            Ok(()) => {},
        }
        let ghost t = self@.text;
        proof {
            self.lemma_valid();
            lemma_suffix_boundary(t, start as int, end as int);
        }
        let s = self.content.as_str();
        let (pre, rest) = s.split_at(start);
        let (_mid, post) = rest.split_at(end - start);
        let mut out = pre.to_owned();
        out.append(text);
        out.append(post);
        proof {
            assert(pre.spec_bytes() == t.subrange(0, start as int));
            assert(post.spec_bytes() == t.subrange(end as int, t.len() as int));
            lemma_encode_concat(pre@, text@);
            lemma_encode_concat(pre@ + text@, post@);
        }
        self.content = out;
        self.revision = if self.revision == u64::MAX {
            0
        } else {
            self.revision + 1
        };
        self.dirty = true;
        Ok(())
    }

    /// The text of `range`.
    pub fn substr(&self, range: Range<usize>) -> (r: Result<&str, BufferError>)
        ensures
            r is Ok <==> valid_range(self@.text, range.start as int, range.end as int),
            r matches Ok(s) ==> s.spec_bytes() == self@.text.subrange(range.start as int, range.end as int),
            r is Err ==> r == Err::<&str, BufferError>(
                BufferError::InvalidRange { start: range.start, end: range.end, len: self@.text.len() as usize },
            ),
    {
        let start = range.start;
        let end = range.end;
        match self.validate_range(start, end) {
            Err(e) => return Err(e),
            Ok(()) => {},
        }
        let ghost t = self@.text;
        proof {
            self.lemma_valid();
            lemma_suffix_boundary(t, start as int, end as int);
        }
        let s = self.content.as_str();
        let (_pre, rest) = s.split_at(start);
        let (mid, _post) = rest.split_at(end - start);
        proof {
            assert(mid.spec_bytes() == t.subrange(start as int, end as int));
        }
        Ok(mid)
    }
}


impl Buffer {
    /// Row (zero-based) and column (in bytes) of `point`.
    pub fn row_col(&self, point: usize) -> (r: Result<(usize, usize), BufferError>)
        ensures
            r is Ok <==> valid_range(self@.text, point as int, point as int),
            r matches Ok((row, col)) ==> row == count_newlines(self@.text, point as int)
                && col == point - line_begin(self@.text, point as int) && row <= point,
            r is Err ==> r == Err::<(usize, usize), BufferError>(
                BufferError::InvalidRange { start: point, end: point, len: self@.text.len() as usize },
            ),
    {
        match self.validate_point(point) {
            Err(e) => return Err(e),
            Ok(()) => {},
        }
        let bytes = self.bytes();
        let mut row: usize = 0;
        let mut line_start: usize = 0;
        let mut i: usize = 0;
        while i < point
            invariant
                point <= bytes@.len(),
                bytes@ == self@.text,
                i <= point,
                row == count_newlines(bytes@, i as int),
                row <= i,
                line_start == line_begin(bytes@, i as int),
                line_start <= i,
            decreases point - i,
        {
            if bytes[i] == 10u8 {
                row = row + 1;
                line_start = i + 1;
            }
            i = i + 1;
        }
        Ok((row, point - line_start))
    }

    /// Offset of the start of row `target_row` (zero-based).
    pub fn line_start(&self, target_row: usize) -> (r: Result<usize, BufferError>)
        ensures
            r is Ok <==> target_row <= count_newlines(self@.text, self@.text.len() as int),
            r matches Ok(k) ==> is_row_start(self@.text, target_row as int, k as int),
            r is Err ==> r == Err::<usize, BufferError>(BufferError::InvalidRow { row: target_row }),
    {
        if target_row == 0 {
            return Ok(0);
        }
        let bytes = self.bytes();
        let n = self.len();
        let mut row: usize = 0;
        let mut i: usize = 0;
        while i < n
            invariant
                n == bytes@.len(),
                bytes@ == self@.text,
                i <= n,
                row == count_newlines(bytes@, i as int),
                row < target_row,
            decreases n - i,
        {
            if bytes[i] == 10u8 {
                row = row + 1;
                if row == target_row {
                    proof {
                        lemma_count_newlines_monotone(bytes@, i + 1, n as int);
                    }
                    return Ok(i + 1);
                }
            }
            i = i + 1;
        }
        Err(BufferError::InvalidRow { row: target_row })
    }

    fn line_start_for_point(&self, point: usize) -> (r: Result<usize, BufferError>)
        ensures
            r is Ok <==> valid_range(self@.text, point as int, point as int),
            r matches Ok(k) ==> k == line_begin(self@.text, point as int),
            r is Err ==> r == Err::<usize, BufferError>(
                BufferError::InvalidRange { start: point, end: point, len: self@.text.len() as usize },
            ),
    {
        match self.validate_point(point) {
            Err(e) => return Err(e),
            Ok(()) => {},
        }
        let bytes = self.bytes();
        let mut i: usize = point;
        while i > 0 && bytes[i - 1] != 10u8
            invariant
                point <= bytes@.len(),
                bytes@ == self@.text,
                i <= point,
                line_begin(bytes@, i as int) == line_begin(bytes@, point as int),
            decreases i,
        {
            i = i - 1;
        }
        Ok(i)
    }

    fn line_end_for_point(&self, point: usize, include_newline: bool) -> (r: Result<usize, BufferError>)
        ensures
            r is Ok <==> valid_range(self@.text, point as int, point as int),
            r matches Ok(k) ==> k == (if include_newline {
                full_line_end(self@.text, point as int)
            } else {
                line_end(self@.text, point as int)
            }),
            r is Err ==> r == Err::<usize, BufferError>(
                BufferError::InvalidRange { start: point, end: point, len: self@.text.len() as usize },
            ),
    {
        match self.validate_point(point) {
            Err(e) => return Err(e),
            Ok(()) => {},
        }
        let bytes = self.bytes();
        let n = self.len();
        let mut i: usize = point;
        while i < n && bytes[i] != 10u8
            invariant
                n == bytes@.len(),
                n <= isize::MAX,
                bytes@ == self@.text,
                point <= i <= n,
                line_end(bytes@, i as int) == line_end(bytes@, point as int),
            decreases n - i,
        {
            i = i + 1;
        }
        if i < n && include_newline {
            Ok(i + 1)
        } else {
            Ok(i)
        }
    }

    /// The line holding `point`, without its newline.
    pub fn line(&self, point: usize) -> (r: Result<Region, BufferError>)
        ensures
            r is Ok <==> valid_range(self@.text, point as int, point as int),
            r matches Ok(reg) ==> reg.a == line_begin(self@.text, point as int)
                && reg.b == line_end(self@.text, point as int),
            r is Err ==> r == Err::<Region, BufferError>(
                BufferError::InvalidRange { start: point, end: point, len: self@.text.len() as usize },
            ),
    {
        match self.validate_point(point) {
            Err(e) => return Err(e),
            Ok(()) => {},
        }
        let start = match self.line_start_for_point(point) {
            Ok(k) => k,
            Err(e) => return Err(e),
        };
        let end = match self.line_end_for_point(point, false) {
            Ok(k) => k,
            Err(e) => return Err(e),
        };
        Ok(Region::new(start, end))
    }

    /// The line holding `point`, with its newline.
    pub fn full_line(&self, point: usize) -> (r: Result<Region, BufferError>)
        ensures
            r is Ok <==> valid_range(self@.text, point as int, point as int),
            r matches Ok(reg) ==> reg.a == line_begin(self@.text, point as int)
                && reg.b == full_line_end(self@.text, point as int),
            r is Err ==> r == Err::<Region, BufferError>(
                BufferError::InvalidRange { start: point, end: point, len: self@.text.len() as usize },
            ),
    {
        match self.validate_point(point) {
            Err(e) => return Err(e),
            Ok(()) => {},
        }
        let start = match self.line_start_for_point(point) {
            Ok(k) => k,
            Err(e) => return Err(e),
        };
        let end = match self.line_end_for_point(point, true) {
            Ok(k) => k,
            Err(e) => return Err(e),
        };
        Ok(Region::new(start, end))
    }

    /// The text of the line holding `point`, without its newline.
    pub fn line_text(&self, point: usize) -> (r: Result<&str, BufferError>)
        ensures
            r is Ok <==> valid_range(self@.text, point as int, point as int),
            r matches Ok(s) ==> s.spec_bytes() == self@.text.subrange(
                line_begin(self@.text, point as int),
                line_end(self@.text, point as int),
            ),
            r is Err ==> r == Err::<&str, BufferError>(
                BufferError::InvalidRange { start: point, end: point, len: self@.text.len() as usize },
            ),
    {
        let region = match self.line(point) {
            Ok(reg) => reg,
            Err(e) => return Err(e),
        };
        proof {
            self.lemma_valid();
            lemma_line_bounds(self@.text, point as int);
        }
        self.substr(region.begin()..region.end())
    }

    /// The offset `col` bytes into row `target_row`, but no further than the end of that row.
    pub fn text_point(&self, target_row: usize, col: usize) -> (r: Result<usize, BufferError>)
        ensures
            r is Ok <==> target_row <= count_newlines(self@.text, self@.text.len() as int),
            r matches Ok(p) ==> exists|k: int| #[trigger] is_row_start(self@.text, target_row as int, k)
                && p == (if k + col <= line_end(self@.text, k) { k + col } else { line_end(self@.text, k) }),
            r is Err ==> r == Err::<usize, BufferError>(BufferError::InvalidRow { row: target_row }),
    {
        let line_start = match self.line_start(target_row) {
            Ok(k) => k,
            Err(e) => return Err(e),
        };
        proof {
            self.lemma_valid();
            lemma_row_start_boundary(self@.text, target_row as int, line_start as int);
        }
        let line_region = match self.line(line_start) {
            Ok(reg) => reg,
            Err(e) => return Err(e),
        };
        proof {
            lemma_line_bounds(self@.text, line_start as int);
        }
        let end = line_region.end();
        let p = if col <= end - line_start {
            line_start + col
        } else {
            end
        };
        proof {
            assert(is_row_start(self@.text, target_row as int, line_start as int));
        }
        Ok(p)
    }

    /// Start of the character that ends at `point`; `None` at the start of the text.
    pub fn prev_char_start(&self, point: usize) -> (r: Result<Option<usize>, BufferError>)
        ensures
            r is Ok <==> valid_range(self@.text, point as int, point as int),
            r matches Ok(o) ==> (o is None <==> point == 0),
            r matches Ok(Some(j)) ==> is_prev_char_start(self@.text, point as int, j as int),
            r is Err ==> r == Err::<Option<usize>, BufferError>(
                BufferError::InvalidRange { start: point, end: point, len: self@.text.len() as usize },
            ),
    {
        match self.validate_point(point) {
            Err(e) => return Err(e),
            Ok(()) => {},
        }
        if point == 0 {
            return Ok(None);
        }
        let bytes = self.bytes();
        let ghost t = bytes@;
        proof {
            self.lemma_valid();
            lemma_boundary_char(t, 0);
        }
        let mut j: usize = point - 1;
        while j > 0 && bytes[j] >= 0x80u8 && bytes[j] <= 0xbfu8
            invariant
                t == bytes@,
                t == self@.text,
                valid_utf8(t),
                0 <= j < point <= t.len(),
                forall|k: int| j < k < point ==> !is_char_boundary(t, k),
            decreases j,
        {
            proof {
                lemma_boundary_char(t, j as int);
            }
            j = j - 1;
        }
        proof {
            lemma_boundary_char(t, j as int);
            if j == 0 {
                crate::text::lemma_first_not_continuation(t);
            }
        }
        Ok(Some(j))
    }

    /// End of the character that starts at `point`; `None` at the end of the text.
    pub fn next_char_end(&self, point: usize) -> (r: Result<Option<usize>, BufferError>)
        ensures
            r is Ok <==> valid_range(self@.text, point as int, point as int),
            r matches Ok(o) ==> (o is None <==> point == self@.text.len()),
            r matches Ok(Some(j)) ==> is_next_char_end(self@.text, point as int, j as int),
            r is Err ==> r == Err::<Option<usize>, BufferError>(
                BufferError::InvalidRange { start: point, end: point, len: self@.text.len() as usize },
            ),
    {
        match self.validate_point(point) {
            Err(e) => return Err(e),
            Ok(()) => {},
        }
        let n = self.len();
        if point == n {
            return Ok(None);
        }
        let bytes = self.bytes();
        let ghost t = bytes@;
        proof {
            self.lemma_valid();
        }
        let mut j: usize = point + 1;
        while j < n && bytes[j] >= 0x80u8 && bytes[j] <= 0xbfu8
            invariant
                t == bytes@,
                t == self@.text,
                n == t.len(),
                n <= isize::MAX,
                valid_utf8(t),
                point < j <= n,
                forall|k: int| point < k < j ==> !is_char_boundary(t, k),
            decreases n - j,
        {
            proof {
                lemma_boundary_char(t, j as int);
            }
            j = j + 1;
        }
        proof {
            lemma_boundary_char(t, j as int);
        }
        Ok(Some(j))
    }
}

/// The ends of the line around a boundary `p` are boundaries themselves, in order around `p`.
pub proof fn lemma_line_bounds(t: Seq<u8>, p: int)
    requires
        valid_utf8(t),
        0 <= p <= t.len(),
    ensures
        0 <= line_begin(t, p) <= p <= line_end(t, p) <= t.len(),
        line_end(t, p) <= full_line_end(t, p) <= t.len(),
        valid_range(t, line_begin(t, p), line_end(t, p)),
        valid_range(t, line_begin(t, p), full_line_end(t, p)),
        valid_range(t, line_end(t, p), full_line_end(t, p)),
        line_end(t, p) < t.len() ==> t[line_end(t, p)] == nl(),
        line_begin(t, p) > 0 ==> t[line_begin(t, p) - 1] == nl(),
{
    lemma_line_begin_facts(t, p);
    lemma_line_end_facts(t, p);
    let b = line_begin(t, p);
    let e = line_end(t, p);
    if b > 0 {
        lemma_ascii_boundaries(t, b - 1);
    } else {
        vstd::utf8::is_char_boundary_start_end_of_seq(t);
    }
    if e < t.len() {
        lemma_ascii_boundaries(t, e);
    } else {
        vstd::utf8::is_char_boundary_start_end_of_seq(t);
    }
}

proof fn lemma_line_begin_facts(t: Seq<u8>, p: int)
    requires
        0 <= p <= t.len(),
    ensures
        0 <= line_begin(t, p) <= p,
        line_begin(t, p) > 0 ==> t[line_begin(t, p) - 1] == nl(),
    decreases p,
{
    if p > 0 && t[p - 1] != nl() {
        lemma_line_begin_facts(t, p - 1);
    }
}

proof fn lemma_line_end_facts(t: Seq<u8>, p: int)
    requires
        0 <= p <= t.len(),
    ensures
        p <= line_end(t, p) <= t.len(),
        line_end(t, p) < t.len() ==> t[line_end(t, p)] == nl(),
    decreases t.len() - p,
{
    if p < t.len() && t[p] != nl() {
        lemma_line_end_facts(t, p + 1);
    }
}

/// Newlines only accumulate.
pub proof fn lemma_count_newlines_monotone(t: Seq<u8>, i: int, j: int)
    requires
        0 <= i <= j <= t.len(),
    ensures
        count_newlines(t, i) <= count_newlines(t, j),
    decreases j - i,
{
    if i < j {
        lemma_count_newlines_monotone(t, i, j - 1);
    }
}

/// The start of a row is a boundary.
pub proof fn lemma_row_start_boundary(t: Seq<u8>, row: int, k: int)
    requires
        valid_utf8(t),
        is_row_start(t, row, k),
    ensures
        valid_range(t, k, k),
{
    if k > 0 {
        lemma_ascii_boundaries(t, k - 1);
    } else {
        vstd::utf8::is_char_boundary_start_end_of_seq(t);
    }
}

/// The outcome of replacing `start..end` of `old` with `ins`.
pub open spec fn spec_replace_result(
    old: Buffer,
    start: usize,
    end: usize,
    ins: Seq<u8>,
    r: Result<(), BufferError>,
    new: Buffer,
) -> bool {
    if old@.read_only {
        r == Err::<(), BufferError>(BufferError::ReadOnly) && new@ == old@
    } else if !valid_range(old@.text, start as int, end as int) {
        r == Err::<(), BufferError>(
            BufferError::InvalidRange { start, end, len: old@.text.len() as usize },
        ) && new@ == old@
    } else {
        r is Ok && new@ == (BufferModel {
            text: splice(old@.text, start as int, end as int, ins),
            revision: next_revision(old@.revision),
            dirty: true,
            ..old@
        })
    }
}

} // verus!
