//! Project search: the index of a project's files, quick-open matching by a fuzzy score, and
//! text search over the files, one file at a time.
use std::path::PathBuf;

use vstd::prelude::*;
use vstd::string::StringSliceAdditionalSpecFns;
use vstd::utf8::encode_utf8;

use crate::command::{bytes_lt, name_lt, str_lt};
use crate::settings::{lemma_bytes_lt_irreflexive, lemma_bytes_lt_total, lemma_bytes_lt_transitive};
use crate::encoding::{decodes_as, TextFileEncoding};
use crate::text_edit::chars_of;
use crate::trusted::{
    clone_path, contains_bytes, lowercased, str_contains, str_lines, str_to_lowercase, str_trim, text_lines,
    trimmed,
};

verus! {

pub fn crate_name() -> (r: &'static str)
    ensures
        r@ == "needle-search"@,
{
    "needle-search"
}

/// The seed of the FNV-1a hash.
pub const FNV_OFFSET: u64 = 1469598103934665603u64;

/// The multiplier of the FNV-1a hash.
pub const FNV_PRIME: u64 = 1099511628211u64;

/// The 64-bit FNV-1a hash of the first `n` bytes of `bytes`.
pub open spec fn fnv1a(bytes: Seq<u8>, n: int) -> u64
    decreases n,
{
    if n <= 0 {
        FNV_OFFSET
    } else {
        vstd::wrapping::u64_specs::wrapping_mul(fnv1a(bytes, n - 1) ^ (bytes[n - 1] as u64), FNV_PRIME)
    }
}

/// The 64-bit FNV-1a hash of the bytes of `value`.
pub fn hash_str(value: &str) -> (r: u64)
    ensures
        r == fnv1a(value.spec_bytes(), value.spec_bytes().len() as int),
{
    let bytes = value.as_bytes();
    let mut hash: u64 = FNV_OFFSET;
    let mut i: usize = 0;
    while i < bytes.len()
        invariant
            i <= bytes@.len(),
            bytes@ == value.spec_bytes(),
            hash == fnv1a(bytes@, i as int),
        decreases bytes@.len() - i,
    {
        hash = hash ^ (bytes[i] as u64);
        hash = hash.wrapping_mul(FNV_PRIME);
        i = i + 1;
    }
    hash
}

/// The fingerprint of a project scan after one more entry: the running value times 131, plus the
/// hash of the entry's path, its length and its modification time in seconds, all wrapping.
pub open spec fn next_fingerprint(fingerprint: u64, path_hash: u64, len: u64, modified: u64) -> u64 {
    vstd::wrapping::u64_specs::wrapping_add(
        vstd::wrapping::u64_specs::wrapping_add(
            vstd::wrapping::u64_specs::wrapping_add(vstd::wrapping::u64_specs::wrapping_mul(fingerprint, 131), path_hash),
            len,
        ),
        modified,
    )
}

/// Folds one scanned entry into the fingerprint of a project scan.
pub fn fingerprint_step(fingerprint: u64, path_text: &str, len: u64, modified: u64) -> (r: u64)
    ensures
        r == next_fingerprint(fingerprint, fnv1a(path_text.spec_bytes(), path_text.spec_bytes().len() as int), len, modified),
{
    fingerprint.wrapping_mul(131).wrapping_add(hash_str(path_text)).wrapping_add(len).wrapping_add(modified)
}

proof fn lemma_dot_byte(c: char)
    ensures
        (vstd::utf8::encode_scalar(c as u32)[0] == 46u8) == (c == '.'),
{
    let v = c as u32;
    if vstd::utf8::has_width_1_encoding(v) {
        assert(v <= 0x7f ==> (((v & 0x7f) as u8 == 46u8) == (v == 46u32))) by (bit_vector);
    } else if vstd::utf8::has_width_2_encoding(v) {
        let x = ((v >> 6) & 0x1F) as u8;
        assert((0xC0u8 | x) != 46u8) by (bit_vector);
    } else if vstd::utf8::has_width_3_encoding(v) {
        let x = ((v >> 12) & 0x0F) as u8;
        assert((0xE0u8 | x) != 46u8) by (bit_vector);
    } else {
        let x = ((v >> 18) & 0x7) as u8;
        assert((0xF0u8 | x) != 46u8) by (bit_vector);
    }
}

/// Whether a scan passes over an entry named `name`: hidden entries (their names start with a
/// dot) are passed over unless they are shown.
pub fn skips_entry(name: &str, show_hidden: bool) -> (r: bool)
    ensures
        r == (!show_hidden && name@.len() > 0 && name@[0] == '.'),
{
    if show_hidden {
        return false;
    }
    let bytes = name.as_bytes();
    proof {
        vstd::utf8::encode_utf8_decode_utf8(name@);
        if name@.len() > 0 {
            crate::text::lemma_encode_concat(seq![name@[0]], name@.drop_first());
            assert(name@ == seq![name@[0]] + name@.drop_first());
            assert(seq![name@[0]].drop_first() == Seq::<char>::empty());
            assert(encode_utf8(seq![name@[0]]) == vstd::utf8::encode_scalar(name@[0] as u32) + encode_utf8(Seq::<char>::empty()));
            lemma_dot_byte(name@[0]);
        } else {
            assert(encode_utf8(Seq::<char>::empty()) == Seq::<u8>::empty());
        }
    }
    bytes.len() > 0 && bytes[0] == 46u8
}

/// The characters after which a match counts as the start of a word.
pub open spec fn is_separator(c: char) -> bool {
    c == '/' || c == '\\' || c == '_' || c == '-' || c == ' ' || c == '.'
}

/// The first index at or after `from` where `c` holds `x`.
pub open spec fn find_from(c: Seq<char>, x: char, from: int) -> Option<int>
    decreases c.len() - from,
{
    if from < 0 || from >= c.len() {
        None
    } else if c[from] == x {
        Some(from)
    } else {
        find_from(c, x, from + 1)
    }
}

/// What matching a query character at `idx` adds to the score: 10, a bonus at the start of the
/// candidate (20) or of a word (15), and 12 when it follows the previous match directly or minus
/// the characters skipped since the previous match (since the start, for the first match).
pub open spec fn step_score(c: Seq<char>, idx: int, prev: Option<int>) -> int {
    10 + (if idx == 0 {
        20int
    } else if is_separator(c[idx - 1]) {
        15int
    } else {
        0int
    }) + match prev {
        Some(p) => if idx == p + 1 {
            12
        } else {
            -(idx - p - 1)
        },
        None => -idx,
    }
}

/// The score of matching the query characters from `k` on, each at the first place after the
/// previous match; `None` when one of them does not occur.
pub open spec fn fuzzy_from(c: Seq<char>, q: Seq<char>, k: int, from: int, prev: Option<int>, score: int) -> Option<int>
    decreases q.len() - k,
{
    if k < 0 || k >= q.len() {
        Some(score)
    } else {
        match find_from(c, q[k], from) {
            None => None,
            Some(idx) => fuzzy_from(c, q, k + 1, idx + 1, Some(idx), score + step_score(c, idx, prev)),
        }
    }
}

/// How well `candidate` matches `query`: `None` when the query characters do not occur in order;
/// otherwise the matching score, 30 more when the query occurs as a whole, and up to 20 more for
/// a short candidate.
pub open spec fn fuzzy_score(candidate: Seq<char>, query: Seq<char>) -> Option<int> {
    if query.len() == 0 {
        Some(0)
    } else {
        match fuzzy_from(candidate, query, 0, 0, None, 0) {
            None => None,
            Some(s) => Some(
                s + (if contains_bytes(encode_utf8(candidate), encode_utf8(query)) {
                    30int
                } else {
                    0int
                }) + 20 - (if candidate.len() < 20 {
                    candidate.len() as int
                } else {
                    20int
                }),
            ),
        }
    }
}

proof fn lemma_find_from(c: Seq<char>, x: char, from: int)
    requires
        0 <= from,
    ensures
        find_from(c, x, from) matches Some(i) ==> from <= i < c.len() && c[i] == x
            && forall|j: int| from <= j < i ==> c[j] != x,
        find_from(c, x, from) is None ==> forall|j: int| from <= j < c.len() ==> c[j] != x,
    decreases c.len() - from,
{
    if from < c.len() && c[from] != x {
        lemma_find_from(c, x, from + 1);
    }
}

/// `idx` places the query characters from `k` on at increasing positions of `c`, from `from` on.
pub open spec fn is_embedding(c: Seq<char>, q: Seq<char>, k: int, from: int, idx: Seq<int>) -> bool {
    &&& idx.len() == q.len() - k
    &&& forall|i: int| 0 <= i < idx.len() ==> from <= #[trigger] idx[i] < c.len() && c[idx[i]] == q[k + i]
    &&& forall|i: int, j: int| 0 <= i < j < idx.len() ==> #[trigger] idx[i] < #[trigger] idx[j]
}

/// The query characters from `k` on occur in `c` in order, from `from` on.
pub open spec fn embeds_from(c: Seq<char>, q: Seq<char>, k: int, from: int) -> bool {
    exists|idx: Seq<int>| #[trigger] is_embedding(c, q, k, from, idx)
}

proof fn lemma_fuzzy_from_embeds(c: Seq<char>, q: Seq<char>, k: int, from: int, prev: Option<int>, score: int)
    requires
        0 <= k <= q.len(),
        0 <= from,
    ensures
        fuzzy_from(c, q, k, from, prev, score) is Some <==> embeds_from(c, q, k, from),
    decreases q.len() - k,
{
    if k == q.len() {
        assert(is_embedding(c, q, k, from, Seq::<int>::empty()));
    } else {
        lemma_find_from(c, q[k], from);
        match find_from(c, q[k], from) {
            None => {
                if embeds_from(c, q, k, from) {
                    let idx = choose|idx: Seq<int>| #[trigger] is_embedding(c, q, k, from, idx);
                    assert(from <= idx[0] < c.len() && c[idx[0]] == q[k]);
                }
            },
            Some(i) => {
                let next_prev = Some(i);
                let next_score = score + step_score(c, i, prev);
                lemma_fuzzy_from_embeds(c, q, k + 1, i + 1, next_prev, next_score);
                if embeds_from(c, q, k + 1, i + 1) {
                    let rest = choose|idx: Seq<int>| #[trigger] is_embedding(c, q, k + 1, i + 1, idx);
                    let idx = seq![i] + rest;
                    assert forall|a: int| 0 <= a < idx.len() implies from <= #[trigger] idx[a] < c.len() && c[idx[a]] == q[k + a] by {
                        if a > 0 {
                            assert(idx[a] == rest[a - 1]);
                        }
                    }
                    assert forall|a: int, b: int| 0 <= a < b < idx.len() implies #[trigger] idx[a] < #[trigger] idx[b] by {
                        assert(idx[b] == rest[b - 1]);
                        if a > 0 {
                            assert(idx[a] == rest[a - 1]);
                        }
                    }
                    assert(is_embedding(c, q, k, from, idx));
                }
                if embeds_from(c, q, k, from) {
                    let idx = choose|idx: Seq<int>| #[trigger] is_embedding(c, q, k, from, idx);
                    assert(from <= idx[0] < c.len() && c[idx[0]] == q[k]);
                    assert(i <= idx[0]);
                    let rest = idx.drop_first();
                    assert forall|a: int| 0 <= a < rest.len() implies i + 1 <= #[trigger] rest[a] < c.len() && c[rest[a]] == q[k + 1 + a] by {
                        assert(rest[a] == idx[a + 1]);
                        assert(idx[0] < idx[a + 1]);
                    }
                    assert forall|a: int, b: int| 0 <= a < b < rest.len() implies #[trigger] rest[a] < #[trigger] rest[b] by {
                        assert(rest[a] == idx[a + 1] && rest[b] == idx[b + 1]);
                    }
                    assert(is_embedding(c, q, k + 1, i + 1, rest));
                }
            },
        }
    }
}

/// A candidate matches a query, and gets a score, exactly when the query's characters occur in
/// it in order.
pub proof fn law_fuzzy_matches_in_order(candidate: Seq<char>, query: Seq<char>)
    ensures
        fuzzy_score(candidate, query) is Some <==> embeds_from(candidate, query, 0, 0),
{
    lemma_fuzzy_from_embeds(candidate, query, 0, 0, None, 0);
    if query.len() == 0 {
        assert(is_embedding(candidate, query, 0, 0, Seq::<int>::empty()));
    }
}

/// The fuzzy score of `candidate` against `query`, in `i64` (scores of candidates shorter than
/// 2^57 characters always fit).
pub fn fuzzy_match_score(candidate: &str, query: &str) -> (r: Option<i64>)
    ensures
        r == match fuzzy_score(candidate@, query@) {
            None => None,
            Some(s) => Some(s as i64),
        },
{
    if query.is_empty() {
        return Some(0);
    }
    let c = chars_of(candidate);
    let q = chars_of(query);
    let mut score: i128 = 0;
    let mut search_from: usize = 0;
    let mut previous: Option<usize> = None;
    let mut k: usize = 0;
    while k < q.len()
        invariant
            c@ == candidate@,
            q@ == query@,
            k <= q@.len(),
            search_from <= c@.len(),
            previous is None <==> search_from == 0 && k == 0 || previous is None && k == 0,
            previous matches Some(p) ==> search_from == p + 1,
            k == 0 ==> previous is None && search_from == 0 && score == 0,
            -(search_from as int) <= score <= 42 * search_from,
            fuzzy_from(c@, q@, 0, 0, None, 0) == fuzzy_from(
                c@,
                q@,
                k as int,
                search_from as int,
                match previous {
                    Some(p) => Some(p as int),
                    None => None,
                },
                score as int,
            ),
        decreases q@.len() - k,
    {
        let x = q[k];
        let mut index: usize = search_from;
        while index < c.len() && c[index] != x
            invariant
                search_from <= index <= c@.len(),
                c@ == candidate@,
                forall|j: int| search_from <= j < index ==> c@[j] != x,
            decreases c@.len() - index,
        {
            index = index + 1;
        }
        proof {
            lemma_find_from(c@, x, search_from as int);
        }
        if index >= c.len() {
            return None;
        }
        proof {
            assert(find_from(c@, x, search_from as int) == Some(index as int));
        }
        let mut step: i128 = 10;
        if index == 0 {
            step = step + 20;
        } else {
            let before = c[index - 1];
            if before == '/' || before == '\\' || before == '_' || before == '-' || before == ' ' || before == '.' {
                step = step + 15;
            }
        }
        match previous {
            Some(p) => {
                if index == p + 1 {
                    step = step + 12;
                } else {
                    step = step - ((index - p - 1) as i128);
                }
            },
            None => {
                step = step - (index as i128);
            },
        }
        proof {
            let prev_spec = match previous {
                Some(p) => Some(p as int),
                None => None,
            };
            assert(step as int == step_score(c@, index as int, prev_spec));
        }
        score = score + step;
        previous = Some(index);
        search_from = index + 1;
        k = k + 1;
    }
    if str_contains(candidate, query) {
        score = score + 30;
    }
    let len = c.len();
    let short = if len < 20 {
        len
    } else {
        20
    };
    score = score + 20 - (short as i128);
    Some(score as i64)
}

/// A file of a project: where it is, and its path relative to the project root.
#[derive(Debug, PartialEq, Eq)]
pub struct ProjectFileEntry {
    pub path: PathBuf,
    pub relative_path: String,
}

impl Clone for ProjectFileEntry {
    fn clone(&self) -> (r: Self)
        ensures
            r == *self,
    {
        ProjectFileEntry { path: clone_path(&self.path), relative_path: self.relative_path.clone() }
    }
}

/// A file entry as values: its path and its relative path.
pub type EntryModel = (PathBuf, Seq<char>);

pub open spec fn entry_model(e: ProjectFileEntry) -> EntryModel {
    (e.path, e.relative_path@)
}

pub open spec fn entry_models(s: Seq<ProjectFileEntry>) -> Seq<EntryModel> {
    s.map_values(|e: ProjectFileEntry| entry_model(e))
}

/// A line of a project file that a text search found.
#[derive(Debug, PartialEq, Eq)]
pub struct ProjectSearchMatch {
    pub path: PathBuf,
    pub relative_path: String,
    pub line_number: usize,
    pub line_text: String,
}

impl Clone for ProjectSearchMatch {
    fn clone(&self) -> (r: Self)
        ensures
            r == *self,
    {
        ProjectSearchMatch {
            path: clone_path(&self.path),
            relative_path: self.relative_path.clone(),
            line_number: self.line_number,
            line_text: self.line_text.clone(),
        }
    }
}

#[derive(Debug)]
struct IndexedProjectFile {
    entry: ProjectFileEntry,
    lower_relative_path: String,
}

/// The files of a project, sorted by relative path, with what the scan that found them reported.
#[derive(Debug)]
pub struct ProjectIndex {
    root: PathBuf,
    show_hidden: bool,
    generation: u64,
    files: Vec<IndexedProjectFile>,
}

/// Stable insertion of `x` after every entry whose relative path does not come after `x`'s.
pub open spec fn insert_entry(s: Seq<EntryModel>, x: EntryModel) -> Seq<EntryModel>
    decreases s.len(),
{
    if s.len() == 0 || !name_lt(x.1, s.last().1) {
        s.push(x)
    } else {
        insert_entry(s.drop_last(), x).push(s.last())
    }
}

/// The entries of `s`, stably sorted by relative path.
pub open spec fn sort_entries(s: Seq<EntryModel>) -> Seq<EntryModel>
    decreases s.len(),
{
    if s.len() == 0 {
        s
    } else {
        insert_entry(sort_entries(s.drop_last()), s.last())
    }
}

impl ProjectIndex {
    /// The indexed files, in order.
    pub closed spec fn entries(&self) -> Seq<EntryModel> {
        self.files@.map_values(|f: IndexedProjectFile| entry_model(f.entry))
    }

    pub closed spec fn root_path(&self) -> PathBuf {
        self.root
    }

    pub closed spec fn shows_hidden(&self) -> bool {
        self.show_hidden
    }

    pub closed spec fn generation_model(&self) -> u64 {
        self.generation
    }

    /// Every file keeps its relative path in lower case beside it.
    pub closed spec fn wf(&self) -> bool {
        forall|i: int| 0 <= i < self.files@.len()
            ==> (#[trigger] self.files@[i]).lower_relative_path@ == lowercased(self.files@[i].entry.relative_path@)
    }

    /// An index of the files a scan of `root` found, with the fingerprint of that scan as its
    /// generation; the files are sorted by relative path.
    pub fn from_scan(root: PathBuf, show_hidden: bool, generation: u64, files: Vec<ProjectFileEntry>) -> (r: Self)
        ensures
            r.entries() == sort_entries(entry_models(files@)),
            r.root_path() == root,
            r.shows_hidden() == show_hidden,
            r.generation_model() == generation,
            r.wf(),
    {
        let ghost src = entry_models(files@);
        let mut out: Vec<IndexedProjectFile> = Vec::new();
        let mut i: usize = 0;
        while i < files.len()
            invariant
                i <= files@.len(),
                src == entry_models(files@),
                out@.map_values(|f: IndexedProjectFile| entry_model(f.entry)) == sort_entries(src.take(i as int)),
                forall|k: int| 0 <= k < out@.len()
                    ==> (#[trigger] out@[k]).lower_relative_path@ == lowercased(out@[k].entry.relative_path@),
            decreases files@.len() - i,
        {
            let entry = files[i].clone();
            let lower = str_to_lowercase(entry.relative_path.as_str());
            let x = IndexedProjectFile { entry, lower_relative_path: lower };
            let ghost xm = entry_model(x.entry);
            proof {
                assert(xm == src[i as int]);
            }
            let ghost before = out@.map_values(|f: IndexedProjectFile| entry_model(f.entry));
            let mut j: usize = out.len();
            proof {
                assert(before.take(j as int) == before);
                assert(before.skip(j as int) == Seq::<EntryModel>::empty());
                assert(insert_entry(before, xm) + Seq::<EntryModel>::empty() == insert_entry(before, xm));
            }
            while j > 0 && str_lt(x.entry.relative_path.as_str(), out[j - 1].entry.relative_path.as_str())
                invariant
                    j <= out@.len(),
                    before == out@.map_values(|f: IndexedProjectFile| entry_model(f.entry)),
                    xm == entry_model(x.entry),
                    insert_entry(before, xm) == insert_entry(before.take(j as int), xm) + before.skip(j as int),
                decreases j,
            {
                proof {
                    let tj = before.take(j as int);
                    assert(tj.drop_last() == before.take(j - 1));
                    assert(tj.last() == before[j - 1]);
                    assert(before[j - 1] == entry_model(out@[j - 1].entry));
                    vstd::utf8::encode_utf8_decode_utf8(x.entry.relative_path@);
                    vstd::utf8::encode_utf8_decode_utf8(out@[j - 1].entry.relative_path@);
                    assert(insert_entry(before.take(j - 1), xm).push(before[j - 1]) + before.skip(j as int)
                        == insert_entry(before.take(j - 1), xm) + before.skip(j - 1));
                }
                j = j - 1;
            }
            proof {
                let tj = before.take(j as int);
                if j > 0 {
                    assert(tj.last() == before[j - 1]);
                    assert(before[j - 1] == entry_model(out@[j - 1].entry));
                    vstd::utf8::encode_utf8_decode_utf8(x.entry.relative_path@);
                    vstd::utf8::encode_utf8_decode_utf8(out@[j - 1].entry.relative_path@);
                }
                assert(insert_entry(tj, xm) == tj.push(xm));
            }
            let ghost old_out = out@;
            out.insert(j, x);
            proof {
                assert(out@.map_values(|f: IndexedProjectFile| entry_model(f.entry)) == before.take(j as int).push(xm) + before.skip(j as int));
                assert(src.take(i + 1).drop_last() == src.take(i as int));
                assert(src.take(i + 1).last() == xm);
                assert forall|k: int| 0 <= k < out@.len()
                    implies (#[trigger] out@[k]).lower_relative_path@ == lowercased(out@[k].entry.relative_path@) by {
                    if k < j {
                        assert(out@[k] == old_out[k]);
                    } else if k > j {
                        assert(out@[k] == old_out[k - 1]);
                    }
                }
            }
            i = i + 1;
        }
        proof {
            assert(src.take(files@.len() as int) == src);
        }
        ProjectIndex { root, show_hidden, generation, files: out }
    }

    pub fn root(&self) -> (r: &PathBuf)
        ensures
            *r == self.root_path(),
    {
        &self.root
    }

    pub fn show_hidden(&self) -> (r: bool)
        ensures
            r == self.shows_hidden(),
    {
        self.show_hidden
    }

    /// The fingerprint of the scan the index was built from.
    pub fn generation(&self) -> (r: u64)
        ensures
            r == self.generation_model(),
    {
        self.generation
    }

    pub fn file_count(&self) -> (r: usize)
        ensures
            r == self.entries().len(),
    {
        self.files.len()
    }

    /// The indexed files, in order.
    pub fn files(&self) -> (r: Vec<ProjectFileEntry>)
        ensures
            entry_models(r@) == self.entries(),
    {
        let mut out: Vec<ProjectFileEntry> = Vec::new();
        let mut i: usize = 0;
        while i < self.files.len()
            invariant
                i <= self.files@.len(),
                entry_models(out@) == self.entries().take(i as int),
            decreases self.files@.len() - i,
        {
            let e = self.files[i].entry.clone();
            let ghost before = out@;
            out.push(e);
            proof {
                assert(e == self.files@[i as int].entry);
                assert(out@ == before.push(e));
                assert(entry_models(out@) =~= entry_models(before).push(entry_model(e)));
                assert(self.entries().take(i + 1) =~= self.entries().take(i as int).push(entry_model(e)));
            }
            i = i + 1;
        }
        proof {
            assert(self.entries().take(self.files@.len() as int) == self.entries());
        }
        out
    }
}

/// Whether a scored candidate ranks before another: a higher score first, then the relative
/// path that sorts first.
pub open spec fn ranks_before(x: (i64, EntryModel), y: (i64, EntryModel)) -> bool {
    x.0 > y.0 || (x.0 == y.0 && name_lt(x.1.1, y.1.1))
}

/// Stable insertion of `x` after every candidate that `x` does not rank before.
pub open spec fn insert_ranked(s: Seq<(i64, EntryModel)>, x: (i64, EntryModel)) -> Seq<(i64, EntryModel)>
    decreases s.len(),
{
    if s.len() == 0 || !ranks_before(x, s.last()) {
        s.push(x)
    } else {
        insert_ranked(s.drop_last(), x).push(s.last())
    }
}

/// The candidates of `s`, stably sorted by rank.
pub open spec fn sort_ranked(s: Seq<(i64, EntryModel)>) -> Seq<(i64, EntryModel)>
    decreases s.len(),
{
    if s.len() == 0 {
        s
    } else {
        insert_ranked(sort_ranked(s.drop_last()), s.last())
    }
}

/// The files whose lower-case relative path matches `q`, with their scores, in file order.
pub open spec fn scored_entries(files: Seq<EntryModel>, q: Seq<char>) -> Seq<(i64, EntryModel)>
    decreases files.len(),
{
    if files.len() == 0 {
        Seq::empty()
    } else {
        let rest = scored_entries(files.drop_last(), q);
        match fuzzy_score(lowercased(files.last().1), q) {
            None => rest,
            Some(score) => rest.push((score as i64, files.last())),
        }
    }
}

/// What quick open offers for `query`: with an empty query the first files; otherwise the files
/// that match, best first. At most `limit` of them, and at least one place is always offered.
pub open spec fn quick_open(files: Seq<EntryModel>, query: Seq<char>, limit: usize) -> Seq<EntryModel> {
    let lim = if limit < 1 {
        1int
    } else {
        limit as int
    };
    let q = lowercased(trimmed(query));
    if q.len() == 0 {
        files.take(if lim < files.len() { lim } else { files.len() as int })
    } else {
        let ranked = sort_ranked(scored_entries(files, q));
        ranked.take(if lim < ranked.len() { lim } else { ranked.len() as int }).map_values(
            |x: (i64, EntryModel)| x.1,
        )
    }
}

/// The fuzzy score of a file's lower-case relative path against `q`, as a quick-open score.
pub open spec fn match_score(e: EntryModel, q: Seq<char>) -> i64 {
    fuzzy_score(lowercased(e.1), q).unwrap() as i64
}

/// Scored candidates with the higher scores first and, among equal scores, no relative path
/// sorting before one listed earlier.
pub open spec fn best_first(s: Seq<(i64, EntryModel)>) -> bool {
    forall|i: int, j: int| 0 <= i < j < s.len() ==> (#[trigger] s[i]).0 >= (#[trigger] s[j]).0
        && (s[i].0 == s[j].0 ==> !name_lt(s[j].1.1, s[i].1.1))
}

/// Not sorting before is transitive.
proof fn lemma_name_not_lt_trans(a: Seq<char>, b: Seq<char>, c: Seq<char>)
    requires
        !name_lt(a, b),
        !name_lt(b, c),
    ensures
        !name_lt(a, c),
{
    let (x, y, z) = (encode_utf8(a), encode_utf8(b), encode_utf8(c));
    if bytes_lt(x, z) {
        if x == y {
        } else {
            lemma_bytes_lt_total(x, y);
            lemma_bytes_lt_transitive(y, x, z);
        }
    }
}

/// Sorting before is asymmetric.
proof fn lemma_name_lt_asym(a: Seq<char>, b: Seq<char>)
    requires
        name_lt(a, b),
    ensures
        !name_lt(b, a),
{
    if name_lt(b, a) {
        lemma_bytes_lt_transitive(encode_utf8(a), encode_utf8(b), encode_utf8(a));
        lemma_bytes_lt_irreflexive(encode_utf8(a));
    }
}

proof fn lemma_insert_ranked(s: Seq<(i64, EntryModel)>, x: (i64, EntryModel))
    requires
        best_first(s),
    ensures
        best_first(insert_ranked(s, x)),
        insert_ranked(s, x).len() == s.len() + 1,
        forall|y: (i64, EntryModel)| #[trigger] insert_ranked(s, x).contains(y) <==> (s.contains(y) || y == x),
    decreases s.len(),
{
    let t = insert_ranked(s, x);
    if s.len() == 0 || !ranks_before(x, s.last()) {
        assert(t == s.push(x));
        assert forall|i: int, j: int| 0 <= i < j < t.len() implies (#[trigger] t[i]).0 >= (#[trigger] t[j]).0
            && (t[i].0 == t[j].0 ==> !name_lt(t[j].1.1, t[i].1.1)) by {
            if j == t.len() - 1 {
                let last = s[s.len() - 1];
                if i < s.len() - 1 {
                    assert(s[i].0 >= last.0 && (s[i].0 == last.0 ==> !name_lt(last.1.1, s[i].1.1)));
                    if t[i].0 == x.0 {
                        lemma_name_not_lt_trans(x.1.1, last.1.1, s[i].1.1);
                    }
                }
            } else {
                assert(t[i] == s[i] && t[j] == s[j]);
            }
        }
        assert forall|y: (i64, EntryModel)| #[trigger] t.contains(y) <==> (s.contains(y) || y == x) by {
            if t.contains(y) {
                let k = choose|k: int| 0 <= k < t.len() && t[k] == y;
                if k < s.len() {
                    assert(s[k] == y);
                }
            }
            if s.contains(y) {
                let k = choose|k: int| 0 <= k < s.len() && s[k] == y;
                assert(t[k] == y);
            }
            if y == x {
                assert(t[s.len() as int] == y);
            }
        }
    } else {
        let p = s.drop_last();
        let last = s.last();
        assert(best_first(p)) by {
            assert forall|i: int, j: int| 0 <= i < j < p.len() implies (#[trigger] p[i]).0 >= (#[trigger] p[j]).0
                && (p[i].0 == p[j].0 ==> !name_lt(p[j].1.1, p[i].1.1)) by {
                assert(p[i] == s[i] && p[j] == s[j]);
            }
        }
        lemma_insert_ranked(p, x);
        let u = insert_ranked(p, x);
        assert(t == u.push(last));
        if x.0 == last.0 {
            lemma_name_lt_asym(x.1.1, last.1.1);
        }
        assert forall|i: int, j: int| 0 <= i < j < t.len() implies (#[trigger] t[i]).0 >= (#[trigger] t[j]).0
            && (t[i].0 == t[j].0 ==> !name_lt(t[j].1.1, t[i].1.1)) by {
            if j == t.len() - 1 {
                assert(t[i] == u[i]);
                assert(u.contains(u[i]));
                if u[i] != x {
                    assert(p.contains(u[i]));
                    let k = choose|k: int| 0 <= k < p.len() && p[k] == u[i];
                    assert(s[k] == p[k]);
                    assert(s[s.len() - 1] == last);
                }
            } else {
                assert(t[i] == u[i] && t[j] == u[j]);
            }
        }
        assert forall|y: (i64, EntryModel)| #[trigger] t.contains(y) <==> (s.contains(y) || y == x) by {
            if t.contains(y) {
                let k = choose|k: int| 0 <= k < t.len() && t[k] == y;
                if k < u.len() {
                    assert(u[k] == y);
                    assert(u.contains(y));
                    if p.contains(y) {
                        let m = choose|m: int| 0 <= m < p.len() && p[m] == y;
                        assert(s[m] == y);
                    }
                } else {
                    assert(s[s.len() - 1] == y);
                }
            }
            if s.contains(y) {
                let k = choose|k: int| 0 <= k < s.len() && s[k] == y;
                if k < s.len() - 1 {
                    assert(p[k] == y);
                    assert(p.contains(y));
                    assert(u.contains(y));
                    let m = choose|m: int| 0 <= m < u.len() && u[m] == y;
                    assert(t[m] == y);
                } else {
                    assert(t[t.len() - 1] == y);
                }
            }
            if y == x {
                assert(u.contains(x));
                let m = choose|m: int| 0 <= m < u.len() && u[m] == x;
                assert(t[m] == x);
            }
        }
    }
}

proof fn lemma_sort_ranked(s: Seq<(i64, EntryModel)>)
    ensures
        best_first(sort_ranked(s)),
        sort_ranked(s).len() == s.len(),
        forall|y: (i64, EntryModel)| #[trigger] sort_ranked(s).contains(y) <==> s.contains(y),
    decreases s.len(),
{
    if s.len() > 0 {
        let p = s.drop_last();
        lemma_sort_ranked(p);
        lemma_insert_ranked(sort_ranked(p), s.last());
        assert forall|y: (i64, EntryModel)| #[trigger] sort_ranked(s).contains(y) <==> s.contains(y) by {
            if p.contains(y) {
                let k = choose|k: int| 0 <= k < p.len() && p[k] == y;
                assert(s[k] == y);
            }
            if s.contains(y) {
                let k = choose|k: int| 0 <= k < s.len() && s[k] == y;
                if k < s.len() - 1 {
                    assert(p[k] == y);
                }
            }
        }
    }
}

proof fn lemma_scored_entries(files: Seq<EntryModel>, q: Seq<char>)
    ensures
        forall|y: (i64, EntryModel)| #[trigger] scored_entries(files, q).contains(y) <==> (files.contains(y.1)
            && fuzzy_score(lowercased(y.1.1), q) is Some && y.0 == match_score(y.1, q)),
    decreases files.len(),
{
    if files.len() > 0 {
        let p = files.drop_last();
        let f = files.last();
        lemma_scored_entries(p, q);
        let rest = scored_entries(p, q);
        let t = scored_entries(files, q);
        assert forall|y: (i64, EntryModel)| #[trigger] t.contains(y) <==> (files.contains(y.1)
            && fuzzy_score(lowercased(y.1.1), q) is Some && y.0 == match_score(y.1, q)) by {
            if t.contains(y) {
                let k = choose|k: int| 0 <= k < t.len() && t[k] == y;
                if k < rest.len() {
                    assert(t[k] == rest[k]);
                    assert(rest.contains(y));
                    let m = choose|m: int| 0 <= m < p.len() && p[m] == y.1;
                    assert(files[m] == y.1);
                } else {
                    assert(files[files.len() - 1] == y.1);
                }
            }
            if files.contains(y.1) && fuzzy_score(lowercased(y.1.1), q) is Some && y.0 == match_score(y.1, q) {
                let k = choose|k: int| 0 <= k < files.len() && files[k] == y.1;
                if k < files.len() - 1 {
                    assert(p[k] == y.1);
                    assert(p.contains(y.1));
                    assert(rest.contains(y));
                    let m = choose|m: int| 0 <= m < rest.len() && rest[m] == y;
                    assert(t[m] == y);
                } else {
                    assert(y == (match_score(f, q), f));
                    assert(t[t.len() - 1] == y);
                }
            }
        }
    }
}

/// Quick open lists the matching files best first: with a query that is not blank, every file it
/// offers is one of the files and matches the query; a file offered earlier scores at least as
/// high as one offered later, and with an equal score its relative path does not sort after the
/// later one's; and every offered file scores at least as high as every matching file left out.
pub proof fn law_quick_open_best_first(files: Seq<EntryModel>, query: Seq<char>, limit: usize)
    ensures
        ({
            let q = lowercased(trimmed(query));
            let r = quick_open(files, query, limit);
            q.len() > 0 ==> {
                &&& forall|k: int| 0 <= k < r.len() ==> files.contains(#[trigger] r[k])
                    && fuzzy_score(lowercased(r[k].1), q) is Some
                &&& forall|k: int, j: int| 0 <= k < j < r.len() ==> match_score(#[trigger] r[k], q) >= match_score(
                    #[trigger] r[j], q) && (match_score(r[k], q) == match_score(r[j], q) ==> !name_lt(r[j].1, r[k].1))
                &&& forall|k: int, j: int|
                    0 <= k < r.len() && 0 <= j < files.len() && fuzzy_score(lowercased(files[j].1), q) is Some
                        && !r.contains(files[j]) ==> match_score(#[trigger] r[k], q) >= match_score(#[trigger] files[j], q)
            }
        }),
{
    let q = lowercased(trimmed(query));
    let r = quick_open(files, query, limit);
    if q.len() > 0 {
        let scored = scored_entries(files, q);
        let ranked = sort_ranked(scored);
        lemma_scored_entries(files, q);
        lemma_sort_ranked(scored);
        let lim = if limit < 1 { 1int } else { limit as int };
        let n = if lim < ranked.len() { lim } else { ranked.len() as int };
        assert(r == ranked.take(n).map_values(|x: (i64, EntryModel)| x.1));
        assert(r.len() == n);
        assert forall|k: int| 0 <= k < r.len() implies #[trigger] r[k] == ranked[k].1 && ranked[k].0 == match_score(r[k], q)
            && files.contains(r[k]) && fuzzy_score(lowercased(r[k].1), q) is Some by {
            assert(ranked.contains(ranked[k]));
            assert(scored.contains(ranked[k]));
        }
        assert forall|k: int, j: int| 0 <= k < j < r.len() implies match_score(#[trigger] r[k], q) >= match_score(
            #[trigger] r[j], q) && (match_score(r[k], q) == match_score(r[j], q) ==> !name_lt(r[j].1, r[k].1)) by {
            assert(ranked[k].0 >= ranked[j].0);
        }
        assert forall|k: int, j: int|
            0 <= k < r.len() && 0 <= j < files.len() && fuzzy_score(lowercased(files[j].1), q) is Some
                && !r.contains(files[j]) implies match_score(#[trigger] r[k], q) >= match_score(#[trigger] files[j], q) by {
            let y = (match_score(files[j], q), files[j]);
            assert(files.contains(y.1));
            assert(scored.contains(y));
            assert(ranked.contains(y));
            let m = choose|m: int| 0 <= m < ranked.len() && ranked[m] == y;
            if m < n {
                assert(r[m] == files[j]);
            }
            assert(ranked[k].0 >= ranked[m].0);
        }
    }
}

fn ranks_before_exec(x: &(i64, ProjectFileEntry), y: &(i64, ProjectFileEntry)) -> (r: bool)
    ensures
        r == ranks_before((x.0, entry_model(x.1)), (y.0, entry_model(y.1))),
{
    proof {
        vstd::utf8::encode_utf8_decode_utf8(x.1.relative_path@);
        vstd::utf8::encode_utf8_decode_utf8(y.1.relative_path@);
    }
    x.0 > y.0 || (x.0 == y.0 && str_lt(x.1.relative_path.as_str(), y.1.relative_path.as_str()))
}

pub open spec fn scored_models(s: Seq<(i64, ProjectFileEntry)>) -> Seq<(i64, EntryModel)> {
    s.map_values(|x: (i64, ProjectFileEntry)| (x.0, entry_model(x.1)))
}

impl ProjectIndex {
    /// The files quick open offers for `query`, at most `limit` (at least one).
    pub fn quick_open_matches(&self, query: &str, limit: usize) -> (r: Vec<ProjectFileEntry>)
        requires
            self.wf(),
        ensures
            entry_models(r@) == quick_open(self.entries(), query@, limit),
    {
        let lim = if limit < 1 {
            1
        } else {
            limit
        };
        let trimmed_query = str_trim(query);
        let q = str_to_lowercase(trimmed_query);
        let ghost files = self.entries();
        if q.as_str().is_empty() {
            let n = if lim < self.files.len() {
                lim
            } else {
                self.files.len()
            };
            let mut out: Vec<ProjectFileEntry> = Vec::new();
            let mut i: usize = 0;
            while i < n
                invariant
                    i <= n,
                    n <= self.files@.len(),
                    files == self.entries(),
                    entry_models(out@) == files.take(i as int),
                decreases n - i,
            {
                let e = self.files[i].entry.clone();
                out.push(e);
                proof {
                    assert(files.take(i + 1) == files.take(i as int).push(files[i as int]));
                    assert(entry_models(out@) == files.take(i + 1));
                }
                i = i + 1;
            }
            return out;
        }
        let mut ranked: Vec<(i64, ProjectFileEntry)> = Vec::new();
        let mut i: usize = 0;
        while i < self.files.len()
            invariant
                i <= self.files@.len(),
                files == self.entries(),
                self.wf(),
                q@ == lowercased(trimmed(query@)),
                scored_models(ranked@) == sort_ranked(scored_entries(files.take(i as int), q@)),
            decreases self.files@.len() - i,
        {
            proof {
                assert(files.take(i + 1).drop_last() == files.take(i as int));
                assert(files.take(i + 1).last() == files[i as int]);
                assert(self.files@[i as int].lower_relative_path@ == lowercased(self.files@[i as int].entry.relative_path@));
            }
            let sc = fuzzy_match_score(self.files[i].lower_relative_path.as_str(), q.as_str());
            proof {
                let fm = files[i as int];
                assert(fm.1 == self.files@[i as int].entry.relative_path@);
                assert(scored_entries(files.take(i + 1), q@) == match fuzzy_score(lowercased(fm.1), q@) {
                    None => scored_entries(files.take(i as int), q@),
                    Some(score) => scored_entries(files.take(i as int), q@).push((score as i64, fm)),
                });
            }
            match sc {
                None => {},
                Some(score) => {
                    let x = (score, self.files[i].entry.clone());
                    let ghost xm = (x.0, entry_model(x.1));
                    let ghost before = scored_models(ranked@);
                    let mut j: usize = ranked.len();
                    proof {
                        assert(xm == (score, files[i as int]));
                        assert(before.take(j as int) == before);
                        assert(before.skip(j as int) == Seq::<(i64, EntryModel)>::empty());
                        assert(insert_ranked(before, xm) + Seq::<(i64, EntryModel)>::empty() == insert_ranked(before, xm));
                    }
                    while j > 0 && ranks_before_exec(&x, &ranked[j - 1])
                        invariant
                            j <= ranked@.len(),
                            before == scored_models(ranked@),
                            xm == (x.0, entry_model(x.1)),
                            insert_ranked(before, xm) == insert_ranked(before.take(j as int), xm) + before.skip(j as int),
                        decreases j,
                    {
                        proof {
                            let tj = before.take(j as int);
                            assert(tj.drop_last() == before.take(j - 1));
                            assert(tj.last() == before[j - 1]);
                            assert(insert_ranked(before.take(j - 1), xm).push(before[j - 1]) + before.skip(j as int)
                                == insert_ranked(before.take(j - 1), xm) + before.skip(j - 1));
                        }
                        j = j - 1;
                    }
                    proof {
                        let tj = before.take(j as int);
                        if j > 0 {
                            assert(tj.last() == before[j - 1]);
                        }
                        assert(insert_ranked(tj, xm) == tj.push(xm));
                    }
                    ranked.insert(j, x);
                    proof {
                        assert(scored_models(ranked@) == before.take(j as int).push(xm) + before.skip(j as int));
                        let prev = scored_entries(files.take(i as int), q@);
                        assert(prev.push(xm).drop_last() == prev);
                        assert(prev.push(xm).last() == xm);
                        assert(sort_ranked(prev.push(xm)) == insert_ranked(sort_ranked(prev), xm));
                    }
                },
            }
            i = i + 1;
        }
        proof {
            assert(files.take(self.files@.len() as int) == files);
        }
        let ghost rm = scored_models(ranked@);
        let n = if lim < ranked.len() {
            lim
        } else {
            ranked.len()
        };
        let mut out: Vec<ProjectFileEntry> = Vec::new();
        let mut k: usize = 0;
        while k < n
            invariant
                k <= n,
                n <= ranked@.len(),
                rm == scored_models(ranked@),
                entry_models(out@) == rm.take(k as int).map_values(|x: (i64, EntryModel)| x.1),
            decreases n - k,
        {
            let e = ranked[k].1.clone();
            let ghost before = out@;
            out.push(e);
            proof {
                assert(rm[k as int].1 == entry_model(e));
                assert(entry_models(out@) == entry_models(before).push(entry_model(e)));
                assert(rm.take(k + 1) == rm.take(k as int).push(rm[k as int]));
                assert(entry_models(out@) == rm.take(k + 1).map_values(|x: (i64, EntryModel)| x.1));
            }
            k = k + 1;
        }
        out
    }
}

/// A text search: the text to find, whether case matters, at most how many matches, and how
/// many matches are reported together.
#[derive(Debug, Clone)]
pub struct ProjectTextSearchQuery {
    pub text: String,
    pub case_sensitive: bool,
    pub limit: usize,
    pub batch_size: usize,
}

/// The text a query looks for: its text without surrounding white space, in lower case unless
/// case matters; `None` when nothing is left.
pub open spec fn needle_of(text: Seq<char>, case_sensitive: bool) -> Option<Seq<char>> {
    let t = trimmed(text);
    if t.len() == 0 {
        None
    } else if case_sensitive {
        Some(t)
    } else {
        Some(lowercased(t))
    }
}

impl ProjectTextSearchQuery {
    /// A query for `text` that ignores case, finds at most 200 matches and reports them 32 at a
    /// time.
    pub fn new(text: String) -> (r: Self)
        ensures
            r.text@ == text@,
            !r.case_sensitive,
            r.limit == 200,
            r.batch_size == 32,
    {
        ProjectTextSearchQuery { text, case_sensitive: false, limit: 200, batch_size: 32 }
    }

    /// The text the query looks for.
    pub fn needle(&self) -> (r: Option<String>)
        ensures
            r matches Some(s) ==> needle_of(self.text@, self.case_sensitive) == Some(s@),
            r is None ==> needle_of(self.text@, self.case_sensitive) is None,
    {
        let text = str_trim(self.text.as_str());
        if text.is_empty() {
            return None;
        }
        if self.case_sensitive {
            Some(text.to_owned())
        } else {
            Some(str_to_lowercase(text))
        }
    }
}

/// What a text search reports as it goes: some matches found, or that it is complete.
#[derive(Debug, Clone)]
pub enum ProjectTextSearchEvent {
    Batch(ProjectTextSearchBatch),
    Complete(ProjectTextSearchSummary),
}

/// Matches found since the last report, with the running counts.
#[derive(Debug, Clone)]
pub struct ProjectTextSearchBatch {
    pub matches: Vec<ProjectSearchMatch>,
    pub scanned_files: usize,
    pub total_matches: usize,
}

/// How many files a search read and how many matches it found.
#[derive(Debug, Clone, Copy, PartialEq, Eq, Structural)]
pub struct ProjectTextSearchSummary {
    pub scanned_files: usize,
    pub total_matches: usize,
}

/// A match as values: path, relative path, line number (from 1) and the line's trimmed text.
pub type MatchModel = (PathBuf, Seq<char>, usize, Seq<char>);

pub open spec fn match_model(m: ProjectSearchMatch) -> MatchModel {
    (m.path, m.relative_path@, m.line_number, m.line_text@)
}

pub open spec fn match_models(s: Seq<ProjectSearchMatch>) -> Seq<MatchModel> {
    s.map_values(|m: ProjectSearchMatch| match_model(m))
}

/// A report as values: its matches, and the counts of files read and matches found.
pub type BatchModel = (Seq<MatchModel>, usize, usize);

pub open spec fn batch_model(b: ProjectTextSearchBatch) -> BatchModel {
    (match_models(b.matches@), b.scanned_files, b.total_matches)
}

pub open spec fn batch_models(s: Seq<ProjectTextSearchBatch>) -> Seq<BatchModel> {
    s.map_values(|b: ProjectTextSearchBatch| batch_model(b))
}

/// Where a text search stands.
pub ghost struct SearchModel {
    pub needle: Option<Seq<char>>,
    pub case_sensitive: bool,
    pub limit: usize,
    pub batch_size: usize,
    pub files: Seq<EntryModel>,
    pub next: nat,
    pub matches: Seq<MatchModel>,
    pub batch: Seq<MatchModel>,
    pub scanned: usize,
    pub total: usize,
}

/// A text search over a list of files, run one file at a time: the caller reads each file that
/// `next_file` names and hands its text to `scan_text`, then asks `finish` for the last reports.
pub struct TextSearch {
    needle: Option<String>,
    case_sensitive: bool,
    limit: usize,
    batch_size: usize,
    files: Vec<ProjectFileEntry>,
    next: usize,
    matches: Vec<ProjectSearchMatch>,
    batch: Vec<ProjectSearchMatch>,
    scanned_files: usize,
    total_matches: usize,
}

/// Whether a line holds the needle: as it is when case matters, else in lower case.
pub open spec fn line_matches(line: Seq<char>, needle: Seq<char>, case_sensitive: bool) -> bool {
    contains_bytes(encode_utf8(if case_sensitive { line } else { lowercased(line) }), encode_utf8(needle))
}

/// The search after scanning the lines of `entry` from line `i` on, with the reports made on the
/// way appended to `out`. A full batch is reported at once; the scan stops at the limit.
pub open spec fn scan_from(
    m: SearchModel,
    entry: EntryModel,
    lines: Seq<Seq<char>>,
    i: int,
    out: Seq<BatchModel>,
) -> (SearchModel, Seq<BatchModel>)
    decreases lines.len() - i,
{
    if i < 0 || i >= lines.len() {
        (m, out)
    } else if !line_matches(lines[i], m.needle.unwrap(), m.case_sensitive) {
        scan_from(m, entry, lines, i + 1, out)
    } else {
        let found: MatchModel = (entry.0, entry.1, (i + 1) as usize, trimmed(lines[i]));
        let m1 = SearchModel {
            matches: m.matches.push(found),
            batch: m.batch.push(found),
            total: (m.total + 1) as usize,
            ..m
        };
        let (m2, out2) = if m1.batch.len() >= m1.batch_size {
            (SearchModel { batch: Seq::empty(), ..m1 }, out.push((m1.batch, m1.scanned, m1.total)))
        } else {
            (m1, out)
        };
        if m2.total >= m2.limit {
            (m2, out2)
        } else {
            scan_from(m2, entry, lines, i + 1, out2)
        }
    }
}

/// Whether the search has another file to read.
pub open spec fn has_next_file(m: SearchModel) -> bool {
    m.needle is Some && m.limit > 0 && m.next < m.files.len() && m.total < m.limit
}

/// The reports that end a search: what is left of the batch, then the completion.
pub open spec fn final_reports(m: SearchModel) -> Seq<(BatchModel, bool)> {
    if m.needle is None || m.limit == 0 {
        seq![((Seq::empty(), 0usize, 0usize), true)]
    } else if m.batch.len() > 0 {
        seq![((m.batch, m.scanned, m.total), false), ((Seq::empty(), m.scanned, m.total), true)]
    } else {
        seq![((Seq::empty(), m.scanned, m.total), true)]
    }
}

/// The matches of a run of reports, in order.
pub open spec fn reported(out: Seq<BatchModel>) -> Seq<MatchModel>
    decreases out.len(),
{
    if out.len() == 0 {
        Seq::empty()
    } else {
        reported(out.drop_last()) + out.last().0
    }
}

proof fn lemma_reported_push(out: Seq<BatchModel>, b: BatchModel)
    ensures
        reported(out.push(b)) == reported(out) + b.0,
{
    assert(out.push(b).drop_last() == out);
}

/// Scanning a file keeps every match found either in a report made or in the batch still
/// collecting: the reports, then the batch, are all the matches in order; and every report made
/// while scanning holds exactly one batch's worth of matches.
pub proof fn law_scan_reports_cover_matches(
    m: SearchModel,
    entry: EntryModel,
    lines: Seq<Seq<char>>,
    i: int,
    out: Seq<BatchModel>,
)
    requires
        reported(out) + m.batch == m.matches,
        m.batch.len() < m.batch_size,
        forall|j: int| 0 <= j < out.len() ==> (#[trigger] out[j]).0.len() == m.batch_size,
    ensures
        ({
            let (m2, out2) = scan_from(m, entry, lines, i, out);
            &&& reported(out2) + m2.batch == m2.matches
            &&& m2.batch.len() < m2.batch_size
            &&& m2.batch_size == m.batch_size
            &&& forall|j: int| 0 <= j < out2.len() ==> (#[trigger] out2[j]).0.len() == m.batch_size
        }),
    decreases lines.len() - i,
{
    if i < 0 || i >= lines.len() {
    } else if !line_matches(lines[i], m.needle.unwrap(), m.case_sensitive) {
        law_scan_reports_cover_matches(m, entry, lines, i + 1, out);
    } else {
        let found: MatchModel = (entry.0, entry.1, (i + 1) as usize, trimmed(lines[i]));
        let m1 = SearchModel {
            matches: m.matches.push(found),
            batch: m.batch.push(found),
            total: (m.total + 1) as usize,
            ..m
        };
        assert(reported(out) + m1.batch == m1.matches) by {
            assert(reported(out) + m.batch.push(found) =~= (reported(out) + m.batch).push(found));
        }
        if m1.batch.len() >= m1.batch_size {
            let b = (m1.batch, m1.scanned, m1.total);
            lemma_reported_push(out, b);
            let m2 = SearchModel { batch: Seq::empty(), ..m1 };
            assert(reported(out.push(b)) + m2.batch =~= m2.matches);
            assert forall|j: int| 0 <= j < out.push(b).len() implies (#[trigger] out.push(b)[j]).0.len() == m.batch_size by {
                if j < out.len() {
                    assert(out.push(b)[j] == out[j]);
                }
            }
            if m2.total < m2.limit {
                law_scan_reports_cover_matches(m2, entry, lines, i + 1, out.push(b));
            }
        } else {
            if m1.total < m1.limit {
                law_scan_reports_cover_matches(m1, entry, lines, i + 1, out);
            }
        }
    }
}

/// The reports that end a search with a needle and a limit complete the run: all reports
/// together hold every match found, in order.
pub proof fn law_final_reports_cover_matches(m: SearchModel, out: Seq<BatchModel>)
    requires
        reported(out) + m.batch == m.matches,
        m.needle is Some,
        m.limit > 0,
    ensures
        reported(out + final_reports(m).map_values(|x: (BatchModel, bool)| x.0)) == m.matches,
{
    let f = final_reports(m).map_values(|x: (BatchModel, bool)| x.0);
    let empty: BatchModel = (Seq::empty(), m.scanned, m.total);
    if m.batch.len() > 0 {
        let b: BatchModel = (m.batch, m.scanned, m.total);
        assert(out + f == out.push(b).push(empty));
        lemma_reported_push(out, b);
        lemma_reported_push(out.push(b), empty);
        assert(reported(out.push(b)) + empty.0 =~= reported(out.push(b)));
    } else {
        assert(out + f == out.push(empty));
        lemma_reported_push(out, empty);
        assert(reported(out) + empty.0 =~= reported(out));
        assert(m.batch =~= Seq::<MatchModel>::empty());
        assert(reported(out) + m.batch =~= reported(out));
    }
}

/// Scanning a file leaves everything but the matches, the batch and the count as it was, and
/// keeps the count equal to the number of matches and within the limit.
proof fn lemma_scan_counts(m: SearchModel, entry: EntryModel, lines: Seq<Seq<char>>, i: int, out: Seq<BatchModel>)
    requires
        m.total == m.matches.len(),
        m.total < m.limit,
    ensures
        ({
            let m2 = scan_from(m, entry, lines, i, out).0;
            &&& m2.total == m2.matches.len()
            &&& m2.total <= m2.limit
            &&& m2 == (SearchModel { matches: m2.matches, batch: m2.batch, total: m2.total, ..m })
        }),
    decreases lines.len() - i,
{
    if i < 0 || i >= lines.len() {
    } else if !line_matches(lines[i], m.needle.unwrap(), m.case_sensitive) {
        lemma_scan_counts(m, entry, lines, i + 1, out);
    } else {
        let found: MatchModel = (entry.0, entry.1, (i + 1) as usize, trimmed(lines[i]));
        let m1 = SearchModel {
            matches: m.matches.push(found),
            batch: m.batch.push(found),
            total: (m.total + 1) as usize,
            ..m
        };
        let b = (m1.batch, m1.scanned, m1.total);
        let m2 = if m1.batch.len() >= m1.batch_size { SearchModel { batch: Seq::empty(), ..m1 } } else { m1 };
        let out2 = if m1.batch.len() >= m1.batch_size { out.push(b) } else { out };
        if m2.total < m2.limit {
            lemma_scan_counts(m2, entry, lines, i + 1, out2);
        }
    }
}

/// A whole search from `m`, as its caller runs it: while `next_file` names a file, scan the
/// file's text with `scan_text`. `texts` are the texts of the files still to read, in order;
/// the result is the search afterwards and the reports made on the way, after `out`.
pub open spec fn search_run(m: SearchModel, texts: Seq<Seq<char>>, out: Seq<BatchModel>) -> (SearchModel, Seq<BatchModel>)
    decreases texts.len(),
{
    if has_next_file(m) && texts.len() > 0 {
        let m1 = SearchModel { next: m.next + 1, scanned: (m.scanned + 1) as usize, ..m };
        let step = scan_from(m1, m.files[m.next as int], text_lines(texts[0]), 0, out);
        search_run(step.0, texts.drop_first(), step.1)
    } else {
        (m, out)
    }
}

/// What holds of a search with a needle and a limit between its steps.
pub open spec fn run_invariant(m: SearchModel, out: Seq<BatchModel>, batch_size: usize) -> bool {
    &&& m.needle is Some
    &&& m.limit > 0
    &&& m.batch_size == batch_size
    &&& m.batch_size >= 1
    &&& reported(out) + m.batch == m.matches
    &&& m.batch.len() < m.batch_size
    &&& forall|j: int| 0 <= j < out.len() ==> (#[trigger] out[j]).0.len() == batch_size
    &&& m.total == m.matches.len()
    &&& m.total <= m.limit
    &&& m.scanned == m.next
    &&& m.next <= m.files.len()
    &&& m.files.len() <= usize::MAX
}

proof fn lemma_search_run(m: SearchModel, texts: Seq<Seq<char>>, out: Seq<BatchModel>, batch_size: usize)
    requires
        run_invariant(m, out, batch_size),
    ensures
        run_invariant(search_run(m, texts, out).0, search_run(m, texts, out).1, batch_size),
    decreases texts.len(),
{
    if has_next_file(m) && texts.len() > 0 {
        let m1 = SearchModel { next: m.next + 1, scanned: (m.scanned + 1) as usize, ..m };
        let entry = m.files[m.next as int];
        let lines = text_lines(texts[0]);
        law_scan_reports_cover_matches(m1, entry, lines, 0, out);
        lemma_scan_counts(m1, entry, lines, 0, out);
        let step = scan_from(m1, entry, lines, 0, out);
        assert(step.0.scanned == step.0.next);
        lemma_search_run(step.0, texts.drop_first(), step.1, batch_size);
    }
}

/// A whole text search, as its caller runs it: from a new search, read each file that
/// `next_file` names and hand its text to `scan_text` (`texts[k]` is the text of the `k`-th
/// file), then end with `finish`. With no needle or a zero limit no file is read and the only
/// report is an empty completion. Otherwise all the reports together hold every match found, in
/// order; each report made while scanning holds exactly one batch, and the one `finish` may add
/// before the completion holds fewer but at least one; the matches found stay within the limit;
/// and the last report, and only it, is the completion, with no matches and the search's counts.
pub proof fn law_whole_search(m0: SearchModel, texts: Seq<Seq<char>>)
    requires
        m0.next == 0,
        m0.matches == Seq::<MatchModel>::empty(),
        m0.batch == Seq::<MatchModel>::empty(),
        m0.total == 0,
        m0.scanned == 0,
        m0.batch_size >= 1,
        m0.files.len() <= usize::MAX,
        texts.len() == m0.files.len(),
    ensures
        ({
            let (m, out) = search_run(m0, texts, Seq::empty());
            let fr = final_reports(m);
            &&& (m0.needle is None || m0.limit == 0) ==> m == m0 && out.len() == 0
                && fr == seq![((Seq::<MatchModel>::empty(), 0usize, 0usize), true)]
            &&& (m0.needle is Some && m0.limit > 0) ==> {
                &&& reported(out + fr.map_values(|x: (BatchModel, bool)| x.0)) == m.matches
                &&& m.total == m.matches.len()
                &&& m.total <= m.limit
                &&& forall|j: int| 0 <= j < out.len() ==> (#[trigger] out[j]).0.len() == m0.batch_size
                &&& forall|j: int| 0 <= j < fr.len() ==> ((#[trigger] fr[j]).1 <==> j == fr.len() - 1)
                &&& forall|j: int| 0 <= j < fr.len() - 1 ==> 0 < (#[trigger] fr[j]).0.0.len() < m0.batch_size
                &&& fr.last().0 == (Seq::<MatchModel>::empty(), m.scanned, m.total)
            }
        }),
{
    let (m, out) = search_run(m0, texts, Seq::empty());
    if m0.needle is None || m0.limit == 0 {
        assert(!has_next_file(m0));
    } else {
        assert(reported(Seq::<BatchModel>::empty()) == Seq::<MatchModel>::empty());
        assert(reported(Seq::<BatchModel>::empty()) + m0.batch =~= m0.matches);
        lemma_search_run(m0, texts, Seq::empty(), m0.batch_size);
        law_final_reports_cover_matches(m, out);
    }
}

impl TextSearch {
    pub closed spec fn model(&self) -> SearchModel {
        SearchModel {
            needle: match self.needle {
                Some(n) => Some(n@),
                None => None,
            },
            case_sensitive: self.case_sensitive,
            limit: self.limit,
            batch_size: self.batch_size,
            files: entry_models(self.files@),
            next: self.next as nat,
            matches: match_models(self.matches@),
            batch: match_models(self.batch@),
            scanned: self.scanned_files,
            total: self.total_matches,
        }
    }

    /// What a search keeps true: it has read at most the files it has, each one counted, and it
    /// reports at least one match at a time.
    pub closed spec fn wf(&self) -> bool {
        &&& self.next <= self.files@.len()
        &&& self.scanned_files == self.next
        &&& self.batch_size >= 1
        &&& self.batch@.len() < self.batch_size
        &&& self.matches@.len() == self.total_matches
        &&& self.total_matches <= self.limit
    }

    /// A search never finds more matches than its limit, and it keeps every match it counts.
    pub proof fn law_search_limit(&self)
        requires
            self.wf(),
        ensures
            self.model().total <= self.model().limit,
            self.model().matches.len() == self.model().total,
    {
    }

    /// A search of `files` for `query`; nothing is read yet.
    pub fn new(files: Vec<ProjectFileEntry>, query: ProjectTextSearchQuery) -> (r: Self)
        ensures
            r.model() == (SearchModel {
                needle: needle_of(query.text@, query.case_sensitive),
                case_sensitive: query.case_sensitive,
                limit: query.limit,
                batch_size: if query.batch_size < 1 { 1 } else { query.batch_size },
                files: entry_models(files@),
                next: 0,
                matches: Seq::empty(),
                batch: Seq::empty(),
                scanned: 0,
                total: 0,
            }),
            r.wf(),
    {
        let needle = query.needle();
        let batch_size = if query.batch_size < 1 {
            1
        } else {
            query.batch_size
        };
        let r = TextSearch {
            needle,
            case_sensitive: query.case_sensitive,
            limit: query.limit,
            batch_size,
            files,
            next: 0,
            matches: Vec::new(),
            batch: Vec::new(),
            scanned_files: 0,
            total_matches: 0,
        };
        proof {
            assert(match_models(r.matches@) == Seq::<MatchModel>::empty());
            assert(match_models(r.batch@) == Seq::<MatchModel>::empty());
        }
        r
    }

    /// The file to read next, counted as scanned; `None` when the search reads no more files.
    pub fn next_file(&mut self) -> (r: Option<&ProjectFileEntry>)
        requires
            old(self).wf(),
        ensures
            has_next_file(old(self).model()) ==> (r matches Some(e) && entry_model(*e) == old(self).model().files[old(self).model().next as int])
                && final(self).model() == (SearchModel {
                    next: old(self).model().next + 1,
                    scanned: (old(self).model().scanned + 1) as usize,
                    ..old(self).model()
                }),
            !has_next_file(old(self).model()) ==> r is None && final(self).model() == old(self).model(),
            final(self).wf(),
    {
        if self.needle.is_none() || self.limit == 0 || self.next >= self.files.len()
            || self.total_matches >= self.limit {
            return None;
        }
        let i = self.next;
        self.next = self.next + 1;
        self.scanned_files = self.scanned_files + 1;
        Some(&self.files[i])
    }

    /// Scans the text of the file `next_file` named last and hands back the batches that filled
    /// up on the way.
    pub fn scan_text(&mut self, text: &str) -> (r: Vec<ProjectTextSearchBatch>)
        requires
            old(self).wf(),
            old(self).model().needle is Some,
            old(self).model().next > 0,
            old(self).model().total < old(self).model().limit,
        ensures
            (final(self).model(), batch_models(r@)) == scan_from(
                old(self).model(),
                old(self).model().files[old(self).model().next - 1],
                text_lines(text@),
                0,
                Seq::empty(),
            ),
            final(self).wf(),
    {
        let lines = str_lines(text);
        let ghost ls = lines@.map_values(|l: &str| l@);
        let entry = self.files[self.next - 1].clone();
        let ghost em = entry_model(entry);
        let ghost m0 = self.model();
        let needle = match &self.needle {
            Some(n) => n.clone(),
            None => String::new(),
        };
        let mut out: Vec<ProjectTextSearchBatch> = Vec::new();
        let mut i: usize = 0;
        proof {
            assert(batch_models(out@) == Seq::<BatchModel>::empty());
        }
        while i < lines.len()
            invariant_except_break
                self.model().total < self.model().limit,
                scan_from(m0, em, ls, 0, Seq::empty()) == scan_from(self.model(), em, ls, i as int, batch_models(out@)),
            invariant
                self.wf(),
                i <= lines@.len(),
                ls == lines@.map_values(|l: &str| l@),
                ls == text_lines(text@),
                em == m0.files[m0.next - 1],
                em == entry_model(entry),
                needle@ == self.model().needle.unwrap(),
                self.model().needle is Some,
                self.model().files == m0.files,
                self.model().next == m0.next,
                self.model().needle == m0.needle,
                self.model().case_sensitive == m0.case_sensitive,
                self.model().limit == m0.limit,
                self.model().batch_size == m0.batch_size,
            ensures
                scan_from(m0, em, ls, 0, Seq::empty()) == (self.model(), batch_models(out@)),
            decreases lines@.len() - i,
        {
            let ghost m_start = self.model();
            let ghost out_start = batch_models(out@);
            let line = lines[i];
            let matched = if self.case_sensitive {
                str_contains(line, needle.as_str())
            } else {
                let lower = str_to_lowercase(line);
                str_contains(lower.as_str(), needle.as_str())
            };
            proof {
                assert(ls[i as int] == line@);
                assert(matched == line_matches(ls[i as int], m_start.needle.unwrap(), m_start.case_sensitive));
            }
            if matched {
                let found = ProjectSearchMatch {
                    path: clone_path(&entry.path),
                    relative_path: entry.relative_path.clone(),
                    line_number: i + 1,
                    line_text: str_trim(line).to_owned(),
                };
                let ghost fm = match_model(found);
                proof {
                    assert(fm == (em.0, em.1, (i + 1) as usize, trimmed(ls[i as int])));
                }
                let ghost before = self.model();
                let ghost out_before = batch_models(out@);
                self.total_matches = self.total_matches + 1;
                self.matches.push(found.clone());
                self.batch.push(found);
                proof {
                    assert(match_models(self.matches@) == before.matches.push(fm));
                    assert(match_models(self.batch@) == before.batch.push(fm));
                }
                let ghost m1 = self.model();
                proof {
                    assert(m1 == (SearchModel {
                        matches: m_start.matches.push(fm),
                        batch: m_start.batch.push(fm),
                        total: (m_start.total + 1) as usize,
                        ..m_start
                    }));
                }
                if self.batch.len() >= self.batch_size {
                    let mut full: Vec<ProjectSearchMatch> = Vec::new();
                    std::mem::swap(&mut full, &mut self.batch);
                    let b = ProjectTextSearchBatch {
                        matches: full,
                        scanned_files: self.scanned_files,
                        total_matches: self.total_matches,
                    };
                    out.push(b);
                    proof {
                        assert(match_models(self.batch@) == Seq::<MatchModel>::empty());
                        assert(batch_models(out@) == out_before.push((m1.batch, m1.scanned, m1.total)));
                    }
                }
                if self.total_matches >= self.limit {
                    proof {
                        assert(scan_from(m_start, em, ls, i as int, out_start) == (self.model(), batch_models(out@)));
                    }
                    break;
                }
            }
            i = i + 1;
        }
        out
    }

    /// The reports that end the search, each with whether it is the completion.
    pub fn finish(&mut self) -> (r: Vec<(ProjectTextSearchBatch, bool)>)
        requires
            old(self).wf(),
        ensures
            r@.map_values(|x: (ProjectTextSearchBatch, bool)| (batch_model(x.0), x.1)) == final_reports(old(self).model()),
            final(self).model() == (SearchModel { batch: Seq::empty(), ..old(self).model() }),
            final(self).wf(),
    {
        let mut out: Vec<(ProjectTextSearchBatch, bool)> = Vec::new();
        if self.needle.is_none() || self.limit == 0 {
            let empty = ProjectTextSearchBatch { matches: Vec::new(), scanned_files: 0, total_matches: 0 };
            out.push((empty, true));
            let ghost m = self.model();
            self.batch = Vec::new();
            proof {
                assert(match_models(empty.matches@) == Seq::<MatchModel>::empty());
                assert(match_models(self.batch@) == Seq::<MatchModel>::empty());
                assert(self.model() == (SearchModel { batch: Seq::empty(), ..m }));
            }
            return out;
        }
        let mut rest: Vec<ProjectSearchMatch> = Vec::new();
        std::mem::swap(&mut rest, &mut self.batch);
        let ghost rm = match_models(rest@);
        if rest.len() > 0 {
            out.push((ProjectTextSearchBatch { matches: rest, scanned_files: self.scanned_files, total_matches: self.total_matches }, false));
        }
        let done = ProjectTextSearchBatch { matches: Vec::new(), scanned_files: self.scanned_files, total_matches: self.total_matches };
        out.push((done, true));
        proof {
            assert(match_models(done.matches@) == Seq::<MatchModel>::empty());
            assert(match_models(self.batch@) == Seq::<MatchModel>::empty());
        }
        out
    }

    /// Every match found so far, in order.
    pub fn matches(&self) -> (r: &[ProjectSearchMatch])
        ensures
            match_models(r@) == self.model().matches,
    {
        self.matches.as_slice()
    }

    /// How many files the search read and how many matches it found.
    pub fn summary(&self) -> (r: ProjectTextSearchSummary)
        ensures
            r.scanned_files == self.model().scanned,
            r.total_matches == self.model().total,
    {
        ProjectTextSearchSummary { scanned_files: self.scanned_files, total_matches: self.total_matches }
    }
}

/// The text of a file as the search reads it: decoded by its byte-order mark, as UTF-8, or in a
/// guessed encoding, as `encoding::decode_text_bytes` does.
pub fn decode_text_bytes(bytes: &[u8]) -> (r: String)
    requires
        bytes@.len() <= usize::MAX / 16,
    ensures
        exists|k: TextFileEncoding| decodes_as(bytes@, k, r@),
{
    let decoded = crate::encoding::decode_text_bytes(bytes);
    decoded.text
}

} // verus!
