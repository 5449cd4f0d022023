//! Declarations of outside types that the library carries without looking inside.
use vstd::prelude::*;
use vstd::string::StringSliceAdditionalSpecFns;

verus! {

/// A file system path, carried as an opaque value.
#[verifier::external_type_specification]
#[verifier::external_body]
pub struct ExPathBuf(std::path::PathBuf);

/// A JSON value, carried as an opaque value.
#[verifier::external_type_specification]
#[verifier::external_body]
pub struct ExJsonValue(serde_json::Value);

/// `serde_json::Value::clone`: the copy is the same value.
#[verifier::external_body]
pub(crate) fn json_clone(v: &serde_json::Value) -> (r: serde_json::Value)
    ensures
        r == *v,
{
    v.clone()
}

/// What `serde_json::Value::as_bool` gives for a value: the boolean it holds when it is a JSON
/// boolean, else nothing.
pub uninterp spec fn json_bool(v: serde_json::Value) -> Option<bool>;

/// What `serde_json::Value::as_str` gives for a value: the text it holds when it is a JSON
/// string, else nothing.
pub uninterp spec fn json_str(v: serde_json::Value) -> Option<Seq<char>>;

/// `serde_json::Value::as_bool`: the result is `json_bool` of the value; the value's variants are
/// opaque here, so which values give `Some` is left unsaid.
#[verifier::external_body]
pub(crate) fn json_as_bool(v: &serde_json::Value) -> (r: Option<bool>)
    ensures
        r == json_bool(*v),
{
    v.as_bool()
}

/// `serde_json::Value::as_str`: the result is `json_str` of the value; the value's variants are
/// opaque here, so which values give `Some` is left unsaid.
#[verifier::external_body]
pub(crate) fn json_as_str(v: &serde_json::Value) -> (r: Option<&str>)
    ensures
        match r {
            Some(s) => json_str(*v) == Some(s@),
            None => json_str(*v) is None,
        },
{
    v.as_str()
}

/// `str::len`: the length of `s` in bytes. Besides what vstd states, the contract claims the
/// bound that Rust places on every allocation and slice: no more than `isize::MAX` bytes.
#[verifier::external_body]
pub(crate) fn str_byte_len(s: &str) -> (r: usize)
    ensures
        r == s.spec_bytes().len(),
        r <= isize::MAX,
{
    s.len()
}

/// `c` with an ASCII upper-case letter mapped to its lower-case letter.
pub open spec fn ascii_lower_char(c: char) -> char {
    if 'A' <= c && c <= 'Z' {
        ((c as u32) + 32) as char
    } else {
        c
    }
}

/// `c` with an ASCII lower-case letter mapped to its upper-case letter.
pub open spec fn ascii_upper_char(c: char) -> char {
    if 'a' <= c && c <= 'z' {
        ((c as u32) - 32) as char
    } else {
        c
    }
}

pub open spec fn ascii_lowercase(s: Seq<char>) -> Seq<char> {
    s.map_values(|c: char| ascii_lower_char(c))
}

pub open spec fn ascii_uppercase(s: Seq<char>) -> Seq<char> {
    s.map_values(|c: char| ascii_upper_char(c))
}

/// `str::eq_ignore_ascii_case`: documented as the same as comparing the two strings after
/// `to_ascii_lowercase`, which maps 'A'..='Z' to 'a'..='z' and leaves every other character.
#[verifier::external_body]
pub(crate) fn str_eq_ignore_ascii_case(a: &str, b: &str) -> (r: bool)
    ensures
        r == (ascii_lowercase(a@) == ascii_lowercase(b@)),
{
    a.eq_ignore_ascii_case(b)
}

/// `str::to_ascii_lowercase`: documented to map 'A'..='Z' to 'a'..='z' and leave every other
/// character unchanged.
#[verifier::external_body]
pub(crate) fn str_to_ascii_lowercase(s: &str) -> (r: String)
    ensures
        r@ == ascii_lowercase(s@),
{
    s.to_ascii_lowercase()
}

/// `str::to_ascii_uppercase`: documented to map 'a'..='z' to 'A'..='Z' and leave every other
/// character unchanged.
#[verifier::external_body]
pub(crate) fn str_to_ascii_uppercase(s: &str) -> (r: String)
    ensures
        r@ == ascii_uppercase(s@),
{
    s.to_ascii_uppercase()
}

/// Whether `c` has the Unicode White_Space property, as `char::is_whitespace` documents it.
pub open spec fn is_white_space(c: char) -> bool {
    let v = c as u32;
    ||| 0x09 <= v <= 0x0D
    ||| v == 0x20
    ||| v == 0x85
    ||| v == 0xA0
    ||| v == 0x1680
    ||| 0x2000 <= v <= 0x200A
    ||| v == 0x2028
    ||| v == 0x2029
    ||| v == 0x202F
    ||| v == 0x205F
    ||| v == 0x3000
}

/// `s` without its leading white space.
pub open spec fn trim_start(s: Seq<char>) -> Seq<char>
    decreases s.len(),
{
    if s.len() > 0 && is_white_space(s[0]) {
        trim_start(s.drop_first())
    } else {
        s
    }
}

/// `s` without its trailing white space.
pub open spec fn trim_end(s: Seq<char>) -> Seq<char>
    decreases s.len(),
{
    if s.len() > 0 && is_white_space(s.last()) {
        trim_end(s.drop_last())
    } else {
        s
    }
}

/// What `str::trim` leaves of a string: the string without its leading and trailing white space.
pub open spec fn trimmed(s: Seq<char>) -> Seq<char> {
    trim_end(trim_start(s))
}

/// `str::trim`: documented to remove the leading and trailing White_Space characters, as `trimmed` states.
#[verifier::external_body]
pub(crate) fn str_trim(s: &str) -> (r: &str)
    ensures
        r@ == trimmed(s@),
{
    s.trim()
}

/// `h` holds `n` as a contiguous run of bytes.
pub open spec fn contains_bytes(h: Seq<u8>, n: Seq<u8>) -> bool {
    exists|i: int| 0 <= i && i + n.len() <= h.len() && #[trigger] h.subrange(i, i + n.len()) == n
}

/// Whether the bytes of `n` occur in the bytes of `h`: `str::contains` with a string pattern.
pub(crate) fn str_contains(h: &str, n: &str) -> (r: bool)
    ensures
        r == contains_bytes(h.spec_bytes(), n.spec_bytes()),
{
    let hb = h.as_bytes();
    let nb = n.as_bytes();
    if nb.len() == 0 {
        proof {
            assert(h.spec_bytes().subrange(0, 0int + n.spec_bytes().len()) =~= n.spec_bytes());
        }
        return true;
    }
    if nb.len() > hb.len() {
        return false;
    }
    let last = hb.len() - nb.len();
    let mut i: usize = 0;
    while i <= last
        invariant
            hb@ == h.spec_bytes(),
            nb@ == n.spec_bytes(),
            1 <= nb.len() <= hb.len(),
            last == hb.len() - nb.len(),
            i <= last + 1,
            forall|k: int| 0 <= k < i ==> #[trigger] hb@.subrange(k, k + nb@.len()) != nb@,
        decreases last + 1 - i,
    {
        let mut j: usize = 0;
        let mut same = true;
        while j < nb.len()
            invariant
                1 <= nb.len() <= hb.len(),
                i <= last,
                last == hb.len() - nb.len(),
                j <= nb.len(),
                same == (forall|q: int| 0 <= q < j ==> hb@[i + q] == nb@[q]),
            decreases nb.len() - j,
        {
            same = same && hb[i + j] == nb[j];
            j = j + 1;
        }
        if same {
            proof {
                assert(hb@.subrange(i as int, i + nb@.len()) =~= nb@);
            }
            return true;
        }
        proof {
            if hb@.subrange(i as int, i + nb@.len()) == nb@ {
                assert forall|q: int| 0 <= q < nb.len() implies hb@[i + q] == nb@[q] by {
                    assert(hb@.subrange(i as int, i + nb@.len())[q] == hb@[i + q]);
                }
            }
        }
        i = i + 1;
    }
    false
}

/// What `str::to_lowercase` makes of a string (Unicode lower-case mapping).
pub uninterp spec fn lowercased(s: Seq<char>) -> Seq<char>;

/// `str::to_lowercase`: the result is `lowercased` of the argument; nothing more is stated.
#[verifier::external_body]
pub(crate) fn str_to_lowercase(s: &str) -> (r: String)
    ensures
        r@ == lowercased(s@),
{
    s.to_lowercase()
}

/// The lines of a text as `str::lines` documents them: the pieces between newlines, a final
/// newline adding no empty line, and a carriage return dropped from the end of a line that a
/// newline ends.
pub open spec fn text_lines(t: Seq<char>) -> Seq<Seq<char>>
    decreases t.len(),
{
    if t.len() == 0 {
        Seq::empty()
    } else {
        let k = first_newline(t);
        if k < 0 {
            seq![t]
        } else {
            let line = t.take(k);
            let line = if line.len() > 0 && line.last() == '\r' { line.drop_last() } else { line };
            proof {
                lemma_first_newline(t);
            }
            seq![line] + text_lines(t.skip(k + 1))
        }
    }
}

/// Index of the first newline of `t`, or -1.
pub open spec fn first_newline(t: Seq<char>) -> int
    decreases t.len(),
{
    if t.len() == 0 {
        -1
    } else if t[0] == '\n' {
        0
    } else {
        let k = first_newline(t.drop_first());
        if k < 0 { -1 } else { k + 1 }
    }
}

pub proof fn lemma_first_newline(t: Seq<char>)
    ensures
        -1 <= first_newline(t) < t.len(),
        first_newline(t) >= 0 ==> t[first_newline(t)] == '\n',
    decreases t.len(),
{
    if t.len() > 0 && t[0] != '\n' {
        lemma_first_newline(t.drop_first());
    }
}

/// `str::lines`, collected: the lines of `s` as `text_lines` states them.
#[verifier::external_body]
pub(crate) fn str_lines(s: &str) -> (r: Vec<&str>)
    ensures
        r@.map_values(|l: &str| l@) == text_lines(s@),
{
    s.lines().collect()
}

/// `PathBuf::clone`: the copy is the same path.
#[verifier::external_body]
pub(crate) fn clone_path(p: &std::path::PathBuf) -> (r: std::path::PathBuf)
    ensures
        r == *p,
{
    p.clone()
}

} // verus!
