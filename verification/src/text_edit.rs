//! What the editor front end computes on texts: the smallest edit that turns one text into
//! another, and conversions between character and byte offsets.
use std::ops::Range;

use vstd::prelude::*;
use vstd::string::{StrSliceExecFns, StringSliceAdditionalSpecFns};
use vstd::utf8::*;

use crate::text::{lemma_concat_boundary, lemma_encode_concat, splice, str_eq, valid_range};
use crate::trusted::{ascii_lowercase, str_byte_len, str_eq_ignore_ascii_case};

verus! {

broadcast use vstd::string::group_string_axioms;

/// Number of leading characters that `a` and `b` share.
pub open spec fn common_prefix(a: Seq<char>, b: Seq<char>) -> nat
    decreases a.len(),
{
    if a.len() == 0 || b.len() == 0 || a[0] != b[0] {
        0
    } else {
        1 + common_prefix(a.drop_first(), b.drop_first())
    }
}

/// Number of trailing characters that `a` and `b` share.
pub open spec fn common_suffix(a: Seq<char>, b: Seq<char>) -> nat
    decreases a.len(),
{
    if a.len() == 0 || b.len() == 0 || a.last() != b.last() {
        0
    } else {
        1 + common_suffix(a.drop_last(), b.drop_last())
    }
}

/// Length in bytes of the UTF-8 encoding of `s`.
pub open spec fn byte_len(s: Seq<char>) -> nat {
    encode_utf8(s).len()
}

proof fn lemma_common_prefix(a: Seq<char>, b: Seq<char>, k: int)
    requires
        0 <= k <= a.len(),
        k <= b.len(),
        a.take(k) == b.take(k),
        k == a.len() || k == b.len() || a[k] != b[k],
    ensures
        common_prefix(a, b) == k,
    decreases k,
{
    if k > 0 {
        assert(a[0] == a.take(k)[0]);
        assert(b[0] == b.take(k)[0]);
        assert(a.drop_first().take(k - 1) == a.take(k).drop_first());
        assert(b.drop_first().take(k - 1) == b.take(k).drop_first());
        if k < a.len() && k < b.len() {
            assert(a.drop_first()[k - 1] == a[k]);
            assert(b.drop_first()[k - 1] == b[k]);
        }
        lemma_common_prefix(a.drop_first(), b.drop_first(), k - 1);
    }
}

proof fn lemma_common_prefix_bounds(a: Seq<char>, b: Seq<char>)
    ensures
        common_prefix(a, b) <= a.len(),
        common_prefix(a, b) <= b.len(),
        a.take(common_prefix(a, b) as int) == b.take(common_prefix(a, b) as int),
    decreases a.len(),
{
    if !(a.len() == 0 || b.len() == 0 || a[0] != b[0]) {
        lemma_common_prefix_bounds(a.drop_first(), b.drop_first());
        let k = common_prefix(a, b) as int;
        assert forall|i: int| 0 <= i < k implies a.take(k)[i] == b.take(k)[i] by {
            if i > 0 {
                assert(a.drop_first().take(k - 1)[i - 1] == a[i]);
                assert(b.drop_first().take(k - 1)[i - 1] == b[i]);
            }
        }
    }
}

proof fn lemma_common_suffix(a: Seq<char>, b: Seq<char>, k: int)
    requires
        0 <= k <= a.len(),
        k <= b.len(),
        a.skip(a.len() - k) == b.skip(b.len() - k),
        k == a.len() || k == b.len() || a[a.len() - k - 1] != b[b.len() - k - 1],
    ensures
        common_suffix(a, b) == k,
    decreases k,
{
    if k > 0 {
        assert(a.last() == a.skip(a.len() - k)[k - 1]);
        assert(b.last() == b.skip(b.len() - k)[k - 1]);
        assert(a.drop_last().skip(a.len() - k) == a.skip(a.len() - k).drop_last());
        assert(b.drop_last().skip(b.len() - k) == b.skip(b.len() - k).drop_last());
        if k < a.len() && k < b.len() {
            assert(a.drop_last()[a.len() - 1 - (k - 1) - 1] == a[a.len() - k - 1]);
            assert(b.drop_last()[b.len() - 1 - (k - 1) - 1] == b[b.len() - k - 1]);
        }
        lemma_common_suffix(a.drop_last(), b.drop_last(), k - 1);
    }
}

proof fn lemma_common_suffix_bounds(a: Seq<char>, b: Seq<char>)
    ensures
        common_suffix(a, b) <= a.len(),
        common_suffix(a, b) <= b.len(),
        a.skip(a.len() - common_suffix(a, b)) == b.skip(b.len() - common_suffix(a, b)),
    decreases a.len(),
{
    if !(a.len() == 0 || b.len() == 0 || a.last() != b.last()) {
        lemma_common_suffix_bounds(a.drop_last(), b.drop_last());
        let k = common_suffix(a, b) as int;
        let (pa, pb) = (a.drop_last(), b.drop_last());
        assert forall|i: int| 0 <= i < k implies #[trigger] a.skip(a.len() - k)[i] == b.skip(b.len() - k)[i] by {
            if i < k - 1 {
                assert(pa.skip(pa.len() - (k - 1))[i] == a[a.len() - k + i]);
                assert(pb.skip(pb.len() - (k - 1))[i] == b[b.len() - k + i]);
            }
        }
    }
}

/// The characters of `s`.
pub(crate) fn chars_of(s: &str) -> (r: Vec<char>)
    ensures
        r@ == s@,
{
    let mut out: Vec<char> = Vec::new();
    for c in it: s.chars()
        invariant
            out@.len() == it.index(),
            forall|i: int| 0 <= i < it.index() ==> out@[i] == it.seq()[i],
            it.seq() == s@,
    {
        out.push(c);
    }
    out
}

/// Length in bytes of the longest run of characters that `old` and `new` both start with.
pub fn shared_prefix_len(old: &str, new: &str) -> (r: usize)
    ensures
        r == byte_len(old@.take(common_prefix(old@, new@) as int)),
{
    let a = chars_of(old);
    let b = chars_of(new);
    let mut k: usize = 0;
    while k < a.len() && k < b.len() && a[k] == b[k]
        invariant
            k <= a@.len(),
            k <= b@.len(),
            a@ == old@,
            b@ == new@,
            a@.take(k as int) == b@.take(k as int),
        decreases a@.len() - k,
    {
        proof {
            assert(a@.take(k + 1) == a@.take(k as int).push(a@[k as int]));
            assert(b@.take(k + 1) == b@.take(k as int).push(b@[k as int]));
        }
        k = k + 1;
    }
    proof {
        lemma_common_prefix(a@, b@, k as int);
    }
    let head = old.substring_char(0, k);
    str_byte_len(head)
}

/// Length in bytes of the longest run of characters that `old` and `new` both end with.
pub fn shared_suffix_len(old: &str, new: &str) -> (r: usize)
    ensures
        r == byte_len(old@.skip(old@.len() - common_suffix(old@, new@))),
{
    let a = chars_of(old);
    let b = chars_of(new);
    let mut k: usize = 0;
    while k < a.len() && k < b.len() && a[a.len() - 1 - k] == b[b.len() - 1 - k]
        invariant
            k <= a@.len(),
            k <= b@.len(),
            a@ == old@,
            b@ == new@,
            a@.skip(a@.len() - k) == b@.skip(b@.len() - k),
        decreases a@.len() - k,
    {
        proof {
            let (n, m) = (a@.len() as int, b@.len() as int);
            assert(a@.skip(n - k - 1) == seq![a@[n - k - 1]] + a@.skip(n - k));
            assert(b@.skip(m - k - 1) == seq![b@[m - k - 1]] + b@.skip(m - k));
        }
        k = k + 1;
    }
    proof {
        lemma_common_suffix(a@, b@, k as int);
    }
    let tail = old.substring_char(a.len() - k, a.len());
    str_byte_len(tail)
}

/// The smallest edit, by characters, that turns `a` into `b`: the range it replaces, in
/// characters, and the characters it puts there.
pub open spec fn minimal_edit(a: Seq<char>, b: Seq<char>) -> (int, int, Seq<char>) {
    let k = common_prefix(a, b) as int;
    let ks = common_suffix(a.skip(k), b.skip(k)) as int;
    (k, a.len() - ks, b.subrange(k, b.len() - ks))
}

proof fn lemma_minimal_edit(a: Seq<char>, b: Seq<char>)
    ensures
        ({
            let (s, e, rep) = minimal_edit(a, b);
            &&& 0 <= s <= e <= a.len()
            &&& a.take(s) + rep + a.skip(e) == b
            &&& s == common_prefix(a, b)
            &&& encode_utf8(a) == encode_utf8(a.take(s)) + encode_utf8(a.subrange(s, e)) + encode_utf8(a.skip(e))
            &&& splice(encode_utf8(a), byte_len(a.take(s)) as int, byte_len(a.take(e)) as int, encode_utf8(rep))
                == encode_utf8(b)
        }),
{
    let k = common_prefix(a, b) as int;
    lemma_common_prefix_bounds(a, b);
    let (ra, rb) = (a.skip(k), b.skip(k));
    let ks = common_suffix(ra, rb) as int;
    lemma_common_suffix_bounds(ra, rb);
    let (s, e, rep) = minimal_edit(a, b);
    assert(s == k && e == a.len() - ks);
    assert(ra.skip(ra.len() - ks) == a.skip(e));
    assert(rb.skip(rb.len() - ks) == b.skip(b.len() - ks));
    assert(b == b.take(k) + rep + b.skip(b.len() - ks));
    assert(a == a.take(s) + a.subrange(s, e) + a.skip(e));
    assert(a.take(e) == a.take(s) + a.subrange(s, e));
    lemma_encode_concat(a.take(s) + a.subrange(s, e), a.skip(e));
    lemma_encode_concat(a.take(s), a.subrange(s, e));
    lemma_encode_concat(a.take(s) + rep, a.skip(e));
    lemma_encode_concat(a.take(s), rep);
    let (x, y, z) = (encode_utf8(a.take(s)), encode_utf8(a.subrange(s, e)), encode_utf8(a.skip(e)));
    let t = encode_utf8(a);
    assert(t == x + y + z);
    assert(t.subrange(0, x.len() as int) == x);
    assert(t.subrange((x.len() + y.len()) as int, t.len() as int) == z);
    assert(splice(t, x.len() as int, (x.len() + y.len()) as int, encode_utf8(rep)) == x + encode_utf8(rep) + z);
}

proof fn lemma_common_prefix_maximal(a: Seq<char>, b: Seq<char>)
    ensures
        common_prefix(a, b) < a.len() && common_prefix(a, b) < b.len()
            ==> a[common_prefix(a, b) as int] != b[common_prefix(a, b) as int],
    decreases a.len(),
{
    if !(a.len() == 0 || b.len() == 0 || a[0] != b[0]) {
        lemma_common_prefix_maximal(a.drop_first(), b.drop_first());
        let k = common_prefix(a, b) as int;
        if k < a.len() && k < b.len() {
            assert(a[k] == a.drop_first()[k - 1]);
            assert(b[k] == b.drop_first()[k - 1]);
        }
    }
}

proof fn lemma_common_suffix_maximal(a: Seq<char>, b: Seq<char>)
    ensures
        common_suffix(a, b) < a.len() && common_suffix(a, b) < b.len()
            ==> a[a.len() - common_suffix(a, b) - 1] != b[b.len() - common_suffix(a, b) - 1],
    decreases a.len(),
{
    if !(a.len() == 0 || b.len() == 0 || a.last() != b.last()) {
        lemma_common_suffix_maximal(a.drop_last(), b.drop_last());
        let k = common_suffix(a, b) as int;
        if k < a.len() && k < b.len() {
            assert(a[a.len() - k - 1] == a.drop_last()[a.len() - 1 - (k - 1) - 1]);
            assert(b[b.len() - k - 1] == b.drop_last()[b.len() - 1 - (k - 1) - 1]);
        }
    }
}

/// The smallest edit keeps the longest common prefix of the two texts and, of what follows it,
/// the longest common suffix: the texts differ at the first character replaced and at the last,
/// wherever both sides replace something there.
pub proof fn law_minimal_edit_is_minimal(a: Seq<char>, b: Seq<char>)
    ensures
        ({
            let (s, e, rep) = minimal_edit(a, b);
            let f = s + rep.len();
            &&& a.take(s) == b.take(s)
            &&& s < a.len() && s < b.len() ==> a[s] != b[s]
            &&& a.skip(e) == b.skip(f)
            &&& e > s && f > s ==> a[e - 1] != b[f - 1]
        }),
{
    lemma_minimal_edit(a, b);
    lemma_common_prefix_bounds(a, b);
    lemma_common_prefix_maximal(a, b);
    let k = common_prefix(a, b) as int;
    let (ra, rb) = (a.skip(k), b.skip(k));
    lemma_common_suffix_bounds(ra, rb);
    lemma_common_suffix_maximal(ra, rb);
    let ks = common_suffix(ra, rb) as int;
    let (s, e, rep) = minimal_edit(a, b);
    assert(rep.len() == b.len() - ks - k);
    assert(ra.skip(ra.len() - ks) == a.skip(e));
    assert(rb.skip(rb.len() - ks) == b.skip(s + rep.len()));
    if e > s && s + rep.len() > s {
        assert(ra[ra.len() - ks - 1] == a[e - 1]);
        assert(rb[rb.len() - ks - 1] == b[s + rep.len() - 1]);
    }
}

/// The byte range that the smallest edit replaces lies on character boundaries.
proof fn lemma_minimal_edit_range(a: Seq<char>, b: Seq<char>)
    ensures
        ({
            let (s, e, rep) = minimal_edit(a, b);
            valid_range(encode_utf8(a), byte_len(a.take(s)) as int, byte_len(a.take(e)) as int)
        }),
{
    lemma_minimal_edit(a, b);
    let (s, e, rep) = minimal_edit(a, b);
    let x = encode_utf8(a.take(s));
    let y = encode_utf8(a.subrange(s, e));
    let z = encode_utf8(a.skip(e));
    encode_utf8_valid_utf8(a.take(s));
    encode_utf8_valid_utf8(a.subrange(s, e));
    encode_utf8_valid_utf8(a.skip(e));
    lemma_concat_boundary(x, y);
    lemma_concat_boundary(x + y, z);
    assert(a.take(e) == a.take(s) + a.subrange(s, e));
    lemma_encode_concat(a.take(s), a.subrange(s, e));
}

/// The smallest edit that turns `old` into `new`: the byte range of `old` to replace and the
/// text of `new` to put there; `None` when the texts are the same.
pub fn compute_minimal_text_edit<'a>(old: &str, new: &'a str) -> (r: Option<(Range<usize>, &'a str)>)
    ensures
        r is None <==> old@ == new@,
        r matches Some((range, rep)) ==> ({
            let (s, e, text) = minimal_edit(old@, new@);
            &&& range.start == byte_len(old@.take(s))
            &&& range.end == byte_len(old@.take(e))
            &&& rep@ == text
            &&& valid_range(old.spec_bytes(), range.start as int, range.end as int)
            &&& splice(old.spec_bytes(), range.start as int, range.end as int, rep.spec_bytes()) == new.spec_bytes()
        }),
{
    if str_eq(old, new) {
        return None;
    }
    let ghost (a, b) = (old@, new@);
    let ghost k = common_prefix(a, b) as int;
    let prefix = shared_prefix_len(old, new);
    proof {
        lemma_minimal_edit_range(a, b);
        lemma_common_prefix_bounds(a, b);
        lemma_encode_concat(a.take(k), a.skip(k));
        lemma_encode_concat(b.take(k), b.skip(k));
        assert(a == a.take(k) + a.skip(k));
        assert(b == b.take(k) + b.skip(k));
        encode_utf8_valid_utf8(a.take(k));
        encode_utf8_valid_utf8(a.skip(k));
        encode_utf8_valid_utf8(b.skip(k));
        lemma_concat_boundary(encode_utf8(a.take(k)), encode_utf8(a.skip(k)));
        lemma_concat_boundary(encode_utf8(b.take(k)), encode_utf8(b.skip(k)));
    }
    let (_old_head, old_remaining) = old.split_at(prefix);
    let (_new_head, new_remaining) = new.split_at(prefix);
    proof {
        assert(old_remaining.spec_bytes() == encode_utf8(a.skip(k)));
        assert(new_remaining.spec_bytes() == encode_utf8(b.skip(k)));
        encode_utf8_decode_utf8(old_remaining@);
        encode_utf8_decode_utf8(a.skip(k));
        encode_utf8_decode_utf8(new_remaining@);
        encode_utf8_decode_utf8(b.skip(k));
        assert(old_remaining@ == a.skip(k));
        assert(new_remaining@ == b.skip(k));
    }
    let suffix = shared_suffix_len(old_remaining, new_remaining);
    let ghost ks = common_suffix(a.skip(k), b.skip(k)) as int;
    proof {
        lemma_minimal_edit(a, b);
        lemma_common_suffix_bounds(a.skip(k), b.skip(k));
        let rb = b.skip(k);
        lemma_encode_concat(rb.take(rb.len() - ks), rb.skip(rb.len() - ks));
        assert(rb == rb.take(rb.len() - ks) + rb.skip(rb.len() - ks));
        let ra = a.skip(k);
        assert(ra.skip(ra.len() - ks) == a.skip(a.len() - ks));
        assert(rb.skip(rb.len() - ks) == b.skip(b.len() - ks));
        lemma_encode_concat(a.take(a.len() - ks), a.skip(a.len() - ks));
        assert(a == a.take(a.len() - ks) + a.skip(a.len() - ks));
        encode_utf8_valid_utf8(rb.take(rb.len() - ks));
        encode_utf8_valid_utf8(rb.skip(rb.len() - ks));
        lemma_concat_boundary(encode_utf8(rb.take(rb.len() - ks)), encode_utf8(rb.skip(rb.len() - ks)));
    }
    let old_end = str_byte_len(old) - suffix;
    let mid_len = str_byte_len(new_remaining) - suffix;
    let (replacement, _tail) = new_remaining.split_at(mid_len);
    proof {
        let rb = b.skip(k);
        assert(replacement.spec_bytes() == encode_utf8(rb.take(rb.len() - ks)));
        encode_utf8_decode_utf8(replacement@);
        encode_utf8_decode_utf8(rb.take(rb.len() - ks));
        assert(rb.take(rb.len() - ks) == b.subrange(k, b.len() - ks));
    }
    Some((prefix..old_end, replacement))
}

/// The byte offset of character `char_index` of `text`, or the length of `text` past its end.
pub fn char_index_to_byte_index(text: &str, char_index: usize) -> (r: usize)
    ensures
        r == byte_len(text@.take(if char_index < text@.len() { char_index as int } else { text@.len() as int })),
{
    let n = text.unicode_len();
    if char_index < n {
        str_byte_len(text.substring_char(0, char_index))
    } else {
        proof {
            assert(text@.take(text@.len() as int) == text@);
        }
        str_byte_len(text)
    }
}

/// The number of characters before byte offset `byte_index` of `text` (its end, past the end).
pub fn byte_index_to_char_index(text: &str, byte_index: usize) -> (r: usize)
    requires
        is_char_boundary(
            text.spec_bytes(),
            if byte_index < text.spec_bytes().len() { byte_index as int } else { text.spec_bytes().len() as int },
        ),
    ensures
        r == decode_utf8(
            text.spec_bytes().take(
                if byte_index < text.spec_bytes().len() { byte_index as int } else { text.spec_bytes().len() as int },
            ),
        ).len(),
{
    let len = str_byte_len(text);
    let end = if byte_index < len {
        byte_index
    } else {
        len
    };
    let (head, _rest) = text.split_at(end);
    proof {
        encode_utf8_decode_utf8(head@);
        assert(head.spec_bytes() == text.spec_bytes().take(end as int));
    }
    head.unicode_len()
}

/// Whether `input` and `target` are equal when ASCII letters are compared without case.
pub fn eq_mod(input: &str, target: &str) -> (r: bool)
    ensures
        r == (ascii_lowercase(input@) == ascii_lowercase(target@)),
{
    str_eq_ignore_ascii_case(input, target)
}

} // verus!
