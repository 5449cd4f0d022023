//! The byte-level model of buffer text: UTF-8 bytes split into lines at `\n`.
use vstd::prelude::*;
use vstd::string::StringSliceAdditionalSpecFns;
use vstd::utf8::*;

verus! {

broadcast use vstd::seq::group_seq_axioms;

/// The newline byte.
pub open spec fn nl() -> u8 {
    10u8
}

/// Start of the line that holds byte offset `p`: just after the last newline before `p`.
pub open spec fn line_begin(t: Seq<u8>, p: int) -> int
    decreases p,
{
    if p <= 0 {
        0
    } else if t[p - 1] == nl() {
        p
    } else {
        line_begin(t, p - 1)
    }
}

/// End of the line that holds byte offset `p`: the first newline at or after `p`, or the end.
pub open spec fn line_end(t: Seq<u8>, p: int) -> int
    decreases t.len() - p,
{
    if p >= t.len() {
        t.len() as int
    } else if t[p] == nl() {
        p
    } else {
        line_end(t, p + 1)
    }
}

/// End of the line that holds `p`, its newline included.
pub open spec fn full_line_end(t: Seq<u8>, p: int) -> int {
    if line_end(t, p) < t.len() {
        line_end(t, p) + 1
    } else {
        t.len() as int
    }
}

/// Number of newlines among the first `p` bytes.
pub open spec fn count_newlines(t: Seq<u8>, p: int) -> nat
    decreases p,
{
    if p <= 0 {
        0
    } else {
        count_newlines(t, p - 1) + if t[p - 1] == nl() {
            1nat
        } else {
            0nat
        }
    }
}

/// `k` is the offset at which row `row` (zero-based) starts.
pub open spec fn is_row_start(t: Seq<u8>, row: int, k: int) -> bool {
    &&& 0 <= k <= t.len()
    &&& count_newlines(t, k) == row
    &&& (row == 0 ==> k == 0)
    &&& (row > 0 ==> t[k - 1] == nl())
}

/// `start..end` lies inside `t` and both ends fall on character boundaries.
pub open spec fn valid_range(t: Seq<u8>, start: int, end: int) -> bool {
    &&& 0 <= start <= end <= t.len()
    &&& is_char_boundary(t, start)
    &&& is_char_boundary(t, end)
}

/// `t` with the bytes of `start..end` replaced by `ins`.
pub open spec fn splice(t: Seq<u8>, start: int, end: int, ins: Seq<u8>) -> Seq<u8> {
    t.subrange(0, start) + ins + t.subrange(end, t.len() as int)
}

/// The greatest character boundary strictly before `p`.
pub open spec fn is_prev_char_start(t: Seq<u8>, p: int, j: int) -> bool {
    &&& 0 <= j < p
    &&& is_char_boundary(t, j)
    &&& forall|k: int| j < k < p ==> !is_char_boundary(t, k)
}

/// The least character boundary strictly after `p`.
pub open spec fn is_next_char_end(t: Seq<u8>, p: int, j: int) -> bool {
    &&& p < j <= t.len()
    &&& is_char_boundary(t, j)
    &&& forall|k: int| p < k < j ==> !is_char_boundary(t, k)
}

/// In valid UTF-8 an offset is a character boundary exactly when it is the end or the byte
/// there is not a continuation byte.
pub proof fn lemma_boundary_char(t: Seq<u8>, k: int)
    requires
        valid_utf8(t),
        0 <= k <= t.len(),
    ensures
        is_char_boundary(t, k) <==> (k == t.len() || !is_continuation_byte(t[k])),
{
    if k == t.len() {
        is_char_boundary_start_end_of_seq(t);
    } else {
        is_char_boundary_iff_not_is_continuation_byte(t, k);
    }
}

/// A non-empty valid UTF-8 sequence does not begin with a continuation byte.
pub proof fn lemma_first_not_continuation(t: Seq<u8>)
    requires
        valid_utf8(t),
        t.len() > 0,
    ensures
        !is_continuation_byte(t[0]),
{
    is_char_boundary_start_end_of_seq(t);
    is_char_boundary_iff_not_is_continuation_byte(t, 0);
}

/// Offsets next to an ASCII byte are character boundaries.
pub proof fn lemma_ascii_boundaries(t: Seq<u8>, i: int)
    requires
        valid_utf8(t),
        0 <= i < t.len(),
        t[i] <= 0x7f,
    ensures
        is_char_boundary(t, i),
        is_char_boundary(t, i + 1),
{
    lemma_boundary_char(t, i);
    if i + 1 < t.len() {
        valid_utf8_split(t, i);
        let r = t.subrange(i, t.len() as int);
        assert(r[0] == t[i]);
        assert(valid_first_scalar(r));
        assert(length_of_first_scalar(r) == 1);
        let rest = pop_first_scalar(r);
        assert(rest == t.subrange(i + 1, t.len() as int));
        assert(valid_utf8(rest));
        lemma_first_not_continuation(rest);
        assert(rest[0] == t[i + 1]);
        lemma_boundary_char(t, i + 1);
    } else {
        lemma_boundary_char(t, i + 1);
    }
}

/// UTF-8 encoding distributes over concatenation.
pub proof fn lemma_encode_concat(a: Seq<char>, b: Seq<char>)
    ensures
        encode_utf8(a + b) == encode_utf8(a) + encode_utf8(b),
    decreases a.len(),
{
    if a.len() == 0 {
        assert(a + b == b);
    } else {
        assert((a + b).drop_first() == a.drop_first() + b);
        assert((a + b)[0] == a[0]);
        lemma_encode_concat(a.drop_first(), b);
    }
}

/// Boundaries of a suffix taken at a boundary correspond to boundaries of the whole.
pub proof fn lemma_suffix_boundary(t: Seq<u8>, s: int, e: int)
    requires
        valid_utf8(t),
        is_char_boundary(t, s),
        0 <= s <= e <= t.len(),
    ensures
        valid_utf8(t.subrange(s, t.len() as int)),
        is_char_boundary(t.subrange(s, t.len() as int), e - s) <==> is_char_boundary(t, e),
{
    valid_utf8_split(t, s);
    let r = t.subrange(s, t.len() as int);
    lemma_boundary_char(t, e);
    lemma_boundary_char(r, e - s);
}

/// Concatenating valid UTF-8 keeps it valid, and the seam is a boundary.
pub proof fn lemma_concat_boundary(a: Seq<u8>, b: Seq<u8>)
    requires
        valid_utf8(a),
        valid_utf8(b),
    ensures
        valid_utf8(a + b),
        is_char_boundary(a + b, a.len() as int),
        forall|k: int| 0 <= k <= a.len() ==> (is_char_boundary(a + b, k) <==> is_char_boundary(a, k)),
        forall|k: int| a.len() <= k <= a.len() + b.len() ==> (is_char_boundary(a + b, k) <==> is_char_boundary(b, k - a.len())),
{
    valid_utf8_concat(a, b);
    let c = a + b;
    assert forall|k: int| 0 <= k <= a.len() implies (is_char_boundary(c, k) <==> is_char_boundary(a, k)) by {
        lemma_boundary_char(c, k);
        lemma_boundary_char(a, k);
        if k == a.len() && b.len() > 0 {
            lemma_first_not_continuation(b);
            assert(c[k] == b[0]);
        }
    }
    assert forall|k: int| a.len() <= k <= a.len() + b.len() implies (is_char_boundary(c, k) <==> is_char_boundary(b, k - a.len())) by {
        lemma_boundary_char(c, k);
        lemma_boundary_char(b, k - a.len());
        if k < c.len() {
            assert(c[k] == b[k - a.len()]);
        }
    }
    is_char_boundary_start_end_of_seq(a);
}

/// A splice of valid UTF-8 at boundaries is valid; the inserted text is delimited by boundaries,
/// and the bytes around the splice can be read back there.
pub proof fn lemma_splice(t: Seq<u8>, s: int, e: int, ins: Seq<u8>)
    requires
        valid_utf8(t),
        valid_range(t, s, e),
        valid_utf8(ins),
    ensures
        valid_utf8(splice(t, s, e, ins)),
        valid_range(splice(t, s, e, ins), s, s + ins.len()),
        splice(t, s, e, ins).len() == t.len() - (e - s) + ins.len(),
        splice(t, s, e, ins).subrange(s, s + ins.len()) == ins,
        splice(t, s, e, ins).subrange(0, s) == t.subrange(0, s),
        splice(t, s, e, ins).subrange(s + ins.len(), splice(t, s, e, ins).len() as int) == t.subrange(e, t.len() as int),
        splice(splice(t, s, e, ins), s, s + ins.len(), t.subrange(s, e)) == t,
{
    let a = t.subrange(0, s);
    let c = t.subrange(e, t.len() as int);
    valid_utf8_split(t, s);
    valid_utf8_split(t, e);
    lemma_concat_boundary(a, ins);
    lemma_concat_boundary(a + ins, c);
    is_char_boundary_start_end_of_seq(a);
    is_char_boundary_start_end_of_seq(ins);
    let u = a + ins + c;
    assert(splice(t, s, e, ins) == u);
    assert(u.subrange(s, s + ins.len()) == ins);
    assert(u.subrange(0, s) == a);
    assert(u.subrange(s + ins.len(), u.len() as int) == c);
    assert(t == a + t.subrange(s, e) + c);
}

/// Whether two strings hold the same characters.
pub fn str_eq(a: &str, b: &str) -> (r: bool)
    ensures
        r == (a@ == b@),
{
    let x = a.as_bytes();
    let y = b.as_bytes();
    proof {
        encode_utf8_decode_utf8(a@);
        encode_utf8_decode_utf8(b@);
    }
    if x.len() != y.len() {
        return false;
    }
    let mut i: usize = 0;
    while i < x.len()
        invariant
            x@.len() == y@.len(),
            x@ == a.spec_bytes(),
            y@ == b.spec_bytes(),
            i <= x@.len(),
            forall|k: int| 0 <= k < i ==> x@[k] == y@[k],
        decreases x@.len() - i,
    {
        if x[i] != y[i] {
            return false;
        }
        i = i + 1;
    }
    proof {
        assert(x@ == y@);
    }
    true
}

/// The start of the character that ends at `p`.
pub open spec fn prev_char_start_of(t: Seq<u8>, p: int) -> int {
    choose|j: int| is_prev_char_start(t, p, j)
}

/// The end of the character that starts at `p`.
pub open spec fn next_char_end_of(t: Seq<u8>, p: int) -> int {
    choose|j: int| is_next_char_end(t, p, j)
}

/// The offset at which row `row` starts.
pub open spec fn row_start_of(t: Seq<u8>, row: int) -> int {
    choose|k: int| is_row_start(t, row, k)
}

pub proof fn lemma_prev_char_start_of(t: Seq<u8>, p: int, j: int)
    requires
        is_prev_char_start(t, p, j),
    ensures
        prev_char_start_of(t, p) == j,
{
    let c = prev_char_start_of(t, p);
    assert(is_prev_char_start(t, p, c));
}

pub proof fn lemma_next_char_end_of(t: Seq<u8>, p: int, j: int)
    requires
        is_next_char_end(t, p, j),
    ensures
        next_char_end_of(t, p) == j,
{
    let c = next_char_end_of(t, p);
    assert(is_next_char_end(t, p, c));
}

proof fn lemma_count_newlines_mono(t: Seq<u8>, i: int, j: int)
    requires
        0 <= i <= j <= t.len(),
    ensures
        count_newlines(t, i) <= count_newlines(t, j),
    decreases j - i,
{
    if i < j {
        lemma_count_newlines_mono(t, i, j - 1);
    }
}

pub proof fn lemma_row_start_of(t: Seq<u8>, row: int, k: int)
    requires
        is_row_start(t, row, k),
    ensures
        row_start_of(t, row) == k,
{
    let c = row_start_of(t, row);
    assert(is_row_start(t, row, c));
    if row > 0 {
        if c < k {
            lemma_count_newlines_mono(t, c, k - 1);
        } else if k < c {
            lemma_count_newlines_mono(t, k, c - 1);
        }
    }
}

/// The encoding of a newline is the newline byte.
pub proof fn lemma_encode_newline()
    ensures
        encode_utf8(seq!['\n']) == seq![nl()],
{
    let c = seq!['\n'];
    assert(c.drop_first() == Seq::<char>::empty());
    assert(('\n' as u32) == 10u32);
    assert((10u32 & 0x7F) as u8 == 10u8) by (bit_vector);
    assert(encode_scalar(10u32) == seq![10u8]);
    assert(encode_utf8(Seq::<char>::empty()) == Seq::<u8>::empty());
    assert(c[0] as u32 == 10u32);
    assert(encode_utf8(c) == encode_scalar(10u32) + Seq::<u8>::empty());
    assert(encode_scalar(10u32) + Seq::<u8>::empty() == seq![10u8]);
}

/// A string holding one newline.
pub fn newline_string() -> (r: String)
    ensures
        encode_utf8(r@) == seq![nl()],
{
    let r = "\n".to_owned();
    proof {
        reveal_strlit("\n");
        lemma_encode_newline();
        assert(r@ == seq!['\n']);
    }
    r
}

/// `a` followed by `b`.
pub fn concat_strs(a: &str, b: &str) -> (r: String)
    ensures
        encode_utf8(r@) == a.spec_bytes() + b.spec_bytes(),
{
    let mut r = a.to_owned();
    r.append(b);
    proof {
        lemma_encode_concat(a@, b@);
    }
    r
}

/// The character of decimal digit `d`.
pub open spec fn digit_char(d: nat) -> char {
    (48 + d) as char
}

/// The decimal numeral of `n`, without leading zeros.
pub open spec fn decimal(n: nat) -> Seq<char>
    decreases n,
{
    if n < 10 {
        seq![digit_char(n)]
    } else {
        decimal(n / 10).push(digit_char(n % 10))
    }
}

fn digit_str(d: u64) -> (r: &'static str)
    requires
        d < 10,
    ensures
        r@ == seq![digit_char(d as nat)],
{
    if d == 0 {
        proof { reveal_strlit("0"); }
        "0"
    } else if d == 1 {
        proof { reveal_strlit("1"); }
        "1"
    } else if d == 2 {
        proof { reveal_strlit("2"); }
        "2"
    } else if d == 3 {
        proof { reveal_strlit("3"); }
        "3"
    } else if d == 4 {
        proof { reveal_strlit("4"); }
        "4"
    } else if d == 5 {
        proof { reveal_strlit("5"); }
        "5"
    } else if d == 6 {
        proof { reveal_strlit("6"); }
        "6"
    } else if d == 7 {
        proof { reveal_strlit("7"); }
        "7"
    } else if d == 8 {
        proof { reveal_strlit("8"); }
        "8"
    } else {
        proof { reveal_strlit("9"); }
        "9"
    }
}

/// The decimal numeral of `n`.
pub fn decimal_string(n: u64) -> (r: String)
    ensures
        r@ == decimal(n as nat),
    decreases n,
{
    if n < 10 {
        digit_str(n).to_owned()
    } else {
        let mut s = decimal_string(n / 10);
        s.append(digit_str(n % 10));
        s
    }
}

} // verus!
