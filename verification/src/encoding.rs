//! Reading and writing text files in the encoding they came in: byte-order marks first, then
//! UTF-8, and a guessed legacy encoding as the last resort.
use crate::text::str_eq;
use chardetng::EncodingDetector;
use encoding_rs::Encoding;
use vstd::prelude::*;
use vstd::slice::{slice_subrange, slice_to_vec};
use vstd::string::StringSliceAdditionalSpecFns;
use vstd::utf8::*;

verus! {

/// An encoding of `encoding_rs`, carried as an opaque value.
#[verifier::external_type_specification]
#[verifier::external_body]
pub struct ExEncoding(encoding_rs::Encoding);

/// The encoding detector of `chardetng`, carried as an opaque value.
#[verifier::external_type_specification]
#[verifier::external_body]
pub struct ExEncodingDetector(chardetng::EncodingDetector);

/// The name that `Encoding::name` gives of an encoding (each encoding has a name of its own).
pub uninterp spec fn encoding_name_of(e: Encoding) -> Seq<char>;

/// What `Encoding::decode` makes of `bytes` for the encoding with the given name: the whole input
/// decoded, with byte-order-mark sniffing and malformed sequences replaced.
pub uninterp spec fn decoded_text(name: Seq<char>, bytes: Seq<u8>) -> Seq<char>;

/// What `Encoding::encode` makes of `text` for the encoding with the given name.
pub uninterp spec fn encoded_text(name: Seq<char>, text: Seq<char>) -> Seq<u8>;

/// What `String::from_utf8_lossy` makes of `bytes`.
pub uninterp spec fn utf8_lossy(bytes: Seq<u8>) -> Seq<char>;

/// Whether a detector has been told the end of its stream.
pub uninterp spec fn detector_closed(d: EncodingDetector) -> bool;

/// The bytes fed to a detector so far, in order (how they were split into calls does not matter).
pub uninterp spec fn detector_input(d: EncodingDetector) -> Seq<u8>;

/// The name of the encoding that `EncodingDetector::guess` gives after the bytes `input` were fed
/// (the end of the stream told when `closed` holds), for the top-level domain `tld` and with UTF-8
/// allowed when `allow_utf8` holds.
pub uninterp spec fn guessed_name(input: Seq<u8>, closed: bool, tld: Option<Seq<u8>>, allow_utf8: bool) -> Seq<char>;

/// `EncodingDetector::new`: a detector that has been fed nothing and not told the end of its
/// stream.
#[verifier::external_body]
fn new_detector() -> (r: EncodingDetector)
    ensures
        !detector_closed(r),
        detector_input(r) == Seq::<u8>::empty(),
{
    EncodingDetector::new()
}

/// `EncodingDetector::feed`: the source panics when the stream was closed before, so that is
/// excluded; afterwards `bytes` follow the bytes fed before, and the stream is closed exactly when
/// `last` was set. What the returned flag (whether non-ASCII was seen) holds is not stated.
#[verifier::external_body]
fn feed_detector(d: &mut EncodingDetector, bytes: &[u8], last: bool) -> (r: bool)
    requires
        !detector_closed(*old(d)),
    ensures
        detector_closed(*final(d)) == last,
        detector_input(*final(d)) == detector_input(*old(d)) + bytes@,
{
    d.feed(bytes, last)
}

/// A top-level domain label that `EncodingDetector::guess` accepts: no byte is non-ASCII, a
/// period or an upper-case letter.
pub open spec fn valid_tld(t: Seq<u8>) -> bool {
    forall|i: int| 0 <= i < t.len() ==> t[i] < 0x80 && t[i] != 0x2e && !(0x41 <= t[i] <= 0x5a)
}

/// `EncodingDetector::guess`: the source panics on a top-level domain that `valid_tld` refuses,
/// so that is excluded. The encoding that comes back is the one named `guessed_name` of the bytes
/// fed, whether the stream was closed, the domain and `allow_utf8`.
#[verifier::external_body]
fn guess_encoding(d: &EncodingDetector, tld: Option<&[u8]>, allow_utf8: bool) -> (r: &'static Encoding)
    requires
        tld matches Some(t) ==> valid_tld(t@),
    ensures
        encoding_name_of(*r) == guessed_name(
            detector_input(*d),
            detector_closed(*d),
            match tld {
                Some(t) => Some(t@),
                None => None,
            },
            allow_utf8,
        ),
{
    d.guess(tld, allow_utf8)
}

/// `Encoding::name`: the result is `encoding_name_of` the encoding.
#[verifier::external_body]
fn encoding_name(e: &'static Encoding) -> (r: &'static str)
    ensures
        r@ == encoding_name_of(*e),
{
    e.name()
}

/// `Encoding::decode`, owned: the text is `decoded_text` of the encoding's name and the bytes.
/// The documented panic (the output size overflowing `usize`) is excluded by bounding the input to
/// a sixteenth of the address space.
#[verifier::external_body]
fn decode_with(e: &'static Encoding, bytes: &[u8]) -> (r: String)
    requires
        bytes@.len() <= usize::MAX / 16,
    ensures
        r@ == decoded_text(encoding_name_of(*e), bytes@),
{
    let (text, _, _) = e.decode(bytes);
    text.into_owned()
}

/// `Encoding::encode`, owned: the bytes are `encoded_text` of the encoding's name and the text.
/// The documented panic (the output size overflowing `usize`) is excluded by bounding the input to
/// a sixteenth of the address space.
#[verifier::external_body]
fn encode_with(e: &'static Encoding, text: &str) -> (r: Vec<u8>)
    requires
        text.spec_bytes().len() <= usize::MAX / 16,
    ensures
        r@ == encoded_text(encoding_name_of(*e), text@),
{
    let (bytes, _, _) = e.encode(text);
    bytes.into_owned()
}

/// `encoding_rs::UTF_16LE`, whose name is "UTF-16LE".
#[verifier::external_body]
fn utf_16le() -> (r: &'static Encoding)
    ensures
        encoding_name_of(*r) == "UTF-16LE"@,
{
    encoding_rs::UTF_16LE
}

/// `encoding_rs::UTF_16BE`, whose name is "UTF-16BE".
#[verifier::external_body]
fn utf_16be() -> (r: &'static Encoding)
    ensures
        encoding_name_of(*r) == "UTF-16BE"@,
{
    encoding_rs::UTF_16BE
}

/// `std::str::from_utf8`, as an `Option`: documented to succeed exactly on valid UTF-8, and then
/// the string is the text those bytes encode.
#[verifier::external_body]
fn utf8_str(bytes: &[u8]) -> (r: Option<&str>)
    ensures
        r is Some <==> valid_utf8(bytes@),
        r matches Some(s) ==> s@ == decode_utf8(bytes@),
{
    std::str::from_utf8(bytes).ok()
}

/// `String::from_utf8_lossy`, owned: the text is `utf8_lossy` of the bytes, which is documented
/// to be the text the bytes encode when they are valid UTF-8.
#[verifier::external_body]
fn utf8_lossy_string(bytes: &[u8]) -> (r: String)
    ensures
        r@ == utf8_lossy(bytes@),
        valid_utf8(bytes@) ==> r@ == decode_utf8(bytes@),
{
    String::from_utf8_lossy(bytes).into_owned()
}

/// The encoding a text file was read in, kept so that it is written back the same way.
#[derive(Debug, Clone, Copy)]
pub enum TextFileEncoding {
    Utf8,
    Utf8Bom,
    Utf16Le,
    Utf16Be,
    Legacy(&'static Encoding),
}

/// The label shown for an encoding.
pub open spec fn label_of(k: TextFileEncoding) -> Seq<char> {
    match k {
        TextFileEncoding::Utf8 => "UTF-8"@,
        TextFileEncoding::Utf8Bom => "UTF-8 with BOM"@,
        TextFileEncoding::Utf16Le => "UTF-16 LE"@,
        TextFileEncoding::Utf16Be => "UTF-16 BE"@,
        TextFileEncoding::Legacy(e) => encoding_name_of(*e),
    }
}

/// The UTF-16 code units of one character.
pub open spec fn char_units(c: char) -> Seq<u16> {
    let v = c as u32;
    if v < 0x10000 {
        seq![v as u16]
    } else {
        seq![(0xD800 + (v - 0x10000) / 0x400) as u16, (0xDC00 + (v - 0x10000) % 0x400) as u16]
    }
}

/// The UTF-16 code units of a text.
pub open spec fn utf16_units(s: Seq<char>) -> Seq<u16>
    decreases s.len(),
{
    if s.len() == 0 {
        Seq::empty()
    } else {
        utf16_units(s.drop_last()) + char_units(s.last())
    }
}

/// The two bytes of a code unit, most significant first when `big` holds.
pub open spec fn unit_bytes(u: u16, big: bool) -> Seq<u8> {
    if big {
        seq![(u / 256) as u8, (u % 256) as u8]
    } else {
        seq![(u % 256) as u8, (u / 256) as u8]
    }
}

/// The bytes of a sequence of code units.
pub open spec fn units_bytes(us: Seq<u16>, big: bool) -> Seq<u8>
    decreases us.len(),
{
    if us.len() == 0 {
        Seq::empty()
    } else {
        units_bytes(us.drop_last(), big) + unit_bytes(us.last(), big)
    }
}

pub open spec fn utf8_bom() -> Seq<u8> {
    seq![0xEFu8, 0xBBu8, 0xBFu8]
}

pub open spec fn utf16le_bom() -> Seq<u8> {
    seq![0xFFu8, 0xFEu8]
}

pub open spec fn utf16be_bom() -> Seq<u8> {
    seq![0xFEu8, 0xFFu8]
}

/// The bytes that `text` is written as in encoding `k`.
pub open spec fn encoded_bytes(k: TextFileEncoding, text: Seq<char>) -> Seq<u8> {
    match k {
        TextFileEncoding::Utf8 => encode_utf8(text),
        TextFileEncoding::Utf8Bom => utf8_bom() + encode_utf8(text),
        TextFileEncoding::Utf16Le => utf16le_bom() + units_bytes(utf16_units(text), false),
        TextFileEncoding::Utf16Be => utf16be_bom() + units_bytes(utf16_units(text), true),
        TextFileEncoding::Legacy(e) => encoded_text(encoding_name_of(*e), text),
    }
}

proof fn lemma_units_bytes_append(a: Seq<u16>, b: Seq<u16>, big: bool)
    ensures
        units_bytes(a + b, big) == units_bytes(a, big) + units_bytes(b, big),
    decreases b.len(),
{
    if b.len() == 0 {
        assert(a + b == a);
    } else {
        lemma_units_bytes_append(a, b.drop_last(), big);
        assert((a + b).drop_last() == a + b.drop_last());
        assert((a + b).last() == b.last());
    }
}

/// Appends the two bytes of `u` to `out`.
fn push_unit(out: &mut Vec<u8>, u: u16, big: bool)
    ensures
        final(out)@ == old(out)@ + unit_bytes(u, big),
{
    let hi: u8 = (u / 256) as u8;
    let lo: u8 = (u % 256) as u8;
    if big {
        out.push(hi);
        out.push(lo);
    } else {
        out.push(lo);
        out.push(hi);
    }
}

/// `bom` followed by the UTF-16 code units of `text`, each written as two bytes.
fn utf16_bytes(text: &str, bom: [u8; 2], big: bool) -> (r: Vec<u8>)
    ensures
        r@ == bom@ + units_bytes(utf16_units(text@), big),
{
    let mut out: Vec<u8> = Vec::new();
    out.push(bom[0]);
    out.push(bom[1]);
    proof {
        assert(out@ == bom@ + units_bytes(utf16_units(text@.take(0)), big)) by {
            assert(text@.take(0) == Seq::<char>::empty());
        }
    }
    for c in it: text.chars()
        invariant
            it.seq() == text@,
            out@ == bom@ + units_bytes(utf16_units(text@.take(it.index() as int)), big),
    {
        let ghost i = it.index();
        let ghost before = out@;
        let v: u32 = c as u32;
        if v < 0x10000 {
            push_unit(&mut out, v as u16, big);
        } else {
            let w: u32 = v - 0x10000;
            push_unit(&mut out, (0xD800 + w / 0x400) as u16, big);
            push_unit(&mut out, (0xDC00 + w % 0x400) as u16, big);
        }
        proof {
            let s = text@.take(i + 1);
            assert(s.drop_last() == text@.take(i));
            assert(s.last() == c);
            let us = utf16_units(text@.take(i));
            lemma_units_bytes_append(us, char_units(c), big);
            let cu = char_units(c);
            if v < 0x10000 {
                assert(cu.drop_last() =~= Seq::<u16>::empty());
                assert(units_bytes(cu.drop_last(), big) == Seq::<u8>::empty());
                assert(units_bytes(cu, big) == unit_bytes(v as u16, big));
            } else {
                assert(cu.drop_last().drop_last() =~= Seq::<u16>::empty());
                assert(units_bytes(cu.drop_last().drop_last(), big) == Seq::<u8>::empty());
                assert(cu.drop_last().last() == cu[0]);
                assert(units_bytes(cu.drop_last(), big) == unit_bytes(cu[0], big));
                assert(units_bytes(cu, big) == unit_bytes(cu[0], big) + unit_bytes(cu[1], big));
            }
        }
    }
    proof {
        assert(text@.take(text@.len() as int) == text@);
    }
    out
}

impl TextFileEncoding {
    /// The label shown for this encoding.
    pub fn label(self) -> (r: &'static str)
        ensures
            r@ == label_of(self),
    {
        match self {
            TextFileEncoding::Utf8 => "UTF-8",
            TextFileEncoding::Utf8Bom => "UTF-8 with BOM",
            TextFileEncoding::Utf16Le => "UTF-16 LE",
            TextFileEncoding::Utf16Be => "UTF-16 BE",
            TextFileEncoding::Legacy(e) => encoding_name(e),
        }
    }

    /// The bytes that `text` is written as in this encoding.
    pub fn encode(self, text: &str) -> (r: Vec<u8>)
        requires
            self is Legacy ==> text.spec_bytes().len() <= usize::MAX / 16,
        ensures
            r@ == encoded_bytes(self, text@),
    {
        match self {
            TextFileEncoding::Utf8 => slice_to_vec(text.as_bytes()),
            TextFileEncoding::Utf8Bom => {
                let mut bytes: Vec<u8> = Vec::new();
                bytes.push(0xEF);
                bytes.push(0xBB);
                bytes.push(0xBF);
                let mut rest = slice_to_vec(text.as_bytes());
                bytes.append(&mut rest);
                bytes
            },
            TextFileEncoding::Utf16Le => utf16_bytes(text, [0xFF, 0xFE], false),
            TextFileEncoding::Utf16Be => utf16_bytes(text, [0xFE, 0xFF], true),
            TextFileEncoding::Legacy(e) => encode_with(e, text),
        }
    }
}

/// The text of a file together with the encoding it was read in.
pub struct DecodedTextFile {
    pub text: String,
    pub encoding: TextFileEncoding,
}

/// `b` starts with `p`.
pub open spec fn has_prefix(b: Seq<u8>, p: Seq<u8>) -> bool {
    p.len() <= b.len() && b.take(p.len() as int) == p
}

/// `b` starts with none of the byte-order marks.
pub open spec fn no_bom(b: Seq<u8>) -> bool {
    !has_prefix(b, utf8_bom()) && !has_prefix(b, utf16le_bom()) && !has_prefix(b, utf16be_bom())
}

/// The encoding recorded for a guessed encoding `e`: UTF-16 by its own variant, any other by
/// itself.
pub open spec fn guessed_kind(e: &'static Encoding) -> TextFileEncoding {
    if encoding_name_of(*e) == "UTF-16LE"@ {
        TextFileEncoding::Utf16Le
    } else if encoding_name_of(*e) == "UTF-16BE"@ {
        TextFileEncoding::Utf16Be
    } else {
        TextFileEncoding::Legacy(e)
    }
}

/// Reading `bytes` gives `text` in encoding `k`: by a byte-order mark, as UTF-8, or, when neither
/// applies, in the encoding that the detector guesses from all the bytes (UTF-8 allowed, no
/// top-level domain).
pub open spec fn decodes_as(bytes: Seq<u8>, k: TextFileEncoding, text: Seq<char>) -> bool {
    if has_prefix(bytes, utf8_bom()) {
        &&& k == TextFileEncoding::Utf8Bom
        &&& text == utf8_lossy(bytes.skip(3))
        &&& valid_utf8(bytes.skip(3)) ==> text == decode_utf8(bytes.skip(3))
    } else if has_prefix(bytes, utf16le_bom()) {
        k == TextFileEncoding::Utf16Le && text == decoded_text("UTF-16LE"@, bytes.skip(2))
    } else if has_prefix(bytes, utf16be_bom()) {
        k == TextFileEncoding::Utf16Be && text == decoded_text("UTF-16BE"@, bytes.skip(2))
    } else if valid_utf8(bytes) {
        k == TextFileEncoding::Utf8 && text == decode_utf8(bytes)
    } else {
        let g = guessed_name(bytes, true, None, true);
        &&& text == decoded_text(g, bytes)
        &&& exists|e: &'static Encoding| encoding_name_of(*e) == g && k == guessed_kind(e)
    }
}

/// Decodes `bytes` in the encoding `guessed` and records that encoding.
pub fn decode_as_guessed(bytes: &[u8], guessed: &'static Encoding) -> (r: DecodedTextFile)
    requires
        bytes@.len() <= usize::MAX / 16,
    ensures
        r.encoding == guessed_kind(guessed),
        r.text@ == decoded_text(encoding_name_of(*guessed), bytes@),
{
    let name = encoding_name(guessed);
    let encoding = if str_eq(name, "UTF-16LE") {
        TextFileEncoding::Utf16Le
    } else if str_eq(name, "UTF-16BE") {
        TextFileEncoding::Utf16Be
    } else {
        TextFileEncoding::Legacy(guessed)
    };
    DecodedTextFile { text: decode_with(guessed, bytes), encoding }
}

/// Decodes the contents of a text file: a byte-order mark decides first, then valid UTF-8 is
/// taken as such, and otherwise the encoding is guessed from the bytes.
pub fn decode_text_bytes(bytes: &[u8]) -> (r: DecodedTextFile)
    requires
        bytes@.len() <= usize::MAX / 16,
    ensures
        decodes_as(bytes@, r.encoding, r.text@),
{
    let n = bytes.len();
    if n >= 3 && bytes[0] == 0xEF && bytes[1] == 0xBB && bytes[2] == 0xBF {
        proof {
            assert(bytes@.take(3) == utf8_bom());
        }
        let text = utf8_lossy_string(slice_subrange(bytes, 3, n));
        return DecodedTextFile { text, encoding: TextFileEncoding::Utf8Bom };
    }
    proof {
        if has_prefix(bytes@, utf8_bom()) {
            assert(bytes@.take(3)[0] == 0xEF && bytes@.take(3)[1] == 0xBB && bytes@.take(3)[2] == 0xBF);
        }
    }
    if n >= 2 && bytes[0] == 0xFF && bytes[1] == 0xFE {
        proof {
            assert(bytes@.take(2) == utf16le_bom());
        }
        let text = decode_with(utf_16le(), slice_subrange(bytes, 2, n));
        return DecodedTextFile { text, encoding: TextFileEncoding::Utf16Le };
    }
    proof {
        if has_prefix(bytes@, utf16le_bom()) {
            assert(bytes@.take(2)[0] == 0xFF && bytes@.take(2)[1] == 0xFE);
        }
    }
    if n >= 2 && bytes[0] == 0xFE && bytes[1] == 0xFF {
        proof {
            assert(bytes@.take(2) == utf16be_bom());
        }
        let text = decode_with(utf_16be(), slice_subrange(bytes, 2, n));
        return DecodedTextFile { text, encoding: TextFileEncoding::Utf16Be };
    }
    proof {
        if has_prefix(bytes@, utf16be_bom()) {
            assert(bytes@.take(2)[0] == 0xFE && bytes@.take(2)[1] == 0xFF);
        }
    }
    if let Some(s) = utf8_str(bytes) {
        return DecodedTextFile { text: s.to_owned(), encoding: TextFileEncoding::Utf8 };
    }
    let mut detector = new_detector();
    feed_detector(&mut detector, bytes, true);
    proof {
        assert(Seq::<u8>::empty() + bytes@ == bytes@);
    }
    let guessed = guess_encoding(&detector, None, true);
    let r = decode_as_guessed(bytes, guessed);
    proof {
        assert(encoding_name_of(*guessed) == guessed_name(bytes@, true, None, true));
        assert(r.encoding == guessed_kind(guessed));
    }
    r
}

/// Text written in UTF-8 with a byte-order mark reads back as the same text, in the same
/// encoding.
pub proof fn law_utf8_bom_round_trip(text: Seq<char>, k: TextFileEncoding, read: Seq<char>)
    requires
        decodes_as(encoded_bytes(TextFileEncoding::Utf8Bom, text), k, read),
    ensures
        k == TextFileEncoding::Utf8Bom,
        read == text,
{
    let b = utf8_bom() + encode_utf8(text);
    assert(b.take(3) == utf8_bom());
    assert(b.skip(3) == encode_utf8(text));
    encode_utf8_valid_utf8(text);
    encode_utf8_decode_utf8(text);
}

/// Text written in UTF-8 reads back as the same text, in UTF-8, unless its bytes start with a
/// byte-order mark.
pub proof fn law_utf8_round_trip(text: Seq<char>, k: TextFileEncoding, read: Seq<char>)
    requires
        no_bom(encode_utf8(text)),
        decodes_as(encoded_bytes(TextFileEncoding::Utf8, text), k, read),
    ensures
        k == TextFileEncoding::Utf8,
        read == text,
{
    encode_utf8_valid_utf8(text);
    encode_utf8_decode_utf8(text);
}

} // verus!
