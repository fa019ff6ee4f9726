use std::sync::Arc;
use vstd::prelude::*;
use vstd::string::StringSliceAdditionalSpecFns;
use vstd::utf8::{decode_utf8, encode_utf8_decode_utf8, valid_utf8};

use crate::line_data::{newline_count, parse_lines, splits_text, LineData};

verus! {

/// The data of one input file: its name, its text and its lines.
#[derive(Debug, Clone)]
pub struct SourceData {
    pub path: String,
    pub content: Arc<String>,
    pub lines: Vec<LineData>,
    pub encoding: &'static str,
}

/// The text that `String::from_utf8_lossy` makes of a byte sequence.
pub uninterp spec fn lossy_utf8(bytes: Seq<u8>) -> Seq<char>;

/// The text that `encoding_rs::UTF_16LE.decode` makes of a byte sequence.
pub uninterp spec fn utf16le_decoded(bytes: Seq<u8>) -> Seq<char>;

/// The text that `encoding_rs::UTF_16BE.decode` makes of a byte sequence.
pub uninterp spec fn utf16be_decoded(bytes: Seq<u8>) -> Seq<char>;

/// The text that `encoding_rs::WINDOWS_1252.decode` makes of a byte sequence.
pub uninterp spec fn windows1252_decoded(bytes: Seq<u8>) -> Seq<char>;

/// Calls `std::str::from_utf8`: the bytes as a string when they are valid
/// UTF-8, else nothing.
#[verifier::external_body]
fn utf8_str(bytes: &[u8]) -> (r: Option<&str>)
    ensures
        r is Some <==> valid_utf8(bytes@),
        r matches Some(s) ==> s.spec_bytes() == bytes@,
{
    std::str::from_utf8(bytes).ok()
}

/// Calls `String::from_utf8_lossy`, which replaces each invalid sequence by
/// U+FFFD; on valid UTF-8 the result is the decoded text.
#[verifier::external_body]
pub(crate) fn utf8_lossy(bytes: &[u8]) -> (r: String)
    ensures
        r@ == lossy_utf8(bytes@),
        valid_utf8(bytes@) ==> r@ == decode_utf8(bytes@),
{
    String::from_utf8_lossy(bytes).into_owned()
}

/// The `i`-th 16-bit code unit after a two-byte mark, little-endian.
pub open spec fn le_unit(raw: Seq<u8>, i: int) -> int {
    raw[2 + 2 * i] + 256 * raw[3 + 2 * i]
}

/// The `i`-th 16-bit code unit after a two-byte mark, big-endian.
pub open spec fn be_unit(raw: Seq<u8>, i: int) -> int {
    256 * raw[2 + 2 * i] + raw[3 + 2 * i]
}

/// The `i`-th 16-bit code unit after a two-byte mark, in the given order.
pub open spec fn unit(raw: Seq<u8>, i: int, big_endian: bool) -> int {
    if big_endian {
        be_unit(raw, i)
    } else {
        le_unit(raw, i)
    }
}

/// After a two-byte mark the bytes are whole 16-bit units, none of them a
/// surrogate, and the text has one character per unit, of that unit's
/// number.
pub open spec fn plain_units(raw: Seq<u8>, text: Seq<char>, big_endian: bool) -> bool {
    let n = (raw.len() - 2) / 2;
    (raw.len() >= 2 && raw.len() % 2 == 0 && forall|i: int|
        0 <= i < n ==> !(0xD800 <= #[trigger] unit(raw, i, big_endian) < 0xE000)) ==> text.len() == n
        && forall|i: int| 0 <= i < n ==> (#[trigger] text[i]) as int == unit(raw, i, big_endian)
}

/// Calls `encoding_rs::UTF_16LE.decode` (which sniffs a byte order mark).
/// The result is taken to be a function of the bytes. With the mark FF FE
/// and whole code units none of which is a surrogate, each unit gives the
/// character of its number; what surrogates and a trailing odd byte give is
/// not stated.
#[verifier::external_body]
fn decode_utf16le(raw: &[u8]) -> (r: String)
    requires
        raw@.len() <= usize::MAX / 8,
    ensures
        r@ == utf16le_decoded(raw@),
        has_prefix(raw@, seq![0xFFu8, 0xFEu8]) ==> plain_units(raw@, r@, false),
{
    let (text, _, _) = encoding_rs::UTF_16LE.decode(raw);
    text.into_owned()
}

/// Calls `encoding_rs::UTF_16BE.decode` (which sniffs a byte order mark).
/// The result is taken to be a function of the bytes. With the mark FE FF
/// and whole code units none of which is a surrogate, each unit gives the
/// character of its number; what surrogates and a trailing odd byte give is
/// not stated.
#[verifier::external_body]
fn decode_utf16be(raw: &[u8]) -> (r: String)
    requires
        raw@.len() <= usize::MAX / 8,
    ensures
        r@ == utf16be_decoded(raw@),
        has_prefix(raw@, seq![0xFEu8, 0xFFu8]) ==> plain_units(raw@, r@, true),
{
    let (text, _, _) = encoding_rs::UTF_16BE.decode(raw);
    text.into_owned()
}

/// The code point of a Windows-1252 byte: the byte's own number below 0x80
/// and from 0xA0 up, and the WHATWG table entry for 0x80 to 0x9F.
pub open spec fn windows1252_char(b: u8) -> u32 {
    match b {
        0x80u8 => 0x20AC,
        0x81u8 => 0x0081,
        0x82u8 => 0x201A,
        0x83u8 => 0x0192,
        0x84u8 => 0x201E,
        0x85u8 => 0x2026,
        0x86u8 => 0x2020,
        0x87u8 => 0x2021,
        0x88u8 => 0x02C6,
        0x89u8 => 0x2030,
        0x8Au8 => 0x0160,
        0x8Bu8 => 0x2039,
        0x8Cu8 => 0x0152,
        0x8Du8 => 0x008D,
        0x8Eu8 => 0x017D,
        0x8Fu8 => 0x008F,
        0x90u8 => 0x0090,
        0x91u8 => 0x2018,
        0x92u8 => 0x2019,
        0x93u8 => 0x201C,
        0x94u8 => 0x201D,
        0x95u8 => 0x2022,
        0x96u8 => 0x2013,
        0x97u8 => 0x2014,
        0x98u8 => 0x02DC,
        0x99u8 => 0x2122,
        0x9Au8 => 0x0161,
        0x9Bu8 => 0x203A,
        0x9Cu8 => 0x0153,
        0x9Du8 => 0x009D,
        0x9Eu8 => 0x017E,
        0x9Fu8 => 0x0178,
        _ => b as u32,
    }
}

/// Calls `encoding_rs::WINDOWS_1252.decode` (which sniffs a byte order
/// mark). The result is taken to be a function of the bytes. Without a byte
/// order mark every byte gives one character, the one that the Windows-1252
/// table (`windows1252_char`) assigns to it.
#[verifier::external_body]
fn decode_windows1252(raw: &[u8]) -> (r: String)
    requires
        raw@.len() <= usize::MAX / 8,
    ensures
        r@ == windows1252_decoded(raw@),
        !starts_with_bom(raw@) ==> r@.len() == raw@.len() && forall|i: int|
            0 <= i < raw@.len() ==> (#[trigger] r@[i]) as u32 == windows1252_char(raw@[i]),
{
    let (text, _, _) = encoding_rs::WINDOWS_1252.decode(raw);
    text.into_owned()
}

/// The bytes begin with the given prefix.
pub open spec fn has_prefix(bytes: Seq<u8>, prefix: Seq<u8>) -> bool {
    prefix.len() <= bytes.len() && bytes.take(prefix.len() as int) == prefix
}

/// The bytes begin with a UTF-8, UTF-16LE or UTF-16BE byte order mark.
pub open spec fn starts_with_bom(raw: Seq<u8>) -> bool {
    has_prefix(raw, seq![0xEFu8, 0xBBu8, 0xBFu8]) || has_prefix(raw, seq![0xFFu8, 0xFEu8])
        || has_prefix(raw, seq![0xFEu8, 0xFFu8])
}

/// The encoding that the bytes are read in, and the text they give: a UTF-8
/// byte order mark selects UTF-8 (lossy) on the bytes after it, a UTF-16
/// mark the UTF-16 decoder of that byte order; without a mark, valid UTF-8
/// is UTF-8, anything else is read as Windows-1252.
pub open spec fn decoded(raw: Seq<u8>) -> (Seq<char>, Seq<char>) {
    if has_prefix(raw, seq![0xEFu8, 0xBBu8, 0xBFu8]) {
        ("UTF-8"@, lossy_utf8(raw.skip(3)))
    } else if has_prefix(raw, seq![0xFFu8, 0xFEu8]) {
        ("UTF-16LE"@, utf16le_decoded(raw))
    } else if has_prefix(raw, seq![0xFEu8, 0xFFu8]) {
        ("UTF-16BE"@, utf16be_decoded(raw))
    } else if valid_utf8(raw) {
        ("UTF-8"@, decode_utf8(raw))
    } else {
        ("Windows-1252"@, windows1252_decoded(raw))
    }
}

/// Detects the encoding of a file's bytes by its byte order mark, else by
/// UTF-8 validity, and decodes them.
pub fn detect_and_decode(raw: &[u8]) -> (r: (&'static str, String))
    requires
        raw@.len() <= usize::MAX / 8,
    ensures
        r.0@ == decoded(raw@).0,
        r.1@ == decoded(raw@).1,
        has_prefix(raw@, seq![0xEFu8, 0xBBu8, 0xBFu8]) && valid_utf8(raw@.skip(3)) ==> r.1@
            == decode_utf8(raw@.skip(3)),
        has_prefix(raw@, seq![0xFFu8, 0xFEu8]) ==> plain_units(raw@, r.1@, false),
        has_prefix(raw@, seq![0xFEu8, 0xFFu8]) ==> plain_units(raw@, r.1@, true),
        !starts_with_bom(raw@) && !valid_utf8(raw@) ==> r.1@.len() == raw@.len() && forall|i: int|
            0 <= i < raw@.len() ==> (#[trigger] r.1@[i]) as u32 == windows1252_char(raw@[i]),
{
    let n = raw.len();
    if n >= 3 && raw[0] == 0xEF && raw[1] == 0xBB && raw[2] == 0xBF {
        proof {
            assert(raw@.take(3) =~= seq![0xEFu8, 0xBBu8, 0xBFu8]);
        }
        let (_, rest) = raw.split_at(3);
        proof {
            assert(rest@ =~= raw@.skip(3));
        }
        return ("UTF-8", utf8_lossy(rest));
    }
    proof {
        if n >= 3 {
            assert(raw@.take(3)[0] == raw@[0]);
            assert(raw@.take(3)[1] == raw@[1]);
            assert(raw@.take(3)[2] == raw@[2]);
        }
    }
    if n >= 2 && raw[0] == 0xFF && raw[1] == 0xFE {
        proof {
            assert(raw@.take(2) =~= seq![0xFFu8, 0xFEu8]);
        }
        return ("UTF-16LE", decode_utf16le(raw));
    }
    proof {
        if n >= 2 {
            assert(raw@.take(2)[0] == raw@[0]);
            assert(raw@.take(2)[1] == raw@[1]);
        }
    }
    if n >= 2 && raw[0] == 0xFE && raw[1] == 0xFF {
        proof {
            assert(raw@.take(2) =~= seq![0xFEu8, 0xFFu8]);
        }
        return ("UTF-16BE", decode_utf16be(raw));
    }
    if let Some(s) = utf8_str(raw) {
        proof {
            encode_utf8_decode_utf8(s@);
        }
        return ("UTF-8", s.to_owned());
    }
    ("Windows-1252", decode_windows1252(raw))
}

impl SourceData {
    /// A source made from text in memory, named `label`.
    pub fn from_str(label: &str, text: &str) -> (r: Self)
        ensures
            r.path@ == label@,
            r.content@ == text@,
            splits_text(r.lines@, text@),
            r.lines@.len() == newline_count(text@) + 1,
            r.encoding@ == "UTF-8"@,
    {
        let content = Arc::new(text.to_owned());
        let lines = parse_lines(Arc::clone(&content));
        Self { path: label.to_owned(), content, lines, encoding: "UTF-8" }
    }

    /// A source made from a file's raw bytes: decoded after its encoding,
    /// then split into lines.
    pub fn from_raw(label: &str, raw: &[u8]) -> (r: Self)
        requires
            raw@.len() <= usize::MAX / 8,
        ensures
            r.path@ == label@,
            r.encoding@ == decoded(raw@).0,
            r.content@ == decoded(raw@).1,
            splits_text(r.lines@, r.content@),
            r.lines@.len() == newline_count(r.content@) + 1,
    {
        let (encoding, text) = detect_and_decode(raw);
        let content = Arc::new(text);
        let lines = parse_lines(Arc::clone(&content));
        Self { path: label.to_owned(), content, lines, encoding }
    }

    pub fn line_count(&self) -> (r: usize)
        ensures
            r == self.lines@.len(),
    {
        self.lines.len()
    }
}

} // verus!
