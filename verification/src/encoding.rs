//! Text decoding for the localization `.txt` payloads a `loc_ref` points at.
//!
//! The classic trees store display strings as UTF-16LE with a byte-order mark,
//! but a handful of hand-edited files are plain bytes. The ladder below only
//! ever falls back to Windows-1251 after UTF-8 has been ruled out, and the
//! chosen rung is reported so a surprising decode is visible.

use vstd::prelude::*;
use vstd::utf8::{valid_utf8, decode_utf8, char_u32_cast};
use crate::text::push_char;

verus! {

/// How a byte payload was decoded, recorded so a surprising decode is auditable.
#[derive(Debug, Clone, Copy, PartialEq, Eq)]
pub enum Encoding {
    Utf16Le,
    Utf16Be,
    Utf8Bom,
    Utf8,
    Windows1251,
}

pub open spec fn encoding_label(e: Encoding) -> Seq<char> {
    match e {
        Encoding::Utf16Le => "utf-16le"@,
        Encoding::Utf16Be => "utf-16be"@,
        Encoding::Utf8Bom => "utf-8-bom"@,
        Encoding::Utf8 => "utf-8"@,
        Encoding::Windows1251 => "windows-1251"@,
    }
}

impl Encoding {
    pub fn label(self) -> (r: &'static str)
        ensures
            r@ == encoding_label(self),
    {
        match self {
            Encoding::Utf16Le => "utf-16le",
            Encoding::Utf16Be => "utf-16be",
            Encoding::Utf8Bom => "utf-8-bom",
            Encoding::Utf8 => "utf-8",
            Encoding::Windows1251 => "windows-1251",
        }
    }
}

// ----- UTF-16 ---------------------------------------------------------------

/// The 16-bit units of a UTF-16 payload; a trailing odd byte is dropped.
pub open spec fn utf16_units(b: Seq<u8>, big_endian: bool) -> Seq<u16> {
    Seq::new(b.len() / 2, |i: int| if big_endian {
        (b[2 * i] as int * 256 + b[2 * i + 1] as int) as u16
    } else {
        (b[2 * i] as int + 256 * b[2 * i + 1] as int) as u16
    })
}

pub open spec fn is_high_surrogate(u: u16) -> bool {
    0xD800 <= u && u <= 0xDBFF
}

pub open spec fn is_low_surrogate(u: u16) -> bool {
    0xDC00 <= u && u <= 0xDFFF
}

/// `String::from_utf16_lossy`: surrogate pairs combine, any unpaired
/// surrogate becomes U+FFFD.
pub open spec fn utf16_lossy(u: Seq<u16>) -> Seq<char>
    decreases u.len(),
{
    if u.len() == 0 {
        Seq::<char>::empty()
    } else if is_high_surrogate(u[0]) && u.len() >= 2 && is_low_surrogate(u[1]) {
        seq![((0x10000 + (u[0] - 0xD800) * 1024 + (u[1] - 0xDC00)) as u32) as char] + utf16_lossy(u.skip(2))
    } else if 0xD800 <= u[0] && u[0] <= 0xDFFF {
        seq!['\u{FFFD}'] + utf16_lossy(u.skip(1))
    } else {
        seq![(u[0] as u32) as char] + utf16_lossy(u.skip(1))
    }
}

/// `char::from_u32`: `Some` exactly for a Unicode scalar value, holding the
/// character with that code.
#[verifier::external_body]
fn char_from_u32(v: u32) -> (r: Option<char>)
    ensures
        r is Some <==> (v < 0xD800 || (0xE000 <= v && v <= 0x10FFFF)),
        r matches Some(c) ==> c as u32 == v,
{
    char::from_u32(v)
}

fn scalar_char(v: u32) -> (c: char)
    requires
        v < 0xD800 || (0xE000 <= v && v <= 0x10FFFF),
    ensures
        c == v as char,
{
    match char_from_u32(v) {
        Some(c) => {
            proof { char_u32_cast(c, v); }
            c
        },
        None => '\u{FFFD}',
    }
}

fn unit_at(b: &[u8], i: usize, big_endian: bool) -> (u: u16)
    requires
        2 * i + 1 < b@.len(),
    ensures
        u == utf16_units(b@, big_endian)[i as int],
{
    let n = b.len();
    assert(2 * i + 1 < n);
    let first = b[2 * i] as u16;
    let second = b[2 * i + 1] as u16;
    if big_endian {
        first * 256 + second
    } else {
        first + 256 * second
    }
}

fn decode_utf16(b: &[u8], big_endian: bool) -> (out: String)
    ensures
        out@ == utf16_lossy(utf16_units(b@, big_endian)),
{
    let ghost units = utf16_units(b@, big_endian);
    let count = b.len() / 2;
    let mut out = String::new();
    let mut i: usize = 0;
    assert(units.skip(0) =~= units);
    while i < count
        invariant
            count == units.len(),
            count == b@.len() / 2,
            units == utf16_units(b@, big_endian),
            i <= count,
            out@ + utf16_lossy(units.skip(i as int)) == utf16_lossy(units),
        decreases count - i,
    {
        let u = unit_at(b, i, big_endian);
        let ghost rest = units.skip(i as int);
        assert(rest[0] == u);
        if 0xD800 <= u && u <= 0xDBFF && i + 1 < count {
            let next = unit_at(b, i + 1, big_endian);
            assert(rest[1] == next);
            if 0xDC00 <= next && next <= 0xDFFF {
                let code: u32 = 0x10000 + ((u - 0xD800) as u32) * 1024 + ((next - 0xDC00) as u32);
                push_char(&mut out, scalar_char(code));
                assert(rest.skip(2) =~= units.skip(i + 2));
                i = i + 2;
                continue;
            }
        }
        if 0xD800 <= u && u <= 0xDFFF {
            push_char(&mut out, '\u{FFFD}');
        } else {
            push_char(&mut out, scalar_char(u as u32));
        }
        assert(rest.skip(1) =~= units.skip(i + 1));
        i = i + 1;
    }
    assert(units.skip(count as int) =~= Seq::<u16>::empty());
    out
}

// ----- UTF-8 ----------------------------------------------------------------

/// What `String::from_utf8_lossy` makes of `bytes`.
pub uninterp spec fn utf8_lossy(bytes: Seq<u8>) -> Seq<char>;

/// `String::from_utf8_lossy`: the decoded text, with each invalid sequence
/// replaced by U+FFFD. Valid input decodes exactly; for invalid input the
/// replacement pattern is named, not stated.
#[verifier::external_body]
fn from_utf8_lossy(bytes: &[u8]) -> (out: String)
    ensures
        out@ == utf8_lossy(bytes@),
        valid_utf8(bytes@) ==> out@ == decode_utf8(bytes@),
{
    String::from_utf8_lossy(bytes).into_owned()
}

/// `std::str::from_utf8`: the text when `bytes` is valid UTF-8.
#[verifier::external_body]
pub(crate) fn from_utf8(bytes: &[u8]) -> (out: Option<String>)
    ensures
        out is Some <==> valid_utf8(bytes@),
        out matches Some(s) ==> s@ == decode_utf8(bytes@),
{
    std::str::from_utf8(bytes).ok().map(|text| text.to_owned())
}

// ----- Windows-1251 ---------------------------------------------------------

/// The code point Windows-1251 assigns to a byte.
pub open spec fn cp1251(b: u8) -> u32 {
    if b < 0x80 {
        b as u32
    } else if b >= 0xC0 {
        (0x0410 + (b - 0xC0)) as u32
    } else {
        cp1251_high(b)
    }
}

/// Windows-1251 code points for `0x80..=0xBF`.
pub open spec fn cp1251_high(b: u8) -> u32 {
    let table = seq![
        0x0402u32, 0x0403, 0x201A, 0x0453, 0x201E, 0x2026, 0x2020, 0x2021,
        0x20AC, 0x2030, 0x0409, 0x2039, 0x040A, 0x040C, 0x040B, 0x040F,
        0x0452, 0x2018, 0x2019, 0x201C, 0x201D, 0x2022, 0x2013, 0x2014,
        0xFFFD, 0x2122, 0x0459, 0x203A, 0x045A, 0x045C, 0x045B, 0x045F,
        0x00A0, 0x040E, 0x045E, 0x0408, 0x00A4, 0x0490, 0x00A6, 0x00A7,
        0x0401, 0x00A9, 0x0404, 0x00AB, 0x00AC, 0x00AD, 0x00AE, 0x0407,
        0x00B0, 0x00B1, 0x0406, 0x0456, 0x0491, 0x00B5, 0x00B6, 0x00B7,
        0x0451, 0x2116, 0x0454, 0x00BB, 0x0458, 0x0405, 0x0455, 0x0457,
    ];
    table[b - 0x80]
}

pub open spec fn windows_1251(b: Seq<u8>) -> Seq<char> {
    b.map_values(|x: u8| cp1251(x) as char)
}

/// Windows-1251 as the code page publishes it: ASCII maps to itself,
/// `0xC0..=0xFF` to the Cyrillic block `U+0410..=U+044F` in order, and
/// each of `0x80..=0xBF` to its own code point (`0x98`, which the code page
/// leaves unassigned, to U+FFFD).
pub proof fn lemma_cp1251_code_page()
    ensures
        forall|b: u8| b < 0x80 ==> #[trigger] cp1251(b) == b as u32,
        forall|b: u8| b >= 0xC0 ==> #[trigger] cp1251(b) == 0x0410 + (b - 0xC0),
        cp1251(0x80u8) == 0x0402u32,
        cp1251(0x81u8) == 0x0403u32,
        cp1251(0x82u8) == 0x201Au32,
        cp1251(0x83u8) == 0x0453u32,
        cp1251(0x84u8) == 0x201Eu32,
        cp1251(0x85u8) == 0x2026u32,
        cp1251(0x86u8) == 0x2020u32,
        cp1251(0x87u8) == 0x2021u32,
        cp1251(0x88u8) == 0x20ACu32,
        cp1251(0x89u8) == 0x2030u32,
        cp1251(0x8Au8) == 0x0409u32,
        cp1251(0x8Bu8) == 0x2039u32,
        cp1251(0x8Cu8) == 0x040Au32,
        cp1251(0x8Du8) == 0x040Cu32,
        cp1251(0x8Eu8) == 0x040Bu32,
        cp1251(0x8Fu8) == 0x040Fu32,
        cp1251(0x90u8) == 0x0452u32,
        cp1251(0x91u8) == 0x2018u32,
        cp1251(0x92u8) == 0x2019u32,
        cp1251(0x93u8) == 0x201Cu32,
        cp1251(0x94u8) == 0x201Du32,
        cp1251(0x95u8) == 0x2022u32,
        cp1251(0x96u8) == 0x2013u32,
        cp1251(0x97u8) == 0x2014u32,
        cp1251(0x98u8) == 0xFFFDu32,
        cp1251(0x99u8) == 0x2122u32,
        cp1251(0x9Au8) == 0x0459u32,
        cp1251(0x9Bu8) == 0x203Au32,
        cp1251(0x9Cu8) == 0x045Au32,
        cp1251(0x9Du8) == 0x045Cu32,
        cp1251(0x9Eu8) == 0x045Bu32,
        cp1251(0x9Fu8) == 0x045Fu32,
        cp1251(0xA0u8) == 0x00A0u32,
        cp1251(0xA1u8) == 0x040Eu32,
        cp1251(0xA2u8) == 0x045Eu32,
        cp1251(0xA3u8) == 0x0408u32,
        cp1251(0xA4u8) == 0x00A4u32,
        cp1251(0xA5u8) == 0x0490u32,
        cp1251(0xA6u8) == 0x00A6u32,
        cp1251(0xA7u8) == 0x00A7u32,
        cp1251(0xA8u8) == 0x0401u32,
        cp1251(0xA9u8) == 0x00A9u32,
        cp1251(0xAAu8) == 0x0404u32,
        cp1251(0xABu8) == 0x00ABu32,
        cp1251(0xACu8) == 0x00ACu32,
        cp1251(0xADu8) == 0x00ADu32,
        cp1251(0xAEu8) == 0x00AEu32,
        cp1251(0xAFu8) == 0x0407u32,
        cp1251(0xB0u8) == 0x00B0u32,
        cp1251(0xB1u8) == 0x00B1u32,
        cp1251(0xB2u8) == 0x0406u32,
        cp1251(0xB3u8) == 0x0456u32,
        cp1251(0xB4u8) == 0x0491u32,
        cp1251(0xB5u8) == 0x00B5u32,
        cp1251(0xB6u8) == 0x00B6u32,
        cp1251(0xB7u8) == 0x00B7u32,
        cp1251(0xB8u8) == 0x0451u32,
        cp1251(0xB9u8) == 0x2116u32,
        cp1251(0xBAu8) == 0x0454u32,
        cp1251(0xBBu8) == 0x00BBu32,
        cp1251(0xBCu8) == 0x0458u32,
        cp1251(0xBDu8) == 0x0405u32,
        cp1251(0xBEu8) == 0x0455u32,
        cp1251(0xBFu8) == 0x0457u32,
{
    assert(cp1251(0x80u8) == 0x0402u32);
    assert(cp1251(0x81u8) == 0x0403u32);
    assert(cp1251(0x82u8) == 0x201Au32);
    assert(cp1251(0x83u8) == 0x0453u32);
    assert(cp1251(0x84u8) == 0x201Eu32);
    assert(cp1251(0x85u8) == 0x2026u32);
    assert(cp1251(0x86u8) == 0x2020u32);
    assert(cp1251(0x87u8) == 0x2021u32);
    assert(cp1251(0x88u8) == 0x20ACu32);
    assert(cp1251(0x89u8) == 0x2030u32);
    assert(cp1251(0x8Au8) == 0x0409u32);
    assert(cp1251(0x8Bu8) == 0x2039u32);
    assert(cp1251(0x8Cu8) == 0x040Au32);
    assert(cp1251(0x8Du8) == 0x040Cu32);
    assert(cp1251(0x8Eu8) == 0x040Bu32);
    assert(cp1251(0x8Fu8) == 0x040Fu32);
    assert(cp1251(0x90u8) == 0x0452u32);
    assert(cp1251(0x91u8) == 0x2018u32);
    assert(cp1251(0x92u8) == 0x2019u32);
    assert(cp1251(0x93u8) == 0x201Cu32);
    assert(cp1251(0x94u8) == 0x201Du32);
    assert(cp1251(0x95u8) == 0x2022u32);
    assert(cp1251(0x96u8) == 0x2013u32);
    assert(cp1251(0x97u8) == 0x2014u32);
    assert(cp1251(0x98u8) == 0xFFFDu32);
    assert(cp1251(0x99u8) == 0x2122u32);
    assert(cp1251(0x9Au8) == 0x0459u32);
    assert(cp1251(0x9Bu8) == 0x203Au32);
    assert(cp1251(0x9Cu8) == 0x045Au32);
    assert(cp1251(0x9Du8) == 0x045Cu32);
    assert(cp1251(0x9Eu8) == 0x045Bu32);
    assert(cp1251(0x9Fu8) == 0x045Fu32);
    assert(cp1251(0xA0u8) == 0x00A0u32);
    assert(cp1251(0xA1u8) == 0x040Eu32);
    assert(cp1251(0xA2u8) == 0x045Eu32);
    assert(cp1251(0xA3u8) == 0x0408u32);
    assert(cp1251(0xA4u8) == 0x00A4u32);
    assert(cp1251(0xA5u8) == 0x0490u32);
    assert(cp1251(0xA6u8) == 0x00A6u32);
    assert(cp1251(0xA7u8) == 0x00A7u32);
    assert(cp1251(0xA8u8) == 0x0401u32);
    assert(cp1251(0xA9u8) == 0x00A9u32);
    assert(cp1251(0xAAu8) == 0x0404u32);
    assert(cp1251(0xABu8) == 0x00ABu32);
    assert(cp1251(0xACu8) == 0x00ACu32);
    assert(cp1251(0xADu8) == 0x00ADu32);
    assert(cp1251(0xAEu8) == 0x00AEu32);
    assert(cp1251(0xAFu8) == 0x0407u32);
    assert(cp1251(0xB0u8) == 0x00B0u32);
    assert(cp1251(0xB1u8) == 0x00B1u32);
    assert(cp1251(0xB2u8) == 0x0406u32);
    assert(cp1251(0xB3u8) == 0x0456u32);
    assert(cp1251(0xB4u8) == 0x0491u32);
    assert(cp1251(0xB5u8) == 0x00B5u32);
    assert(cp1251(0xB6u8) == 0x00B6u32);
    assert(cp1251(0xB7u8) == 0x00B7u32);
    assert(cp1251(0xB8u8) == 0x0451u32);
    assert(cp1251(0xB9u8) == 0x2116u32);
    assert(cp1251(0xBAu8) == 0x0454u32);
    assert(cp1251(0xBBu8) == 0x00BBu32);
    assert(cp1251(0xBCu8) == 0x0458u32);
    assert(cp1251(0xBDu8) == 0x0405u32);
    assert(cp1251(0xBEu8) == 0x0455u32);
    assert(cp1251(0xBFu8) == 0x0457u32);
}

/// A payload with no byte order mark that is not UTF-8 decodes byte for byte
/// through Windows-1251: as many characters as bytes, each the code page's
/// character for its byte.
pub proof fn lemma_windows_1251_payload(b: Seq<u8>)
    requires
        chosen_encoding(b) == Encoding::Windows1251,
    ensures
        decoded_text(b).len() == b.len(),
        forall|i: int| 0 <= i < b.len() ==> #[trigger] decoded_text(b)[i] == (cp1251(b[i]) as char),
{
}

proof fn lemma_utf16_plain_units(u: Seq<u16>)
    requires
        forall|i: int| 0 <= i < u.len() ==> !(0xD800 <= #[trigger] u[i] && u[i] <= 0xDFFF),
    ensures
        utf16_lossy(u).len() == u.len(),
        forall|i: int| 0 <= i < u.len() ==> #[trigger] utf16_lossy(u)[i] == ((u[i] as u32) as char),
    decreases u.len(),
{
    if u.len() > 0 {
        let rest = u.skip(1);
        assert forall|i: int| 0 <= i < rest.len() implies !(0xD800 <= #[trigger] rest[i] && rest[i] <= 0xDFFF) by {
            assert(rest[i] == u[i + 1]);
        }
        lemma_utf16_plain_units(rest);
        assert(!(0xD800 <= u[0] && u[0] <= 0xDFFF));
        let out = utf16_lossy(u);
        assert(out == seq![(u[0] as u32) as char] + utf16_lossy(rest));
        assert forall|i: int| 0 <= i < u.len() implies #[trigger] out[i] == ((u[i] as u32) as char) by {
            if i > 0 {
                assert(out[i] == utf16_lossy(rest)[i - 1]);
                assert(rest[i - 1] == u[i]);
            }
        }
    }
}

/// A payload that opens with the little-endian byte-order mark and holds no
/// surrogate unit decodes as UTF-16LE: one character per byte pair after the
/// mark, low byte first.
pub proof fn lemma_utf16le_payload(b: Seq<u8>)
    requires
        b.len() >= 2,
        b[0] == 0xFF && b[1] == 0xFE,
        forall|i: int| 0 <= i < (b.len() - 2) / 2
            ==> !(0xD800 <= #[trigger] utf16_units(b.skip(2), false)[i] && utf16_units(b.skip(2), false)[i] <= 0xDFFF),
    ensures
        chosen_encoding(b) == Encoding::Utf16Le,
        decoded_text(b).len() == (b.len() - 2) / 2,
        forall|i: int| 0 <= i < (b.len() - 2) / 2 ==> #[trigger] decoded_text(b)[i]
            == ((b[2 + 2 * i] as int + 256 * b[3 + 2 * i] as int) as u32) as char,
{
    assert(b.subrange(0, 2) =~= seq![0xFFu8, 0xFEu8]);
    let u = utf16_units(b.skip(2), false);
    lemma_utf16_plain_units(u);
    assert forall|i: int| 0 <= i < (b.len() - 2) / 2 implies #[trigger] decoded_text(b)[i]
        == ((b[2 + 2 * i] as int + 256 * b[3 + 2 * i] as int) as u32) as char by {
        assert(b.skip(2)[2 * i] == b[2 + 2 * i]);
        assert(b.skip(2)[2 * i + 1] == b[3 + 2 * i]);
        assert(u[i] == (b[2 + 2 * i] as int + 256 * b[3 + 2 * i] as int) as u16);
        assert(b[2 + 2 * i] as int + 256 * b[3 + 2 * i] as int <= 0xFFFF);
    }
}

/// A payload that opens with the big-endian byte-order mark and holds no
/// surrogate unit decodes as UTF-16BE: one character per byte pair after the
/// mark, high byte first.
pub proof fn lemma_utf16be_payload(b: Seq<u8>)
    requires
        b.len() >= 2,
        b[0] == 0xFE && b[1] == 0xFF,
        forall|i: int| 0 <= i < (b.len() - 2) / 2
            ==> !(0xD800 <= #[trigger] utf16_units(b.skip(2), true)[i] && utf16_units(b.skip(2), true)[i] <= 0xDFFF),
    ensures
        chosen_encoding(b) == Encoding::Utf16Be,
        decoded_text(b).len() == (b.len() - 2) / 2,
        forall|i: int| 0 <= i < (b.len() - 2) / 2 ==> #[trigger] decoded_text(b)[i]
            == ((b[2 + 2 * i] as int * 256 + b[3 + 2 * i] as int) as u32) as char,
{
    assert(b.subrange(0, 2) =~= seq![0xFEu8, 0xFFu8]);
    assert(!starts(b, seq![0xFFu8, 0xFEu8])) by {
        if starts(b, seq![0xFFu8, 0xFEu8]) {
            assert(b[0] == b.subrange(0, 2)[0]);
        }
    }
    let u = utf16_units(b.skip(2), true);
    lemma_utf16_plain_units(u);
    assert forall|i: int| 0 <= i < (b.len() - 2) / 2 implies #[trigger] decoded_text(b)[i]
        == ((b[2 + 2 * i] as int * 256 + b[3 + 2 * i] as int) as u32) as char by {
        assert(b.skip(2)[2 * i] == b[2 + 2 * i]);
        assert(b.skip(2)[2 * i + 1] == b[3 + 2 * i]);
        assert(u[i] == (b[2 + 2 * i] as int * 256 + b[3 + 2 * i] as int) as u16);
        assert(b[2 + 2 * i] as int * 256 + b[3 + 2 * i] as int <= 0xFFFF);
    }
}

/// A payload with no byte-order mark that is valid UTF-8 decodes as UTF-8,
/// and Windows-1251 is chosen only for one that is not valid UTF-8.
pub proof fn lemma_utf8_before_windows_1251(b: Seq<u8>)
    ensures
        !starts(b, seq![0xFFu8, 0xFEu8]) && !starts(b, seq![0xFEu8, 0xFFu8])
            && !starts(b, seq![0xEFu8, 0xBBu8, 0xBFu8]) && valid_utf8(b)
            ==> chosen_encoding(b) == Encoding::Utf8 && decoded_text(b) == decode_utf8(b),
        chosen_encoding(b) == Encoding::Windows1251 ==> !valid_utf8(b),
{
}

fn cp1251_high_exec(b: u8) -> (r: u32)
    requires
        0x80 <= b < 0xC0,
    ensures
        r == cp1251_high(b),
        r < 0xD800 || (0xE000 <= r && r <= 0x10FFFF),
{
    let table: [u32; 64] = [
        0x0402, 0x0403, 0x201A, 0x0453, 0x201E, 0x2026, 0x2020, 0x2021,
        0x20AC, 0x2030, 0x0409, 0x2039, 0x040A, 0x040C, 0x040B, 0x040F,
        0x0452, 0x2018, 0x2019, 0x201C, 0x201D, 0x2022, 0x2013, 0x2014,
        0xFFFD, 0x2122, 0x0459, 0x203A, 0x045A, 0x045C, 0x045B, 0x045F,
        0x00A0, 0x040E, 0x045E, 0x0408, 0x00A4, 0x0490, 0x00A6, 0x00A7,
        0x0401, 0x00A9, 0x0404, 0x00AB, 0x00AC, 0x00AD, 0x00AE, 0x0407,
        0x00B0, 0x00B1, 0x0406, 0x0456, 0x0491, 0x00B5, 0x00B6, 0x00B7,
        0x0451, 0x2116, 0x0454, 0x00BB, 0x0458, 0x0405, 0x0455, 0x0457,
    ];
    let r = table[(b - 0x80) as usize];
    assert(table@ =~= seq![
        0x0402u32, 0x0403, 0x201A, 0x0453, 0x201E, 0x2026, 0x2020, 0x2021,
        0x20AC, 0x2030, 0x0409, 0x2039, 0x040A, 0x040C, 0x040B, 0x040F,
        0x0452, 0x2018, 0x2019, 0x201C, 0x201D, 0x2022, 0x2013, 0x2014,
        0xFFFD, 0x2122, 0x0459, 0x203A, 0x045A, 0x045C, 0x045B, 0x045F,
        0x00A0, 0x040E, 0x045E, 0x0408, 0x00A4, 0x0490, 0x00A6, 0x00A7,
        0x0401, 0x00A9, 0x0404, 0x00AB, 0x00AC, 0x00AD, 0x00AE, 0x0407,
        0x00B0, 0x00B1, 0x0406, 0x0456, 0x0491, 0x00B5, 0x00B6, 0x00B7,
        0x0451, 0x2116, 0x0454, 0x00BB, 0x0458, 0x0405, 0x0455, 0x0457,
    ]);
    r
}

fn decode_windows_1251(b: &[u8]) -> (out: String)
    ensures
        out@ == windows_1251(b@),
{
    let mut out = String::new();
    let mut i: usize = 0;
    while i < b.len()
        invariant
            i <= b@.len(),
            out@ == windows_1251(b@.subrange(0, i as int)),
        decreases b@.len() - i,
    {
        let x = b[i];
        let code: u32 = if x < 0x80 {
            x as u32
        } else if x >= 0xC0 {
            0x0410 + (x - 0xC0) as u32
        } else {
            cp1251_high_exec(x)
        };
        push_char(&mut out, scalar_char(code));
        assert(windows_1251(b@.subrange(0, i + 1)) =~= windows_1251(b@.subrange(0, i as int)).push(cp1251(x) as char));
        i = i + 1;
    }
    assert(b@.subrange(0, b@.len() as int) =~= b@);
    out
}

// ----- the ladder -----------------------------------------------------------

pub open spec fn starts(b: Seq<u8>, p: Seq<u8>) -> bool {
    p.len() <= b.len() && b.subrange(0, p.len() as int) == p
}

/// The encoding `decode` picks for a payload.
pub open spec fn chosen_encoding(b: Seq<u8>) -> Encoding {
    if starts(b, seq![0xFFu8, 0xFEu8]) {
        Encoding::Utf16Le
    } else if starts(b, seq![0xFEu8, 0xFFu8]) {
        Encoding::Utf16Be
    } else if starts(b, seq![0xEFu8, 0xBBu8, 0xBFu8]) {
        Encoding::Utf8Bom
    } else if valid_utf8(b) {
        Encoding::Utf8
    } else {
        Encoding::Windows1251
    }
}

/// The text `decode` produces for a payload.
pub open spec fn decoded_text(b: Seq<u8>) -> Seq<char> {
    match chosen_encoding(b) {
        Encoding::Utf16Le => utf16_lossy(utf16_units(b.skip(2), false)),
        Encoding::Utf16Be => utf16_lossy(utf16_units(b.skip(2), true)),
        Encoding::Utf8Bom => utf8_lossy(b.skip(3)),
        Encoding::Utf8 => decode_utf8(b),
        Encoding::Windows1251 => windows_1251(b),
    }
}

fn tail(b: &[u8], from: usize) -> (out: Vec<u8>)
    requires
        from <= b@.len(),
    ensures
        out@ == b@.skip(from as int),
{
    let mut out: Vec<u8> = Vec::new();
    let mut i = from;
    while i < b.len()
        invariant
            from <= i <= b@.len(),
            out@ == b@.subrange(from as int, i as int),
        decreases b@.len() - i,
    {
        out.push(b[i]);
        assert(b@.subrange(from as int, i + 1) =~= b@.subrange(from as int, i as int).push(b@[i as int]));
        i = i + 1;
    }
    out
}

/// Decodes one localization payload, returning the text and the rung that
/// decoded it.
pub fn decode(bytes: &[u8]) -> (r: (String, Encoding))
    ensures
        r.1 == chosen_encoding(bytes@),
        r.0@ == decoded_text(bytes@),
        r.1 == Encoding::Utf8Bom && valid_utf8(bytes@.skip(3)) ==> r.0@ == decode_utf8(bytes@.skip(3)),
{
    let n = bytes.len();
    let ghost b = bytes@;
    if n >= 2 && bytes[0] == 0xFF && bytes[1] == 0xFE {
        assert(b.subrange(0, 2) =~= seq![0xFFu8, 0xFEu8]);
        let rest = tail(bytes, 2);
        return (decode_utf16(rest.as_slice(), false), Encoding::Utf16Le);
    }
    assert(!starts(b, seq![0xFFu8, 0xFEu8])) by {
        if starts(b, seq![0xFFu8, 0xFEu8]) {
            assert(b[0] == b.subrange(0, 2)[0]);
            assert(b[1] == b.subrange(0, 2)[1]);
        }
    }
    if n >= 2 && bytes[0] == 0xFE && bytes[1] == 0xFF {
        assert(b.subrange(0, 2) =~= seq![0xFEu8, 0xFFu8]);
        let rest = tail(bytes, 2);
        return (decode_utf16(rest.as_slice(), true), Encoding::Utf16Be);
    }
    assert(!starts(b, seq![0xFEu8, 0xFFu8])) by {
        if starts(b, seq![0xFEu8, 0xFFu8]) {
            assert(b[0] == b.subrange(0, 2)[0]);
            assert(b[1] == b.subrange(0, 2)[1]);
        }
    }
    if n >= 3 && bytes[0] == 0xEF && bytes[1] == 0xBB && bytes[2] == 0xBF {
        assert(b.subrange(0, 3) =~= seq![0xEFu8, 0xBBu8, 0xBFu8]);
        let rest = tail(bytes, 3);
        return (from_utf8_lossy(rest.as_slice()), Encoding::Utf8Bom);
    }
    assert(!starts(b, seq![0xEFu8, 0xBBu8, 0xBFu8])) by {
        if starts(b, seq![0xEFu8, 0xBBu8, 0xBFu8]) {
            assert(b[0] == b.subrange(0, 3)[0]);
            assert(b[1] == b.subrange(0, 3)[1]);
            assert(b[2] == b.subrange(0, 3)[2]);
        }
    }
    match from_utf8(bytes) {
        Some(text) => (text, Encoding::Utf8),
        None => (decode_windows_1251(bytes), Encoding::Windows1251),
    }
}

} // verus!
