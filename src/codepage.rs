//! The legacy single-byte code page of archive names and texts.
use vstd::prelude::*;

use local_encoding::{Encoder, Encoding};

use crate::text::string_of;

verus! {

/// How legacy bytes become characters.
#[derive(Debug, Clone, Copy, PartialEq, Eq, Structural)]
pub enum CodePage {
    /// The machine's ANSI code page, as Windows sets it (UTF-8 elsewhere).
    Ansi,
    /// Windows-1252, the Western code page, wherever the library runs.
    Windows1252,
}

/// The character that Windows-1252 gives byte `b`. The five bytes that
/// the code page leaves undefined (0x81, 0x8D, 0x8F, 0x90, 0x9D) become the
/// control characters of the same value, as Windows converts them.
pub open spec fn cp1252_char(b: u8) -> char {
    if b < 0x80 || b >= 0xA0 {
        b as char
    } else {
        match b {
            0x80u8 => '\u{20AC}',
            0x82u8 => '\u{201A}',
            0x83u8 => '\u{0192}',
            0x84u8 => '\u{201E}',
            0x85u8 => '\u{2026}',
            0x86u8 => '\u{2020}',
            0x87u8 => '\u{2021}',
            0x88u8 => '\u{02C6}',
            0x89u8 => '\u{2030}',
            0x8Au8 => '\u{0160}',
            0x8Bu8 => '\u{2039}',
            0x8Cu8 => '\u{0152}',
            0x8Eu8 => '\u{017D}',
            0x91u8 => '\u{2018}',
            0x92u8 => '\u{2019}',
            0x93u8 => '\u{201C}',
            0x94u8 => '\u{201D}',
            0x95u8 => '\u{2022}',
            0x96u8 => '\u{2013}',
            0x97u8 => '\u{2014}',
            0x98u8 => '\u{02DC}',
            0x99u8 => '\u{2122}',
            0x9Au8 => '\u{0161}',
            0x9Bu8 => '\u{203A}',
            0x9Cu8 => '\u{0153}',
            0x9Eu8 => '\u{017E}',
            0x9Fu8 => '\u{0178}',
            _ => b as char,
        }
    }
}

/// The characters of `s` in Windows-1252.
pub open spec fn cp1252_decode(s: Seq<u8>) -> Seq<char> {
    Seq::new(s.len(), |i: int| cp1252_char(s[i]))
}

/// The character that Windows-1252 gives byte `b`.
pub fn cp1252_byte(b: u8) -> (r: char)
    ensures
        r == cp1252_char(b),
{
    if b < 0x80 || b >= 0xA0 {
        b as char
    } else {
        match b {
            0x80 => '\u{20AC}',
            0x82 => '\u{201A}',
            0x83 => '\u{0192}',
            0x84 => '\u{201E}',
            0x85 => '\u{2026}',
            0x86 => '\u{2020}',
            0x87 => '\u{2021}',
            0x88 => '\u{02C6}',
            0x89 => '\u{2030}',
            0x8A => '\u{0160}',
            0x8B => '\u{2039}',
            0x8C => '\u{0152}',
            0x8E => '\u{017D}',
            0x91 => '\u{2018}',
            0x92 => '\u{2019}',
            0x93 => '\u{201C}',
            0x94 => '\u{201D}',
            0x95 => '\u{2022}',
            0x96 => '\u{2013}',
            0x97 => '\u{2014}',
            0x98 => '\u{02DC}',
            0x99 => '\u{2122}',
            0x9A => '\u{0161}',
            0x9B => '\u{203A}',
            0x9C => '\u{0153}',
            0x9E => '\u{017E}',
            0x9F => '\u{0178}',
            _ => b as char,
        }
    }
}

/// Decodes `bytes` as Windows-1252.
pub fn decode_cp1252(bytes: &[u8]) -> (r: String)
    ensures
        r@ == cp1252_decode(bytes@),
{
    let mut chars: Vec<char> = Vec::new();
    let mut i: usize = 0;
    while i < bytes.len()
        invariant
            i <= bytes@.len(),
            chars@.len() == i,
            forall|j: int| 0 <= j < i ==> #[trigger] chars@[j] == cp1252_char(bytes@[j]),
        decreases bytes@.len() - i,
    {
        chars.push(cp1252_byte(bytes[i]));
        i = i + 1;
    }
    let s = string_of(chars.as_slice());
    assert(s@ =~= cp1252_decode(bytes@));
    s
}

/// Relies on `local_encoding::Encoding::ANSI.to_string`: converts bytes in
/// the machine's ANSI code page (UTF-8 outside Windows) to a string. What
/// comes back depends on the machine, so nothing is promised of it.
#[verifier::external_body]
fn ansi_to_string(bytes: &[u8]) -> (r: Option<String>) {
    Encoding::ANSI.to_string(bytes).ok()
}

/// Decodes legacy bytes in the code page `cp`; `None` where they do not
/// decode. Every byte decodes in Windows-1252, to `cp1252_decode` of the
/// bytes; in the machine's code page the result depends on the machine.
pub fn decode_legacy(bytes: &[u8], cp: CodePage) -> (r: Option<String>)
    ensures
        cp == CodePage::Windows1252 ==> r is Some && r->Some_0@ == cp1252_decode(bytes@),
{
    match cp {
        CodePage::Ansi => ansi_to_string(bytes),
        CodePage::Windows1252 => Some(decode_cp1252(bytes)),
    }
}

} // verus!
