//! From the bytes of a file to its text and back: the byte-order mark,
//! UTF-8, and Windows-1252 for files that are not UTF-8.

use vstd::prelude::*;
use vstd::slice::slice_subrange;
use vstd::utf8::{
    decode_utf8, encode_utf8, encode_utf8_decode_utf8, encode_utf8_valid_utf8, valid_utf8,
};
use crate::roundtrip::lemma_round_trip;
use crate::srt::{
    error_message, parse_chars, parse_text, serialize_all, serialize_subtitles, subtitle_views,
    ParseErrorView, Subtitle, SubtitleView,
};
use crate::text::{chars_to_string, push_str_chars, str_to_chars};

verus! {

/// The characters that Windows-1252 has for the bytes from 0x80 to 0x9F.
pub const W1252_80_9F: [char; 32] = [
    '\u{20ac}',
    '\u{0081}',
    '\u{201a}',
    '\u{0192}',
    '\u{201e}',
    '\u{2026}',
    '\u{2020}',
    '\u{2021}',
    '\u{02c6}',
    '\u{2030}',
    '\u{0160}',
    '\u{2039}',
    '\u{0152}',
    '\u{008d}',
    '\u{017d}',
    '\u{008f}',
    '\u{0090}',
    '\u{2018}',
    '\u{2019}',
    '\u{201c}',
    '\u{201d}',
    '\u{2022}',
    '\u{2013}',
    '\u{2014}',
    '\u{02dc}',
    '\u{2122}',
    '\u{0161}',
    '\u{203a}',
    '\u{0153}',
    '\u{009d}',
    '\u{017e}',
    '\u{0178}',
];

/// The byte-order mark of UTF-8.
pub const BOM: [u8; 3] = [0xEF, 0xBB, 0xBF];

/// The character that a byte stands for in Windows-1252: the one with the
/// same number, but for the bytes from 0x80 to 0x9F, which have a table.
pub open spec fn windows_1252_char(b: u8) -> char {
    if 0x80 <= b <= 0x9f {
        W1252_80_9F[b - 0x80]
    } else {
        b as char
    }
}

/// The text that bytes stand for in Windows-1252.
pub open spec fn windows_1252(bytes: Seq<u8>) -> Seq<char> {
    Seq::new(bytes.len(), |i: int| windows_1252_char(bytes[i]))
}

/// Reads bytes as Windows-1252.
pub fn decode_windows_1252(content: &[u8]) -> (r: String)
    ensures
        r@ == windows_1252(content@),
{
    let mut out: Vec<char> = Vec::new();
    let mut i: usize = 0;
    while i < content.len()
        invariant
            i <= content.len(),
            out@ == windows_1252(content@).take(i as int),
        decreases content.len() - i,
    {
        let b: u8 = content[i];
        let c: char = if 0x80 <= b && b <= 0x9f {
            W1252_80_9F[(b - 0x80) as usize]
        } else {
            b as char
        };
        out.push(c);
        assert(out@ == windows_1252(content@).take(i + 1));
        i += 1;
    }
    chars_to_string(out.as_slice())
}

/// Whether the bytes start with the byte-order mark.
pub open spec fn has_bom(bytes: Seq<u8>) -> bool {
    bytes.len() >= 3 && bytes[0] == 0xEF && bytes[1] == 0xBB && bytes[2] == 0xBF
}

/// The text of a file. Behind a byte-order mark the bytes have to be UTF-8,
/// or there is no text. Without the mark they are read as UTF-8 where they
/// are UTF-8, and as Windows-1252 where they are not.
pub open spec fn decode_text(bytes: Seq<u8>) -> Option<Seq<char>> {
    if has_bom(bytes) {
        if valid_utf8(bytes.skip(3)) {
            Some(decode_utf8(bytes.skip(3)))
        } else {
            None
        }
    } else if valid_utf8(bytes) {
        Some(decode_utf8(bytes))
    } else {
        Some(windows_1252(bytes))
    }
}

/// `core::str::from_utf8`, which checks that bytes are UTF-8 and gives them
/// back as text. Nothing here proves what it does. The contract takes it to
/// accept just the byte sequences that `valid_utf8` describes, and to give
/// for them the characters that `decode_utf8` reads from them.
#[verifier::external_body]
fn utf8_text(bytes: &[u8]) -> (r: Option<&str>)
    ensures
        r is Some <==> valid_utf8(bytes@),
        r matches Some(s) ==> s@ == decode_utf8(bytes@),
{
    std::str::from_utf8(bytes).ok()
}

/// Reads the text of a file from its bytes.
pub fn text_of_bytes(bytes: &[u8]) -> (r: Option<String>)
    ensures
        match r {
            Some(text) => decode_text(bytes@) == Some(text@),
            None => decode_text(bytes@) is None,
        },
{
    if bytes.len() >= 3 && bytes[0] == 0xEF && bytes[1] == 0xBB && bytes[2] == 0xBF {
        let rest = slice_subrange(bytes, 3, bytes.len());
        assert(rest@ == bytes@.skip(3));
        match utf8_text(rest) {
            Some(s) => Some(s.to_owned()),
            None => None,
        }
    } else {
        match utf8_text(bytes) {
            Some(s) => Some(s.to_owned()),
            None => Some(decode_windows_1252(bytes)),
        }
    }
}

/// The message for a file that has a byte-order mark and is not UTF-8.
pub open spec fn invalid_utf8_message() -> Seq<char> {
    "Invalid UTF-8"@
}

/// What the bytes of a file hold: its subtitles, or the message of what is
/// wrong with it.
pub open spec fn load_result(bytes: Seq<u8>) -> Result<Seq<SubtitleView>, Seq<char>> {
    match decode_text(bytes) {
        None => Err(invalid_utf8_message()),
        Some(text) => match parse_text(text) {
            Ok(subs) => Ok(subs),
            Err(e) => Err(error_message(e)),
        },
    }
}

/// Reads the subtitles of a file from its bytes.
pub fn subtitles_from_bytes(bytes: &[u8]) -> (r: Result<Vec<Subtitle>, String>)
    ensures
        match r {
            Ok(subs) => load_result(bytes@) == Ok::<Seq<SubtitleView>, Seq<char>>(
                subtitle_views(subs@),
            ),
            Err(message) => load_result(bytes@) == Err::<Seq<SubtitleView>, Seq<char>>(message@),
        },
{
    match text_of_bytes(bytes) {
        None => {
            let mut out: Vec<char> = Vec::new();
            push_str_chars(&mut out, "Invalid UTF-8");
            Err(chars_to_string(out.as_slice()))
        },
        Some(text) => {
            let chars = str_to_chars(text.as_str());
            match parse_chars(chars.as_slice()) {
                Ok(subs) => Ok(subs),
                Err(e) => Err(e.message()),
            }
        },
    }
}

/// The bytes of a file that holds the subtitles: the byte-order mark, then
/// their written form in UTF-8.
pub open spec fn file_bytes(subs: Seq<SubtitleView>) -> Seq<u8> {
    BOM@ + encode_utf8(serialize_all(subs))
}

/// Writes the subtitles as the bytes of a file.
pub fn subtitles_to_bytes(subtitles: &Vec<Subtitle>) -> (bytes: Vec<u8>)
    ensures
        bytes@ == file_bytes(subtitle_views(subtitles@)),
{
    let text = serialize_subtitles(subtitles);
    let mut bytes: Vec<u8> = Vec::new();
    bytes.push(0xEF);
    bytes.push(0xBB);
    bytes.push(0xBF);
    assert(bytes@ == BOM@);
    bytes.extend_from_slice(text.as_str().as_bytes());
    bytes
}

/// The text of a file that was written by `subtitles_to_bytes` is the
/// written form of its subtitles.
pub proof fn lemma_file_text(subs: Seq<SubtitleView>)
    ensures
        decode_text(file_bytes(subs)) == Some(serialize_all(subs)),
{
    let encoded = encode_utf8(serialize_all(subs));
    assert(file_bytes(subs).skip(3) == encoded);
    encode_utf8_valid_utf8(serialize_all(subs));
    encode_utf8_decode_utf8(serialize_all(subs));
}

/// The round trip through a file: subtitles that the parser gave for some
/// text, unless the last of them has no text, are read back from the bytes
/// that were written for them.
pub proof fn lemma_file_round_trip(text: Seq<char>, subs: Seq<SubtitleView>)
    requires
        parse_text(text) == Ok::<Seq<SubtitleView>, ParseErrorView>(subs),
        subs.len() > 0 ==> subs.last().texts.len() > 0,
    ensures
        load_result(file_bytes(subs)) == Ok::<Seq<SubtitleView>, Seq<char>>(subs),
{
    lemma_file_text(subs);
    lemma_round_trip(text, subs);
}

} // verus!
