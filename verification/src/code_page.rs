//! Converting between text and the bytes of a code page.

use vstd::prelude::*;
use vstd::utf8::{
    decode_utf8, encode_utf8, encode_utf8_decode_utf8, encode_utf8_valid_utf8, is_ascii_chars,
    is_ascii_chars_encode_utf8, valid_utf8,
};

verus! {

/// Whether an encoding is known for a code page.
pub open spec fn known_code_page(code_page: u16) -> bool {
    ascii_compatible(code_page) || utf16_code_page(code_page) || iso_2022_jp_code_page(code_page)
        || replaced_code_page(code_page)
}

/// The code pages that agree with ASCII: ASCII text has the same bytes in them.
pub open spec fn ascii_compatible(code_page: u16) -> bool {
    ||| code_page == 65001
    ||| code_page == 866
    ||| code_page == 874
    ||| code_page == 932
    ||| code_page == 936
    ||| code_page == 949
    ||| code_page == 950
    ||| code_page == 951
    ||| 1250 <= code_page <= 1258
    ||| code_page == 10000
    ||| code_page == 10007
    ||| code_page == 10017
    ||| code_page == 20866
    ||| code_page == 20932
    ||| code_page == 20936
    ||| code_page == 20949
    ||| code_page == 21866
    ||| 28591 <= code_page <= 28601
    ||| 28603 <= code_page <= 28606
    ||| code_page == 38598
    ||| code_page == 51936
    ||| code_page == 51949
    ||| code_page == 54936
}

/// The code pages in which every character is written with one byte.
pub open spec fn single_byte(code_page: u16) -> bool {
    ||| code_page == 866
    ||| code_page == 874
    ||| 1250 <= code_page <= 1258
    ||| code_page == 10000
    ||| code_page == 10007
    ||| code_page == 10017
    ||| code_page == 20866
    ||| code_page == 21866
    ||| 28591 <= code_page <= 28601
    ||| 28603 <= code_page <= 28606
    ||| code_page == 38598
}

/// The code pages that stand for UTF-16.
pub open spec fn utf16_code_page(code_page: u16) -> bool {
    code_page == 1200 || code_page == 1201 || code_page == 21010
}

/// The code pages that stand for ISO-2022-JP.
pub open spec fn iso_2022_jp_code_page(code_page: u16) -> bool {
    50220 <= code_page <= 50222
}

/// The code pages that stand for encodings of which no text is read.
pub open spec fn replaced_code_page(code_page: u16) -> bool {
    code_page == 50225 || code_page == 50227 || code_page == 52936
}

/// The code page that stands for UTF-8.
pub const UTF_8: u16 = 65001;

/// Whether all bytes are ASCII characters.
pub open spec fn is_ascii_bytes(data: Seq<u8>) -> bool {
    forall|i: int| 0 <= i < data.len() ==> #[trigger] data[i] < 0x80
}

/// Whether the bytes mean the same in the code page as in UTF-8.
pub open spec fn reads_as_utf8(code_page: u16, data: Seq<u8>) -> bool {
    &&& valid_utf8(data)
    &&& code_page == UTF_8 || ascii_compatible(code_page) && is_ascii_bytes(data)
}

/// Whether the text is written in the code page with the same bytes as in UTF-8.
///
/// No text is ever written in UTF-16 or in an encoding of which no text is read: UTF-8 takes
/// their place.
pub open spec fn writes_as_utf8(code_page: u16, text: Seq<char>) -> bool {
    ||| code_page == UTF_8
    ||| utf16_code_page(code_page)
    ||| replaced_code_page(code_page)
    ||| ascii_compatible(code_page) && is_ascii_chars(text)
}

/// Whether text that is read from this many bytes fits in memory, whatever the code page.
pub open spec fn decodable_len(length: nat) -> bool {
    3 * length + 3 <= isize::MAX
}

/// Whether text can be read in a code page from any part of the input.
pub open spec fn readable(code_page: u16, input: Seq<u8>) -> bool {
    known_code_page(code_page) && decodable_len(input.len())
}

/// Whether the bytes that text of this many bytes of UTF-8 is written with fit in memory,
/// whatever the code page.
pub open spec fn encodable_len(length: nat) -> bool {
    3 * length + 13 <= isize::MAX
}

/// How many bytes of UTF-8 are set aside for reading text from `length` bytes: what
/// `encoding_rs::Decoder::max_utf8_buffer_length` returns for a new decoder.
pub uninterp spec fn decode_room(code_page: u16, length: usize) -> Option<usize>;

/// The text that the bytes stand for in a code page: what `encoding_rs::Decoder::decode_to_string`
/// writes, given enough room.
pub uninterp spec fn decoded_text(code_page: u16, data: Seq<u8>) -> Seq<char>;

/// How many bytes are set aside for writing text of `length` bytes of UTF-8: what
/// `encoding_rs::Encoder::max_buffer_length_from_utf8_if_no_unmappables` returns for a new encoder.
pub uninterp spec fn encode_room(code_page: u16, length: usize) -> Option<usize>;

/// The bytes that text is written with in a code page, where `room` bytes are enough for them, and
/// whether the code page lacks some character: what `encoding_rs::Encoder::encode_from_utf8` writes
/// and returns.
pub uninterp spec fn encoded_text(
    code_page: u16,
    text: Seq<char>,
    room: nat,
) -> Option<(Seq<u8>, bool)>;

/// The text that the bytes stand for in a code page.
pub open spec fn text_of(code_page: u16, data: Seq<u8>) -> Seq<char> {
    if reads_as_utf8(code_page, data) {
        decode_utf8(data)
    } else {
        decoded_text(code_page, data)
    }
}

/// The bytes that text is written with in a code page, where it has all characters and the room
/// that is set aside is enough for them.
pub open spec fn bytes_of(code_page: u16, text: Seq<char>) -> Option<Seq<u8>> {
    if writes_as_utf8(code_page, text) {
        Some(encode_utf8(text))
    } else {
        match encode_room(code_page, encode_utf8(text).len() as usize) {
            Some(room) => match encoded_text(code_page, text, room as nat) {
                Some((data, lacking)) => if lacking {
                    None
                } else {
                    Some(data)
                },
                None => None,
            },
            None => None,
        }
    }
}

/// Whether text can be written in a code page.
pub open spec fn writable(code_page: u16, text: Seq<char>) -> bool {
    &&& known_code_page(code_page)
    &&& encodable_len(encode_utf8(text).len())
    &&& bytes_of(code_page, text) is Some
}

/// Whether there is an encoding for a code page.
///
/// Calls `codepage::to_encoding`, which looks the code page up in a table of those for which
/// [`known_code_page`] holds.
#[verifier::external_body]
fn to_encoding_exists(code_page: u16) -> (known: bool)
    ensures
        known == known_code_page(code_page),
{
    codepage::to_encoding(code_page).is_some()
}

/// How many bytes of UTF-8 to set aside for reading text from `length` bytes.
///
/// Calls `encoding_rs::Decoder::max_utf8_buffer_length` on a new decoder for the code page. The
/// number is at most three more than three times `length`, and there is one unless computing it
/// overflows.
#[verifier::external_body]
fn max_utf8_buffer_length(code_page: u16, length: usize) -> (room: Option<usize>)
    requires
        known_code_page(code_page),
    ensures
        room == decode_room(code_page, length),
        3 * length + 3 <= usize::MAX ==> room is Some && room->0 <= 3 * length + 3,
{
    let encoding = codepage::to_encoding(code_page).unwrap();
    encoding.new_decoder_without_bom_handling().max_utf8_buffer_length(length)
}

/// Reads text from bytes, with as much room for it as [`max_utf8_buffer_length`] asks for.
///
/// Calls `encoding_rs::Decoder::decode_to_string` on a new decoder for the code page, without
/// handling of byte order marks. With that much room all input is read; malformed sequences are
/// replaced. Valid UTF-8 is read as it is in the code page for it, as are ASCII characters in
/// the code pages that agree with ASCII.
#[verifier::external_body]
fn decode_to_string(code_page: u16, data: &[u8], room: usize) -> (text: String)
    requires
        known_code_page(code_page),
        decode_room(code_page, data@.len() as usize) == Some(room),
        room <= isize::MAX,
    ensures
        reads_as_utf8(code_page, data@) ==> text@ == decode_utf8(data@),
        !reads_as_utf8(code_page, data@) ==> text@ == decoded_text(code_page, data@),
{
    let encoding = codepage::to_encoding(code_page).unwrap();
    let mut text = String::with_capacity(room);
    let _ = encoding.new_decoder_without_bom_handling().decode_to_string(data, &mut text, true);
    text
}

/// How many bytes to set aside for writing text of `length` bytes of UTF-8.
///
/// Calls `encoding_rs::Encoder::max_buffer_length_from_utf8_if_no_unmappables` on a new encoder
/// for the code page. The number is at most thirteen more than three times `length`, and there
/// is one unless computing it overflows.
#[verifier::external_body]
fn max_buffer_length(code_page: u16, length: usize) -> (room: Option<usize>)
    requires
        known_code_page(code_page),
    ensures
        room == encode_room(code_page, length),
        3 * length + 13 <= usize::MAX ==> room is Some && room->0 <= 3 * length + 13,
{
    let encoding = codepage::to_encoding(code_page).unwrap();
    encoding.new_encoder().max_buffer_length_from_utf8_if_no_unmappables(length)
}

/// Writes text into a buffer, and returns the number of bytes written and whether the code page
/// lacks some character, or `None` where the buffer is too small.
///
/// Calls `encoding_rs::Encoder::encode_from_utf8` on a new encoder for the code page. A
/// character that the code page lacks is written as a numeric character reference, which may take
/// more room than [`max_buffer_length`] asks for. With that much room, there is enough for text
/// that has the same bytes in the code page as in UTF-8, and those bytes are written. Where every
/// character is written with one byte, that byte stands for the character when it is read, unless
/// the code page lacks the character. Of other code pages it is not said whether text is read back
/// from what is written.
#[verifier::external_body]
fn encode_from_utf8(code_page: u16, text: &str, buffer: &mut Vec<u8>) -> (written: Option<
    (usize, bool),
>)
    requires
        known_code_page(code_page),
    ensures
        final(buffer)@.len() == old(buffer)@.len(),
        written matches Some((count, lacking)) ==> count <= final(buffer)@.len() && encoded_text(
            code_page,
            text@,
            old(buffer)@.len(),
        ) == Some((final(buffer)@.take(count as int), lacking)),
        written is None ==> encoded_text(code_page, text@, old(buffer)@.len()) is None,
        writes_as_utf8(code_page, text@) && encode_room(
            code_page,
            encode_utf8(text@).len() as usize,
        ) == Some(old(buffer)@.len() as usize) ==> (written matches Some((count, lacking))
            && final(buffer)@.take(count as int) == encode_utf8(text@) && !lacking),
        written matches Some((count, lacking)) ==> single_byte(code_page) && !lacking ==> text_of(
            code_page,
            final(buffer)@.take(count as int),
        ) == text@,
{
    let encoding = codepage::to_encoding(code_page).unwrap();
    match encoding.new_encoder().encode_from_utf8(text, buffer, true) {
        (encoding_rs::CoderResult::InputEmpty, _, written, lacking) => Some((written, lacking)),
        (encoding_rs::CoderResult::OutputFull, _, _, _) => None,
    }
}

/// Whether text can be read in a code page from any part of the input.
pub fn is_readable(code_page: u16, input: &[u8]) -> (readable: bool)
    ensures
        readable == self::readable(code_page, input@),
{
    to_encoding_exists(code_page) && input.len() <= (isize::MAX as usize - 3) / 3
}

/// Reads text from the bytes of a code page.
pub fn cp_to_string(data: &[u8], code_page: u16) -> (text: String)
    requires
        known_code_page(code_page),
        decodable_len(data@.len()),
    ensures
        text@ == text_of(code_page, data@),
{
    let room: usize = max_utf8_buffer_length(code_page, data.len()).unwrap();
    decode_to_string(code_page, data, room)
}

/// Whether text that can be written in a code page is read back from what is written, as far as
/// that is known.
pub open spec fn is_read_back(code_page: u16, text: Seq<char>) -> bool {
    code_page == UTF_8 || single_byte(code_page) || ascii_compatible(code_page) && is_ascii_chars(
        text,
    )
}

/// Writes text with the bytes of a code page, or returns `None` where there is no such code
/// page, or where it lacks some character.
///
/// In the code pages in which every character is written with one byte, and in UTF-8, the text is
/// read back from the bytes.
pub fn try_string_to_cp(text: &str, code_page: u16) -> (result: Option<Vec<u8>>)
    ensures
        match result {
            Some(data) => {
                &&& writable(code_page, text@)
                &&& bytes_of(code_page, text@) == Some(data@)
                &&& is_read_back(code_page, text@) ==> text_of(code_page, data@) == text@
            },
            None => !writable(code_page, text@),
        },
{
    let length: usize = text.as_bytes().len();
    if !to_encoding_exists(code_page) || length > (isize::MAX as usize - 13) / 3 {
        return None;
    }
    let room: usize = max_buffer_length(code_page, length).unwrap();
    let mut data: Vec<u8> = vec![0; room];
    match encode_from_utf8(code_page, text, &mut data) {
        Some((written, lacking)) => {
            if lacking {
                return None;
            }
            data.truncate(written);
            proof {
                if code_page == UTF_8 || ascii_compatible(code_page) && is_ascii_chars(text@) {
                    lemma_text_is_read_back(code_page, text@);
                }
            }
            Some(data)
        },
        None => None,
    }
}

/// Writes text with the bytes of a code page that has all its characters.
///
/// In the code pages in which every character is written with one byte, and in UTF-8, the text is
/// read back from the bytes.
pub fn string_to_cp(text: &str, code_page: u16) -> (data: Vec<u8>)
    requires
        writable(code_page, text@),
    ensures
        bytes_of(code_page, text@) == Some(data@),
        is_read_back(code_page, text@) ==> text_of(code_page, data@) == text@,
{
    try_string_to_cp(text, code_page).unwrap()
}

/// Text that is written in a code page is read back: any text in UTF-8, and ASCII text in the
/// code pages that agree with ASCII.
pub proof fn lemma_text_is_read_back(code_page: u16, text: Seq<char>)
    requires
        code_page == UTF_8 || ascii_compatible(code_page) && is_ascii_chars(text),
    ensures
        bytes_of(code_page, text) is Some,
        text_of(code_page, bytes_of(code_page, text)->0) == text,
{
    let data = encode_utf8(text);
    encode_utf8_valid_utf8(text);
    encode_utf8_decode_utf8(text);
    if code_page != UTF_8 {
        is_ascii_chars_encode_utf8(text);
    }
}

} // verus!
