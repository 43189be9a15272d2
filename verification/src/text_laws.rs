//! What text stands for which bytes.

use vstd::prelude::*;
use vstd::utf8::{
    decode_utf8, encode_utf8, encode_utf8_decode_utf8, encode_utf8_valid_utf8, is_ascii_chars,
    is_ascii_chars_encode_utf8, valid_utf8,
};

use crate::code_page::{
    ascii_compatible, bytes_of, decoded_text, encode_room, encoded_text, is_ascii_bytes,
    is_read_back, known_code_page, readable, text_of, writable,
};

verus! {

/// Text is read from bytes: valid UTF-8 as it is in the code page for it, ASCII characters as they
/// are in the code pages that agree with ASCII, and everything else as the code page says. Nothing
/// is added or left out.
pub proof fn lemma_text_is_decoded(code_page: u16, data: Seq<u8>)
    ensures
        code_page == 65001 && valid_utf8(data) ==> text_of(code_page, data) == decode_utf8(data),
        ascii_compatible(code_page) && is_ascii_bytes(data) ==> {
            &&& text_of(code_page, data).len() == data.len()
            &&& forall|k: int|
                0 <= k < data.len() ==> #[trigger] text_of(code_page, data)[k] as u32 == data[k]
        },
        code_page == 65001 && !valid_utf8(data) ==> text_of(code_page, data) == decoded_text(
            code_page,
            data,
        ),
        code_page != 65001 && !(ascii_compatible(code_page) && is_ascii_bytes(data)) ==> text_of(
            code_page,
            data,
        ) == decoded_text(code_page, data),
{
    if ascii_compatible(code_page) && is_ascii_bytes(data) {
        let text = Seq::new(data.len(), |k: int| data[k] as char);
        assert forall|k: int| 0 <= k < data.len() implies (#[trigger] text[k]) as u32
            == data[k] by {
            assert(data[k] < 0x80);
        }
        assert(is_ascii_chars(text));
        is_ascii_chars_encode_utf8(text);
        assert(encode_utf8(text) == data);
        encode_utf8_valid_utf8(text);
        encode_utf8_decode_utf8(text);
    }
}

/// Text is written with bytes: in UTF-8 in the code page for it and in those in which no text is
/// written, ASCII characters as they are in the code pages that agree with ASCII, and everything
/// else as the code page says, where it has all characters.
pub proof fn lemma_text_is_encoded(code_page: u16, text: Seq<char>)
    ensures
        code_page == 65001 || code_page == 1200 || code_page == 1201 || code_page == 21010
            || code_page == 50225 || code_page == 50227 || code_page == 52936 ==> bytes_of(
            code_page,
            text,
        ) == Some(encode_utf8(text)),
        ascii_compatible(code_page) && is_ascii_chars(text) ==> (bytes_of(
            code_page,
            text,
        ) matches Some(data) && {
            &&& data.len() == text.len()
            &&& forall|k: int| 0 <= k < text.len() ==> #[trigger] data[k] == text[k] as u32
        }),
        !(code_page == 65001 || code_page == 1200 || code_page == 1201 || code_page == 21010
            || code_page == 50225 || code_page == 50227 || code_page == 52936) && !(
        ascii_compatible(code_page) && is_ascii_chars(text)) ==> bytes_of(code_page, text) == match encode_room(
            code_page,
            encode_utf8(text).len() as usize,
        ) {
            Some(room) => match encoded_text(code_page, text, room as nat) {
                Some((data, false)) => Some(data),
                _ => None,
            },
            None => None,
        },
{
    if ascii_compatible(code_page) && is_ascii_chars(text) {
        is_ascii_chars_encode_utf8(text);
    }
}

/// Text can be read from bytes, and written with bytes, wherever the code page is known, the text
/// fits in memory and, for writing, the code page has all its characters.
pub proof fn lemma_what_is_possible(code_page: u16, data: Seq<u8>, text: Seq<char>)
    ensures
        readable(code_page, data) <==> known_code_page(code_page) && 3 * data.len() + 3
            <= isize::MAX,
        writable(code_page, text) <==> known_code_page(code_page) && 3 * encode_utf8(text).len()
            + 13 <= isize::MAX && bytes_of(code_page, text) is Some,
        code_page == 65001 || 1250 <= code_page <= 1258 || code_page == 866 || code_page == 874
            || code_page == 10000 || code_page == 10007 || code_page == 10017 || code_page == 20866
            || code_page == 21866 || 28591 <= code_page <= 28601 || 28603 <= code_page <= 28606
            || code_page == 38598 || ascii_compatible(code_page) && is_ascii_chars(text)
            ==> is_read_back(code_page, text),
{
}

} // verus!
