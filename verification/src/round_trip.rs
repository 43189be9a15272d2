//! Decompressing what was compressed.

use vstd::arithmetic::div_mod::lemma_fundamental_div_mod_converse;
use vstd::prelude::*;

use crate::bytes::le16;
use crate::compression::{
    candidate, compressed, compressed_from, copies_at, copy_token, group_bytes, group_end,
    group_flags, lemma_candidate, lemma_group_advances, lemma_group_flags_are_byte, length_limit,
    next_position, token_bytes, MAX_COPY_OFFSET, MIN_COPY_LEN,
};
use crate::decompression::{
    chunk, copy_length, copy_offset, decompressed, further_chunks, length_span, repeated,
    unpacked, unpacked_data,
};
use crate::format::FormatError;
use crate::matching::{lemma_longest_match_is_longest, lemma_run_is_maximal};

verus! {

/// The container with a single compressed chunk that consists of the given data.
pub open spec fn single_chunk(data: Seq<u8>) -> Seq<u8> {
    let header = 0xb000 + (data.len() - 1);
    seq![1u8, (header % 0x100) as u8, (header / 0x100) as u8] + data
}

/// Repeating bytes that are repeated in `data` gives the bytes of `data`.
proof fn lemma_repeated(data: Seq<u8>, at: int, offset: int, length: int)
    requires
        1 <= offset <= at,
        0 <= length,
        at + length <= data.len(),
        forall|k: int| at <= k < at + length ==> #[trigger] data[k] == data[k - offset],
    ensures
        repeated(data.take(at), offset, length) == data.take(at + length),
    decreases length,
{
    if length > 0 {
        assert(data[at] == data[at - offset]);
        assert(data.take(at).push(data[at - offset]) == data.take(at + 1));
        lemma_repeated(data, at + 1, offset, length - 1);
    }
}

/// The length and the offset of a copy token can be read back, and the token stands for the
/// bytes that it was written for.
proof fn lemma_copy_token(data: Seq<u8>, at: int)
    requires
        0 <= at < data.len(),
        copies_at(data, at),
    ensures
        ({
            let (length, offset) = candidate(data, at);
            let token = copy_token(at, length, offset);
            &&& copy_length(token, at as nat) == length
            &&& copy_offset(token, at as nat) == offset
            &&& offset <= at
            &&& repeated(data.take(at), offset, length) == data.take(at + length)
        }),
{
    let (length, offset) = candidate(data, at);
    let span = length_span(at as nat);
    lemma_candidate(data, at);
    lemma_longest_match_is_longest(
        data,
        at,
        MIN_COPY_LEN as int,
        length_limit(at),
        MAX_COPY_OFFSET as int,
    );
    lemma_run_is_maximal(data, at, offset, length_limit(at));
    lemma_repeated(data, at, offset, length);
    let word = (offset - 1) * span + (length - MIN_COPY_LEN);
    assert(0 <= word <= 0xffff) by (nonlinear_arith)
        requires
            word == (offset - 1) * span + (length - MIN_COPY_LEN),
            1 <= offset <= at,
            at <= 0x8000,
            span == length_span(at as nat),
            0 <= length - MIN_COPY_LEN < span,
    ;
    lemma_fundamental_div_mod_converse(word, span, offset - 1, length - MIN_COPY_LEN);
}

/// Reading the rest of a group gives the bytes that its tokens were written for.
proof fn lemma_group(flags: u8, index: int, data: Seq<u8>, at: int, tail: Seq<u8>)
    requires
        0 <= index <= 8,
        0 <= at <= data.len(),
        (flags >> (index as u8)) as int == group_flags(data, at, 8 - index),
        group_end(data, at, 8 - index) >= data.len() ==> tail.len() == 0,
    ensures
        ({
            let end = group_end(data, at, 8 - index);
            &&& 0 <= end <= data.len()
            &&& unpacked(
                flags,
                index,
                group_bytes(data, at, 8 - index) + tail,
                data.take(at),
            ) == unpacked(flags, 8, tail, data.take(end))
        }),
    decreases 8 - index,
{
    let input = group_bytes(data, at, 8 - index) + tail;
    if index == 8 || at >= data.len() {
        assert(input == tail);
    } else {
        let k = index as u8;
        let next = next_position(data, at);
        let following = group_bytes(data, next, 8 - (index + 1)) + tail;
        lemma_candidate(data, at);
        assert((flags >> k) & 1 == (flags >> k) % 2) by (bit_vector);
        assert(flags >> ((k + 1) as u8) == (flags >> k) / 2) by (bit_vector)
            requires
                k < 8,
        ;
        lemma_group(flags, index + 1, data, next, tail);
        assert(input == token_bytes(data, at) + following);
        if copies_at(data, at) {
            lemma_copy_token(data, at);
            let (length, offset) = candidate(data, at);
            let token = copy_token(at, length, offset);
            assert(input[0] == (token % 0x100) as u8);
            assert(input[1] == (token / 0x100) as u8);
            assert(le16(input) == token);
            assert(input.skip(2) == following);
        } else {
            assert(input.skip(1) == following);
            assert(data.take(at).push(data[at]) == data.take(at + 1));
        }
    }
}

/// Reading all groups gives all bytes.
proof fn lemma_unpacked(flags: u8, data: Seq<u8>, at: int)
    requires
        0 <= at <= data.len(),
    ensures
        unpacked(flags, 8, compressed_from(data, at), data.take(at)) == Some(
            Ok::<Seq<u8>, FormatError<Seq<u8>>>(data),
        ),
    decreases data.len() - at,
{
    let input = compressed_from(data, at);
    if at >= data.len() {
        assert(data.take(at) == data);
    } else {
        let group = group_flags(data, at, 8) as u8;
        let end = group_end(data, at, 8);
        let tail = compressed_from(data, end);
        lemma_group_flags_are_byte(data, at);
        lemma_group_advances(data, at, 8);
        assert(group >> 0u8 == group) by (bit_vector);
        lemma_group(group, 0, data, at, tail);
        assert(input.skip(1) == group_bytes(data, at, 8) + tail);
        lemma_unpacked(group, data, end);
    }
}

/// Reading the data of a compressed chunk gives back what was compressed.
pub proof fn lemma_unpacked_inverts_compressed(data: Seq<u8>)
    ensures
        unpacked_data(compressed(data)) == Some(Ok::<Seq<u8>, FormatError<Seq<u8>>>(data)),
{
    assert(data.take(0) == Seq::<u8>::empty());
    lemma_unpacked(0, data, 0);
}

/// Some data is written for every input that is not empty, and none for the empty input.
pub proof fn lemma_compressed_is_empty_only_for_nothing(data: Seq<u8>)
    ensures
        compressed(data).len() == 0 <==> data.len() == 0,
{
}

/// Decompressing a container with a single chunk gives back what was compressed for that chunk.
pub proof fn lemma_decompressed_inverts_compressed(data: Seq<u8>)
    requires
        1 <= compressed(data).len() <= 0x1000,
    ensures
        decompressed(single_chunk(compressed(data))) == Some(
            Ok::<(Seq<u8>, Seq<u8>), FormatError<Seq<u8>>>((Seq::empty(), data)),
        ),
{
    let content = compressed(data);
    let input = single_chunk(content);
    let body = input.skip(1);
    lemma_unpacked_inverts_compressed(data);
    assert(le16(body) == 0xb000 + (content.len() - 1));
    assert(body.skip(2) == content);
    assert(content.take(content.len() as int) == content);
    assert(content.skip(content.len() as int) == Seq::<u8>::empty());
    assert(chunk(body) == Some(
        Ok::<(Seq<u8>, Seq<u8>), FormatError<Seq<u8>>>((Seq::empty(), data)),
    ));
    assert(further_chunks(Seq::empty(), data) == Some(
        Ok::<(Seq<u8>, Seq<u8>), FormatError<Seq<u8>>>((Seq::empty(), data)),
    ));
}

} // verus!
