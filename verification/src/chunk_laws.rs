//! What a compressed container means, told from the side of whoever writes it.

use vstd::prelude::*;

use crate::bytes::le16;
use crate::decompression::{chunk, compressed_chunk, decompressed, further_chunks};
use crate::format::{ErrorKind, FormatError};

verus! {

/// The two bytes in front of the given number of bytes of a chunk: twelve bits hold the number
/// less one, and the four above them are 0011 where the bytes are stored as they are, and 1011
/// where they are compressed.
pub open spec fn chunk_header(compressed: bool, size: int) -> Seq<u8> {
    let upper: int = if compressed {
        0xb0
    } else {
        0x30
    };
    seq![((size - 1) % 0x100) as u8, (upper + (size - 1) / 0x100) as u8]
}

/// A chunk that is stored as it is, of at most 0x1000 bytes, is read as its bytes.
pub proof fn lemma_stored_chunk_is_read(data: Seq<u8>, rest: Seq<u8>)
    requires
        1 <= data.len() <= 0x1000,
    ensures
        chunk(chunk_header(false, data.len() as int) + data + rest) == Some(
            Ok::<(Seq<u8>, Seq<u8>), FormatError<Seq<u8>>>((rest, data)),
        ),
{
    let input = chunk_header(false, data.len() as int) + data + rest;
    assert(le16(input) == 0x3000 + data.len() - 1);
    assert(input.skip(2).take(data.len() as int) == data);
    assert(input.skip(2).skip(data.len() as int) == rest);
}

/// A chunk that is compressed is read as the bytes that its data stands for, and rejected where
/// its data is.
pub proof fn lemma_compressed_chunk_is_read(data: Seq<u8>, rest: Seq<u8>)
    requires
        1 <= data.len() <= 0x1000,
    ensures
        ({
            let input = chunk_header(true, data.len() as int) + data + rest;
            match compressed_chunk(data) {
                Some(Ok((_, output))) => chunk(input) == Some(
                    Ok::<(Seq<u8>, Seq<u8>), FormatError<Seq<u8>>>((rest, output)),
                ),
                Some(Err(error)) => chunk(input) == Some(
                    Err::<(Seq<u8>, Seq<u8>), FormatError<Seq<u8>>>(error),
                ),
                None => chunk(input) is None,
            }
        }),
{
    let input = chunk_header(true, data.len() as int) + data + rest;
    assert(le16(input) == 0xb000 + data.len() - 1);
    assert(input.skip(2).take(data.len() as int) == data);
    assert(input.skip(2).skip(data.len() as int) == rest);
}

/// Two bytes with any other bits are no header of a chunk, nor is less than two bytes.
pub proof fn lemma_other_header_is_rejected(input: Seq<u8>)
    ensures
        input.len() < 2 ==> chunk(input) == Some(
            Err::<(Seq<u8>, Seq<u8>), FormatError<Seq<u8>>>(
                FormatError::Syntax(input, ErrorKind::Eof),
            ),
        ),
        input.len() >= 2 && !(0x30 <= input[1] <= 0x3f || 0xb0 <= input[1] <= 0xbf) ==> chunk(input)
            == Some(Err::<(Seq<u8>, Seq<u8>), FormatError<Seq<u8>>>(FormatError::UnexpectedValue)),
{
}

/// Behind a header that announces more bytes than there are, there is no answer.
pub proof fn lemma_short_chunk_has_no_answer(compressed: bool, size: int, data: Seq<u8>)
    requires
        1 <= size <= 0x1000,
        data.len() < size,
    ensures
        chunk(chunk_header(compressed, size) + data) is None,
{
    let input = chunk_header(compressed, size) + data;
    assert(le16(input) == if compressed {
        0xb000 + size - 1
    } else {
        0x3000 + size - 1
    });
    assert(input.skip(2) == data);
}

/// What stands behind a chunk does not matter for what is read from it.
pub proof fn lemma_chunk_leaves_rest(input: Seq<u8>, data: Seq<u8>, rest: Seq<u8>)
    requires
        chunk(input) == Some(
            Ok::<(Seq<u8>, Seq<u8>), FormatError<Seq<u8>>>((Seq::empty(), data)),
        ),
    ensures
        chunk(input + rest) == Some(Ok::<(Seq<u8>, Seq<u8>), FormatError<Seq<u8>>>((rest, data))),
{
    let size = input.len() - 2;
    let longer = input + rest;
    let content = input.skip(2);
    assert(le16(longer) == le16(input));
    assert(content.skip(le16(input) as int % 0x1000 + 1).len() == 0);
    assert(longer.skip(2).take(size) == content.take(size));
    assert(longer.skip(2).skip(size) == rest);
}

/// Reading chunks behind others gives what they hold, behind what the others hold.
proof fn lemma_further_chunks_are_joined(
    chunks: Seq<Seq<u8>>,
    parts: Seq<Seq<u8>>,
    output: Seq<u8>,
)
    requires
        parts.len() == chunks.len(),
        forall|i: int|
            0 <= i < chunks.len() ==> chunk(#[trigger] chunks[i]) == Some(
                Ok::<(Seq<u8>, Seq<u8>), FormatError<Seq<u8>>>((Seq::empty(), parts[i])),
            ),
    ensures
        further_chunks(chunks.flatten(), output) == Some(
            Ok::<(Seq<u8>, Seq<u8>), FormatError<Seq<u8>>>(
                (Seq::empty(), output + parts.flatten()),
            ),
        ),
    decreases chunks.len(),
{
    if chunks.len() == 0 {
        assert(chunks.flatten() == Seq::<u8>::empty());
        assert(output + parts.flatten() == output);
    } else {
        let (behind, left) = (chunks.drop_first(), parts.drop_first());
        lemma_chunk_leaves_rest(chunks[0], parts[0], behind.flatten());
        assert(chunks.flatten() == chunks[0] + behind.flatten());
        assert forall|i: int| 0 <= i < behind.len() implies chunk(#[trigger] behind[i]) == Some(
            Ok::<(Seq<u8>, Seq<u8>), FormatError<Seq<u8>>>((Seq::empty(), left[i])),
        ) by {
            assert(behind[i] == chunks[i + 1]);
        }
        lemma_further_chunks_are_joined(behind, left, output + parts[0]);
        assert((output + parts[0]) + left.flatten() == output + parts.flatten());
    }
}

/// A container is read as what all its chunks hold, one behind the other, however many there are
/// and however much each of them holds.
pub proof fn lemma_chunks_are_joined(chunks: Seq<Seq<u8>>, parts: Seq<Seq<u8>>)
    requires
        chunks.len() >= 1,
        parts.len() == chunks.len(),
        forall|i: int|
            0 <= i < chunks.len() ==> chunk(#[trigger] chunks[i]) == Some(
                Ok::<(Seq<u8>, Seq<u8>), FormatError<Seq<u8>>>((Seq::empty(), parts[i])),
            ),
    ensures
        decompressed(seq![1u8] + chunks.flatten()) == Some(
            Ok::<(Seq<u8>, Seq<u8>), FormatError<Seq<u8>>>((Seq::empty(), parts.flatten())),
        ),
{
    let input = seq![1u8] + chunks.flatten();
    let (behind, left) = (chunks.drop_first(), parts.drop_first());
    lemma_chunk_leaves_rest(chunks[0], parts[0], behind.flatten());
    assert(input.skip(1) == chunks[0] + behind.flatten());
    assert forall|i: int| 0 <= i < behind.len() implies chunk(#[trigger] behind[i]) == Some(
        Ok::<(Seq<u8>, Seq<u8>), FormatError<Seq<u8>>>((Seq::empty(), left[i])),
    ) by {
        assert(behind[i] == chunks[i + 1]);
    }
    lemma_further_chunks_are_joined(behind, left, parts[0]);
}

/// What stands behind chunks that were read whole is read as if it stood there alone.
proof fn lemma_further_chunks_go_on(input: Seq<u8>, output: Seq<u8>, tail: Seq<u8>)
    requires
        further_chunks(input, output) matches Some(Ok(_)),
    ensures
        further_chunks(input + tail, output) == further_chunks(
            tail,
            further_chunks(input, output)->0->Ok_0.1,
        ),
    decreases input.len(),
{
    match chunk(input) {
        Some(Ok((rest, data))) => {
            let size = input.len() - rest.len();
            let first = input.take(size);
            assert(le16(first) == le16(input));
            assert(rest == input.skip(size));
            assert(first.skip(2) == input.skip(2).take(size - 2));
            assert(first.skip(2).take(size - 2) == first.skip(2));
            assert(first.skip(2).skip(size - 2) == Seq::<u8>::empty());
            lemma_chunk_leaves_rest(first, data, rest + tail);
            assert(first + (rest + tail) == input + tail);
            lemma_further_chunks_go_on(rest, output + data, tail);
        },
        _ => {
            assert(input + tail == tail);
        },
    }
}

/// Where a chunk is put behind a container, what it holds is read behind what the container holds.
pub proof fn lemma_chunk_can_be_added(container: Seq<u8>, added: Seq<u8>, data: Seq<u8>)
    requires
        decompressed(container) matches Some(Ok(_)),
        chunk(added) == Some(
            Ok::<(Seq<u8>, Seq<u8>), FormatError<Seq<u8>>>((Seq::empty(), data)),
        ),
    ensures
        decompressed(container) matches Some(Ok((_, before))) && decompressed(container + added)
            == Some(
            Ok::<(Seq<u8>, Seq<u8>), FormatError<Seq<u8>>>((Seq::empty(), before + data)),
        ),
{
    lemma_container_goes_on(container, added);
    let before = decompressed(container)->0->Ok_0.1;
    assert(further_chunks(Seq::empty(), before + data) == Some(
        Ok::<(Seq<u8>, Seq<u8>), FormatError<Seq<u8>>>((Seq::empty(), before + data)),
    ));
}

/// What stands behind a container is read as further chunks.
proof fn lemma_container_goes_on(container: Seq<u8>, tail: Seq<u8>)
    requires
        decompressed(container) matches Some(Ok(_)),
    ensures
        decompressed(container + tail) == further_chunks(
            tail,
            decompressed(container)->0->Ok_0.1,
        ),
{
    let body = container.skip(1);
    let (rest, data) = chunk(body)->0->Ok_0;
    let size = body.len() - rest.len();
    let first = body.take(size);
    assert(le16(first) == le16(body));
    assert(rest == body.skip(size));
    assert(first.skip(2) == body.skip(2).take(size - 2));
    assert(first.skip(2).take(size - 2) == first.skip(2));
    assert(first.skip(2).skip(size - 2) == Seq::<u8>::empty());
    lemma_chunk_leaves_rest(first, data, rest + tail);
    assert((container + tail).skip(1) == first + (rest + tail));
    lemma_further_chunks_go_on(rest, data, tail);
}

/// A container is rejected where something stands behind its chunks that is no chunk; where that
/// is cut off, there is no answer.
pub proof fn lemma_bad_chunk_is_rejected(container: Seq<u8>, tail: Seq<u8>)
    requires
        decompressed(container) matches Some(Ok(_)),
        tail.len() > 0,
    ensures
        chunk(tail) matches Some(Err(_)) ==> decompressed(container + tail) == Some(
            Err::<(Seq<u8>, Seq<u8>), FormatError<Seq<u8>>>(
                FormatError::Syntax(tail, ErrorKind::Eof),
            ),
        ),
        chunk(tail) is None ==> decompressed(container + tail) is None,
{
    lemma_container_goes_on(container, tail);
}

/// A container starts with the byte 1 and holds at least one chunk.
pub proof fn lemma_container_starts_with_chunk(input: Seq<u8>, tail: Seq<u8>)
    ensures
        input.len() == 0 || input[0] != 1 ==> decompressed(input) == Some(
            Err::<(Seq<u8>, Seq<u8>), FormatError<Seq<u8>>>(
                FormatError::Syntax(input, ErrorKind::Tag),
            ),
        ),
        chunk(tail) matches Some(Err(_)) ==> decompressed(seq![1u8] + tail) == Some(
            Err::<(Seq<u8>, Seq<u8>), FormatError<Seq<u8>>>(
                FormatError::Syntax(tail, ErrorKind::Many1),
            ),
        ),
        chunk(tail) is None ==> decompressed(seq![1u8] + tail) is None,
{
    assert((seq![1u8] + tail).skip(1) == tail);
}

} // verus!
