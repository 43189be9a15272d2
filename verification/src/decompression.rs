//! Reading the run-length compressed streams of a VBA project.
//!
//! A compressed container is a signature byte and one or more chunks. A chunk has a 16-bit
//! header; its data is either stored as is, or a sequence of groups. A group is a flag byte and
//! up to eight tokens, each of which is a literal byte or a 16-bit reference to bytes that were
//! produced before.

use vstd::arithmetic::power2::{lemma2_to64, pow2};
use vstd::prelude::*;
use vstd::slice::{slice_subrange, slice_to_vec};

use crate::bytes::{le16, le_u16, skip};
use crate::format::{agrees, ErrorKind, FormatError, Model, Parsed};

verus! {

/// The largest number of bytes produced from a chunk behind which a copy token can be read.
///
/// Behind more, an offset would take all sixteen bits and leave none for a length.
pub const MAX_HISTORY: usize = 0x8000;

/// The number of lengths that a copy token can express behind `produced` bytes of a chunk.
///
/// The more bytes there are to refer to, the more of the token's sixteen bits go to the offset:
/// at least four, and as many as it takes to number all the bytes produced.
pub open spec fn length_span(produced: nat) -> int {
    if produced <= 0x10 {
        0x1000
    } else if produced <= 0x20 {
        0x800
    } else if produced <= 0x40 {
        0x400
    } else if produced <= 0x80 {
        0x200
    } else if produced <= 0x100 {
        0x100
    } else if produced <= 0x200 {
        0x80
    } else if produced <= 0x400 {
        0x40
    } else if produced <= 0x800 {
        0x20
    } else if produced <= 0x1000 {
        0x10
    } else if produced <= 0x2000 {
        8
    } else if produced <= 0x4000 {
        4
    } else {
        2
    }
}

/// Whether an offset takes the given number of a copy token's bits behind `produced` bytes of a
/// chunk: the least number, but no less than four, that is enough to number all of them.
pub open spec fn is_offset_width(produced: nat, width: nat) -> bool {
    &&& 4 <= width < 16
    &&& produced <= pow2(width)
    &&& width == 4 || pow2((width - 1) as nat) < produced
}

/// The bits of a copy token that the offset does not take go to the length.
pub proof fn lemma_length_takes_other_bits(produced: nat, width: nat)
    requires
        is_offset_width(produced, width),
    ensures
        length_span(produced) == pow2((16 - width) as nat),
{
    lemma2_to64();
}

/// Behind as many bytes as a copy token can be read, its offset leaves some bits.
pub proof fn lemma_offset_has_width(produced: nat)
    requires
        produced <= MAX_HISTORY,
    ensures
        exists|width: nat| is_offset_width(produced, width),
{
    lemma2_to64();
    let width: nat = if produced <= 0x10 {
        4
    } else if produced <= 0x20 {
        5
    } else if produced <= 0x40 {
        6
    } else if produced <= 0x80 {
        7
    } else if produced <= 0x100 {
        8
    } else if produced <= 0x200 {
        9
    } else if produced <= 0x400 {
        10
    } else if produced <= 0x800 {
        11
    } else if produced <= 0x1000 {
        12
    } else if produced <= 0x2000 {
        13
    } else if produced <= 0x4000 {
        14
    } else {
        15
    };
    assert(is_offset_width(produced, width));
}

/// The number of bytes that a copy token stands for.
pub open spec fn copy_length(token: u16, produced: nat) -> int {
    token as int % length_span(produced) + 3
}

/// How far back the bytes are that a copy token stands for.
pub open spec fn copy_offset(token: u16, produced: nat) -> int {
    token as int / length_span(produced) + 1
}

/// `output`, extended by `length` bytes, each of which repeats the byte `offset` places before
/// it.
pub open spec fn repeated(output: Seq<u8>, offset: int, length: int) -> Seq<u8>
    decreases length,
{
    if length <= 0 {
        output
    } else {
        repeated(output.push(output[output.len() - offset]), offset, length - 1)
    }
}

/// Whether the token behind the `index`-th bit of a flag byte is a copy token.
pub open spec fn is_copy(flags: u8, index: int) -> bool {
    (flags >> (index as u8)) & 1 == 1
}

/// What becomes of the compressed data `input` of a chunk, once `output` has been produced and
/// `index` tokens behind the flag byte `flags` have been read.
///
/// There is no answer where a copy token comes behind too many bytes.
pub open spec fn unpacked(flags: u8, index: int, input: Seq<u8>, output: Seq<u8>) -> Option<
    Result<Seq<u8>, FormatError<Seq<u8>>>,
>
    decreases input.len(),
{
    if input.len() == 0 {
        Some(Ok(output))
    } else if !(0 <= index < 8) {
        unpacked(input[0], 0, input.skip(1), output)
    } else if !is_copy(flags, index) {
        unpacked(flags, index + 1, input.skip(1), output.push(input[0]))
    } else if input.len() < 2 {
        Some(Err(FormatError::Syntax(input, ErrorKind::Eof)))
    } else if output.len() > MAX_HISTORY {
        None
    } else if copy_offset(le16(input), output.len()) > output.len() {
        Some(Err(FormatError::Syntax(input, ErrorKind::Verify)))
    } else {
        unpacked(
            flags,
            index + 1,
            input.skip(2),
            repeated(
                output,
                copy_offset(le16(input), output.len()),
                copy_length(le16(input), output.len()),
            ),
        )
    }
}

/// The bytes that the compressed data `input` of a chunk stands for.
pub open spec fn unpacked_data(input: Seq<u8>) -> Option<Result<Seq<u8>, FormatError<Seq<u8>>>> {
    unpacked(0, 8, input, Seq::empty())
}

/// The compressed data `input` of a chunk, of which nothing is left behind what it stands for.
pub open spec fn compressed_chunk(input: Seq<u8>) -> Option<Parsed<Seq<u8>>> {
    match unpacked_data(input) {
        Some(Ok(output)) => Some(Ok((Seq::empty(), output))),
        Some(Err(error)) => Some(Err(error)),
        None => None,
    }
}

/// The number of bytes of data that a chunk header announces.
pub open spec fn chunk_size(header: u16) -> int {
    header as int % 0x1000 + 1
}

/// The chunk at the start of `input`, and what is left behind it.
///
/// There is no answer where the data is shorter than its header says.
pub open spec fn chunk(input: Seq<u8>) -> Option<Parsed<Seq<u8>>> {
    if input.len() < 2 {
        Some(Err(FormatError::Syntax(input, ErrorKind::Eof)))
    } else {
        let header = le16(input);
        let data = input.skip(2);
        if header as int / 0x1000 % 8 != 3 {
            Some(Err(FormatError::UnexpectedValue))
        } else if data.len() < chunk_size(header) {
            None
        } else if header < 0x8000 {
            Some(Ok((data.skip(chunk_size(header)), data.take(chunk_size(header)))))
        } else {
            match compressed_chunk(data.take(chunk_size(header))) {
                Some(Ok((_, output))) => Some(Ok((data.skip(chunk_size(header)), output))),
                Some(Err(error)) => Some(Err(error)),
                None => None,
            }
        }
    }
}

/// What becomes of the chunks in `input` once `output` has been read from those before them.
pub open spec fn further_chunks(input: Seq<u8>, output: Seq<u8>) -> Option<Parsed<Seq<u8>>>
    decreases input.len(),
{
    match chunk(input) {
        Some(Ok((rest, data))) => further_chunks(rest, output + data),
        Some(Err(_)) => if input.len() == 0 {
            Some(Ok((input, output)))
        } else {
            Some(Err(FormatError::Syntax(input, ErrorKind::Eof)))
        },
        None => None,
    }
}

/// The contents of the compressed container `input`.
///
/// There is no answer where a chunk is cut off, or where a copy token comes behind too many
/// bytes.
pub open spec fn decompressed(input: Seq<u8>) -> Option<Parsed<Seq<u8>>> {
    if input.len() < 1 || input[0] != 1 {
        Some(Err(FormatError::Syntax(input, ErrorKind::Tag)))
    } else {
        match chunk(input.skip(1)) {
            Some(Ok((rest, data))) => further_chunks(rest, data),
            Some(Err(_)) => Some(Err(FormatError::Syntax(input.skip(1), ErrorKind::Many1))),
            None => None,
        }
    }
}

/// Whether `result` is what `parsed` says, where there is an answer at all.
pub open spec fn answers<'a, T: Model>(
    result: Option<Result<(&'a [u8], T), FormatError<&'a [u8]>>>,
    parsed: Option<Parsed<T::M>>,
) -> bool {
    match result {
        Some(answer) => parsed is Some && agrees(answer, parsed->0),
        None => parsed is None,
    }
}

/// Computes the number of lengths that a copy token can express.
pub fn copy_length_span(produced: usize) -> (span: u16)
    ensures
        span == length_span(produced as nat),
{
    if produced <= 0x10 {
        0x1000
    } else if produced <= 0x20 {
        0x800
    } else if produced <= 0x40 {
        0x400
    } else if produced <= 0x80 {
        0x200
    } else if produced <= 0x100 {
        0x100
    } else if produced <= 0x200 {
        0x80
    } else if produced <= 0x400 {
        0x40
    } else if produced <= 0x800 {
        0x20
    } else if produced <= 0x1000 {
        0x10
    } else if produced <= 0x2000 {
        8
    } else if produced <= 0x4000 {
        4
    } else {
        2
    }
}

/// Reads the data of a chunk that is stored as is.
pub fn uncompressed_chunk_parser(i: &[u8]) -> (result: Result<
    (&[u8], Vec<u8>),
    FormatError<&[u8]>,
>)
    ensures
        agrees(result, Ok((Seq::empty(), i@))),
{
    let rest = skip(i, i.len());
    assert(rest@ == Seq::<u8>::empty());
    Ok((rest, slice_to_vec(i)))
}

/// Appends `length` bytes to `output`, each of which repeats the byte `offset` places before it.
fn repeat_from(output: &mut Vec<u8>, offset: usize, length: usize)
    requires
        0 < offset <= old(output)@.len(),
    ensures
        final(output)@ == repeated(old(output)@, offset as int, length as int),
{
    let ghost target = repeated(output@, offset as int, length as int);
    let mut k: usize = 0;
    while k < length
        invariant
            k <= length,
            0 < offset <= output@.len(),
            repeated(output@, offset as int, length - k) == target,
        decreases length - k,
    {
        let byte: u8 = output[output.len() - offset];
        output.push(byte);
        k = k + 1;
    }
}

/// Reads the data of a compressed chunk.
///
/// The result is `None` where a copy token comes behind more than [`MAX_HISTORY`] bytes.
pub fn compressed_chunk_parser(i: &[u8]) -> (result: Option<
    Result<(&[u8], Vec<u8>), FormatError<&[u8]>>,
>)
    ensures
        answers(result, compressed_chunk(i@)),
{
    let ghost target = unpacked_data(i@);
    let mut result: Vec<u8> = Vec::with_capacity(4096);
    let mut input = i;
    while input.len() > 0
        invariant
            unpacked(0, 8, input@, result@) == target,
            target == unpacked_data(i@),
        decreases input@.len(),
    {
        let ghost remaining = input@.len();
        let flags: u8 = input[0];
        input = skip(input, 1);
        let mut index: u8 = 0;
        while index < 8
            invariant
                index <= 8,
                input@.len() < remaining,
                unpacked(flags, index as int, input@, result@) == target,
                target == unpacked_data(i@),
            decreases 8 - index,
        {
            if input.len() == 0 {
                assert(input@ == Seq::<u8>::empty());
                return Some(Ok((input, result)));
            }
            if (flags >> index) & 1 == 1 {
                if input.len() < 2 {
                    return Some(Err(FormatError::Syntax(input, ErrorKind::Eof)));
                }
                if result.len() > MAX_HISTORY {
                    return None;
                }
                let token: u16 = match le_u16(input) {
                    Ok((_, token)) => token,
                    Err(error) => {
                        return Some(Err(error));
                    },
                };
                let span: u16 = copy_length_span(result.len());
                let length: usize = (token % span) as usize + 3;
                let offset: usize = (token / span) as usize + 1;
                if offset > result.len() {
                    return Some(Err(FormatError::Syntax(input, ErrorKind::Verify)));
                }
                input = skip(input, 2);
                repeat_from(&mut result, offset, length);
            } else {
                result.push(input[0]);
                input = skip(input, 1);
            }
            index = index + 1;
        }
    }
    assert(input@ == Seq::<u8>::empty());
    Some(Ok((input, result)))
}

/// Reads a chunk.
///
/// The result is `None` where the data is shorter than its header says, or where a copy token
/// comes behind more than [`MAX_HISTORY`] bytes.
pub fn chunk_parser(i: &[u8]) -> (result: Option<
    Result<(&[u8], Vec<u8>), FormatError<&[u8]>>,
>)
    ensures
        answers(result, chunk(i@)),
{
    let (data, header) = match le_u16(i) {
        Ok((data, header)) => (data, header),
        Err(error) => {
            return Some(Err(error));
        },
    };
    if header / 0x1000 % 8 != 3 {
        return Some(Err(FormatError::UnexpectedValue));
    }
    let size: usize = (header % 0x1000) as usize + 1;
    if data.len() < size {
        return None;
    }
    let content = slice_subrange(data, 0, size);
    let remainder = skip(data, size);
    if header >= 0x8000 {
        match compressed_chunk_parser(content) {
            Some(Ok((_, output))) => Some(Ok((remainder, output))),
            Some(Err(error)) => Some(Err(error)),
            None => None,
        }
    } else {
        match uncompressed_chunk_parser(content) {
            Ok((_, output)) => Some(Ok((remainder, output))),
            Err(error) => Some(Err(error)),
        }
    }
}

/// Decompresses a container, whatever bytes it consists of.
///
/// The result is `None` where a chunk is cut off, or where a copy token comes behind more than
/// [`MAX_HISTORY`] bytes of a chunk.
pub fn try_decompress(i: &[u8]) -> (result: Option<
    Result<(&[u8], Vec<u8>), FormatError<&[u8]>>,
>)
    ensures
        answers(result, decompressed(i@)),
{
    if i.len() < 1 || i[0] != 1 {
        return Some(Err(FormatError::Syntax(i, ErrorKind::Tag)));
    }
    let body = skip(i, 1);
    let (mut rest, mut output) = match chunk_parser(body) {
        Some(Ok((rest, output))) => (rest, output),
        Some(Err(_)) => {
            return Some(Err(FormatError::Syntax(body, ErrorKind::Many1)));
        },
        None => {
            return None;
        },
    };
    while rest.len() > 0
        invariant
            further_chunks(rest@, output@) == decompressed(i@),
        decreases rest@.len(),
    {
        match chunk_parser(rest) {
            Some(Ok((remainder, data))) => {
                let mut data = data;
                output.append(&mut data);
                rest = remainder;
            },
            Some(Err(_)) => {
                return Some(Err(FormatError::Syntax(rest, ErrorKind::Eof)));
            },
            None => {
                return None;
            },
        }
    }
    Some(Ok((rest, output)))
}

/// Decompresses a container that holds all the bytes that its chunk headers announce, and no
/// copy token behind more than [`MAX_HISTORY`] bytes of a chunk.
pub fn decompress(i: &[u8]) -> (result: Result<(&[u8], Vec<u8>), FormatError<&[u8]>>)
    requires
        decompressed(i@) is Some,
    ensures
        agrees(result, decompressed(i@)->0),
{
    try_decompress(i).unwrap()
}

/// A container is decompressed only as a whole: nothing is left behind its last chunk.
pub proof fn lemma_decompression_consumes_all(input: Seq<u8>)
    ensures
        decompressed(input) matches Some(Ok((rest, output))) ==> rest.len() == 0,
{
    if let Some(Ok((rest, data))) = chunk(input.skip(1)) {
        lemma_further_chunks_consume_all(rest, data);
    }
}

proof fn lemma_further_chunks_consume_all(input: Seq<u8>, output: Seq<u8>)
    ensures
        further_chunks(input, output) matches Some(Ok((rest, _))) ==> rest.len() == 0,
    decreases input.len(),
{
    if let Some(Ok((rest, data))) = chunk(input) {
        lemma_further_chunks_consume_all(rest, output + data);
    }
}

} // verus!
