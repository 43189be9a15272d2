//! Fixed-size integers, tags and length-prefixed data.

use vstd::prelude::*;
use vstd::slice::slice_subrange;

use crate::format::{agrees, followed_by, ErrorKind, FormatError, Parsed};

verus! {

/// The little-endian 16-bit integer at the start of `input`.
pub open spec fn le16(input: Seq<u8>) -> u16 {
    (input[0] + 0x100 * input[1]) as u16
}

/// The little-endian 32-bit integer at the start of `input`.
pub open spec fn le32(input: Seq<u8>) -> u32 {
    (input[0] + 0x100 * input[1] + 0x1_0000 * input[2] + 0x100_0000 * input[3]) as u32
}

/// A 16-bit integer.
pub open spec fn u16_field(input: Seq<u8>) -> Parsed<u16> {
    if input.len() < 2 {
        Err(FormatError::Syntax(input, ErrorKind::Eof))
    } else {
        Ok((input.skip(2), le16(input)))
    }
}

/// A 32-bit integer.
pub open spec fn u32_field(input: Seq<u8>) -> Parsed<u32> {
    if input.len() < 4 {
        Err(FormatError::Syntax(input, ErrorKind::Eof))
    } else {
        Ok((input.skip(4), le32(input)))
    }
}

/// The two bytes of `value`.
pub open spec fn tag16(input: Seq<u8>, value: u16) -> Parsed<()> {
    if input.len() < 2 || le16(input) != value {
        Err(FormatError::Syntax(input, ErrorKind::Tag))
    } else {
        Ok((input.skip(2), ()))
    }
}

/// The four bytes of `value`.
pub open spec fn tag32(input: Seq<u8>, value: u32) -> Parsed<()> {
    if input.len() < 4 || le32(input) != value {
        Err(FormatError::Syntax(input, ErrorKind::Tag))
    } else {
        Ok((input.skip(4), ()))
    }
}

/// `count` bytes.
pub open spec fn data_field(input: Seq<u8>, count: nat) -> Parsed<Seq<u8>> {
    if input.len() < count {
        Err(FormatError::Syntax(input, ErrorKind::Eof))
    } else {
        Ok((input.skip(count as int), input.take(count as int)))
    }
}

/// A 32-bit size and as many bytes.
pub open spec fn sized_field(input: Seq<u8>) -> Parsed<Seq<u8>> {
    followed_by(
        u32_field(input),
        |rest: Seq<u8>, size: u32|
            if rest.len() < size {
                Err(FormatError::Incomplete((size - rest.len()) as usize))
            } else {
                Ok((rest.skip(size as int), rest.take(size as int)))
            },
    )
}

/// A record of variable size: its identifier, a 32-bit size and as many bytes.
#[verifier::opaque]
pub open spec fn data_record(input: Seq<u8>, id: u16) -> Parsed<Seq<u8>> {
    followed_by(tag16(input, id), |rest: Seq<u8>, _id: ()| sized_field(rest))
}

/// A record of variable size takes up six bytes more than it holds.
pub broadcast proof fn lemma_data_record_size(input: Seq<u8>, id: u16)
    ensures
        (#[trigger] data_record(input, id)) matches Ok((rest, data)) ==> rest.len() + data.len() + 6
            == input.len(),
{
    reveal(data_record);
}

/// A record that holds a 16-bit integer: its identifier, the size 2 and the integer.
#[verifier::opaque]
pub open spec fn u16_record(input: Seq<u8>, id: u16) -> Parsed<u16> {
    followed_by(
        tag16(input, id),
        |rest: Seq<u8>, _id: ()|
            followed_by(tag32(rest, 2), |rest: Seq<u8>, _size: ()| u16_field(rest)),
    )
}

/// A record that holds a 32-bit integer: its identifier, the size 4 and the integer.
#[verifier::opaque]
pub open spec fn u32_record(input: Seq<u8>, id: u16) -> Parsed<u32> {
    followed_by(
        tag16(input, id),
        |rest: Seq<u8>, _id: ()|
            followed_by(tag32(rest, 4), |rest: Seq<u8>, _size: ()| u32_field(rest)),
    )
}

/// A record that holds a 16-bit integer takes up eight bytes.
pub broadcast proof fn lemma_u16_record_size(input: Seq<u8>, id: u16)
    ensures
        (#[trigger] u16_record(input, id)) matches Ok((rest, _)) ==> rest.len() + 8 == input.len(),
{
    reveal(u16_record);
}

/// A record that holds a 32-bit integer takes up ten bytes, and is not cut off within its contents.
pub broadcast proof fn lemma_u32_record_size(input: Seq<u8>, id: u16)
    ensures
        match #[trigger] u32_record(input, id) {
            Ok((rest, _)) => rest.len() + 10 == input.len(),
            Err(error) => !(error is Incomplete),
        },
{
    reveal(u32_record);
}

/// The bytes of `input` from the `count`-th on.
pub fn skip(input: &[u8], count: usize) -> (rest: &[u8])
    requires
        count <= input@.len(),
    ensures
        rest@ == input@.skip(count as int),
{
    slice_subrange(input, count, input.len())
}

/// Reads a 16-bit integer.
pub fn le_u16(i: &[u8]) -> (result: Result<(&[u8], u16), FormatError<&[u8]>>)
    ensures
        agrees(result, u16_field(i@)),
{
    if i.len() < 2 {
        Err(FormatError::Syntax(i, ErrorKind::Eof))
    } else {
        let value: u16 = i[0] as u16 + 0x100 * (i[1] as u16);
        Ok((skip(i, 2), value))
    }
}

/// Reads a 32-bit integer.
pub fn le_u32(i: &[u8]) -> (result: Result<(&[u8], u32), FormatError<&[u8]>>)
    ensures
        agrees(result, u32_field(i@)),
{
    if i.len() < 4 {
        Err(FormatError::Syntax(i, ErrorKind::Eof))
    } else {
        let value: u32 = i[0] as u32 + 0x100 * (i[1] as u32) + 0x1_0000 * (i[2] as u32)
            + 0x100_0000 * (i[3] as u32);
        Ok((skip(i, 4), value))
    }
}

/// Expects the two bytes of `value`.
pub fn tag_u16(i: &[u8], value: u16) -> (result: Result<(&[u8], ()), FormatError<&[u8]>>)
    ensures
        agrees(result, tag16(i@, value)),
{
    match le_u16(i) {
        Ok((rest, found)) => if found == value {
            Ok((rest, ()))
        } else {
            Err(FormatError::Syntax(i, ErrorKind::Tag))
        },
        Err(_) => Err(FormatError::Syntax(i, ErrorKind::Tag)),
    }
}

/// Expects the four bytes of `value`.
pub fn tag_u32(i: &[u8], value: u32) -> (result: Result<(&[u8], ()), FormatError<&[u8]>>)
    ensures
        agrees(result, tag32(i@, value)),
{
    match le_u32(i) {
        Ok((rest, found)) => if found == value {
            Ok((rest, ()))
        } else {
            Err(FormatError::Syntax(i, ErrorKind::Tag))
        },
        Err(_) => Err(FormatError::Syntax(i, ErrorKind::Tag)),
    }
}

/// Reads `count` bytes.
pub fn take(i: &[u8], count: usize) -> (result: Result<(&[u8], &[u8]), FormatError<&[u8]>>)
    ensures
        agrees(result, data_field(i@, count as nat)),
{
    if i.len() < count {
        Err(FormatError::Syntax(i, ErrorKind::Eof))
    } else {
        Ok((skip(i, count), slice_subrange(i, 0, count)))
    }
}

/// Reads a 32-bit size and as many bytes.
pub fn length_data(i: &[u8]) -> (result: Result<(&[u8], &[u8]), FormatError<&[u8]>>)
    ensures
        agrees(result, sized_field(i@)),
{
    let (i, size) = le_u32(i)?;
    let size: usize = size as usize;
    if i.len() < size {
        Err(FormatError::Incomplete(size - i.len()))
    } else {
        Ok((skip(i, size), slice_subrange(i, 0, size)))
    }
}

/// Reads a record of variable size.
pub fn parse_data_record(i: &[u8], id: u16) -> (result: Result<
    (&[u8], &[u8]),
    FormatError<&[u8]>,
>)
    ensures
        agrees(result, data_record(i@, id)),
{
    proof {
        reveal(data_record);
    }
    let (i, _) = tag_u16(i, id)?;
    length_data(i)
}

/// Reads a record that holds a 16-bit integer.
pub fn parse_u16_record(i: &[u8], id: u16) -> (result: Result<(&[u8], u16), FormatError<&[u8]>>)
    ensures
        agrees(result, u16_record(i@, id)),
{
    proof {
        reveal(u16_record);
    }
    let (i, _) = tag_u16(i, id)?;
    let (i, _) = tag_u32(i, 2)?;
    le_u16(i)
}

/// Reads a record that holds a 32-bit integer.
pub fn parse_u32_record(i: &[u8], id: u16) -> (result: Result<(&[u8], u32), FormatError<&[u8]>>)
    ensures
        agrees(result, u32_record(i@, id)),
{
    proof {
        reveal(u32_record);
    }
    let (i, _) = tag_u16(i, id)?;
    let (i, _) = tag_u32(i, 4)?;
    le_u32(i)
}

} // verus!
