//! Records, told from the side of whoever writes them.
//!
//! Every record is an identifier of two bytes, a size of four bytes and as many bytes of contents,
//! the lower bytes of all numbers first.

use vstd::prelude::*;

use crate::bytes::{
    data_field, data_record, le16, le32, sized_field, tag16, tag32, u16_field, u16_record,
    u32_field, u32_record,
};
use crate::format::{optional, ErrorKind, FormatError, Parsed};

verus! {

/// The two bytes of a number.
#[verifier::opaque]
pub open spec fn two(value: int) -> Seq<u8> {
    seq![(value % 0x100) as u8, (value / 0x100 % 0x100) as u8]
}

/// The four bytes of a number.
#[verifier::opaque]
pub open spec fn four(value: int) -> Seq<u8> {
    seq![
        (value % 0x100) as u8,
        (value / 0x100 % 0x100) as u8,
        (value / 0x1_0000 % 0x100) as u8,
        (value / 0x100_0000 % 0x100) as u8,
    ]
}

/// The bytes of a record.
#[verifier::opaque]
pub open spec fn record(id: u16, contents: Seq<u8>) -> Seq<u8> {
    two(id as int) + four(contents.len() as int) + contents
}

/// Whether the size of the contents fits in a record.
pub open spec fn fits(contents: Seq<u8>) -> bool {
    contents.len() <= u32::MAX
}

/// Whether the input starts with the given identifier.
pub open spec fn starts_with(input: Seq<u8>, id: u16) -> bool {
    input.len() >= 2 && input[0] == id % 0x100 && input[1] == id / 0x100
}

/// What a parser says that reads a value and leaves the rest.
pub open spec fn gives<T>(rest: Seq<u8>, value: T) -> Parsed<T> {
    Ok((rest, value))
}

/// What a parser says that does not find the identifier of a record where the input starts.
pub open spec fn rejects_at<T>(input: Seq<u8>) -> Parsed<T> {
    Err(FormatError::Syntax(input, ErrorKind::Tag))
}

/// The two bytes of a number are read as the number.
pub proof fn lemma_two(value: u16, rest: Seq<u8>)
    ensures
        u16_field(two(value as int) + rest) == gives(rest, value),
        tag16(two(value as int) + rest, value) == gives(rest, ()),
        two(value as int).len() == 2,
        starts_with(two(value as int) + rest, value),
{
    reveal(two);
    let input = two(value as int) + rest;
    assert(le16(input) == value);
    assert(input.skip(2) == rest);
}

/// The four bytes of a number are read as the number.
pub proof fn lemma_four(value: u32, rest: Seq<u8>)
    ensures
        u32_field(four(value as int) + rest) == gives(rest, value),
        tag32(four(value as int) + rest, value) == gives(rest, ()),
        four(value as int).len() == 4,
{
    reveal(four);
    let input = four(value as int) + rest;
    assert(le32(input) == value);
    assert(input.skip(4) == rest);
}

/// As many bytes as are asked for are read, and those behind them are left.
pub proof fn lemma_bytes(data: Seq<u8>, rest: Seq<u8>)
    ensures
        data_field(data + rest, data.len()) == gives(rest, data),
{
    assert((data + rest).skip(data.len() as int) == rest);
    assert((data + rest).take(data.len() as int) == data);
}

/// Bytes behind their number are read as they are.
pub proof fn lemma_sized(data: Seq<u8>, rest: Seq<u8>)
    requires
        fits(data),
    ensures
        sized_field(four(data.len() as int) + data + rest) == gives(rest, data),
{
    let input = four(data.len() as int) + data + rest;
    assert(input == four(data.len() as int) + (data + rest));
    lemma_four(data.len() as u32, data + rest);
    lemma_bytes(data, rest);
}

/// The contents of a record are read as they are.
pub proof fn lemma_record(id: u16, contents: Seq<u8>, rest: Seq<u8>)
    requires
        fits(contents),
    ensures
        data_record(record(id, contents) + rest, id) == gives(rest, contents),
        optional(record(id, contents) + rest, data_record(record(id, contents) + rest, id))
            == gives(rest, Some(contents)),
        starts_with(record(id, contents) + rest, id),
        record(id, contents).len() == contents.len() + 6,
{
    reveal(record);
    reveal(data_record);
    let behind = four(contents.len() as int) + contents + rest;
    lemma_four(contents.len() as u32, rest);
    assert(record(id, contents) + rest == two(id as int) + behind);
    lemma_two(id, behind);
    lemma_sized(contents, rest);
}

/// The number in a record of four bytes is read as it is.
pub proof fn lemma_u32_record(id: u16, value: u32, rest: Seq<u8>)
    ensures
        u32_record(record(id, four(value as int)) + rest, id) == gives(rest, value),
        optional(
            record(id, four(value as int)) + rest,
            u32_record(record(id, four(value as int)) + rest, id),
        ) == gives(rest, Some(value)),
        starts_with(record(id, four(value as int)) + rest, id),
{
    reveal(record);
    reveal(u32_record);
    let number = four(value as int) + rest;
    let behind = four(4) + number;
    lemma_four(value, rest);
    assert(record(id, four(value as int)) + rest == two(id as int) + behind);
    lemma_two(id, behind);
    lemma_four(4, number);
}

/// The number in a record of two bytes is read as it is.
pub proof fn lemma_u16_record(id: u16, value: u16, rest: Seq<u8>)
    ensures
        u16_record(record(id, two(value as int)) + rest, id) == gives(rest, value),
        starts_with(record(id, two(value as int)) + rest, id),
{
    reveal(record);
    reveal(u16_record);
    let number = two(value as int) + rest;
    let behind = four(2) + number;
    lemma_two(value, rest);
    assert(record(id, two(value as int)) + rest == two(id as int) + behind);
    lemma_two(id, behind);
    lemma_four(2, number);
}

/// A record that may be missing is missing where the input does not start with its identifier; one
/// that must not be missing is then rejected.
pub proof fn lemma_missing(input: Seq<u8>, id: u16)
    requires
        !starts_with(input, id),
    ensures
        tag16(input, id) == Err::<(Seq<u8>, ()), FormatError<Seq<u8>>>(
            FormatError::Syntax(input, ErrorKind::Tag),
        ),
        data_record(input, id) == Err::<(Seq<u8>, Seq<u8>), FormatError<Seq<u8>>>(
            FormatError::Syntax(input, ErrorKind::Tag),
        ),
        u32_record(input, id) == Err::<(Seq<u8>, u32), FormatError<Seq<u8>>>(
            FormatError::Syntax(input, ErrorKind::Tag),
        ),
        u16_record(input, id) == Err::<(Seq<u8>, u16), FormatError<Seq<u8>>>(
            FormatError::Syntax(input, ErrorKind::Tag),
        ),
        optional(input, data_record(input, id)) == gives(input, None::<Seq<u8>>),
        optional(input, u32_record(input, id)) == gives(input, None::<u32>),
{
    reveal(data_record);
    reveal(u32_record);
    reveal(u16_record);
    if input.len() >= 2 && le16(input) == id {
        assert(input[0] == id % 0x100);
    }
}

/// A record is rejected where the input does not start with its identifier.
pub proof fn lemma_where_missing(input: Seq<u8>, id: u16)
    ensures
        !starts_with(input, id) ==> {
            &&& tag16(input, id) == rejects_at::<()>(input)
            &&& data_record(input, id) == rejects_at::<Seq<u8>>(input)
            &&& u32_record(input, id) == rejects_at::<u32>(input)
            &&& u16_record(input, id) == rejects_at::<u16>(input)
        },
{
    if !starts_with(input, id) {
        lemma_missing(input, id);
    }
}

/// Joining sequences is associative.
proof fn lemma_joined(a: Seq<u8>, b: Seq<u8>, c: Seq<u8>, d: Seq<u8>)
    ensures
        a + b + c + d == a + (b + (c + d)),
{
}

/// The first two and the first four bytes of an input are those of the number that they are read
/// as.
pub proof fn lemma_number_is_there(input: Seq<u8>)
    ensures
        input.len() >= 2 ==> input == two(le16(input) as int) + input.skip(2),
        input.len() >= 4 ==> input == four(le32(input) as int) + input.skip(4),
{
    reveal(two);
    reveal(four);
    if input.len() >= 2 {
        let value = le16(input);
        assert((value % 0x100) as u8 == input[0]);
        assert((value / 0x100 % 0x100) as u8 == input[1]);
    }
    if input.len() >= 4 {
        let value = le32(input) as int;
        assert((value % 0x100) as u8 == input[0]);
        assert((value / 0x100 % 0x100) as u8 == input[1]);
        assert((value / 0x1_0000 % 0x100) as u8 == input[2]);
        assert((value / 0x100_0000 % 0x100) as u8 == input[3]);
    }
}

/// Where bytes behind their number are read, the input consists of them and what is left.
pub proof fn lemma_sized_is_there(input: Seq<u8>)
    ensures
        sized_field(input) matches Ok((rest, data)) ==> input == four(data.len() as int) + data
            + rest && fits(data),
{
    lemma_number_is_there(input);
    if let Ok((rest, data)) = sized_field(input) {
        assert(input.skip(4) == data + rest);
        assert(four(data.len() as int) + data + rest == four(data.len() as int) + (data + rest));
    }
}

/// Where the contents of a record are read, the input consists of the record and what is left.
pub proof fn lemma_record_is_there(input: Seq<u8>, id: u16)
    ensures
        data_record(input, id) matches Ok((rest, contents)) ==> input == record(id, contents) + rest
            && fits(contents),
{
    reveal(record);
    reveal(data_record);
    lemma_number_is_there(input);
    lemma_sized_is_there(input.skip(2));
    if let Ok((rest, contents)) = data_record(input, id) {
        lemma_joined(two(id as int), four(contents.len() as int), contents, rest);
        lemma_joined(Seq::empty(), four(contents.len() as int), contents, rest);
        assert(Seq::<u8>::empty() + four(contents.len() as int) == four(contents.len() as int));
    }
}

/// Where the number in a record of four bytes is read, the input consists of the record and what is
/// left.
pub proof fn lemma_u32_record_is_there(input: Seq<u8>, id: u16)
    ensures
        u32_record(input, id) matches Ok((rest, value)) ==> input == record(id, four(value as int))
            + rest,
{
    reveal(record);
    reveal(u32_record);
    let behind = input.skip(2);
    let number = behind.skip(4);
    lemma_number_is_there(input);
    lemma_number_is_there(behind);
    lemma_number_is_there(number);
    if let Ok((rest, value)) = u32_record(input, id) {
        lemma_four(value, rest);
        lemma_joined(two(id as int), four(4), four(value as int), rest);
    }
}

/// Where the number in a record of two bytes is read, the input consists of the record and what is
/// left.
pub proof fn lemma_u16_record_is_there(input: Seq<u8>, id: u16)
    ensures
        u16_record(input, id) matches Ok((rest, value)) ==> input == record(id, two(value as int))
            + rest,
{
    reveal(record);
    reveal(u16_record);
    let behind = input.skip(2);
    let number = behind.skip(4);
    lemma_number_is_there(input);
    lemma_number_is_there(behind);
    lemma_number_is_there(number);
    if let Ok((rest, value)) = u16_record(input, id) {
        lemma_two(value, rest);
        lemma_joined(two(id as int), four(2), two(value as int), rest);
    }
}

/// An integer or bytes that are cut off are rejected where they start, and so is a tag that is cut
/// off or other than the one that is asked for.
pub proof fn lemma_short_field_is_rejected(input: Seq<u8>, count: nat)
    ensures
        input.len() < 2 ==> u16_field(input) == Err::<(Seq<u8>, u16), FormatError<Seq<u8>>>(
            FormatError::Syntax(input, ErrorKind::Eof),
        ),
        input.len() < 4 ==> u32_field(input) == Err::<(Seq<u8>, u32), FormatError<Seq<u8>>>(
            FormatError::Syntax(input, ErrorKind::Eof),
        ),
        input.len() < count ==> data_field(input, count) == Err::<
            (Seq<u8>, Seq<u8>),
            FormatError<Seq<u8>>,
        >(FormatError::Syntax(input, ErrorKind::Eof)),
        input.len() < 4 ==> sized_field(input) == Err::<(Seq<u8>, Seq<u8>), FormatError<Seq<u8>>>(
            FormatError::Syntax(input, ErrorKind::Eof),
        ),
        forall|value: u32|
            input.len() < 4 || input != four(value as int) + input.skip(4) ==> #[trigger] tag32(
                input,
                value,
            ) == Err::<(Seq<u8>, ()), FormatError<Seq<u8>>>(
                FormatError::Syntax(input, ErrorKind::Tag),
            ),
{
    lemma_number_is_there(input);
}

/// A record whose size announces more bytes than there are is rejected with the number of bytes
/// that are missing, even where the record may be missing; one that is cut off before its contents
/// is rejected behind its identifier.
pub proof fn lemma_short_record_is_rejected(id: u16, size: u32, data: Seq<u8>, start: Seq<u8>)
    requires
        data.len() < size,
        start.len() < 4,
    ensures
        ({
            let input = two(id as int) + (four(size as int) + data);
            let missing = FormatError::<Seq<u8>>::Incomplete((size - data.len()) as usize);
            &&& data_record(input, id) == Err::<(Seq<u8>, Seq<u8>), FormatError<Seq<u8>>>(missing)
            &&& optional(input, data_record(input, id)) == Err::<
                (Seq<u8>, Option<Seq<u8>>),
                FormatError<Seq<u8>>,
            >(missing)
        }),
        data_record(two(id as int) + start, id) == Err::<(Seq<u8>, Seq<u8>), FormatError<Seq<u8>>>(
            FormatError::Syntax(start, ErrorKind::Eof),
        ),
{
    reveal(data_record);
    lemma_two(id, four(size as int) + data);
    lemma_four(size, data);
    lemma_two(id, start);
}

/// A record of an integer whose size is not that of the integer is rejected behind its identifier,
/// and one that is cut off behind its size.
pub proof fn lemma_other_size_is_rejected(id: u16, size: u32, rest: Seq<u8>, start: Seq<u8>)
    ensures
        ({
            let sized = four(size as int) + rest;
            let input = two(id as int) + sized;
            let error = FormatError::Syntax(sized, ErrorKind::Tag);
            &&& size != 4 ==> u32_record(input, id) == Err::<(Seq<u8>, u32), FormatError<Seq<u8>>>(
                error,
            )
            &&& size != 2 ==> u16_record(input, id) == Err::<(Seq<u8>, u16), FormatError<Seq<u8>>>(
                error,
            )
        }),
        start.len() < 4 ==> u32_record(two(id as int) + (four(4) + start), id) == Err::<
            (Seq<u8>, u32),
            FormatError<Seq<u8>>,
        >(FormatError::Syntax(start, ErrorKind::Eof)),
        start.len() < 2 ==> u16_record(two(id as int) + (four(2) + start), id) == Err::<
            (Seq<u8>, u16),
            FormatError<Seq<u8>>,
        >(FormatError::Syntax(start, ErrorKind::Eof)),
{
    reveal(u32_record);
    reveal(u16_record);
    lemma_two(id, four(size as int) + rest);
    lemma_four(size, rest);
    lemma_two(id, four(4) + start);
    lemma_four(4, start);
    lemma_two(id, four(2) + start);
    lemma_four(2, start);
}

} // verus!
