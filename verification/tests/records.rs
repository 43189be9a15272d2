use nom::multi::length_data as nom_length_data;
use nom::number::complete::{le_u16 as nom_le_u16, le_u32 as nom_le_u32};
use ovba::bytes::{le_u16, le_u32, length_data, tag_u16, tag_u32, take};
use ovba::format::{opt, ErrorKind, FormatError};

type NomResult<'a, T> = nom::IResult<&'a [u8], T, nom::error::Error<&'a [u8]>>;

/// What a combinator says, in terms of this library.
fn outcome<'a, T>(result: NomResult<'a, T>) -> Result<(&'a [u8], T), FormatError<&'a [u8]>> {
    match result {
        Ok(found) => Ok(found),
        Err(nom::Err::Incomplete(nom::Needed::Size(size))) => {
            Err(FormatError::Incomplete(size.get()))
        }
        Err(nom::Err::Error(error)) => Err(FormatError::Syntax(
            error.input,
            match error.code {
                nom::error::ErrorKind::Tag => ErrorKind::Tag,
                nom::error::ErrorKind::Eof => ErrorKind::Eof,
                other => panic!("{:?}", other),
            },
        )),
        Err(other) => panic!("{:?}", other),
    }
}

fn inputs() -> Vec<Vec<u8>> {
    let mut inputs = vec![
        b"\x03\0\0\0abc".to_vec(),
        b"\x03\0\0\0abcdef".to_vec(),
        b"\x09\0\0\0abc".to_vec(),
        b"\xff\xff\xff\xff".to_vec(),
        b"\0\0\0\0".to_vec(),
    ];
    for length in 0..6 {
        inputs.push((1..=length).collect());
    }
    inputs
}

#[test]
fn integers_agree_with_the_combinators() {
    for input in inputs() {
        assert_eq!(le_u16(&input), outcome(nom_le_u16(&input[..])));
        assert_eq!(le_u32(&input), outcome(nom_le_u32(&input[..])));
    }
}

#[test]
fn tags_agree_with_the_combinators() {
    for input in inputs() {
        let found = outcome(nom::bytes::complete::tag(&[1u8, 2][..])(&input[..]));
        assert_eq!(
            tag_u16(&input, 0x0201),
            found.map(|(rest, _): (&[u8], &[u8])| (rest, ()))
        );
        let found = outcome(nom::bytes::complete::tag(&[1u8, 2, 3, 4][..])(&input[..]));
        assert_eq!(
            tag_u32(&input, 0x0403_0201),
            found.map(|(rest, _): (&[u8], &[u8])| (rest, ()))
        );
    }
}

#[test]
fn data_agrees_with_the_combinators() {
    for input in inputs() {
        assert_eq!(
            length_data(&input),
            outcome(nom_length_data(nom_le_u32)(&input[..]))
        );
        assert_eq!(
            take(&input, 4),
            outcome(nom::bytes::complete::take(4usize)(&input[..]))
        );
    }
}

#[test]
fn optional_data_agrees_with_the_combinators() {
    for input in inputs() {
        assert_eq!(
            opt(&input, length_data(&input)),
            outcome(nom::combinator::opt(nom_length_data(nom_le_u32))(&input[..]))
        );
    }
}
