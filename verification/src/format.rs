//! The vocabulary in which the record parsers and their contracts are written.

use vstd::prelude::*;

verus! {

/// What kind of syntax a record was expected to have at the place where it was rejected.
#[derive(Debug, Clone, Copy, PartialEq, Eq, Structural)]
pub enum ErrorKind {
    /// A fixed byte sequence was expected.
    Tag,
    /// More input, or no more input, was expected.
    Eof,
    /// A value was read that makes no sense in its context.
    Verify,
    /// At least one repetition was expected.
    Many1,
}

/// Why an input was rejected.
#[derive(Debug, PartialEq)]
pub enum FormatError<I> {
    /// A field holds a value that the format does not assign a meaning to.
    UnexpectedValue,
    /// The input that was left when the given kind of syntax was not found.
    Syntax(I, ErrorKind),
    /// A size field announces more bytes than there are; the number of missing bytes.
    Incomplete(usize),
}

impl<'a> FormatError<&'a [u8]> {
    /// The error, with the bytes that it points to in place of the slice.
    pub open spec fn model(self) -> FormatError<Seq<u8>> {
        match self {
            FormatError::UnexpectedValue => FormatError::UnexpectedValue,
            FormatError::Syntax(input, kind) => FormatError::Syntax(input@, kind),
            FormatError::Incomplete(missing) => FormatError::Incomplete(missing),
        }
    }
}

/// What a parser makes of an input: the input that is left with the value read, or the reason
/// for rejecting it.
pub type Parsed<T> = Result<(Seq<u8>, T), FormatError<Seq<u8>>>;

/// Values that stand for a mathematical value.
pub trait Model {
    /// The type of the mathematical value.
    type M;

    /// The mathematical value.
    spec fn model(&self) -> Self::M;
}

impl Model for u16 {
    type M = u16;

    open spec fn model(&self) -> u16 {
        *self
    }
}

impl Model for u32 {
    type M = u32;

    open spec fn model(&self) -> u32 {
        *self
    }
}

impl Model for () {
    type M = ();

    open spec fn model(&self) -> () {
        ()
    }
}

impl Model for &[u8] {
    type M = Seq<u8>;

    open spec fn model(&self) -> Seq<u8> {
        self@
    }
}

impl Model for Vec<u8> {
    type M = Seq<u8>;

    open spec fn model(&self) -> Seq<u8> {
        self@
    }
}

impl Model for String {
    type M = Seq<char>;

    open spec fn model(&self) -> Seq<char> {
        self@
    }
}

impl<A: Model, B: Model> Model for (A, B) {
    type M = (A::M, B::M);

    open spec fn model(&self) -> (A::M, B::M) {
        (self.0.model(), self.1.model())
    }
}

impl<T: Model> Model for Option<T> {
    type M = Option<T::M>;

    open spec fn model(&self) -> Option<T::M> {
        match self {
            Some(value) => Some(value.model()),
            None => None,
        }
    }
}

/// Whether `result` is what `parsed` says: the same value with the same bytes left, or the same
/// error.
pub open spec fn agrees<'a, T: Model>(
    result: Result<(&'a [u8], T), FormatError<&'a [u8]>>,
    parsed: Parsed<T::M>,
) -> bool {
    match result {
        Ok((rest, value)) => parsed == Ok::<(Seq<u8>, T::M), FormatError<Seq<u8>>>(
            (rest@, value.model()),
        ),
        Err(error) => parsed == Err::<(Seq<u8>, T::M), FormatError<Seq<u8>>>(error.model()),
    }
}

/// Reads a further field behind a field that was read, or keeps the error.
pub open spec fn followed_by<A, B>(
    first: Parsed<A>,
    next: spec_fn(Seq<u8>, A) -> Parsed<B>,
) -> Parsed<B> {
    match first {
        Ok((rest, value)) => next(rest, value),
        Err(error) => Err(error),
    }
}

/// The value of a record that may be missing: where the record is not found, nothing is read.
///
/// A record whose size field announces more bytes than there are is not missing but broken.
pub open spec fn optional<A>(input: Seq<u8>, record: Parsed<A>) -> Parsed<Option<A>> {
    match record {
        Ok((rest, value)) => Ok((rest, Some(value))),
        Err(FormatError::Incomplete(missing)) => Err(FormatError::Incomplete(missing)),
        Err(_) => Ok((input, None)),
    }
}

/// Makes a mandatory record optional.
pub fn opt<'a, T: Model>(
    input: &'a [u8],
    record: Result<(&'a [u8], T), FormatError<&'a [u8]>>,
) -> (result: Result<(&'a [u8], Option<T>), FormatError<&'a [u8]>>)
    ensures
        forall|parsed: Parsed<T::M>| #[trigger]
            agrees(record, parsed) ==> agrees(result, optional(input@, parsed)),
{
    match record {
        Ok((rest, value)) => Ok((rest, Some(value))),
        Err(FormatError::Incomplete(missing)) => Err(FormatError::Incomplete(missing)),
        Err(_) => Ok((input, None)),
    }
}

} // verus!
