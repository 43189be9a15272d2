//! What the data of a compressed chunk means, told from the side of whoever writes it.
//!
//! A chunk is written as a sequence of tokens. Each token covers a range of the bytes that the
//! chunk stands for: a literal token one byte, which it holds, and a copy token a run of bytes, all
//! of which stand a fixed number of places before as well.

use vstd::arithmetic::power2::{lemma2_to64, pow2};
use vstd::bits::lemma_u8_shr_is_div;
use vstd::prelude::*;

use crate::bytes::le16;
use crate::decompression::{
    compressed_chunk, copy_length, copy_offset, is_copy, is_offset_width,
    lemma_length_takes_other_bits, lemma_offset_has_width, length_span, repeated, unpacked,
};
use crate::format::{ErrorKind, FormatError};

verus! {

/// A token of a compressed chunk.
pub enum Token {
    /// A byte that stands for itself.
    Literal(u8),
    /// A reference to bytes that were produced before.
    Copy(u16),
}

/// The bytes of a token: a literal byte, or the two bytes of a reference, the lower one first.
pub open spec fn written(token: Token) -> Seq<u8> {
    match token {
        Token::Literal(byte) => seq![byte],
        Token::Copy(word) => seq![(word % 0x100) as u8, (word / 0x100) as u8],
    }
}

/// The bytes of the tokens from the `from`-th on. A flag byte stands in front of every eighth.
pub open spec fn packed_from(flags: Seq<u8>, tokens: Seq<Token>, from: int) -> Seq<u8>
    decreases tokens.len() - from,
{
    let flag = if from % 8 == 0 && from / 8 < flags.len() {
        seq![flags[from / 8]]
    } else {
        Seq::empty()
    };
    if from < tokens.len() {
        flag + (written(tokens[from]) + packed_from(flags, tokens, from + 1))
    } else {
        flag
    }
}

/// The data of a compressed chunk that consists of the given flag bytes and tokens.
pub open spec fn packed(flags: Seq<u8>, tokens: Seq<Token>) -> Seq<u8> {
    packed_from(flags, tokens, 0)
}

/// Whether the bit for the `index`-th token of a chunk is set in its flag bytes: the lowest bit of
/// a flag byte is the one for the token behind it.
pub open spec fn is_flagged(flags: Seq<u8>, index: int) -> bool {
    flags[index / 8] as int / pow2((index % 8) as nat) as int % 2 == 1
}

/// Whether there are as many flag bytes as the tokens need, or one more that no token follows, and
/// their bits tell copy tokens from literal tokens.
pub open spec fn flags_fit(flags: Seq<u8>, tokens: Seq<Token>) -> bool {
    &&& (tokens.len() + 7) / 8 <= flags.len() <= tokens.len() / 8 + 1
    &&& forall|i: int|
        0 <= i < tokens.len() ==> (#[trigger] tokens[i] is Copy <==> is_flagged(flags, i))
}

/// Whether the upper `width` bits of a copy token behind `at` bytes hold its offset: they are as
/// many as it takes to number those bytes, and at least four.
pub open spec fn takes_bits(at: int, width: nat) -> bool {
    &&& 4 <= width <= 15
    &&& 0 <= at <= pow2(width)
    &&& forall|fewer: nat| 4 <= fewer < width ==> #[trigger] pow2(fewer) < at
}

/// Whether a copy token stands for the bytes of `output` between two positions: as many as its
/// lower bits say, and three more, each of which equals the byte as many places before it as its
/// upper bits say, and one more.
pub open spec fn copies(word: u16, output: Seq<u8>, from: int, to: int) -> bool {
    exists|width: nat| #[trigger]
        takes_bits(from, width) && {
            let span = pow2((16 - width) as nat) as int;
            let back = word as int / span + 1;
            &&& back <= from
            &&& to == from + word as int % span + 3
            &&& forall|k: int| from <= k < to ==> #[trigger] output[k] == output[k - back]
        }
}

/// Whether a token stands for the bytes of `output` between two positions.
pub open spec fn covers(token: Token, output: Seq<u8>, from: int, to: int) -> bool {
    &&& 0 <= from < to <= output.len()
    &&& match token {
        Token::Literal(byte) => to == from + 1 && output[from] == byte,
        Token::Copy(word) => copies(word, output, from, to),
    }
}

/// Whether the tokens stand for the bytes of `output`, each for those from its start to the start
/// of the next.
pub open spec fn stand_for(tokens: Seq<Token>, starts: Seq<int>, output: Seq<u8>) -> bool {
    &&& starts.len() == tokens.len() + 1
    &&& starts[0] == 0
    &&& starts[tokens.len() as int] == output.len()
    &&& forall|i: int|
        0 <= i < tokens.len() ==> #[trigger] covers(tokens[i], output, starts[i], starts[i + 1])
}

/// The bits of a copy token are divided in one way only.
pub proof fn lemma_bits_are_divided(at: int, width: nat)
    requires
        takes_bits(at, width),
    ensures
        at <= 0x8000,
        is_offset_width(at as nat, width),
        length_span(at as nat) == pow2((16 - width) as nat),
        pow2((16 - width) as nat) > 0,
{
    lemma2_to64();
    if width > 4 {
        assert(pow2((width - 1) as nat) < at);
    }
    lemma_length_takes_other_bits(at as nat, width);
}

/// Behind at most 0x8000 bytes, the bits of a copy token can be divided.
pub proof fn lemma_bits_can_be_divided(at: int)
    requires
        0 <= at <= 0x8000,
    ensures
        exists|width: nat| takes_bits(at, width),
{
    let produced = at as nat;
    lemma_offset_has_width(produced);
    lemma2_to64();
    let width = choose|width: nat| is_offset_width(produced, width);
    assert(takes_bits(at, width));
}

/// Repeating bytes gives those that are repeated.
proof fn lemma_repeated_bytes(output: Seq<u8>, at: int, back: int, length: int)
    requires
        1 <= back <= at,
        0 <= length,
        at + length <= output.len(),
        forall|k: int| at <= k < at + length ==> #[trigger] output[k] == output[k - back],
    ensures
        repeated(output.take(at), back, length) == output.take(at + length),
    decreases length,
{
    if length > 0 {
        assert(output[at] == output[at - back]);
        assert(output.take(at).push(output[at - back]) == output.take(at + 1));
        lemma_repeated_bytes(output, at + 1, back, length - 1);
    }
}

/// A bit of a flag byte, as a number and as a bit.
pub proof fn lemma_flag_bit(flags: Seq<u8>, index: int)
    requires
        0 <= index,
    ensures
        is_copy(flags[index / 8], index % 8) == is_flagged(flags, index),
{
    let byte = flags[index / 8];
    let shift = (index % 8) as u8;
    lemma_u8_shr_is_div(byte, shift);
    assert((byte >> shift) & 1 == (byte >> shift) % 2) by (bit_vector);
}

/// Reading a token leaves what stands behind it, and the bytes that it stands for have been
/// produced.
proof fn lemma_token_is_read(
    token: Token,
    flag: u8,
    index: int,
    behind: Seq<u8>,
    output: Seq<u8>,
    from: int,
    to: int,
)
    requires
        covers(token, output, from, to),
        0 <= index < 8,
        is_copy(flag, index) <==> token is Copy,
    ensures
        unpacked(flag, index, written(token) + behind, output.take(from)) == unpacked(
            flag,
            index + 1,
            behind,
            output.take(to),
        ),
{
    let input = written(token) + behind;
    let produced = output.take(from);
    match token {
        Token::Literal(byte) => {
            assert(input[0] == byte);
            assert(input.skip(1) == behind);
            assert(produced.push(byte) == output.take(to));
        },
        Token::Copy(word) => {
            let width = choose|width: nat| #[trigger]
                takes_bits(from, width) && {
                    let span = pow2((16 - width) as nat) as int;
                    let back = word as int / span + 1;
                    &&& back <= from
                    &&& to == from + word as int % span + 3
                    &&& forall|k: int| from <= k < to ==> #[trigger] output[k] == output[k - back]
                };
            lemma_bits_are_divided(from, width);
            let span = length_span(from as nat);
            assert(0 <= word as int / span) by (nonlinear_arith)
                requires
                    word >= 0,
                    span > 0,
            ;
            lemma_repeated_bytes(
                output,
                from,
                copy_offset(word, from as nat),
                copy_length(word, from as nat),
            );
            assert(input[0] == (word % 0x100) as u8);
            assert(input[1] == (word / 0x100) as u8);
            assert(le16(input) == word);
            assert(input.skip(2) == behind);
        },
    }
}

/// Reading the tokens from the `from`-th on leaves what stands behind them, and the bytes that
/// they stand for have been produced.
proof fn lemma_tokens_are_read(
    flags: Seq<u8>,
    tokens: Seq<Token>,
    starts: Seq<int>,
    output: Seq<u8>,
    from: int,
    previous: u8,
    tail: Seq<u8>,
)
    requires
        flags_fit(flags, tokens),
        stand_for(tokens, starts, output),
        0 <= from <= tokens.len(),
        from % 8 != 0 ==> previous == flags[from / 8],
        flags.len() <= tokens.len() / 8 ==> tail.len() == 0,
    ensures
        0 <= starts[from] <= output.len(),
        ({
            let (n, started) = (tokens.len() as int, flags.len() > tokens.len() / 8);
            unpacked(
                previous,
                if from % 8 == 0 {
                    8
                } else {
                    from % 8
                },
                packed_from(flags, tokens, from) + tail,
                output.take(starts[from]),
            ) == if started {
                unpacked(flags[n / 8], n % 8, tail, output)
            } else {
                Some(Ok(output))
            }
        }),
    decreases tokens.len() - from,
{
    let n = tokens.len() as int;
    let index = if from % 8 == 0 {
        8
    } else {
        from % 8
    };
    let input = packed_from(flags, tokens, from) + tail;
    let produced = output.take(starts[from]);
    if from == n {
        assert(produced == output);
        if from % 8 == 0 && from / 8 < flags.len() {
            assert(input[0] == flags[n / 8]);
            assert(input.skip(1) == tail);
            assert(input.len() > 0);
        } else {
            assert(input == tail);
        }
    } else {
        assert(covers(tokens[from], output, starts[from], starts[from + 1]));
        let flag = flags[from / 8];
        let behind = packed_from(flags, tokens, from + 1) + tail;
        let token = written(tokens[from]) + behind;
        lemma_tokens_are_read(flags, tokens, starts, output, from + 1, flag, tail);
        if from % 8 == 0 {
            assert(input[0] == flag);
            assert(input.skip(1) == token);
        } else {
            assert(input == token);
        }
        assert(unpacked(previous, index, input, produced) == unpacked(
            flag,
            from % 8,
            token,
            produced,
        ));
        lemma_flag_bit(flags, from);
        let next = (from + 1) % 8;
        assert(next == 0 ==> from % 8 + 1 == 8);
        assert(next != 0 ==> from % 8 + 1 == next && (from + 1) / 8 == from / 8);
        lemma_token_is_read(
            tokens[from],
            flag,
            from % 8,
            behind,
            output,
            starts[from],
            starts[from + 1],
        );
    }
}

/// The data of a compressed chunk is read as the bytes that its tokens stand for, whatever those
/// tokens are.
pub proof fn lemma_tokens_are_unpacked(
    flags: Seq<u8>,
    tokens: Seq<Token>,
    starts: Seq<int>,
    output: Seq<u8>,
)
    requires
        flags_fit(flags, tokens),
        stand_for(tokens, starts, output),
    ensures
        compressed_chunk(packed(flags, tokens)) == Some(
            Ok::<(Seq<u8>, Seq<u8>), FormatError<Seq<u8>>>((Seq::empty(), output)),
        ),
{
    lemma_tokens_are_read(flags, tokens, starts, output, 0, 0, Seq::empty());
    assert(output.take(0) == Seq::<u8>::empty());
    assert(packed_from(flags, tokens, 0) + Seq::<u8>::empty() == packed(flags, tokens));
}

/// A copy token of which only one byte is left, or that refers to bytes in front of the first, is
/// rejected; behind more than 0x8000 bytes there is no answer.
pub proof fn lemma_bad_token_is_rejected(
    flags: Seq<u8>,
    tokens: Seq<Token>,
    starts: Seq<int>,
    output: Seq<u8>,
    tail: Seq<u8>,
)
    requires
        flags_fit(flags, tokens),
        stand_for(tokens, starts, output),
        flags.len() > tokens.len() / 8,
        is_flagged(flags, tokens.len() as int),
        tail.len() > 0,
    ensures
        tail.len() == 1 ==> compressed_chunk(packed(flags, tokens) + tail) == Some(
            Err::<(Seq<u8>, Seq<u8>), FormatError<Seq<u8>>>(
                FormatError::Syntax(tail, ErrorKind::Eof),
            ),
        ),
        tail.len() >= 2 && output.len() > 0x8000 ==> compressed_chunk(
            packed(flags, tokens) + tail,
        ) is None,
        forall|width: nat|
            tail.len() >= 2 && #[trigger] takes_bits(output.len() as int, width) && (tail[0] + 0x100
                * tail[1]) / pow2((16 - width) as nat) as int >= output.len() ==> compressed_chunk(
                packed(flags, tokens) + tail,
            ) == Some(
                Err::<(Seq<u8>, Seq<u8>), FormatError<Seq<u8>>>(
                    FormatError::Syntax(tail, ErrorKind::Verify),
                ),
            ),
{
    let n = tokens.len() as int;
    lemma_tokens_are_read(flags, tokens, starts, output, 0, 0, tail);
    assert(output.take(0) == Seq::<u8>::empty());
    lemma_flag_bit(flags, n);
    assert forall|width: nat|
        tail.len() >= 2 && #[trigger] takes_bits(output.len() as int, width) && (tail[0] + 0x100
            * tail[1]) / pow2((16 - width) as nat) as int >= output.len() implies compressed_chunk(
        packed(flags, tokens) + tail,
    ) == Some(
        Err::<(Seq<u8>, Seq<u8>), FormatError<Seq<u8>>>(
            FormatError::Syntax(tail, ErrorKind::Verify),
        ),
    ) by {
        lemma_bits_are_divided(output.len() as int, width);
    }
}

/// Repeating bytes keeps those that are there, and every further byte equals the one `back` places
/// before it.
proof fn lemma_repeating(output: Seq<u8>, back: int, length: int)
    requires
        1 <= back <= output.len(),
        0 <= length,
    ensures
        repeated(output, back, length).len() == output.len() + length,
        repeated(output, back, length).take(output.len() as int) == output,
        forall|k: int|
            output.len() <= k < output.len() + length ==> #[trigger] repeated(
                output,
                back,
                length,
            )[k] == repeated(output, back, length)[k - back],
    decreases length,
{
    let longer = repeated(output, back, length);
    if length == 0 {
        assert(output.take(output.len() as int) == output);
    } else {
        let n = output.len() as int;
        let next = output.push(output[n - back]);
        lemma_repeating(next, back, length - 1);
        assert(longer.take(n + 1) == next);
        assert(longer.take(n) == longer.take(n + 1).take(n));
        assert(next.take(n) == output);
        assert(longer[n] == longer.take(n + 1)[n]);
        assert(longer[n - back] == longer.take(n + 1)[n - back]);
    }
}

/// A copy token behind others, whatever it is, appends as many bytes as its lower bits say, and
/// three more. Each of them equals the byte as many places before it as the upper bits say, and one
/// more. The upper bits are as many as it takes to number the bytes that the tokens before it stand
/// for, and at least four.
pub proof fn lemma_copy_token_appends(
    flags: Seq<u8>,
    tokens: Seq<Token>,
    starts: Seq<int>,
    output: Seq<u8>,
    word: u16,
    width: nat,
)
    requires
        stand_for(tokens, starts, output),
        flags_fit(flags, tokens.push(Token::Copy(word))),
        4 <= width <= 15,
        output.len() <= pow2(width),
        width == 4 || pow2((width - 1) as nat) < output.len(),
        word as int / pow2((16 - width) as nat) as int + 1 <= output.len(),
    ensures
        exists|longer: Seq<u8>|
            {
                &&& #[trigger] longer.len() == output.len() + word as int % pow2(
                    (16 - width) as nat,
                ) as int + 3
                &&& longer.take(output.len() as int) == output
                &&& forall|k: int|
                    output.len() <= k < longer.len() ==> #[trigger] longer[k] == longer[k - (
                    word as int / pow2((16 - width) as nat) as int + 1)]
                &&& compressed_chunk(packed(flags, tokens.push(Token::Copy(word)))) == Some(
                    Ok::<(Seq<u8>, Seq<u8>), FormatError<Seq<u8>>>((Seq::empty(), longer)),
                )
            },
{
    let n = output.len() as int;
    let span = pow2((16 - width) as nat) as int;
    let (back, length) = (word as int / span + 1, word as int % span + 3);
    lemma2_to64();
    assert(takes_bits(n, width));
    lemma_bits_are_divided(n, width);
    assert(0 <= word as int / span && 0 <= word as int % span) by (nonlinear_arith)
        requires
            word >= 0,
            span > 0,
    ;
    lemma_repeating(output, back, length);
    let longer = repeated(output, back, length);
    let more = tokens.push(Token::Copy(word));
    let ends = starts.push(longer.len() as int);
    assert(copies(word, longer, n, longer.len() as int));
    assert forall|i: int| 0 <= i < more.len() implies #[trigger] covers(
        more[i],
        longer,
        ends[i],
        ends[i + 1],
    ) by {
        if i < tokens.len() {
            assert(covers(tokens[i], output, starts[i], starts[i + 1]));
            lemma_covers_in_longer(tokens[i], output, longer, starts[i], starts[i + 1]);
        }
    }
    lemma_tokens_are_unpacked(flags, more, ends, longer);
}

/// A token that stands for bytes of a sequence stands for them in a longer one, too.
proof fn lemma_covers_in_longer(
    token: Token,
    output: Seq<u8>,
    longer: Seq<u8>,
    from: int,
    to: int,
)
    requires
        covers(token, output, from, to),
        output.len() <= longer.len(),
        longer.take(output.len() as int) == output,
    ensures
        covers(token, longer, from, to),
{
    assert forall|k: int| 0 <= k < output.len() implies #[trigger] longer[k] == output[k] by {
        assert(longer.take(output.len() as int)[k] == longer[k]);
    }
    if let Token::Copy(word) = token {
        let width = choose|width: nat| #[trigger]
            takes_bits(from, width) && {
                let span = pow2((16 - width) as nat) as int;
                let back = word as int / span + 1;
                &&& back <= from
                &&& to == from + word as int % span + 3
                &&& forall|k: int| from <= k < to ==> #[trigger] output[k] == output[k - back]
            };
        let span = pow2((16 - width) as nat) as int;
        lemma_bits_are_divided(from, width);
        assert(0 <= word as int / span) by (nonlinear_arith)
            requires
                word >= 0,
                span > 0,
        ;
        let back = word as int / span + 1;
        assert forall|k: int| from <= k < to implies #[trigger] longer[k] == longer[k - back] by {
            assert(output[k] == output[k - back]);
            assert(longer[k - back] == output[k - back]);
        }
        assert(takes_bits(from, width));
    }
}

} // verus!
