//! Writing the data of a compressed chunk.

use vstd::prelude::*;

use crate::decompression::{copy_length_span, length_span, MAX_HISTORY};
use crate::error::Error;
use crate::matching::{
    find_longest_match, lemma_longest_match_is_longest, lemma_run_length_bounds, longest_match,
};

verus! {

/// The shortest run of bytes that is written as a copy token.
pub const MIN_COPY_LEN: usize = 3;

/// The longest run of bytes that is written as a copy token.
pub const MAX_COPY_LEN: usize = 18;

/// The largest offset that is written in a copy token.
pub const MAX_COPY_OFFSET: usize = 4096;

/// The longest run of bytes that a copy token can stand for behind `at` bytes.
///
/// Behind more than [`MAX_HISTORY`] bytes there is none.
pub open spec fn length_limit(at: int) -> int {
    if at > MAX_HISTORY {
        0
    } else if length_span(at as nat) + 2 < MAX_COPY_LEN {
        length_span(at as nat) + 2
    } else {
        MAX_COPY_LEN as int
    }
}

/// The length and the offset of the copy token that could stand at position `at`.
pub open spec fn candidate(data: Seq<u8>, at: int) -> (int, int) {
    longest_match(data, at, MIN_COPY_LEN as int, length_limit(at), MAX_COPY_OFFSET as int)
}

/// Whether a copy token is written at position `at`.
///
/// It is, unless a longer one could be written at the next position.
pub open spec fn copies_at(data: Seq<u8>, at: int) -> bool {
    candidate(data, at).0 >= MIN_COPY_LEN && (at + 1 < data.len() ==> candidate(data, at).0
        >= candidate(data, at + 1).0)
}

/// The position behind the token that is written at position `at`.
pub open spec fn next_position(data: Seq<u8>, at: int) -> int {
    if copies_at(data, at) {
        at + candidate(data, at).0
    } else {
        at + 1
    }
}

/// The copy token for a length and an offset behind `at` bytes.
pub open spec fn copy_token(at: int, length: int, offset: int) -> u16 {
    ((offset - 1) * length_span(at as nat) + (length - MIN_COPY_LEN)) as u16
}

/// The bytes of the token that is written at position `at`.
pub open spec fn token_bytes(data: Seq<u8>, at: int) -> Seq<u8> {
    if copies_at(data, at) {
        let token = copy_token(at, candidate(data, at).0, candidate(data, at).1);
        seq![(token % 0x100) as u8, (token / 0x100) as u8]
    } else {
        seq![data[at]]
    }
}

/// The position behind the next `count` tokens, or the end of the data.
pub open spec fn group_end(data: Seq<u8>, at: int, count: int) -> int
    decreases count,
{
    if count <= 0 || at >= data.len() {
        at
    } else {
        group_end(data, next_position(data, at), count - 1)
    }
}

/// The flags of the next `count` tokens, the first in the lowest bit.
pub open spec fn group_flags(data: Seq<u8>, at: int, count: int) -> int
    decreases count,
{
    if count <= 0 || at >= data.len() {
        0
    } else {
        (if copies_at(data, at) {
            1int
        } else {
            0
        }) + 2 * group_flags(data, next_position(data, at), count - 1)
    }
}

/// The bytes of the next `count` tokens.
pub open spec fn group_bytes(data: Seq<u8>, at: int, count: int) -> Seq<u8>
    decreases count,
{
    if count <= 0 || at >= data.len() {
        Seq::empty()
    } else {
        token_bytes(data, at) + group_bytes(data, next_position(data, at), count - 1)
    }
}

/// The groups that are written for the bytes of `data` from position `at` on.
pub open spec fn compressed_from(data: Seq<u8>, at: int) -> Seq<u8>
    decreases
            (if at < data.len() {
                data.len() - at
            } else {
                0
            }),
{
    if at >= data.len() {
        Seq::empty()
    } else {
        proof {
            lemma_group_advances(data, at, 8);
        }
        seq![group_flags(data, at, 8) as u8] + group_bytes(data, at, 8) + compressed_from(
            data,
            group_end(data, at, 8),
        )
    }
}

/// The data of the compressed chunk that is written for `data`.
pub open spec fn compressed(data: Seq<u8>) -> Seq<u8> {
    compressed_from(data, 0)
}

/// What is known of a copy token that is written.
pub proof fn lemma_candidate(data: Seq<u8>, at: int)
    requires
        0 <= at <= data.len(),
    ensures
        candidate(data, at).0 == 0 || {
            &&& at <= MAX_HISTORY
            &&& MIN_COPY_LEN <= candidate(data, at).0 <= MAX_COPY_LEN
            &&& candidate(data, at).0 - MIN_COPY_LEN < length_span(at as nat)
            &&& 1 <= candidate(data, at).1 <= MAX_COPY_OFFSET
            &&& candidate(data, at).1 <= at
            &&& at + candidate(data, at).0 <= data.len()
        },
{
    lemma_longest_match_is_longest(
        data,
        at,
        MIN_COPY_LEN as int,
        length_limit(at),
        MAX_COPY_OFFSET as int,
    );
    lemma_run_length_bounds(data, at, candidate(data, at).1, length_limit(at));
}

/// A group of tokens covers at least one byte.
pub proof fn lemma_group_advances(data: Seq<u8>, at: int, count: int)
    ensures
        at <= group_end(data, at, count),
        count > 0 && at < data.len() ==> at < group_end(data, at, count),
    decreases count,
{
    if count > 0 && at < data.len() {
        lemma_group_advances(data, next_position(data, at), count - 1);
    }
}

/// The weight of the bit with the given index in a flag byte.
spec fn bit_weight(index: int) -> int
    decreases index,
{
    if index <= 0 {
        1
    } else {
        2 * bit_weight(index - 1)
    }
}

/// The flags of `count` tokens take `count` bits.
proof fn lemma_group_flags_bound(data: Seq<u8>, at: int, count: int)
    requires
        0 <= count,
    ensures
        0 <= group_flags(data, at, count) < bit_weight(count),
    decreases count,
{
    if count > 0 {
        lemma_group_flags_bound(data, next_position(data, at), count - 1);
        lemma_group_flags_bound(data, at, count - 1);
    }
}

/// The flags of eight tokens are a byte.
pub proof fn lemma_group_flags_are_byte(data: Seq<u8>, at: int)
    ensures
        0 <= group_flags(data, at, 8) < 0x100,
{
    reveal_with_fuel(bit_weight, 9);
    lemma_group_flags_bound(data, at, 8);
}

/// A group of tokens covers no more bytes than copy tokens of the greatest length would.
proof fn lemma_group_covers(data: Seq<u8>, at: int, count: int)
    requires
        0 <= at <= data.len(),
    ensures
        group_end(data, at, count) - at <= MAX_COPY_LEN * group_bytes(data, at, count).len(),
        group_end(data, at, count) <= data.len(),
    decreases count,
{
    if count > 0 && at < data.len() {
        lemma_candidate(data, at);
        lemma_group_covers(data, next_position(data, at), count - 1);
    }
}

/// Groups of tokens cover no more bytes than copy tokens of the greatest length would.
proof fn lemma_groups_cover(data: Seq<u8>, at: int)
    requires
        0 <= at <= data.len(),
    ensures
        data.len() - at <= MAX_COPY_LEN * compressed_from(data, at).len(),
    decreases data.len() - at,
{
    if at < data.len() {
        lemma_group_advances(data, at, 8);
        lemma_group_covers(data, at, 8);
        lemma_groups_cover(data, group_end(data, at, 8));
    }
}

/// Data is no more than eighteen times as long as what is written for it.
pub proof fn lemma_compressed_is_not_much_shorter(data: Seq<u8>)
    ensures
        data.len() <= MAX_COPY_LEN * compressed(data).len(),
{
    lemma_groups_cover(data, 0);
}

/// Computes the longest run of bytes that a copy token can stand for behind `at` bytes.
fn copy_length_limit(at: usize) -> (limit: usize)
    ensures
        limit == length_limit(at as int),
{
    if at > MAX_HISTORY {
        return 0;
    }
    let limit: usize = copy_length_span(at) as usize + 2;
    if limit < MAX_COPY_LEN {
        limit
    } else {
        MAX_COPY_LEN
    }
}

/// Computes the copy token for a length and an offset behind `at` bytes.
fn encode_copy_token(at: usize, length: usize, offset: usize) -> (token: u16)
    requires
        at <= MAX_HISTORY,
        MIN_COPY_LEN <= length <= MAX_COPY_LEN,
        length - MIN_COPY_LEN < length_span(at as nat),
        1 <= offset <= MAX_COPY_OFFSET,
        offset <= at,
    ensures
        token == copy_token(at as int, length as int, offset as int),
{
    let extra: u16 = (length - MIN_COPY_LEN) as u16;
    let back: u16 = (offset - 1) as u16;
    let span: u16 = copy_length_span(at);
    assert(back * span + extra <= 0xffff) by (nonlinear_arith)
        requires
            back < at,
            at <= 0x8000,
            span == length_span(at as nat),
            extra < span,
    ;
    assert(0 <= back * span) by (nonlinear_arith)
        requires
            back >= 0,
            span >= 0,
    ;
    back * span + extra
}

/// Compresses the data of a chunk.
///
/// The result does not hold the signature byte of a container nor a chunk header. Compressing
/// no data gives no data.
pub fn compress(input: &[u8]) -> (result: Result<Vec<u8>, Error>)
    ensures
        result is Ok,
        result->Ok_0@ == compressed(input@),
{
    let input_len: usize = input.len();
    let mut output: Vec<u8> = Vec::with_capacity(input_len);
    let mut current_pos: usize = 0;
    let mut pending: Vec<u8> = Vec::with_capacity(16);
    let mut flags: u16 = 0;
    let mut weight: u16 = 1;
    let mut count: usize = 0;
    let ghost mut start: int = 0;
    while current_pos < input_len
        invariant
            input_len == input@.len(),
            0 <= start,
            current_pos <= input_len,
            0 <= count < 8,
            count == 0 ==> start == current_pos,
            count > 0 ==> start < input_len && current_pos < input_len,
            weight == bit_weight(count as int),
            output@ + compressed_from(input@, start) == compressed(input@),
            group_end(input@, start, 8) == group_end(input@, current_pos as int, 8 - count),
            group_bytes(input@, start, 8) == pending@ + group_bytes(
                input@,
                current_pos as int,
                8 - count,
            ),
            group_flags(input@, start, 8) == flags + weight * group_flags(
                input@,
                current_pos as int,
                8 - count,
            ),
        decreases input_len - current_pos,
    {
        let ghost at = current_pos as int;
        let ghost left = 8 - count;
        let ghost written = pending@;
        proof {
            lemma_candidate(input@, at);
            lemma_candidate(input@, at + 1);
            lemma_group_flags_are_byte(input@, start);
            lemma_group_flags_bound(input@, next_position(input@, at), left - 1);
            reveal_with_fuel(bit_weight, 9);
        }
        let (len1, offset1) = find_longest_match(
            input,
            current_pos,
            MIN_COPY_LEN,
            copy_length_limit(current_pos),
            MAX_COPY_OFFSET,
        );
        let mut len2: usize = 0;
        if current_pos + 1 < input_len {
            let (length, _) = find_longest_match(
                input,
                current_pos + 1,
                MIN_COPY_LEN,
                copy_length_limit(current_pos + 1),
                MAX_COPY_OFFSET,
            );
            len2 = length;
        }
        let ghost following = group_flags(input@, next_position(input@, at), left - 1);
        if len1 >= MIN_COPY_LEN && len1 >= len2 {
            let token: u16 = encode_copy_token(current_pos, len1, offset1);
            pending.push((token % 0x100) as u8);
            pending.push((token / 0x100) as u8);
            assert(weight * (1 + 2 * following) == weight + (2 * weight) * following)
                by (nonlinear_arith);
            assert(0 <= (2 * weight) * following) by (nonlinear_arith)
                requires
                    0 <= following,
            ;
            flags = flags + weight;
            current_pos = current_pos + len1;
        } else {
            pending.push(input[current_pos]);
            assert(weight * (2 * following) == (2 * weight) * following) by (nonlinear_arith);
            current_pos = current_pos + 1;
        }
        assert(pending@ == written + token_bytes(input@, at));
        count = count + 1;
        weight = weight * 2;
        if count == 8 || current_pos >= input_len {
            let ghost previous = output@;
            assert(group_flags(input@, current_pos as int, 8 - count) == 0);
            assert(group_bytes(input@, current_pos as int, 8 - count).len() == 0);
            assert(flags == group_flags(input@, start, 8));
            assert(pending@ == group_bytes(input@, start, 8));
            assert(group_end(input@, current_pos as int, 8 - count) == current_pos);
            output.push(flags as u8);
            output.append(&mut pending);
            flags = 0;
            weight = 1;
            count = 0;
            proof {
                assert(output@ == previous + (seq![group_flags(input@, start, 8) as u8]
                    + group_bytes(input@, start, 8)));
                assert(output@ + compressed_from(input@, current_pos as int) == previous
                    + compressed_from(input@, start));
                start = current_pos as int;
            }
        }
    }
    Ok(output)
}

} // verus!
