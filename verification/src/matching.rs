//! The search for earlier occurrences of a byte sequence.

use vstd::prelude::*;

verus! {

/// How many bytes of `data` from position `at` on equal the bytes `offset` places before them,
/// up to `limit`.
pub open spec fn run_length(data: Seq<u8>, at: int, offset: int, limit: int) -> int
    decreases limit,
{
    if limit <= 0 || at >= data.len() || data[at - offset] != data[at] {
        0
    } else {
        1 + run_length(data, at + 1, offset, limit - 1)
    }
}

/// The length and the offset of the longest run among the offsets from 1 to `last`, where runs
/// of less than `min_len` bytes do not count. Of equally long runs the nearest is taken, and
/// both numbers are zero where there is none.
pub open spec fn longest_run(
    data: Seq<u8>,
    at: int,
    min_len: int,
    max_len: int,
    last: int,
) -> (int, int)
    decreases last,
{
    if last <= 0 {
        (0, 0)
    } else {
        let nearer = longest_run(data, at, min_len, max_len, last - 1);
        let length = run_length(data, at, last, max_len);
        if length >= min_len && length > nearer.0 {
            (length, last)
        } else {
            nearer
        }
    }
}

/// The length and the offset of the longest match for the bytes of `data` at position `at`.
pub open spec fn longest_match(
    data: Seq<u8>,
    at: int,
    min_len: int,
    max_len: int,
    max_offset: int,
) -> (int, int) {
    longest_run(
        data,
        at,
        min_len,
        max_len,
        if max_offset < at {
            max_offset
        } else {
            at
        },
    )
}

/// A run covers at most `limit` bytes, and none behind the end of the data.
pub proof fn lemma_run_length_bounds(data: Seq<u8>, at: int, offset: int, limit: int)
    ensures
        0 <= run_length(data, at, offset, limit),
        limit >= 0 ==> run_length(data, at, offset, limit) <= limit,
        at <= data.len() ==> at + run_length(data, at, offset, limit) <= data.len(),
    decreases limit,
{
    if !(limit <= 0 || at >= data.len() || data[at - offset] != data[at]) {
        lemma_run_length_bounds(data, at + 1, offset, limit - 1);
    }
}

/// Every byte of a run equals the byte `offset` places before it, and the run stops only at its
/// limit, at the end of the data, or before a byte that differs.
pub proof fn lemma_run_is_maximal(data: Seq<u8>, at: int, offset: int, limit: int)
    requires
        0 <= limit,
    ensures
        ({
            let length = run_length(data, at, offset, limit);
            &&& forall|k: int|
                at <= k < at + length ==> #[trigger] data[k] == data[k - offset]
            &&& length < limit && at + length < data.len() ==> data[at + length] != data[at + length
                - offset]
        }),
    decreases limit,
{
    if !(limit <= 0 || at >= data.len() || data[at - offset] != data[at]) {
        lemma_run_is_maximal(data, at + 1, offset, limit - 1);
    }
}

/// No other offset gives a longer match than the one that is found, and no smaller offset gives
/// one of the same length; a match is missed only where none is long enough.
pub proof fn lemma_longest_match_is_longest(
    data: Seq<u8>,
    at: int,
    min_len: int,
    max_len: int,
    max_offset: int,
)
    ensures
        ({
            let (length, offset) = longest_match(data, at, min_len, max_len, max_offset);
            &&& forall|k: int|
                1 <= k <= max_offset && k <= at && min_len <= #[trigger] run_length(
                    data,
                    at,
                    k,
                    max_len,
                ) ==> run_length(data, at, k, max_len) <= length
            &&& forall|k: int|
                1 <= k < offset && min_len <= #[trigger] run_length(data, at, k, max_len)
                    ==> run_length(data, at, k, max_len) < length
            &&& (length, offset) != (0int, 0int) ==> {
                &&& 1 <= offset <= max_offset
                &&& offset <= at
                &&& length == run_length(data, at, offset, max_len)
                &&& length >= min_len
                &&& length > 0
            }
        }),
{
    lemma_longest_run(
        data,
        at,
        min_len,
        max_len,
        if max_offset < at {
            max_offset
        } else {
            at
        },
    );
}

proof fn lemma_longest_run(data: Seq<u8>, at: int, min_len: int, max_len: int, last: int)
    ensures
        ({
            let (length, offset) = longest_run(data, at, min_len, max_len, last);
            &&& length >= 0
            &&& forall|k: int|
                1 <= k <= last && min_len <= #[trigger] run_length(data, at, k, max_len)
                    ==> run_length(data, at, k, max_len) <= length
            &&& forall|k: int|
                1 <= k < offset && min_len <= #[trigger] run_length(data, at, k, max_len)
                    ==> run_length(data, at, k, max_len) < length
            &&& (length, offset) != (0int, 0int) ==> {
                &&& 1 <= offset <= last
                &&& length == run_length(data, at, offset, max_len)
                &&& length >= min_len
                &&& length > 0
            }
        }),
    decreases last,
{
    if last > 0 {
        lemma_longest_run(data, at, min_len, max_len, last - 1);
        lemma_run_length_bounds(data, at, last, max_len);
    }
}

/// Where fewer than `min_len` bytes are left, there is no match.
proof fn lemma_no_room_no_match(data: Seq<u8>, at: int, min_len: int, max_len: int, last: int)
    requires
        0 <= min_len,
        at + min_len > data.len(),
    ensures
        longest_run(data, at, min_len, max_len, last) == (0int, 0int),
    decreases last,
{
    if last > 0 {
        lemma_no_room_no_match(data, at, min_len, max_len, last - 1);
        lemma_run_length_bounds(data, at, last, max_len);
    }
}

/// Finds the longest match for the bytes of `data` at `current_pos` that starts at most
/// `max_offset` places before them, and returns its length and its offset.
///
/// A match has at least `min_len` bytes; at most `max_len` bytes of it are used. It may overlap
/// the bytes that it is a match for. Of equally long matches the one with the smallest offset
/// is returned; where there is no match, both numbers are zero.
pub fn find_longest_match(
    data: &[u8],
    current_pos: usize,
    min_len: usize,
    max_len: usize,
    max_offset: usize,
) -> (found: (usize, usize))
    ensures
        (found.0 as int, found.1 as int) == longest_match(
            data@,
            current_pos as int,
            min_len as int,
            max_len as int,
            max_offset as int,
        ),
{
    let input_len: usize = data.len();
    if current_pos == 0 {
        return (0, 0);
    }
    let last: usize = if max_offset < current_pos {
        max_offset
    } else {
        current_pos
    };
    if current_pos > input_len || min_len > input_len - current_pos {
        proof {
            lemma_no_room_no_match(
                data@,
                current_pos as int,
                min_len as int,
                max_len as int,
                last as int,
            );
        }
        return (0, 0);
    }
    let mut best_len: usize = 0;
    let mut best_offset: usize = 0;
    let mut offset: usize = 0;
    while offset < last
        invariant
            offset <= last <= current_pos <= input_len,
            input_len == data@.len(),
            (best_len as int, best_offset as int) == longest_run(
                data@,
                current_pos as int,
                min_len as int,
                max_len as int,
                offset as int,
            ),
        decreases last - offset,
    {
        offset = offset + 1;
        let start: usize = current_pos - offset;
        let mut length: usize = 0;
        while length < max_len && length < input_len - current_pos && data[start + length]
            == data[current_pos + length]
            invariant
                1 <= offset <= current_pos <= input_len,
                input_len == data@.len(),
                start == current_pos - offset,
                length <= max_len,
                length <= input_len - current_pos,
                length + run_length(
                    data@,
                    current_pos + length,
                    offset as int,
                    max_len - length,
                ) == run_length(data@, current_pos as int, offset as int, max_len as int),
            decreases max_len - length,
        {
            length = length + 1;
        }
        if length >= min_len && length > best_len {
            best_len = length;
            best_offset = offset;
        }
    }
    (best_len, best_offset)
}

} // verus!
