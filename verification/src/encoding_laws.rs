//! Which tokens are written for given bytes.
//!
//! A copy token is written wherever bytes are repeated that it can stand for, unless a longer one
//! can be written at the next position. Of all repeated bytes the longest run is taken, and of runs
//! of the same length the nearest.

use vstd::arithmetic::div_mod::{lemma_div_denominator, lemma_fundamental_div_mod_converse};
use vstd::arithmetic::power2::{lemma2_to64, lemma_pow2_pos, lemma_pow2_unfold, pow2};
use vstd::bits::lemma_u8_shr_is_div;
use vstd::prelude::*;

use crate::compression::{
    candidate, compressed, compressed_from, copies_at, copy_token, group_bytes, group_end,
    group_flags, lemma_candidate, lemma_group_advances, lemma_group_flags_are_byte, length_limit,
    next_position, token_bytes,
};
use crate::decompression::length_span;
use crate::matching::{
    lemma_longest_match_is_longest, lemma_run_is_maximal, lemma_run_length_bounds, run_length,
};
use crate::token_laws::{
    covers, is_flagged, lemma_bits_are_divided, lemma_bits_can_be_divided, packed, packed_from,
    stand_for, takes_bits, written, Token,
};

verus! {

/// Whether a copy token can stand for `length` bytes of `data` from position `at` on, because they
/// repeat those `back` places before them: it reaches back at most 4096 places, and covers at least
/// three bytes and at most eighteen, or as many as its lower bits can express.
pub open spec fn can_copy(data: Seq<u8>, at: int, back: int, length: int) -> bool {
    &&& 1 <= back <= 4096
    &&& back <= at
    &&& 3 <= length <= 18
    &&& at + length <= data.len()
    &&& exists|width: nat| #[trigger]
        takes_bits(at, width) && length - 3 < pow2((16 - width) as nat)
    &&& forall|k: int| at <= k < at + length ==> #[trigger] data[k] == data[k - back]
}

/// Whether no other copy token at position `at` covers more bytes, nor as many bytes from nearer
/// by.
pub open spec fn is_best(data: Seq<u8>, at: int, back: int, length: int) -> bool {
    &&& can_copy(data, at, back, length)
    &&& forall|other: int, longer: int| #[trigger]
        can_copy(data, at, other, longer) ==> longer < length || longer == length && back <= other
}

/// Whether a copy token that covers more than `length` bytes can be written at position `at`.
pub open spec fn can_copy_more(data: Seq<u8>, at: int, length: int) -> bool {
    exists|back: int, longer: int| #[trigger] can_copy(data, at, back, longer) && longer > length
}

/// Whether a token is the one to write for the bytes of `data` between two positions.
pub open spec fn is_chosen(token: Token, data: Seq<u8>, from: int, to: int) -> bool {
    &&& 0 <= from < data.len()
    &&& match token {
        Token::Copy(word) => exists|back: int, width: nat|
            #![trigger is_best(data, from, back, to - from), takes_bits(from, width)]
            {
                &&& is_best(data, from, back, to - from)
                &&& takes_bits(from, width)
                &&& !can_copy_more(data, from + 1, to - from)
                &&& word == (back - 1) * pow2((16 - width) as nat) + (to - from - 3)
            },
        Token::Literal(byte) => {
            &&& to == from + 1
            &&& byte == data[from]
            &&& forall|back: int, length: int| #[trigger]
                is_best(data, from, back, length) ==> can_copy_more(data, from + 1, length)
        },
    }
}

/// Whether the flag bytes and tokens are those to write for `data`, each token for the bytes from
/// its start to the start of the next.
pub open spec fn is_encoding(
    data: Seq<u8>,
    flags: Seq<u8>,
    tokens: Seq<Token>,
    starts: Seq<int>,
) -> bool {
    &&& starts.len() == tokens.len() + 1
    &&& starts[0] == 0
    &&& starts[tokens.len() as int] == data.len()
    &&& forall|i: int|
        0 <= i < tokens.len() ==> is_chosen(#[trigger] tokens[i], data, starts[i], starts[i + 1])
    &&& flags.len() == (tokens.len() + 7) / 8
    &&& forall|i: int|
        0 <= i < 8 * flags.len() ==> (#[trigger] is_flagged(flags, i) <==> i < tokens.len()
            && tokens[i] is Copy)
}

/// A copy token that can be written is no longer than the limit for its position.
proof fn lemma_can_copy_has_run(data: Seq<u8>, at: int, back: int, length: int)
    requires
        can_copy(data, at, back, length),
    ensures
        at <= 0x8000,
        length <= length_limit(at),
        length <= run_length(data, at, back, length_limit(at)),
{
    let width = choose|width: nat| #[trigger]
        takes_bits(at, width) && length - 3 < pow2((16 - width) as nat);
    lemma_bits_are_divided(at, width);
    let run = run_length(data, at, back, length_limit(at));
    lemma_run_is_maximal(data, at, back, length_limit(at));
    lemma_run_length_bounds(data, at, back, length_limit(at));
    if run < length {
        assert(data[at + run] == data[at + run - back]);
    }
}

/// A copy token that covers a run up to the limit for its position can be written.
proof fn lemma_run_can_be_copied(data: Seq<u8>, at: int, back: int)
    requires
        0 <= at <= data.len(),
        1 <= back <= 4096,
        back <= at,
        3 <= run_length(data, at, back, length_limit(at)),
    ensures
        can_copy(data, at, back, run_length(data, at, back, length_limit(at))),
{
    let limit = length_limit(at);
    lemma_run_length_bounds(data, at, back, limit);
    lemma_run_is_maximal(data, at, back, limit);
    assert(at <= 0x8000) by {
        if at > 0x8000 {
            assert(limit == 0);
        }
    }
    lemma_bits_can_be_divided(at);
    let width = choose|width: nat| takes_bits(at, width);
    lemma_bits_are_divided(at, width);
}

/// The copy token that is considered at a position is the best that can be written there, and
/// there is none only where none can be written.
pub proof fn lemma_candidate_is_best(data: Seq<u8>, at: int)
    requires
        0 <= at <= data.len(),
    ensures
        ({
            let (length, back) = candidate(data, at);
            ||| length == 0 && forall|other: int, longer: int| !can_copy(data, at, other, longer)
            ||| is_best(data, at, back, length)
        }),
{
    let (length, back) = candidate(data, at);
    let limit = length_limit(at);
    lemma_candidate(data, at);
    lemma_longest_match_is_longest(data, at, 3, limit, 4096);
    assert forall|other: int, longer: int| #[trigger]
        can_copy(data, at, other, longer) implies length != 0 && (longer < length || longer == length && back <= other) by {
        lemma_can_copy_has_run(data, at, other, longer);
        assert(run_length(data, at, other, limit) <= length);
        if longer == length && other < back {
            assert(run_length(data, at, other, limit) < length);
        }
    }
    if length != 0 {
        assert(length == run_length(data, at, back, limit));
        lemma_run_can_be_copied(data, at, back);
    }
}

/// Wherever bytes repeat those some number of places before them, for any number up to 4096, the
/// copy token that is considered there covers as many, up to eighteen or what its lower bits can
/// express.
pub proof fn lemma_repeated_bytes_are_found(data: Seq<u8>, at: int, back: int, length: int)
    requires
        can_copy(data, at, back, length),
    ensures
        candidate(data, at).0 >= length,
{
    lemma_candidate_is_best(data, at);
}

/// There is one best copy token.
proof fn lemma_best_is_unique(data: Seq<u8>, at: int, back: int, length: int)
    requires
        0 <= at <= data.len(),
        is_best(data, at, back, length),
    ensures
        candidate(data, at) == (length, back),
{
    lemma_candidate_is_best(data, at);
}

/// A longer copy token can be written at a position if and only if a longer one is considered.
proof fn lemma_longer_is_considered(data: Seq<u8>, at: int, length: int)
    requires
        0 <= at <= data.len(),
        length >= 0,
    ensures
        can_copy_more(data, at, length) <==> candidate(data, at).0 > length,
{
    lemma_candidate_is_best(data, at);
    let (longest, back) = candidate(data, at);
    if longest > length {
        assert(can_copy(data, at, back, longest));
    }
}

/// The token that is chosen for a position is the one that is written there.
proof fn lemma_chosen_is_written(token: Token, data: Seq<u8>, from: int, to: int)
    requires
        is_chosen(token, data, from, to),
    ensures
        to == next_position(data, from),
        token is Copy <==> copies_at(data, from),
        written(token) == token_bytes(data, from),
        from < to <= data.len(),
        covers(token, data, from, to),
{
    lemma_candidate_is_best(data, from);
    let (length, back) = candidate(data, from);
    lemma_candidate(data, from);
    match token {
        Token::Copy(word) => {
            let (back, width): (int, nat) = choose|back: int, width: nat|
                #![trigger is_best(data, from, back, to - from), takes_bits(from, width)]
                {
                    &&& is_best(data, from, back, to - from)
                    &&& takes_bits(from, width)
                    &&& !can_copy_more(data, from + 1, to - from)
                    &&& word == (back - 1) * pow2((16 - width) as nat) + (to - from - 3)
                };
            lemma_best_is_unique(data, from, back, to - from);
            lemma_longer_is_considered(data, from + 1, to - from);
            lemma_bits_are_divided(from, width);
            let span = pow2((16 - width) as nat) as int;
            assert(word == copy_token(from, to - from, back));
            lemma_fundamental_div_mod_converse(word as int, span, back - 1, to - from - 3);
        },
        Token::Literal(byte) => {
            if is_best(data, from, back, length) {
                lemma_longer_is_considered(data, from + 1, length);
                if from + 1 >= data.len() {
                    lemma_candidate(data, from + 1);
                }
            }
        },
    }
}

/// The flags of a group, read from the bits of its flag byte.
proof fn lemma_flags_are_written(
    data: Seq<u8>,
    flags: Seq<u8>,
    tokens: Seq<Token>,
    starts: Seq<int>,
    from: int,
    index: int,
)
    requires
        is_encoding(data, flags, tokens, starts),
        0 <= from,
        0 <= index <= 8,
        from - index == 8 * ((from - index) / 8),
        (from - index) / 8 < flags.len(),
        0 <= from - index,
    ensures
        (flags[(from - index) / 8] >> (index as u8)) as int == group_flags(
            data,
            if from <= tokens.len() {
                starts[from]
            } else {
                data.len() as int
            },
            8 - index,
        ),
    decreases 8 - index,
{
    let group = (from - index) / 8;
    let byte = flags[group];
    let k = index as u8;
    if index == 8 {
        assert(byte >> 8u8 == 0) by (bit_vector);
    } else {
        assert(from / 8 == group && from % 8 == index);
        assert(is_flagged(flags, from) <==> from < tokens.len() && tokens[from] is Copy);
        lemma_u8_shr_is_div(byte, k);
        assert(byte >> ((k + 1) as u8) == (byte >> k) / 2) by (bit_vector)
            requires
                k < 8,
        ;
        lemma_flags_are_written(data, flags, tokens, starts, from + 1, index + 1);
        if from < tokens.len() {
            assert(0 <= starts[from] < data.len());
            lemma_chosen_is_written(tokens[from], data, starts[from], starts[from + 1]);
        }
    }
}

/// The bytes of the tokens from the `from`-th on, which starts at position `at`, are those that are
/// written: the rest of its group, and the groups behind it.
spec fn is_rest(data: Seq<u8>, bytes: Seq<u8>, from: int, at: int) -> bool {
    if from % 8 == 0 {
        bytes == compressed_from(data, at)
    } else {
        bytes == group_bytes(data, at, 8 - from % 8) + compressed_from(
            data,
            group_end(data, at, 8 - from % 8),
        )
    }
}

/// A token is written in front of those behind it.
proof fn lemma_token_is_written(
    data: Seq<u8>,
    flags: Seq<u8>,
    tokens: Seq<Token>,
    from: int,
    at: int,
)
    requires
        0 <= from < tokens.len(),
        0 <= at < data.len(),
        written(tokens[from]) == token_bytes(data, at),
        is_rest(data, packed_from(flags, tokens, from + 1), from + 1, next_position(data, at)),
        from % 8 == 0 ==> from / 8 < flags.len() && flags[from / 8] as int == group_flags(
            data,
            at,
            8,
        ),
    ensures
        is_rest(data, packed_from(flags, tokens, from), from, at),
{
    let index = from % 8;
    let next = next_position(data, at);
    let behind = packed_from(flags, tokens, from + 1);
    let group = group_bytes(data, next, 7 - index);
    let further = compressed_from(data, group_end(data, next, 7 - index));
    assert(behind == group + further) by {
        if index == 7 {
            assert((from + 1) % 8 == 0);
            assert(group == Seq::<u8>::empty());
            assert(group + further == further);
        } else {
            assert((from + 1) % 8 == index + 1);
        }
    }
    let whole = group_bytes(data, at, 8 - index) + further;
    assert(written(tokens[from]) + behind == whole);
    if index == 0 {
        assert(packed_from(flags, tokens, from) == seq![flags[from / 8]] + whole);
        assert(compressed_from(data, at) == seq![flags[from / 8]] + whole) by {
            lemma_group_advances(data, at, 8);
        }
    } else {
        assert(packed_from(flags, tokens, from) == whole);
    }
}

/// The tokens from the `from`-th on are written, in groups of eight behind a flag byte.
proof fn lemma_tokens_are_written(
    data: Seq<u8>,
    flags: Seq<u8>,
    tokens: Seq<Token>,
    starts: Seq<int>,
    from: int,
)
    requires
        is_encoding(data, flags, tokens, starts),
        0 <= from <= tokens.len(),
    ensures
        is_rest(data, packed_from(flags, tokens, from), from, starts[from]),
    decreases tokens.len() - from,
{
    let at = starts[from];
    if from < tokens.len() {
        assert(0 <= at < data.len());
        lemma_chosen_is_written(tokens[from], data, at, starts[from + 1]);
        lemma_tokens_are_written(data, flags, tokens, starts, from + 1);
        if from % 8 == 0 {
            lemma_flags_are_written(data, flags, tokens, starts, from, 0);
            let byte = flags[from / 8];
            assert(byte >> 0u8 == byte) by (bit_vector);
        }
        lemma_token_is_written(data, flags, tokens, from, at);
    } else {
        assert(packed_from(flags, tokens, from) == Seq::<u8>::empty());
        assert(at == data.len());
        if from % 8 != 0 {
            assert(group_end(data, at, 8 - from % 8) == at);
            assert(group_bytes(data, at, 8 - from % 8) == Seq::<u8>::empty());
        }
        assert(compressed_from(data, at) == Seq::<u8>::empty());
    }
}

/// What is written for given bytes are the flag bytes and the tokens to write for them.
pub proof fn lemma_encoding_is_written(
    data: Seq<u8>,
    flags: Seq<u8>,
    tokens: Seq<Token>,
    starts: Seq<int>,
)
    requires
        is_encoding(data, flags, tokens, starts),
    ensures
        compressed(data) == packed(flags, tokens),
        stand_for(tokens, starts, data),
{
    lemma_tokens_are_written(data, flags, tokens, starts, 0);
    assert forall|i: int| 0 <= i < tokens.len() implies #[trigger] covers(
        tokens[i],
        data,
        starts[i],
        starts[i + 1],
    ) by {
        lemma_chosen_is_written(tokens[i], data, starts[i], starts[i + 1]);
    }
}

/// The token that is written at a position.
spec fn token_at(data: Seq<u8>, at: int) -> Token {
    if copies_at(data, at) {
        Token::Copy(copy_token(at, candidate(data, at).0, candidate(data, at).1))
    } else {
        Token::Literal(data[at])
    }
}

/// The token that is written at a position is the one to write there.
proof fn lemma_written_is_chosen(data: Seq<u8>, at: int)
    requires
        0 <= at < data.len(),
    ensures
        is_chosen(token_at(data, at), data, at, next_position(data, at)),
        at < next_position(data, at) <= data.len(),
{
    let (length, back) = candidate(data, at);
    let next = next_position(data, at);
    lemma_candidate_is_best(data, at);
    lemma_candidate(data, at);
    lemma_candidate(data, at + 1);
    if copies_at(data, at) {
        lemma_bits_can_be_divided(at);
        let width = choose|width: nat| takes_bits(at, width);
        lemma_bits_are_divided(at, width);
        lemma_longer_is_considered(data, at + 1, length);
        let span = pow2((16 - width) as nat) as int;
        let word = (back - 1) * span + (length - 3);
        assert(0 <= word <= 0xffff) by (nonlinear_arith)
            requires
                word == (back - 1) * span + (length - 3),
                1 <= back <= at,
                at <= 0x8000,
                span == length_span(at as nat),
                0 <= length - 3 < span,
        ;
        assert(is_best(data, at, back, next - at));
        assert(takes_bits(at, width));
    } else {
        assert forall|other: int, longer: int| #[trigger]
            is_best(data, at, other, longer) implies can_copy_more(data, at + 1, longer) by {
            lemma_best_is_unique(data, at, other, longer);
            lemma_longer_is_considered(data, at + 1, longer);
        }
    }
}

/// The positions of the tokens that are written from position `at` on, and the end.
spec fn starts_from(data: Seq<u8>, at: int) -> Seq<int>
    decreases
            (if at < data.len() {
                data.len() - at
            } else {
                0
            }),
{
    if at >= data.len() {
        seq![at]
    } else {
        proof {
            lemma_group_advances(data, at, 1);
            assert(group_end(data, next_position(data, at), 0) == next_position(data, at));
        }
        seq![at] + starts_from(data, next_position(data, at))
    }
}

/// Whether the token behind another one starts where that one ends.
spec fn is_followed(data: Seq<u8>, starts: Seq<int>, i: int) -> bool {
    0 <= starts[i] < data.len() && starts[i + 1] == next_position(data, starts[i])
}

/// The flags of a group are a number without a sign.
proof fn lemma_flags_are_positive(data: Seq<u8>, at: int, count: int)
    ensures
        0 <= group_flags(data, at, count),
    decreases count,
{
    if count > 0 && at < data.len() {
        lemma_flags_are_positive(data, next_position(data, at), count - 1);
    }
}

/// The positions of the tokens follow one another, up to the end.
proof fn lemma_starts(data: Seq<u8>, at: int)
    requires
        0 <= at <= data.len(),
    ensures
        ({
            let starts = starts_from(data, at);
            &&& starts.len() >= 1
            &&& starts[0] == at
            &&& starts.last() == data.len()
            &&& forall|i: int| 0 <= i < starts.len() - 1 ==> #[trigger] is_followed(data, starts, i)
        }),
    decreases data.len() - at,
{
    if at < data.len() {
        let next = next_position(data, at);
        lemma_written_is_chosen(data, at);
        lemma_starts(data, next);
        let (starts, others) = (starts_from(data, at), starts_from(data, next));
        assert forall|i: int| 0 <= i < starts.len() - 1 implies #[trigger] is_followed(
            data,
            starts,
            i,
        ) by {
            if i > 0 {
                assert(is_followed(data, others, i - 1));
            }
        }
    }
}

/// The bits of the flags of a group tell copy tokens from literal tokens.
proof fn lemma_flag_of_group(data: Seq<u8>, starts: Seq<int>, from: int, index: int, count: int)
    requires
        starts.len() >= 1,
        starts.last() == data.len(),
        forall|i: int| 0 <= i < starts.len() - 1 ==> #[trigger] is_followed(data, starts, i),
        0 <= from,
        0 <= index < count,
    ensures
        group_flags(
            data,
            if from < starts.len() {
                starts[from]
            } else {
                data.len() as int
            },
            count,
        ) / pow2(index as nat) as int % 2 == if from + index < starts.len() - 1 && copies_at(
            data,
            starts[from + index],
        ) {
            1int
        } else {
            0
        },
    decreases index,
{
    let at = if from < starts.len() {
        starts[from]
    } else {
        data.len() as int
    };
    lemma2_to64();
    if from >= starts.len() - 1 {
        assert(at == data.len());
        assert(group_flags(data, at, count) == 0);
        lemma_pow2_pos(index as nat);
        assert(0int / pow2(index as nat) as int == 0) by (nonlinear_arith)
            requires
                pow2(index as nat) > 0,
        ;
    } else {
        let next = next_position(data, at);
        assert(is_followed(data, starts, from));
        let following = group_flags(data, next, count - 1);
        let bit: int = if copies_at(data, at) {
            1
        } else {
            0
        };
        let flags = group_flags(data, at, count);
        assert(flags == bit + 2 * following);
        lemma_flags_are_positive(data, next, count - 1);
        if index == 0 {
            assert(flags / 1 == flags);
        } else {
            lemma_flag_of_group(data, starts, from + 1, index - 1, count - 1);
            let half = pow2((index - 1) as nat) as int;
            lemma_pow2_unfold(index as nat);
            lemma_pow2_pos((index - 1) as nat);
            assert(pow2(index as nat) == 2 * half);
            lemma_div_denominator(flags, 2, half);
            assert(flags / 2 == following);
        }
    }
}

/// For any bytes there are flag bytes and tokens to write.
pub proof fn lemma_encoding_exists(data: Seq<u8>)
    ensures
        exists|flags: Seq<u8>, tokens: Seq<Token>, starts: Seq<int>|
            is_encoding(data, flags, tokens, starts),
{
    let starts = starts_from(data, 0);
    lemma_starts(data, 0);
    let n = (starts.len() - 1) as nat;
    let tokens = Seq::new(n, |i: int| token_at(data, starts[i]));
    let flags = Seq::new((n + 7) / 8, |g: int| group_flags(data, starts[8 * g], 8) as u8);
    assert forall|i: int| 0 <= i < tokens.len() implies is_chosen(
        #[trigger] tokens[i],
        data,
        starts[i],
        starts[i + 1],
    ) by {
        assert(is_followed(data, starts, i));
        lemma_written_is_chosen(data, starts[i]);
    }
    assert forall|i: int| 0 <= i < 8 * flags.len() implies (#[trigger] is_flagged(flags, i) <==> i
        < tokens.len() && tokens[i] is Copy) by {
        let group = i / 8;
        assert(is_followed(data, starts, 8 * group));
        lemma_group_flags_are_byte(data, starts[8 * group]);
        lemma_flag_of_group(data, starts, 8 * group, i % 8, 8);
        assert(8 * group + i % 8 == i);
        assert(flags[group] == group_flags(data, starts[8 * group], 8));
    }
    assert(starts[tokens.len() as int] == starts.last());
    assert(is_encoding(data, flags, tokens, starts));
}

} // verus!
