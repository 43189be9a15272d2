//! When the streams of a compound file have sectors of their own, told from what stands in it.

use vstd::prelude::*;

use crate::layout::{
    allocation_at, allocations, are_sectors, can_be_extended, chain, chains_are_apart,
    chains_are_safe, followers, has_header, head, is_free_behind, is_marked_from, is_stream,
    layout_is_apart, layout_is_safe, layout_is_tidy, list_ends, list_entries, list_sectors, listed,
    listed_from, lists_fit, sector_at, sector_count, sector_size, starts_chain, stream_heads,
    streams_are_sound, streams_start_outside, trimmed, u16_at, u32_at, used, whole_count, words,
    Allocation, Demand,
};

verus! {

/// The number in four bytes, the lowest first.
pub open spec fn number_at(raw: Seq<u8>, at: int) -> int {
    raw[at] + 0x100 * raw[at + 1] + 0x1_0000 * raw[at + 2] + 0x100_0000 * raw[at + 3]
}

/// The number of bytes in a sector: 512 in the third version of the format, and 4096 otherwise.
pub open spec fn bytes_in_sector(raw: Seq<u8>) -> int {
    if raw[26] == 3 && raw[27] == 0 {
        512
    } else {
        4096
    }
}

/// The number of whole sectors behind the one that the header takes up.
pub open spec fn sectors_in(raw: Seq<u8>) -> int {
    raw.len() as int / bytes_in_sector(raw) - 1
}

/// Whether a chain consists of the given sectors: the first is where it starts, each is followed by
/// the next, and the last is marked as the end.
pub open spec fn is_chain(table: Seq<u32>, start: u32, sectors: Seq<u32>) -> bool {
    &&& sectors.len() == 0 ==> start == 0xffff_fffe
    &&& sectors.len() > 0 ==> start == sectors[0] && start != 0xffff_fffe
    &&& forall|k: int|
        0 <= k < sectors.len() ==> (#[trigger] sectors[k]) < table.len() && table[sectors[k] as int]
            == if k + 1 < sectors.len() {
            sectors[k + 1]
        } else {
            0xffff_fffe
        }
    &&& forall|k: int| 0 <= k < sectors.len() ==> #[trigger] sectors[k] != 0xffff_fffe
}

/// A chain that comes to an end is followed up to its end.
proof fn lemma_chain(table: Seq<u32>, start: u32, sectors: Seq<u32>, limit: nat)
    requires
        is_chain(table, start, sectors),
        sectors.len() <= limit,
    ensures
        chain(table, start, limit) == Some(sectors),
    decreases limit,
{
    if sectors.len() > 0 {
        let behind = sectors.skip(1);
        let next = table[start as int];
        assert(sectors[0] < table.len());
        assert forall|k: int| 0 <= k < behind.len() implies (#[trigger] behind[k]) < table.len()
            && table[behind[k] as int] == (if k + 1 < behind.len() {
            behind[k + 1]
        } else {
            0xffff_fffe
        }) && behind[k] != 0xffff_fffe by {
            assert(behind[k] == sectors[k + 1]);
        }
        if behind.len() > 0 {
            assert(next == sectors[1]);
            assert(behind[0] == sectors[1]);
        }
        lemma_chain(table, next, behind, (limit - 1) as nat);
        assert(seq![start] + behind == sectors);
    } else {
        assert(sectors == Seq::<u32>::empty());
    }
}

/// A chain that is followed up to its end consists of the sectors on the way.
proof fn lemma_followed_chain(table: Seq<u32>, start: u32, limit: nat)
    ensures
        chain(table, start, limit) matches Some(sectors) ==> is_chain(table, start, sectors)
            && sectors.len() <= limit,
    decreases limit,
{
    if start != 0xffff_fffe && limit > 0 && start < table.len() {
        let next = table[start as int];
        lemma_followed_chain(table, next, (limit - 1) as nat);
        if let Some(behind) = chain(table, next, (limit - 1) as nat) {
            let sectors = seq![start] + behind;
            assert forall|k: int| 0 <= k < sectors.len() implies (#[trigger] sectors[k])
                < table.len() && table[sectors[k] as int] == (if k + 1 < sectors.len() {
                sectors[k + 1]
            } else {
                0xffff_fffe
            }) && sectors[k] != 0xffff_fffe by {
                if k > 0 {
                    assert(sectors[k] == behind[k - 1]);
                }
            }
        }
    }
}

/// A chain is followed up to its end if and only if it consists of sectors that are no more than
/// there are in the table.
pub proof fn lemma_chain_is_followed(table: Seq<u32>, start: u32, sectors: Seq<u32>)
    ensures
        chain(table, start, table.len()) == Some(sectors) <==> is_chain(table, start, sectors)
            && sectors.len() <= table.len(),
        starts_chain(table, start) <==> chain(table, start, table.len()) is Some,
{
    lemma_followed_chain(table, start, table.len());
    if is_chain(table, start, sectors) && sectors.len() <= table.len() {
        lemma_chain(table, start, sectors, table.len());
    }
}

/// Whether some sector is followed by the given one.
spec fn is_named(table: Seq<u32>, id: u32) -> bool {
    exists|i: int| 0 <= i < table.len() && #[trigger] table[i] == id && table[i] <= 0xffff_fffa
}

/// The sectors that follow another one are those that the table names.
proof fn lemma_followers(table: Seq<u32>)
    ensures
        forall|k: int|
            0 <= k < followers(table).len() ==> is_named(table, #[trigger] followers(table)[k]),
        forall|i: int|
            0 <= i < table.len() && #[trigger] table[i] <= 0xffff_fffa ==> followers(
                table,
            ).contains(table[i]),
        followers(table).no_duplicates() <==> forall|i: int, j: int|
            0 <= i < j < table.len() && #[trigger] table[i] <= 0xffff_fffa ==> table[i]
                != #[trigger] table[j],
    decreases table.len(),
{
    if table.len() > 0 {
        let before = table.drop_last();
        let last = table.last();
        let found = followers(before);
        lemma_followers(before);
        assert forall|k: int| 0 <= k < followers(table).len() implies is_named(
            table,
            #[trigger] followers(table)[k],
        ) by {
            if k < found.len() {
                assert(followers(table)[k] == found[k]);
                assert(is_named(before, found[k]));
                let i = choose|i: int|
                    0 <= i < before.len() && #[trigger] before[i] == found[k] && before[i]
                        <= 0xffff_fffa;
                assert(table[i] == before[i]);
            } else {
                assert(table[table.len() - 1] == followers(table)[k]);
            }
        }
        assert forall|i: int|
            0 <= i < table.len() && #[trigger] table[i] <= 0xffff_fffa implies followers(
            table,
        ).contains(table[i]) by {
            if i < before.len() {
                assert(before[i] == table[i]);
                let k = choose|k: int| 0 <= k < found.len() && found[k] == table[i];
                assert(followers(table)[k] == table[i]);
            } else {
                assert(followers(table)[found.len() as int] == last);
            }
        }
        let all = followers(table);
        if all.no_duplicates() {
            assert forall|i: int, j: int| 0 <= i < j < found.len() implies found[i] != found[j] by {
                assert(all[i] == found[i] && all[j] == found[j]);
            }
            assert forall|i: int, j: int|
                0 <= i < j < table.len() && #[trigger] table[i] <= 0xffff_fffa implies table[i]
                != #[trigger] table[j] by {
                assert(before[i] == table[i]);
                if j < before.len() {
                    assert(before[j] == table[j]);
                } else if table[i] == last {
                    let k = choose|k: int| 0 <= k < found.len() && found[k] == table[i];
                    assert(all[k] == last && all[found.len() as int] == last);
                }
            }
        }
        if forall|i: int, j: int|
            0 <= i < j < table.len() && #[trigger] table[i] <= 0xffff_fffa ==> table[i]
                != #[trigger] table[j] {
            assert forall|i: int, j: int|
                0 <= i < j < before.len() && #[trigger] before[i] <= 0xffff_fffa implies before[i]
                != #[trigger] before[j] by {
                assert(table[i] == before[i] && table[j] == before[j]);
            }
            assert forall|i: int, j: int| 0 <= i < j < all.len() implies all[i] != all[j] by {
                if j < found.len() {
                    assert(all[i] == found[i] && all[j] == found[j]);
                } else {
                    assert(all[i] == found[i]);
                    assert(is_named(before, found[i]));
                    let m = choose|m: int|
                        0 <= m < before.len() && #[trigger] before[m] == found[i] && before[m]
                            <= 0xffff_fffa;
                    assert(table[m] == before[m]);
                    assert(table[table.len() - 1] == last);
                }
            }
        }
    }
}

/// Whether every sector is reached at most once: the given starts are different sectors, no sector
/// is followed by one of them, and no two sectors are followed by the same.
pub open spec fn is_reached_once(table: Seq<u32>, heads: Seq<u32>) -> bool {
    &&& forall|i: int, j: int| 0 <= i < j < heads.len() ==> heads[i] != heads[j]
    &&& forall|i: int| 0 <= i < heads.len() ==> (#[trigger] heads[i]) < table.len()
    &&& forall|i: int|
        0 <= i < table.len() && #[trigger] table[i] <= 0xffff_fffa ==> table[i] < table.len()
            && !heads.contains(table[i])
    &&& forall|i: int, j: int|
        0 <= i < j < table.len() && #[trigger] table[i] <= 0xffff_fffa ==> table[i]
            != #[trigger] table[j]
}

/// Chains share no sector if and only if every sector is reached at most once.
pub proof fn lemma_chains_are_apart(table: Seq<u32>, heads: Seq<u32>)
    ensures
        chains_are_apart(table, heads) <==> is_reached_once(table, heads),
{
    let found = followers(table);
    let reached = heads + found;
    let n = heads.len() as int;
    lemma_followers(table);
    if chains_are_apart(table, heads) {
        assert forall|i: int, j: int| 0 <= i < j < heads.len() implies heads[i] != heads[j] by {
            assert(reached[i] == heads[i] && reached[j] == heads[j]);
        }
        assert forall|i: int| 0 <= i < heads.len() implies (#[trigger] heads[i]) < table.len() by {
            assert(reached[i] == heads[i]);
        }
        assert forall|i: int, j: int| 0 <= i < j < found.len() implies found[i] != found[j] by {
            assert(reached[n + i] == found[i] && reached[n + j] == found[j]);
        }
        assert forall|i: int|
            0 <= i < table.len() && #[trigger] table[i] <= 0xffff_fffa implies table[i]
            < table.len() && !heads.contains(table[i]) by {
            let k = choose|k: int| 0 <= k < found.len() && found[k] == table[i];
            assert(reached[n + k] == table[i]);
            if heads.contains(table[i]) {
                let j = choose|j: int| 0 <= j < heads.len() && heads[j] == table[i];
                assert(reached[j] == reached[n + k]);
            }
        }
    }
    if is_reached_once(table, heads) {
        assert forall|i: int, j: int| 0 <= i < j < reached.len() implies reached[i]
            != reached[j] by {
            if i < n && j >= n {
                let k = j - n;
                assert(reached[j] == found[k]);
                assert(is_named(table, found[k]));
                let m = choose|m: int|
                    0 <= m < table.len() && #[trigger] table[m] == found[k] && table[m]
                        <= 0xffff_fffa;
                assert(heads.contains(reached[i])) by {
                    assert(heads[i] == reached[i]);
                }
            } else if i >= n {
                assert(reached[i] == found[i - n] && reached[j] == found[j - n]);
            }
        }
        assert forall|k: int| 0 <= k < reached.len() implies #[trigger] reached[k]
            < table.len() by {
            if k >= n {
                assert(reached[k] == found[k - n]);
                assert(is_named(table, found[k - n]));
                let m = choose|m: int|
                    0 <= m < table.len() && #[trigger] table[m] == found[k - n] && table[m]
                        <= 0xffff_fffa;
            }
        }
    }
}

/// Whether an object is a stream that is not empty, and shorter than 4096 bytes or not.
pub open spec fn holds_stream(object: Allocation, small: bool) -> bool {
    object.kind == 2 && object.length > 0 && (small <==> object.length < 4096)
}

/// Whether some stream starts at the given sector.
spec fn is_start(objects: Seq<Allocation>, small: bool, id: u32) -> bool {
    exists|i: int|
        0 <= i < objects.len() && holds_stream(#[trigger] objects[i], small) && objects[i].start
            == id
}

/// The starts of the chains of streams are where the streams start.
proof fn lemma_stream_heads(objects: Seq<Allocation>, small: bool)
    ensures
        forall|k: int|
            0 <= k < stream_heads(objects, small).len() ==> is_start(
                objects,
                small,
                #[trigger] stream_heads(objects, small)[k],
            ),
        forall|i: int|
            0 <= i < objects.len() && holds_stream(#[trigger] objects[i], small) ==> stream_heads(
                objects,
                small,
            ).contains(objects[i].start),
        stream_heads(objects, small).no_duplicates() <==> forall|i: int, j: int|
            0 <= i < j < objects.len() && holds_stream(#[trigger] objects[i], small)
                && holds_stream(#[trigger] objects[j], small) ==> objects[i].start
                != objects[j].start,
    decreases objects.len(),
{
    if objects.len() > 0 {
        let before = objects.drop_last();
        let last = objects.last();
        let found = stream_heads(before, small);
        let all = stream_heads(objects, small);
        lemma_stream_heads(before, small);
        assert forall|k: int| 0 <= k < all.len() implies is_start(
            objects,
            small,
            #[trigger] all[k],
        ) by {
            if k < found.len() {
                assert(all[k] == found[k]);
                assert(is_start(before, small, found[k]));
                let i = choose|i: int|
                    0 <= i < before.len() && holds_stream(#[trigger] before[i], small)
                        && before[i].start == found[k];
                assert(objects[i] == before[i]);
            } else {
                assert(objects[objects.len() - 1] == last);
            }
        }
        assert forall|i: int|
            0 <= i < objects.len() && holds_stream(
                #[trigger] objects[i],
                small,
            ) implies all.contains(objects[i].start) by {
            if i < before.len() {
                assert(before[i] == objects[i]);
                let k = choose|k: int| 0 <= k < found.len() && found[k] == objects[i].start;
                assert(all[k] == objects[i].start);
            } else {
                assert(all[found.len() as int] == last.start);
            }
        }
        if all.no_duplicates() {
            assert forall|i: int, j: int| 0 <= i < j < found.len() implies found[i] != found[j] by {
                assert(all[i] == found[i] && all[j] == found[j]);
            }
            assert forall|i: int, j: int|
                0 <= i < j < objects.len() && holds_stream(#[trigger] objects[i], small)
                    && holds_stream(#[trigger] objects[j], small) implies objects[i].start
                != objects[j].start by {
                assert(before[i] == objects[i]);
                if j < before.len() {
                    assert(before[j] == objects[j]);
                } else if objects[i].start == last.start {
                    let k = choose|k: int| 0 <= k < found.len() && found[k] == objects[i].start;
                    assert(all[k] == last.start && all[found.len() as int] == last.start);
                }
            }
        }
        if forall|i: int, j: int|
            0 <= i < j < objects.len() && holds_stream(#[trigger] objects[i], small)
                && holds_stream(#[trigger] objects[j], small) ==> objects[i].start
                != objects[j].start {
            assert forall|i: int, j: int|
                0 <= i < j < before.len() && holds_stream(#[trigger] before[i], small)
                    && holds_stream(#[trigger] before[j], small) implies before[i].start
                != before[j].start by {
                assert(objects[i] == before[i] && objects[j] == before[j]);
            }
            assert forall|i: int, j: int| 0 <= i < j < all.len() implies all[i] != all[j] by {
                if j < found.len() {
                    assert(all[i] == found[i] && all[j] == found[j]);
                } else {
                    assert(all[i] == found[i]);
                    assert(is_start(before, small, found[i]));
                    let m = choose|m: int|
                        0 <= m < before.len() && holds_stream(#[trigger] before[m], small)
                            && before[m].start == found[i];
                    assert(objects[m] == before[m]);
                    assert(objects[objects.len() - 1] == last);
                }
            }
        }
    }
}

/// Whether every sector is reached at most once, where besides the given starts there are those of
/// the streams.
pub open spec fn is_reached_once_with_streams(
    table: Seq<u32>,
    heads: Seq<u32>,
    objects: Seq<Allocation>,
    small: bool,
) -> bool {
    &&& is_reached_once(table, heads)
    &&& forall|i: int|
        0 <= i < objects.len() && holds_stream(#[trigger] objects[i], small) ==> {
            &&& objects[i].start < table.len()
            &&& !heads.contains(objects[i].start)
            &&& objects[i].start <= 0xffff_fffa ==> !table.contains(objects[i].start)
        }
    &&& forall|i: int, j: int|
        0 <= i < j < objects.len() && holds_stream(#[trigger] objects[i], small) && holds_stream(
            #[trigger] objects[j],
            small,
        ) ==> objects[i].start != objects[j].start
}

/// The chains of streams, and others with the given starts, share no sector if and only if every
/// sector is reached at most once.
pub proof fn lemma_streams_are_apart(
    table: Seq<u32>,
    heads: Seq<u32>,
    objects: Seq<Allocation>,
    small: bool,
)
    ensures
        chains_are_apart(table, heads + stream_heads(objects, small))
            <==> is_reached_once_with_streams(table, heads, objects, small),
{
    let starts = stream_heads(objects, small);
    let all = heads + starts;
    let n = heads.len() as int;
    lemma_stream_heads(objects, small);
    lemma_chains_are_apart(table, all);
    if is_reached_once(table, all) {
        assert forall|i: int, j: int| 0 <= i < j < heads.len() implies heads[i] != heads[j] by {
            assert(all[i] == heads[i] && all[j] == heads[j]);
        }
        assert forall|i: int| 0 <= i < heads.len() implies (#[trigger] heads[i]) < table.len() by {
            assert(all[i] == heads[i]);
        }
        assert forall|i: int|
            0 <= i < table.len() && #[trigger] table[i] <= 0xffff_fffa implies !heads.contains(
            table[i],
        ) by {
            if heads.contains(table[i]) {
                let j = choose|j: int| 0 <= j < heads.len() && heads[j] == table[i];
                assert(all[j] == table[i]);
            }
        }
        assert forall|i: int|
            0 <= i < objects.len() && holds_stream(#[trigger] objects[i], small) implies {
            &&& objects[i].start < table.len()
            &&& !heads.contains(objects[i].start)
            &&& objects[i].start <= 0xffff_fffa ==> !table.contains(objects[i].start)
        } by {
            let start = objects[i].start;
            let k = choose|k: int| 0 <= k < starts.len() && starts[k] == start;
            assert(all[n + k] == start);
            if heads.contains(start) {
                let j = choose|j: int| 0 <= j < heads.len() && heads[j] == start;
                assert(all[j] == start);
            }
            if start <= 0xffff_fffa && table.contains(start) {
                let j = choose|j: int| 0 <= j < table.len() && table[j] == start;
                assert(!all.contains(table[j]));
            }
        }
        assert forall|i: int, j: int| 0 <= i < j < starts.len() implies starts[i] != starts[j] by {
            assert(all[n + i] == starts[i] && all[n + j] == starts[j]);
        }
        assert(starts.no_duplicates());
    }
    if is_reached_once_with_streams(table, heads, objects, small) {
        assert forall|i: int, j: int| 0 <= i < j < all.len() implies all[i] != all[j] by {
            if i < n && j >= n {
                assert(all[j] == starts[j - n]);
                assert(is_start(objects, small, starts[j - n]));
                assert(heads[i] == all[i]);
            } else if i >= n {
                assert(all[i] == starts[i - n] && all[j] == starts[j - n]);
            }
        }
        assert forall|i: int| 0 <= i < all.len() implies (#[trigger] all[i]) < table.len() by {
            if i >= n {
                assert(is_start(objects, small, starts[i - n]));
            } else {
                assert(heads[i] == all[i]);
            }
        }
        assert forall|i: int|
            0 <= i < table.len() && #[trigger] table[i] <= 0xffff_fffa implies table[i]
            < table.len() && !all.contains(table[i]) by {
            if all.contains(table[i]) {
                let j = choose|j: int| 0 <= j < all.len() && all[j] == table[i];
                if j < n {
                    assert(heads[j] == table[i]);
                } else {
                    assert(is_start(objects, small, starts[j - n]));
                    let m = choose|m: int|
                        0 <= m < objects.len() && holds_stream(#[trigger] objects[m], small)
                            && objects[m].start == starts[j - n];
                    assert(table.contains(objects[m].start));
                }
            }
        }
    }
}

/// Whether there is room for a header in a sector of its own.
pub open spec fn starts_with_header(raw: Seq<u8>) -> bool {
    raw.len() >= 512 && raw.len() >= bytes_in_sector(raw)
}

/// Whether there are whole sectors with the given numbers.
pub open spec fn are_whole(raw: Seq<u8>, ids: Seq<u32>) -> bool {
    forall|k: int| 0 <= k < ids.len() ==> (#[trigger] ids[k]) < sectors_in(raw)
}

/// The `i`-th number in the given sectors, of each of which the first `count` are taken.
pub open spec fn number_in(raw: Seq<u8>, ids: Seq<u32>, count: int, i: int) -> int {
    number_at(raw, (ids[i / count] + 1) * bytes_in_sector(raw) + 4 * (i % count))
}

/// The position of the `i`-th entry of the directory in the given sectors.
pub open spec fn entry_at(raw: Seq<u8>, ids: Seq<u32>, i: int) -> int {
    let count = bytes_in_sector(raw) / 128;
    (ids[i / count] + 1) * bytes_in_sector(raw) + 128 * (i % count)
}

/// The sizes of sectors are the same.
proof fn lemma_sizes(raw: Seq<u8>)
    requires
        raw.len() >= 512,
    ensures
        sector_size(raw) == bytes_in_sector(raw),
        whole_count(raw) == sectors_in(raw),
        u16_at(raw, 26) == 3 <==> bytes_in_sector(raw) == 512,
{
    assert(raw.skip(26)[0] == raw[26] && raw.skip(26)[1] == raw[27]);
}

/// The number in four bytes is read as it is.
proof fn lemma_number(raw: Seq<u8>, at: int)
    requires
        0 <= at,
        at + 4 <= raw.len(),
    ensures
        u32_at(raw, at) == number_at(raw, at),
{
    let rest = raw.skip(at);
    assert(rest[0] == raw[at] && rest[1] == raw[at + 1] && rest[2] == raw[at + 2] && rest[3]
        == raw[at + 3]);
}

/// A whole sector lies within the file.
proof fn lemma_sector(raw: Seq<u8>, id: u32)
    requires
        starts_with_header(raw),
        id < sectors_in(raw),
    ensures
        0 <= (id + 1) * bytes_in_sector(raw),
        (id + 1) * bytes_in_sector(raw) + bytes_in_sector(raw) <= raw.len(),
        sector_at(raw, id) == (id + 1) * bytes_in_sector(raw),
{
    lemma_sizes(raw);
    if bytes_in_sector(raw) == 512 {
        assert((id + 1) * 512 + 512 <= raw.len());
    } else {
        assert((id + 1) * 4096 + 4096 <= raw.len());
    }
}

/// The numbers in the given sectors are read in their order.
proof fn lemma_words(raw: Seq<u8>, ids: Seq<u32>)
    requires
        starts_with_header(raw),
        are_whole(raw, ids),
    ensures
        words(raw, ids).len() == ids.len() * (bytes_in_sector(raw) / 4),
        forall|i: int|
            0 <= i < words(raw, ids).len() ==> #[trigger] words(raw, ids)[i] == number_in(
                raw,
                ids,
                bytes_in_sector(raw) / 4,
                i,
            ),
    decreases ids.len(),
{
    lemma_sizes(raw);
    let size = bytes_in_sector(raw);
    let count = size / 4;
    assert(count == 128 || count == 1024);
    if ids.len() > 0 {
        let before = ids.drop_last();
        let n = before.len() as int;
        lemma_words(raw, before);
        assert(ids[n] < sectors_in(raw));
        lemma_sector(raw, ids.last());
        let all = words(raw, ids);
        assert(all.len() == n * count + count);
        assert(n * count + count == (n + 1) * count) by (nonlinear_arith);
        assert forall|i: int| 0 <= i < all.len() implies #[trigger] all[i] == number_in(
            raw,
            ids,
            count,
            i,
        ) by {
            if i < n * count {
                assert(all[i] == words(raw, before)[i]);
                assert(0 <= i / count < n) by (nonlinear_arith)
                    requires
                        0 <= i < n * count,
                        count == 128 || count == 1024,
                ;
                assert(before[i / count] == ids[i / count]);
            } else {
                let j = i - n * count;
                assert(i / count == n && i % count == j) by (nonlinear_arith)
                    requires
                        i == n * count + j,
                        0 <= j < count,
                        count == 128 || count == 1024,
                ;
                lemma_number(raw, (ids[n] + 1) * size + 4 * j);
            }
        }
    }
}

/// The numbers in the given sectors, of each of which the last is left out, are read in their
/// order.
proof fn lemma_list_entries(raw: Seq<u8>, ids: Seq<u32>)
    requires
        starts_with_header(raw),
        are_whole(raw, ids),
    ensures
        list_entries(raw, ids).len() == ids.len() * (bytes_in_sector(raw) / 4 - 1),
        forall|i: int|
            0 <= i < list_entries(raw, ids).len() ==> #[trigger] list_entries(raw, ids)[i]
                == number_in(raw, ids, bytes_in_sector(raw) / 4 - 1, i),
    decreases ids.len(),
{
    lemma_sizes(raw);
    let size = bytes_in_sector(raw);
    let count = size / 4 - 1;
    assert(count == 127 || count == 1023);
    if ids.len() > 0 {
        let before = ids.drop_last();
        let n = before.len() as int;
        lemma_list_entries(raw, before);
        assert(ids[n] < sectors_in(raw));
        lemma_sector(raw, ids.last());
        let all = list_entries(raw, ids);
        assert(all.len() == n * count + count);
        assert(n * count + count == (n + 1) * count) by (nonlinear_arith);
        assert forall|i: int| 0 <= i < all.len() implies #[trigger] all[i] == number_in(
            raw,
            ids,
            count,
            i,
        ) by {
            if i < n * count {
                assert(all[i] == list_entries(raw, before)[i]);
                assert(0 <= i / count < n) by (nonlinear_arith)
                    requires
                        0 <= i < n * count,
                        count == 127 || count == 1023,
                ;
                assert(before[i / count] == ids[i / count]);
            } else {
                let j = i - n * count;
                assert(i / count == n && i % count == j) by (nonlinear_arith)
                    requires
                        i == n * count + j,
                        0 <= j < count,
                        count == 127 || count == 1023,
                ;
                lemma_number(raw, (ids[n] + 1) * size + 4 * j);
            }
        }
    }
}

/// What the directory says of an object, at a position.
pub open spec fn object_at(raw: Seq<u8>, at: int) -> Allocation {
    Allocation {
        kind: raw[at + 66],
        start: number_at(raw, at + 116) as u32,
        length: (number_at(raw, at + 120) + if bytes_in_sector(raw) == 512 {
            0
        } else {
            0x1_0000_0000 * number_at(raw, at + 124)
        }) as u64,
    }
}

/// The entries of the directory in the given sectors are read in their order.
proof fn lemma_allocations(raw: Seq<u8>, ids: Seq<u32>)
    requires
        starts_with_header(raw),
        are_whole(raw, ids),
    ensures
        allocations(raw, ids).len() == ids.len() * (bytes_in_sector(raw) / 128),
        forall|i: int|
            0 <= i < allocations(raw, ids).len() ==> #[trigger] allocations(raw, ids)[i]
                == object_at(raw, entry_at(raw, ids, i)),
    decreases ids.len(),
{
    lemma_sizes(raw);
    let size = bytes_in_sector(raw);
    let count = size / 128;
    assert(count == 4 || count == 32);
    if ids.len() > 0 {
        let before = ids.drop_last();
        let n = before.len() as int;
        lemma_allocations(raw, before);
        assert(ids[n] < sectors_in(raw));
        lemma_sector(raw, ids.last());
        let all = allocations(raw, ids);
        assert(all.len() == n * count + count);
        assert(n * count + count == (n + 1) * count) by (nonlinear_arith);
        assert forall|i: int| 0 <= i < all.len() implies #[trigger] all[i] == object_at(
            raw,
            entry_at(raw, ids, i),
        ) by {
            if i < n * count {
                assert(all[i] == allocations(raw, before)[i]);
                assert(0 <= i / count < n) by (nonlinear_arith)
                    requires
                        0 <= i < n * count,
                        count == 4 || count == 32,
                ;
                assert(before[i / count] == ids[i / count]);
                assert(entry_at(raw, ids, i) == entry_at(raw, before, i));
            } else {
                let j = i - n * count;
                assert(i / count == n && i % count == j) by (nonlinear_arith)
                    requires
                        i == n * count + j,
                        0 <= j < count,
                        count == 4 || count == 32,
                ;
                let at = (ids[n] + 1) * size + 128 * j;
                lemma_number(raw, at + 116);
                lemma_number(raw, at + 120);
                lemma_number(raw, at + 124);
                assert(all[i] == allocation_at(raw, at));
            }
        }
    }
}

/// The list in the header goes up to the first number that is free.
proof fn lemma_listed_from(raw: Seq<u8>, index: int)
    requires
        raw.len() >= 512,
        0 <= index <= 109,
    ensures
        ({
            let found = listed_from(raw, index);
            &&& index + found.len() <= 109
            &&& forall|k: int|
                0 <= k < found.len() ==> #[trigger] found[k] == number_at(raw, 76 + 4 * (index + k))
                    && found[k] != 0xffff_ffff
            &&& index + found.len() < 109 ==> number_at(raw, 76 + 4 * (index + found.len()))
                == 0xffff_ffff
        }),
    decreases 109 - index,
{
    if index < 109 {
        lemma_number(raw, 76 + 4 * index);
        if u32_at(raw, 76 + 4 * index) != 0xffff_ffff {
            lemma_listed_from(raw, index + 1);
            let (found, behind) = (listed_from(raw, index), listed_from(raw, index + 1));
            assert forall|k: int| 0 <= k < found.len() implies #[trigger] found[k] == number_at(
                raw,
                76 + 4 * (index + k),
            ) && found[k] != 0xffff_ffff by {
                if k > 0 {
                    assert(found[k] == behind[k - 1]);
                    assert(behind[k - 1] == number_at(raw, 76 + 4 * ((index + 1) + (k - 1))));
                }
            }
        }
    }
}

/// The entries of a list up to the last that is in use.
proof fn lemma_trimmed(entries: Seq<u32>)
    ensures
        trimmed(entries).len() <= entries.len(),
        trimmed(entries) == entries.take(trimmed(entries).len() as int),
        forall|k: int|
            trimmed(entries).len() <= k < entries.len() ==> #[trigger] entries[k] == 0xffff_ffff,
        trimmed(entries).len() > 0 ==> entries[trimmed(entries).len() - 1] != 0xffff_ffff,
    decreases entries.len(),
{
    if entries.len() > 0 && entries.last() == 0xffff_ffff {
        let before = entries.drop_last();
        lemma_trimmed(before);
        let n = trimmed(entries).len() as int;
        assert(before.take(n) == entries.take(n));
        assert forall|k: int| n <= k < entries.len() implies #[trigger] entries[k]
            == 0xffff_ffff by {
            if k < before.len() {
                assert(before[k] == entries[k]);
            }
        }
        if n > 0 {
            assert(before[n - 1] == entries[n - 1]);
        }
    } else {
        assert(entries.take(entries.len() as int) == entries);
    }
}

/// The number of sectors behind the one that the header takes up, the last of which may be cut off.
pub open spec fn sectors_begun_in(raw: Seq<u8>) -> int {
    if raw.len() as int % bytes_in_sector(raw) == 0 {
        sectors_in(raw)
    } else {
        sectors_in(raw) + 1
    }
}

/// The number that names the `k`-th sector of the list that the header continues in: the first is
/// named by the given number, and each further one by the last number in the one before it.
pub open spec fn list_link(raw: Seq<u8>, start: int, list: Seq<u32>, k: int) -> int {
    if k == 0 {
        start
    } else {
        number_at(raw, (list[k - 1] + 1) * bytes_in_sector(raw) + bytes_in_sector(raw) - 4)
    }
}

/// Whether the list that the header continues in consists of the given sectors.
pub open spec fn is_list(raw: Seq<u8>, start: int, list: Seq<u32>) -> bool {
    &&& forall|k: int|
        0 <= k < list.len() ==> {
            &&& #[trigger] list[k] == list_link(raw, start, list, k)
            &&& list[k] < sectors_in(raw)
            &&& list[k] != 0xffff_fffe
            &&& list[k] != 0xffff_ffff
        }
    &&& list_link(raw, start, list, list.len() as int) == 0xffff_fffe || list_link(
        raw,
        start,
        list,
        list.len() as int,
    ) == 0xffff_ffff
}

/// A list that comes to an end is followed up to its end.
proof fn lemma_list(raw: Seq<u8>, start: u32, list: Seq<u32>, limit: nat)
    requires
        starts_with_header(raw),
        is_list(raw, start as int, list),
        list.len() <= limit,
    ensures
        list_sectors(raw, start, limit) == Some(list),
    decreases limit,
{
    lemma_sizes(raw);
    if list.len() > 0 {
        let behind = list.skip(1);
        let size = bytes_in_sector(raw);
        assert(list[0] == list_link(raw, start as int, list, 0));
        assert(list[0] < sectors_in(raw));
        lemma_sector(raw, start);
        lemma_number(raw, (start + 1) * size + size - 4);
        let next = u32_at(raw, (start + 1) * size + size - 4);
        assert forall|k: int| 0 <= k <= behind.len() implies list_link(
            raw,
            next as int,
            behind,
            k,
        ) == #[trigger] list_link(raw, start as int, list, k + 1) by {
            if k > 0 {
                assert(behind[k - 1] == list[k]);
            }
        }
        assert forall|k: int| 0 <= k < behind.len() implies {
            &&& #[trigger] behind[k] == list_link(raw, next as int, behind, k)
            &&& behind[k] < sectors_in(raw)
            &&& behind[k] != 0xffff_fffe
            &&& behind[k] != 0xffff_ffff
        } by {
            assert(behind[k] == list[k + 1]);
            assert(list_link(raw, next as int, behind, k) == list_link(
                raw,
                start as int,
                list,
                k + 1,
            ));
        }
        assert(list_link(raw, next as int, behind, behind.len() as int) == list_link(
            raw,
            start as int,
            list,
            behind.len() as int + 1,
        ));
        lemma_list(raw, next, behind, (limit - 1) as nat);
        assert(seq![start] + behind == list);
    } else {
        assert(list == Seq::<u32>::empty());
        assert(list_link(raw, start as int, list, 0) == start);
    }
}

/// A list that is followed up to its end consists of the sectors on the way.
proof fn lemma_followed_list(raw: Seq<u8>, start: u32, limit: nat)
    requires
        starts_with_header(raw),
    ensures
        list_sectors(raw, start, limit) matches Some(list) ==> is_list(raw, start as int, list)
            && list.len() <= limit,
    decreases limit,
{
    lemma_sizes(raw);
    let size = bytes_in_sector(raw);
    if let Some(list) = list_sectors(raw, start, limit) {
        if start == 0xffff_fffe || start == 0xffff_ffff {
            assert(list_link(raw, start as int, list, 0) == start);
        } else {
            lemma_sector(raw, start);
            lemma_number(raw, (start + 1) * size + size - 4);
            let next = u32_at(raw, (start + 1) * size + size - 4);
            lemma_followed_list(raw, next, (limit - 1) as nat);
            let behind = list_sectors(raw, next, (limit - 1) as nat)->0;
            assert(list == seq![start] + behind);
            assert forall|k: int| 0 <= k <= behind.len() implies list_link(
                raw,
                next as int,
                behind,
                k,
            ) == #[trigger] list_link(raw, start as int, list, k + 1) by {
                if k > 0 {
                    assert(behind[k - 1] == list[k]);
                }
            }
            assert forall|k: int| 0 <= k < list.len() implies {
                &&& #[trigger] list[k] == list_link(raw, start as int, list, k)
                &&& list[k] < sectors_in(raw)
                &&& list[k] != 0xffff_fffe
                &&& list[k] != 0xffff_ffff
            } by {
                if k > 0 {
                    assert(list[k] == behind[k - 1]);
                    assert(list_link(raw, start as int, list, (k - 1) + 1) == list_link(
                        raw,
                        next as int,
                        behind,
                        k - 1,
                    ));
                }
            }
            assert(list_link(raw, next as int, behind, behind.len() as int) == list_link(
                raw,
                start as int,
                list,
                behind.len() as int + 1,
            ));
        }
    }
}

/// What stands in the tables of a compound file.
pub struct Plan {
    /// The sectors in which the list in the header continues.
    pub list: Seq<u32>,
    /// The sectors that the header lists as holding the table of sectors.
    pub first: Seq<u32>,
    /// The sectors that the list lists beyond the header.
    pub further: Seq<u32>,
    /// What follows each sector.
    pub table: Seq<u32>,
    /// The sectors of the directory.
    pub directory: Seq<u32>,
    /// The entries of the directory.
    pub objects: Seq<Allocation>,
    /// The sectors that hold the table of small sectors.
    pub small_sectors: Seq<u32>,
    /// What follows each small sector.
    pub small_table: Seq<u32>,
    /// The sectors that hold the small streams.
    pub root_sectors: Seq<u32>,
}

/// Whether a table consists of the numbers in the given sectors, but no more than it has entries in
/// use.
pub open spec fn is_table(raw: Seq<u8>, ids: Seq<u32>, in_use: int, table: Seq<u32>) -> bool {
    let count = bytes_in_sector(raw) / 4;
    &&& table.len() == if ids.len() * count > in_use {
        in_use
    } else {
        ids.len() * count
    }
    &&& forall|i: int|
        0 <= i < table.len() ==> #[trigger] table[i] == number_in(raw, ids, count, i)
}

/// Whether the header lists the given sectors, up to a number that stands for no sector.
pub open spec fn is_header_list(raw: Seq<u8>, first: Seq<u32>) -> bool {
    &&& first.len() <= 109
    &&& forall|k: int|
        0 <= k < first.len() ==> #[trigger] first[k] == number_at(raw, 76 + 4 * k) && first[k]
            != 0xffff_ffff
    &&& first.len() < 109 ==> number_at(raw, 76 + 4 * (first.len() as int)) == 0xffff_ffff
}

/// Whether the list beyond the header lists the given sectors, behind which all numbers stand for
/// no sector.
pub open spec fn is_further_list(raw: Seq<u8>, list: Seq<u32>, further: Seq<u32>) -> bool {
    let count = bytes_in_sector(raw) / 4 - 1;
    &&& further.len() <= list.len() * count
    &&& forall|i: int|
        0 <= i < further.len() ==> #[trigger] further[i] == number_in(raw, list, count, i)
    &&& forall|i: int|
        further.len() <= i < list.len() * count ==> #[trigger] number_in(raw, list, count, i)
            == 0xffff_ffff
    &&& further.len() > 0 ==> further.last() != 0xffff_ffff
}

/// Whether a plan says what stands in the tables of a compound file.
pub open spec fn describes(raw: Seq<u8>, plan: Plan) -> bool {
    let fat = plan.first + plan.further;
    &&& starts_with_header(raw)
    &&& is_list(raw, number_at(raw, 68), plan.list)
    &&& plan.list.len() <= sectors_begun_in(raw)
    &&& is_header_list(raw, plan.first)
    &&& is_further_list(raw, plan.list, plan.further)
    &&& are_whole(raw, fat)
    &&& is_table(raw, fat, sectors_begun_in(raw), plan.table)
    &&& is_chain(plan.table, number_at(raw, 48) as u32, plan.directory)
    &&& plan.directory.len() <= plan.table.len()
    &&& are_whole(raw, plan.directory)
    &&& plan.objects.len() == plan.directory.len() * (bytes_in_sector(raw) / 128)
    &&& plan.objects.len() > 0
    &&& forall|i: int|
        0 <= i < plan.objects.len() ==> #[trigger] plan.objects[i] == object_at(
            raw,
            entry_at(raw, plan.directory, i),
        )
    &&& is_chain(plan.table, number_at(raw, 60) as u32, plan.small_sectors)
    &&& plan.small_sectors.len() <= plan.table.len()
    &&& are_whole(raw, plan.small_sectors)
    &&& is_table(raw, plan.small_sectors, plan.objects[0].length as int / 64, plan.small_table)
    &&& is_chain(plan.table, plan.objects[0].start, plan.root_sectors)
    &&& plan.root_sectors.len() <= plan.table.len()
}

/// The table in the given sectors is read as it is.
proof fn lemma_table(raw: Seq<u8>, ids: Seq<u32>, in_use: int, table: Seq<u32>)
    requires
        starts_with_header(raw),
        are_whole(raw, ids),
        0 <= in_use,
    ensures
        is_table(raw, ids, in_use, table) <==> used(words(raw, ids), in_use) == table,
{
    lemma_words(raw, ids);
    let found = used(words(raw, ids), in_use);
    if is_table(raw, ids, in_use, table) {
        assert forall|i: int| 0 <= i < table.len() implies found[i] == table[i] by {
            assert(words(raw, ids)[i] == table[i]);
        }
        assert(found == table);
    }
    if found == table {
        assert forall|i: int| 0 <= i < table.len() implies #[trigger] table[i] == number_in(
            raw,
            ids,
            bytes_in_sector(raw) / 4,
            i,
        ) by {
            assert(words(raw, ids)[i] == table[i]);
        }
    }
}

/// The list in the header is read as it is.
proof fn lemma_header_list(raw: Seq<u8>, first: Seq<u32>)
    requires
        raw.len() >= 512,
    ensures
        is_header_list(raw, first) <==> listed_from(raw, 0) == first,
{
    lemma_listed_from(raw, 0);
    let found = listed_from(raw, 0);
    if is_header_list(raw, first) {
        if found.len() < first.len() {
            assert(first[found.len() as int] == number_at(raw, 76 + 4 * (found.len() as int)));
        } else if first.len() < found.len() {
            assert(found[first.len() as int] == number_at(raw, 76 + 4 * (0 + first.len() as int)));
        }
        assert forall|k: int| 0 <= k < first.len() implies found[k] == first[k] by {
            assert(found[k] == number_at(raw, 76 + 4 * (0 + k)));
            assert(first[k] == number_at(raw, 76 + 4 * k));
        }
        assert(found == first);
    }
    if found == first {
        assert forall|k: int| 0 <= k < first.len() implies #[trigger] first[k] == number_at(
            raw,
            76 + 4 * k,
        ) && first[k] != 0xffff_ffff by {
            assert(found[k] == number_at(raw, 76 + 4 * (0 + k)));
        }
    }
}

/// The list beyond the header is read as it is.
proof fn lemma_further_list(raw: Seq<u8>, list: Seq<u32>, further: Seq<u32>)
    requires
        starts_with_header(raw),
        are_whole(raw, list),
    ensures
        is_further_list(raw, list, further) <==> trimmed(list_entries(raw, list)) == further,
{
    lemma_list_entries(raw, list);
    let entries = list_entries(raw, list);
    lemma_trimmed(entries);
    let found = trimmed(entries);
    let count = bytes_in_sector(raw) / 4 - 1;
    if is_further_list(raw, list, further) {
        if found.len() < further.len() {
            let last = further.len() - 1;
            assert(entries[last] == 0xffff_ffff);
            assert(further[last] == number_in(raw, list, count, last));
        } else if further.len() < found.len() {
            let last = found.len() - 1;
            assert(entries[last] == number_in(raw, list, count, last));
        }
        assert forall|k: int| 0 <= k < further.len() implies found[k] == further[k] by {
            assert(found[k] == entries[k]);
            assert(further[k] == number_in(raw, list, count, k));
        }
        assert(found == further);
    }
    if found == further {
        assert forall|i: int| 0 <= i < further.len() implies #[trigger] further[i] == number_in(
            raw,
            list,
            count,
            i,
        ) by {
            assert(found[i] == entries[i]);
        }
        assert forall|i: int|
            further.len() <= i < list.len() * count implies #[trigger] number_in(
            raw,
            list,
            count,
            i,
        ) == 0xffff_ffff by {
            assert(entries[i] == 0xffff_ffff);
        }
        if further.len() > 0 {
            assert(further.last() == entries[further.len() - 1]);
        }
    }
}

/// A chain that starts at a number, or none where the number stands for the end.
pub open spec fn start_of(number: int) -> Seq<u32> {
    if number == 0xffff_fffe {
        Seq::empty()
    } else {
        seq![number as u32]
    }
}

/// The starts of the chains of the directory, of the table of small sectors and of the small
/// streams.
pub open spec fn shared_starts(raw: Seq<u8>, plan: Plan) -> Seq<u32> {
    start_of(number_at(raw, 48)) + start_of(number_at(raw, 60)) + start_of(
        plan.objects[0].start as int,
    )
}

/// Whether the directory and the small streams with their table have sectors of their own: all
/// tables lie in sectors that are marked as such, their chains share no sector with each other, and
/// no stream starts in one of them.
pub open spec fn is_safe(raw: Seq<u8>, plan: Plan) -> bool {
    let fat = plan.first + plan.further;
    &&& plan.list.len() > 0 ==> plan.first.len() == 109
    &&& fat.no_duplicates()
    &&& forall|k: int|
        0 <= k < plan.list.len() ==> (#[trigger] plan.list[k]) < plan.table.len()
            && plan.table[plan.list[k] as int] == 0xffff_fffc
    &&& forall|k: int|
        0 <= k < fat.len() ==> (#[trigger] fat[k]) < plan.table.len() && plan.table[fat[k] as int]
            == 0xffff_fffd
    &&& plan.objects[0].kind == 5
    &&& plan.objects[0].length <= plan.root_sectors.len() * bytes_in_sector(raw)
    &&& forall|i: int|
        0 <= i < plan.objects.len() && holds_stream(#[trigger] plan.objects[i], false) ==> {
            &&& !plan.directory.contains(plan.objects[i].start)
            &&& !plan.small_sectors.contains(plan.objects[i].start)
            &&& !plan.root_sectors.contains(plan.objects[i].start)
        }
    &&& is_reached_once(plan.table, shared_starts(raw, plan))
}

/// Whether no sector is followed by one that is free.
pub open spec fn leads_to_used(table: Seq<u32>) -> bool {
    forall|k: int|
        0 <= k < table.len() && (#[trigger] table[k]) < table.len() ==> table[table[k] as int]
            != 0xffff_ffff
}

/// Whether some chain that starts at the given sector comes to an end.
pub open spec fn comes_to_end(table: Seq<u32>, start: u32) -> bool {
    exists|sectors: Seq<u32>| #[trigger]
        is_chain(table, start, sectors) && sectors.len() <= table.len()
}

/// Whether every stream has sectors of its own, and sectors that are free can be taken for others.
pub open spec fn is_apart(raw: Seq<u8>, plan: Plan) -> bool {
    let fat = plan.first + plan.further;
    let count = bytes_in_sector(raw) / 4;
    let size = fat.len() * count;
    &&& is_safe(raw, plan)
    &&& forall|index: int|
        plan.first.len() <= index < 109 ==> #[trigger] number_at(raw, 76 + 4 * index)
            == 0xffff_ffff
    &&& (forall|i: int|
        sectors_begun_in(raw) <= i < size ==> #[trigger] number_in(raw, fat, count, i)
            == 0xffff_ffff) || (exists|i: int|
        size - count <= i < sectors_begun_in(raw) && 0 <= i < size && #[trigger] number_in(
            raw,
            fat,
            count,
            i,
        ) == 0xffff_fffd)
    &&& leads_to_used(plan.table)
    &&& leads_to_used(plan.small_table)
    &&& forall|i: int|
        0 <= i < plan.objects.len() && (#[trigger] plan.objects[i]).kind == 2
            && plan.objects[i].length > 0 ==> comes_to_end(
            if plan.objects[i].length < 4096 {
                plan.small_table
            } else {
                plan.table
            },
            plan.objects[i].start,
        )
    &&& is_reached_once_with_streams(
        plan.table,
        shared_starts(raw, plan),
        plan.objects,
        false,
    )
    &&& is_reached_once_with_streams(plan.small_table, Seq::empty(), plan.objects, true)
}

/// Whether streams that are empty start nowhere.
pub open spec fn is_tidy(plan: Plan) -> bool {
    forall|i: int|
        0 <= i < plan.objects.len() && (#[trigger] plan.objects[i]).kind == 2
            && plan.objects[i].length == 0 ==> plan.objects[i].start == 0xffff_fffe
}

/// What a plan says is what is read.
proof fn lemma_plan(raw: Seq<u8>, plan: Plan)
    requires
        describes(raw, plan),
    ensures
        ({
            let fat = plan.first + plan.further;
            &&& has_header(raw)
            &&& list_sectors(raw, u32_at(raw, 68), sector_count(raw) as nat) == Some(plan.list)
            &&& listed_from(raw, 0) == plan.first
            &&& listed(raw, plan.list) == fat
            &&& used(words(raw, fat), sector_count(raw)) == plan.table
            &&& are_sectors(raw, fat)
            &&& are_sectors(raw, plan.directory)
            &&& are_sectors(raw, plan.small_sectors)
            &&& chain(plan.table, u32_at(raw, 48), plan.table.len()) == Some(plan.directory)
            &&& chain(plan.table, u32_at(raw, 60), plan.table.len()) == Some(plan.small_sectors)
            &&& allocations(raw, plan.directory) == plan.objects
            &&& chain(plan.table, plan.objects[0].start, plan.table.len()) == Some(
                plan.root_sectors,
            )
            &&& used(
                words(raw, plan.small_sectors),
                (plan.objects[0].length / 64) as int,
            ) == plan.small_table
            &&& u32_at(raw, 48) == number_at(raw, 48)
            &&& u32_at(raw, 60) == number_at(raw, 60)
            &&& sector_size(raw) == bytes_in_sector(raw)
            &&& sector_count(raw) == sectors_begun_in(raw)
        }),
{
    let fat = plan.first + plan.further;
    lemma_sizes(raw);
    lemma_number(raw, 68);
    lemma_number(raw, 48);
    lemma_number(raw, 60);
    assert(sectors_begun_in(raw) >= 0);
    lemma_list(raw, u32_at(raw, 68), plan.list, sector_count(raw) as nat);
    lemma_header_list(raw, plan.first);
    lemma_further_list(raw, plan.list, plan.further);
    lemma_table(raw, fat, sectors_begun_in(raw), plan.table);
    lemma_chain_is_followed(plan.table, u32_at(raw, 48), plan.directory);
    lemma_chain_is_followed(plan.table, u32_at(raw, 60), plan.small_sectors);
    lemma_allocations(raw, plan.directory);
    assert(allocations(raw, plan.directory) == plan.objects);
    lemma_chain_is_followed(plan.table, plan.objects[0].start, plan.root_sectors);
    lemma_table(
        raw,
        plan.small_sectors,
        plan.objects[0].length as int / 64,
        plan.small_table,
    );
}

/// A part of a layout is safe if and only if the plan of it is.
proof fn lemma_safe_chains(raw: Seq<u8>, plan: Plan)
    requires
        describes(raw, plan),
    ensures
        chains_are_safe(raw, plan.table, plan.directory, plan.small_sectors) <==> {
            &&& plan.objects[0].kind == 5
            &&& plan.objects[0].length <= plan.root_sectors.len() * bytes_in_sector(raw)
            &&& forall|i: int|
                0 <= i < plan.objects.len() && holds_stream(#[trigger] plan.objects[i], false) ==> {
                    &&& !plan.directory.contains(plan.objects[i].start)
                    &&& !plan.small_sectors.contains(plan.objects[i].start)
                    &&& !plan.root_sectors.contains(plan.objects[i].start)
                }
            &&& is_reached_once(plan.table, shared_starts(raw, plan))
        },
{
    lemma_plan(raw, plan);
    let heads = shared_starts(raw, plan);
    let ids = plan.directory + plan.small_sectors + plan.root_sectors;
    assert(heads == head(u32_at(raw, 48)) + head(u32_at(raw, 60)) + head(plan.objects[0].start));
    lemma_chains_are_apart(plan.table, heads);
    assert forall|start: u32| #[trigger] ids.contains(start) <==> plan.directory.contains(start)
        || plan.small_sectors.contains(start) || plan.root_sectors.contains(start) by {
        lemma_joined_contains(plan.directory, plan.small_sectors, start);
        lemma_joined_contains(plan.directory + plan.small_sectors, plan.root_sectors, start);
    }
    assert forall|i: int| 0 <= i < plan.objects.len() implies is_stream(
        #[trigger] plan.objects[i],
        false,
    ) == holds_stream(plan.objects[i], false) by {}
    assert(streams_start_outside(plan.objects, ids) <==> forall|i: int|
        0 <= i < plan.objects.len() && holds_stream(#[trigger] plan.objects[i], false) ==> {
            &&& !plan.directory.contains(plan.objects[i].start)
            &&& !plan.small_sectors.contains(plan.objects[i].start)
            &&& !plan.root_sectors.contains(plan.objects[i].start)
        });
}

/// What two sequences joined contain.
proof fn lemma_joined_contains(a: Seq<u32>, b: Seq<u32>, id: u32)
    ensures
        (a + b).contains(id) <==> a.contains(id) || b.contains(id),
{
    let all = a + b;
    if a.contains(id) {
        let k = choose|k: int| 0 <= k < a.len() && a[k] == id;
        assert(all[k] == id);
    }
    if b.contains(id) {
        let k = choose|k: int| 0 <= k < b.len() && b[k] == id;
        assert(all[a.len() + k] == id);
    }
    if all.contains(id) {
        let k = choose|k: int| 0 <= k < all.len() && all[k] == id;
        if k < a.len() {
            assert(a[k] == id);
        } else {
            assert(b[k - a.len()] == id);
        }
    }
}

/// The streams are sound if and only if the plan says so.
proof fn lemma_sound_streams(raw: Seq<u8>, plan: Plan)
    requires
        describes(raw, plan),
    ensures
        streams_are_sound(raw, plan.table, plan.directory, plan.small_sectors) <==> {
            &&& leads_to_used(plan.table)
            &&& leads_to_used(plan.small_table)
            &&& forall|i: int|
                0 <= i < plan.objects.len() && (#[trigger] plan.objects[i]).kind == 2
                    && plan.objects[i].length > 0 ==> comes_to_end(
                    if plan.objects[i].length < 4096 {
                        plan.small_table
                    } else {
                        plan.table
                    },
                    plan.objects[i].start,
                )
            &&& is_reached_once_with_streams(
                plan.table,
                shared_starts(raw, plan),
                plan.objects,
                false,
            )
            &&& is_reached_once_with_streams(plan.small_table, Seq::empty(), plan.objects, true)
        },
{
    lemma_plan(raw, plan);
    let heads = shared_starts(raw, plan);
    assert(heads == head(u32_at(raw, 48)) + head(u32_at(raw, 60)) + head(plan.objects[0].start));
    lemma_streams_are_apart(plan.table, heads, plan.objects, false);
    lemma_streams_are_apart(plan.small_table, Seq::empty(), plan.objects, true);
    assert(Seq::<u32>::empty() + stream_heads(plan.objects, true) == stream_heads(
        plan.objects,
        true,
    ));
    assert forall|table: Seq<u32>, start: u32| #[trigger]
        comes_to_end(table, start) <==> starts_chain(table, start) by {
        lemma_followed_chain(table, start, table.len());
        if comes_to_end(table, start) {
            let sectors = choose|sectors: Seq<u32>| #[trigger]
                is_chain(table, start, sectors) && sectors.len() <= table.len();
            lemma_chain(table, start, sectors, table.len());
        }
    }
    assert forall|i: int|
        0 <= i < plan.objects.len() && (#[trigger] plan.objects[i]).kind == 2
            && plan.objects[i].length > 0 implies comes_to_end(
        if plan.objects[i].length < 4096 {
            plan.small_table
        } else {
            plan.table
        },
        plan.objects[i].start,
    ) == (if plan.objects[i].length < 4096 {
        starts_chain(plan.small_table, plan.objects[i].start)
    } else {
        starts_chain(plan.table, plan.objects[i].start)
    }) by {}
}

/// The table of sectors can be extended if and only if nothing stands behind the part that is in
/// use, or its last sector is needed.
proof fn lemma_extension(raw: Seq<u8>, plan: Plan)
    requires
        describes(raw, plan),
    ensures
        ({
            let fat = plan.first + plan.further;
            let count = bytes_in_sector(raw) / 4;
            let size = fat.len() * count;
            can_be_extended(raw, words(raw, fat)) <==> (forall|i: int|
                sectors_begun_in(raw) <= i < size ==> #[trigger] number_in(raw, fat, count, i)
                    == 0xffff_ffff) || (exists|i: int|
                size - count <= i < sectors_begun_in(raw) && 0 <= i < size && #[trigger] number_in(
                    raw,
                    fat,
                    count,
                    i,
                ) == 0xffff_fffd)
        }),
{
    let fat = plan.first + plan.further;
    let count = bytes_in_sector(raw) / 4;
    let size = fat.len() * count;
    let all = words(raw, fat);
    lemma_plan(raw, plan);
    lemma_words(raw, fat);
    assert(is_free_behind(all, sector_count(raw)) <==> forall|i: int|
        sectors_begun_in(raw) <= i < size ==> #[trigger] number_in(raw, fat, count, i)
            == 0xffff_ffff) by {
        if is_free_behind(all, sector_count(raw)) {
            assert forall|i: int| sectors_begun_in(raw) <= i < size implies #[trigger] number_in(
                raw,
                fat,
                count,
                i,
            ) == 0xffff_ffff by {
                assert(all[i] == 0xffff_ffff);
            }
        }
    }
    let (start, end) = (size - count, sectors_begun_in(raw));
    assert(is_marked_from(all, start, end) <==> exists|i: int|
        size - count <= i < sectors_begun_in(raw) && 0 <= i < size && #[trigger] number_in(
            raw,
            fat,
            count,
            i,
        ) == 0xffff_fffd) by {
        if is_marked_from(all, start, end) {
            let i = choose|i: int|
                start <= i < end && 0 <= i < all.len() && #[trigger] all[i] == 0xffff_fffd;
            assert(number_in(raw, fat, count, i) == 0xffff_fffd);
        }
        if exists|i: int|
            size - count <= i < sectors_begun_in(raw) && 0 <= i < size && #[trigger] number_in(
                raw,
                fat,
                count,
                i,
            ) == 0xffff_fffd {
            let i = choose|i: int|
                size - count <= i < sectors_begun_in(raw) && 0 <= i < size && #[trigger] number_in(
                    raw,
                    fat,
                    count,
                    i,
                ) == 0xffff_fffd;
            assert(all[i] == 0xffff_fffd);
        }
    }
}

/// The layout of a compound file is what the plan of it is: safe, apart or tidy.
pub proof fn lemma_layout_is_as_planned(raw: Seq<u8>, plan: Plan)
    requires
        describes(raw, plan),
    ensures
        layout_is_safe(raw) <==> is_safe(raw, plan),
        layout_is_apart(raw) <==> is_apart(raw, plan),
        layout_is_tidy(raw) <==> is_safe(raw, plan) && is_tidy(plan),
{
    reveal(layout_is_safe);
    reveal(layout_is_apart);
    reveal(layout_is_tidy);
    lemma_plan(raw, plan);
    lemma_safe_chains(raw, plan);
    lemma_sound_streams(raw, plan);
    lemma_extension(raw, plan);
    lemma_list_end(raw, plan);
    let fat = plan.first + plan.further;
    assert(lists_fit(raw, plan.list, Demand::Safe) <==> is_safe(raw, plan));
    assert(lists_fit(raw, plan.list, Demand::Tidy) <==> is_safe(raw, plan) && is_tidy(plan));
    assert(lists_fit(raw, plan.list, Demand::Apart) <==> is_apart(raw, plan));
}

/// The list in the header has nothing behind its end if and only if all numbers there are free.
proof fn lemma_list_end(raw: Seq<u8>, plan: Plan)
    requires
        describes(raw, plan),
    ensures
        list_ends(raw) <==> forall|index: int|
            plan.first.len() <= index < 109 ==> #[trigger] number_at(raw, 76 + 4 * index)
                == 0xffff_ffff,
{
    lemma_plan(raw, plan);
    assert forall|index: int| 0 <= index < 109 implies u32_at(raw, 76 + 4 * index)
        == #[trigger] number_at(raw, 76 + 4 * index) by {
        lemma_number(raw, 76 + 4 * index);
    }
    if forall|index: int|
        plan.first.len() <= index < 109 ==> #[trigger] number_at(raw, 76 + 4 * index)
            == 0xffff_ffff {
        assert forall|index: int|
            listed_from(raw, 0).len() <= index < 109 implies #[trigger] u32_at(
            raw,
            76 + 4 * index,
        ) == 0xffff_ffff by {
            assert(number_at(raw, 76 + 4 * index) == 0xffff_ffff);
        }
    }
    if list_ends(raw) {
        assert forall|index: int| plan.first.len() <= index < 109 implies #[trigger] number_at(
            raw,
            76 + 4 * index,
        ) == 0xffff_ffff by {
            assert(u32_at(raw, 76 + 4 * index) == 0xffff_ffff);
        }
    }
}

/// There is a plan of every compound file whose layout is safe.
pub proof fn lemma_safe_layout_has_plan(raw: Seq<u8>)
    requires
        layout_is_safe(raw),
    ensures
        exists|plan: Plan| describes(raw, plan),
{
    reveal(layout_is_safe);
    lemma_sizes(raw);
    lemma_number(raw, 68);
    lemma_number(raw, 48);
    lemma_number(raw, 60);
    let list = list_sectors(raw, u32_at(raw, 68), sector_count(raw) as nat)->0;
    lemma_followed_list(raw, u32_at(raw, 68), sector_count(raw) as nat);
    let first = listed_from(raw, 0);
    let further = trimmed(list_entries(raw, list));
    let fat = listed(raw, list);
    lemma_header_list(raw, first);
    assert(are_whole(raw, list));
    lemma_further_list(raw, list, further);
    let table = used(words(raw, fat), sector_count(raw));
    lemma_table(raw, fat, sectors_begun_in(raw), table);
    let directory = chain(table, u32_at(raw, 48), table.len())->0;
    let small_sectors = chain(table, u32_at(raw, 60), table.len())->0;
    lemma_followed_chain(table, u32_at(raw, 48), table.len());
    lemma_followed_chain(table, u32_at(raw, 60), table.len());
    let objects = allocations(raw, directory);
    lemma_allocations(raw, directory);
    let small_table = used(words(raw, small_sectors), objects[0].length as int / 64);
    lemma_table(raw, small_sectors, objects[0].length as int / 64, small_table);
    let root_sectors = chain(table, objects[0].start, table.len())->0;
    lemma_followed_chain(table, objects[0].start, table.len());
    let plan = Plan {
        list,
        first,
        further,
        table,
        directory,
        objects,
        small_sectors,
        small_table,
        root_sectors,
    };
    assert(describes(raw, plan));
}

} // verus!
